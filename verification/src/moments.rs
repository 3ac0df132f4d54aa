//! Moments in time, with the offset from UTC of the zone they were recorded in.

use vstd::prelude::*;

use crate::interop::{
    local_moment, moment_parts, supported_secs, valid_nanos, valid_offset,
};

verus! {

/// A moment in time: seconds and nanoseconds since 1970, and the offset of its zone from UTC
/// in seconds.
#[derive(Clone, Copy, Debug, PartialEq, Eq, Structural)]
pub struct Timestamp {
    pub(crate) secs: i64,
    pub(crate) nanos: u32,
    pub(crate) offset: i32,
}

/// Whether the parts of a moment are ones that a moment can have.
pub open spec fn valid_moment(secs: int, nanos: int, offset: int) -> bool {
    supported_secs(secs) && valid_nanos(secs, nanos) && valid_offset(offset)
}

impl Timestamp {
    /// The seconds since 1970.
    pub closed spec fn spec_secs(self) -> int {
        self.secs as int
    }

    /// The nanoseconds since the last whole second.
    pub closed spec fn spec_nanos(self) -> int {
        self.nanos as int
    }

    /// The offset from UTC in seconds.
    pub closed spec fn spec_offset(self) -> int {
        self.offset as int
    }

    /// Whether the parts are ones that a moment can have.
    pub open spec fn wf(self) -> bool {
        valid_moment(self.spec_secs(), self.spec_nanos(), self.spec_offset())
    }

    #[verifier::type_invariant]
    spec fn type_inv(self) -> bool {
        valid_moment(self.secs as int, self.nanos as int, self.offset as int)
    }

    /// The moment with the given parts, if there is one.
    pub fn new(secs: i64, nanos: u32, offset: i32) -> (r: Option<Timestamp>)
        ensures
            r is Some <==> valid_moment(secs as int, nanos as int, offset as int),
            r matches Some(t) ==> t.spec_secs() == secs && t.spec_nanos() == nanos
                && t.spec_offset() == offset,
    {
        if offset <= -86_400 || offset >= 86_400 {
            return None;
        }
        match moment_parts(secs, nanos) {
            Some((s, n)) => Some(Timestamp { secs: s, nanos: n, offset }),
            None => None,
        }
    }

    /// The moment with the given seconds and nanoseconds, in UTC, if there is one.
    pub fn utc(secs: i64, nanos: u32) -> (r: Option<Timestamp>)
        ensures
            r is Some <==> supported_secs(secs as int) && valid_nanos(secs as int, nanos as int),
            r matches Some(t) ==> t.spec_secs() == secs && t.spec_nanos() == nanos
                && t.spec_offset() == 0,
    {
        Timestamp::new(secs, nanos, 0)
    }

    /// The start of 1970, in UTC.
    pub fn unix_epoch() -> (r: Timestamp)
        ensures
            r.spec_secs() == 0 && r.spec_nanos() == 0 && r.spec_offset() == 0,
            r.wf(),
    {
        Timestamp { secs: 0, nanos: 0, offset: 0 }
    }

    /// The seconds since 1970.
    pub fn timestamp(&self) -> (r: i64)
        ensures
            r == self.spec_secs(),
            self.wf(),
    {
        proof {
            use_type_invariant(self);
        }
        self.secs
    }

    /// The nanoseconds since the last whole second.
    pub fn timestamp_subsec_nanos(&self) -> (r: u32)
        ensures
            r == self.spec_nanos(),
            self.wf(),
    {
        proof {
            use_type_invariant(self);
        }
        self.nanos
    }

    /// The offset from UTC in seconds.
    pub fn offset(&self) -> (r: i32)
        ensures
            r == self.spec_offset(),
            self.wf(),
    {
        proof {
            use_type_invariant(self);
        }
        self.offset
    }

    /// Whether two moments are the same point in time, whatever their zones.
    pub fn same_moment(&self, other: &Timestamp) -> (r: bool)
        ensures
            r == (self.spec_secs() == other.spec_secs() && self.spec_nanos() == other.spec_nanos()),
    {
        self.secs == other.secs && self.nanos == other.nanos
    }
}

/// The moment that a clock shows, in the zone of the clock.
pub fn moment_here(secs: i64, nanos: u32, offset: i32) -> (r: Timestamp)
    requires
        valid_moment(secs as int, nanos as int, offset as int),
    ensures
        r.wf(),
        r.spec_secs() == secs,
        r.spec_nanos() == nanos,
        r.spec_offset() == offset,
{
    Timestamp { secs, nanos, offset }
}

/// The moment that a clock shows, in UTC, whatever the zone of the clock.
pub fn moment_in_utc(secs: i64, nanos: u32, offset: i32) -> (r: Timestamp)
    requires
        valid_moment(secs as int, nanos as int, offset as int),
    ensures
        r.wf(),
        r.spec_secs() == secs,
        r.spec_nanos() == nanos,
        r.spec_offset() == 0,
{
    Timestamp { secs, nanos, offset: 0 }
}

/// The current date and time, in the local zone.
pub fn now_here() -> (r: Timestamp)
    ensures
        r.wf(),
{
    let (secs, nanos, offset): (i64, u32, i32) = local_moment();
    moment_here(secs, nanos, offset)
}

/// The current date and time, in UTC.
pub fn now() -> (r: Timestamp)
    ensures
        r.wf(),
        r.spec_offset() == 0,
{
    let (secs, nanos, offset): (i64, u32, i32) = local_moment();
    moment_in_utc(secs, nanos, offset)
}

} // verus!
