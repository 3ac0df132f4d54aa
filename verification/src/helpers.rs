//! Helper functions shared by the rest of the library.

use vstd::prelude::*;

use crate::helpers::fs::{index_path_parent, parent_path};
use crate::interop::{
    format_moment, moment_text, parse_moment, parsed_moment, supported_secs, valid_offset,
};
use crate::moments::{valid_moment, Timestamp};
use crate::numerals::{
    all_digits, be16, be32, be32_bytes, digit_value, lemma_numeral, numeral, numeral_of, put_be32,
    zero_padded,
};
use crate::text::{
    after_last, chars_of, contains_text, ends_with, find_after_last, is_white, lemma_after_last_is,
    lines_of, same_text, split_lines, string_of, text_contains, text_ends_with, texts, trim,
    trim_chars, trim_start, trim_text,
};

pub mod fs;
pub mod laws;

verus! {

broadcast use vstd::string::group_string_axioms;

/// The four bytes at an index, as a big-endian number.
pub fn u32_from_be_bytes_unchecked(data: &[u8], start_idx: usize) -> (r: u32)
    requires
        start_idx + 4 <= data@.len(),
    ensures
        r == be32(
            data@[start_idx as int],
            data@[start_idx + 1],
            data@[start_idx + 2],
            data@[start_idx + 3],
        ),
{
    let n: usize = data.len();
    let b0: u32 = data[start_idx] as u32;
    let b1: u32 = data[start_idx + 1] as u32;
    let b2: u32 = data[start_idx + 2] as u32;
    let b3: u32 = data[start_idx + 3] as u32;
    b0 * 0x100_0000 + b1 * 0x1_0000 + b2 * 0x100 + b3
}

/// The two bytes at an index, as a big-endian number.
pub fn u16_from_be_bytes_unchecked(data: &[u8], start_idx: usize) -> (r: u16)
    requires
        start_idx + 2 <= data@.len(),
    ensures
        r == be16(data@[start_idx as int], data@[start_idx + 1]),
{
    let n: usize = data.len();
    let b0: u16 = data[start_idx] as u16;
    let b1: u16 = data[start_idx + 1] as u16;
    b0 * 0x100 + b1
}

/// A moment as eight bytes: the low 32 bits of the seconds since 1970, then the nanoseconds.
pub open spec fn moment_bytes(t: Timestamp) -> Seq<u8> {
    be32_bytes(t.spec_secs() % 0x1_0000_0000) + be32_bytes(t.spec_nanos())
}

/// The eight bytes that a moment is stored as.
pub fn datetime_to_bytes(dt: &Timestamp) -> (r: Vec<u8>)
    ensures
        r@ == moment_bytes(*dt),
        r@.len() == 8,
{
    let secs: i64 = dt.timestamp();
    let mut low: i64 = secs % 0x1_0000_0000;
    if low < 0 {
        low = low + 0x1_0000_0000;
    }
    assert(low == dt.spec_secs() % 0x1_0000_0000);
    let mut out: Vec<u8> = Vec::new();
    put_be32(&mut out, low as u32);
    put_be32(&mut out, dt.timestamp_subsec_nanos());
    assert(out@ =~= moment_bytes(*dt));
    out
}

/// A map from texts to vectors, in the order in which the keys came.
pub struct MapOfVecs<T> {
    keys: Vec<String>,
    values: Vec<Vec<T>>,
}

/// The index of a key, or the number of keys where it is not among them.
pub open spec fn key_index(keys: Seq<Seq<char>>, k: Seq<char>) -> int {
    crate::text::first_index(keys, k, 0)
}

impl<T> MapOfVecs<T> {
    /// The keys, in the order in which they came.
    pub closed spec fn spec_keys(self) -> Seq<Seq<char>> {
        texts(self.keys@)
    }

    closed spec fn spec_values(self) -> Seq<Seq<T>> {
        Seq::new(self.values@.len(), |i: int| self.values@[i]@)
    }

    /// No key occurs twice, and each has one vector.
    pub closed spec fn wf(self) -> bool {
        &&& self.keys@.len() == self.values@.len()
        &&& self.spec_keys().no_duplicates()
    }

    /// The vector of each key.
    pub closed spec fn view(self) -> Map<Seq<char>, Seq<T>> {
        Map::new(
            |k: Seq<char>| self.spec_keys().contains(k),
            |k: Seq<char>| self.spec_values()[key_index(self.spec_keys(), k)],
        )
    }

    /// The keys are those of the map, each once.
    pub proof fn lemma_keys(self)
        requires
            self.wf(),
        ensures
            self.spec_keys().no_duplicates(),
            forall|k: Seq<char>| #[trigger]
                self.spec_keys().contains(k) <==> self@.contains_key(k),
    {
    }

    proof fn lemma_view_at(self, i: int)
        requires
            self.wf(),
            0 <= i < self.keys@.len(),
        ensures
            self@.contains_key(self.keys@[i]@),
            self@[self.keys@[i]@] == self.values@[i]@,
    {
        let k = self.keys@[i]@;
        assert(self.spec_keys()[i] == k);
        assert forall|j: int| 0 <= j < i implies self.spec_keys()[j] != k by {}
        crate::text::lemma_first_index_is(self.spec_keys(), k, 0, i);
    }

    /// A map without keys.
    pub fn new() -> (r: Self)
        ensures
            r.wf(),
            r@ == Map::<Seq<char>, Seq<T>>::empty(),
            r.spec_keys() == Seq::<Seq<char>>::empty(),
    {
        let r = MapOfVecs { keys: Vec::new(), values: Vec::new() };
        assert(r.spec_keys() =~= Seq::<Seq<char>>::empty());
        assert(r@ =~= Map::<Seq<char>, Seq<T>>::empty());
        r
    }

    fn find(&self, k: &str) -> (r: Option<usize>)
        requires
            self.wf(),
        ensures
            r matches Some(i) ==> i < self.keys@.len() && self.keys@[i as int]@ == k@
                && self@.contains_key(k@) && self@[k@] == self.values@[i as int]@,
            r is None ==> !self@.contains_key(k@),
    {
        let mut i: usize = 0;
        while i < self.keys.len()
            invariant
                self.wf(),
                i <= self.keys@.len(),
                forall|j: int| 0 <= j < i ==> self.keys@[j]@ != k@,
            decreases self.keys@.len() - i,
        {
            if same_text(self.keys[i].as_str(), k) {
                proof {
                    self.lemma_view_at(i as int);
                }
                return Some(i);
            }
            i = i + 1;
        }
        assert(!self.spec_keys().contains(k@)) by {
            if self.spec_keys().contains(k@) {
                let j = choose|j: int|
                    0 <= j < self.spec_keys().len() && self.spec_keys()[j] == k@;
                assert(self.keys@[j]@ == k@);
            }
        }
        None
    }

    /// Whether a key is in the map.
    pub fn contains_key(&self, k: &str) -> (r: bool)
        requires
            self.wf(),
        ensures
            r == self@.contains_key(k@),
    {
        match self.find(k) {
            Some(_) => true,
            None => false,
        }
    }

    /// The vector of a key.
    pub fn get(&self, k: &str) -> (r: Option<&Vec<T>>)
        requires
            self.wf(),
        ensures
            r is Some <==> self@.contains_key(k@),
            r matches Some(v) ==> v@ == self@[k@],
    {
        match self.find(k) {
            Some(i) => Some(&self.values[i]),
            None => None,
        }
    }

    /// The number of keys.
    pub fn len(&self) -> (r: usize)
        requires
            self.wf(),
        ensures
            r == self.spec_keys().len(),
    {
        self.keys.len()
    }

    /// The key that came at the given place.
    pub fn key_at(&self, i: usize) -> (r: &str)
        requires
            self.wf(),
            i < self.spec_keys().len(),
        ensures
            r@ == self.spec_keys()[i as int],
            self@.contains_key(r@),
    {
        proof {
            self.lemma_view_at(i as int);
        }
        self.keys[i].as_str()
    }

    /// Gives a key that is not in the map a vector; leaves the vector of one that is.
    pub fn insert_missing(&mut self, k: &str, v: Vec<T>)
        requires
            old(self).wf(),
        ensures
            final(self).wf(),
            final(self)@ == if old(self)@.contains_key(k@) {
                old(self)@
            } else {
                old(self)@.insert(k@, v@)
            },
            final(self).spec_keys() == if old(self)@.contains_key(k@) {
                old(self).spec_keys()
            } else {
                old(self).spec_keys().push(k@)
            },
    {
        if self.contains_key(k) {
            return;
        }
        let ghost before = *self;
        self.keys.push(k.to_string());
        self.values.push(v);
        proof {
            assert(self.spec_keys() =~= before.spec_keys().push(k@));
            assert(!before.spec_keys().contains(k@));
            assert forall|i: int, j: int|
                0 <= i < j < self.spec_keys().len() implies self.spec_keys()[i]
                != self.spec_keys()[j] by {
                if j == before.spec_keys().len() {
                    assert(before.spec_keys()[i] == self.spec_keys()[i]);
                }
            }
            assert(self.wf());
            let n = before.keys@.len() as int;
            assert(self.keys@[n]@ == k@);
            assert forall|x: Seq<char>| self@.contains_key(x) <==> #[trigger] before@.insert(
                k@,
                v@,
            ).contains_key(x) by {
                if self.spec_keys().contains(x) {
                    let j = choose|j: int|
                        0 <= j < self.spec_keys().len() && self.spec_keys()[j] == x;
                    if j < n {
                        assert(before.spec_keys()[j] == x);
                    }
                }
                if before.spec_keys().contains(x) {
                    let j = choose|j: int|
                        0 <= j < before.spec_keys().len() && before.spec_keys()[j] == x;
                    assert(self.spec_keys()[j] == x);
                }
                if x == k@ {
                    assert(self.spec_keys()[n] == x);
                }
            }
            assert forall|x: Seq<char>| #[trigger] self@.contains_key(x) implies self@[x]
                == before@.insert(k@, v@)[x] by {
                let j = choose|j: int| 0 <= j < self.spec_keys().len() && self.spec_keys()[j] == x;
                self.lemma_view_at(j);
                if j < n {
                    assert(before.spec_keys()[j] == x);
                    before.lemma_view_at(j);
                }
            }
            assert(self@ =~= before@.insert(k@, v@));
        }
    }

    /// Adds a value to the vector of a key that is in the map.
    fn push_at(&mut self, i: usize, v: T)
        requires
            old(self).wf(),
            i < old(self).keys@.len(),
        ensures
            final(self).wf(),
            final(self)@ == old(self)@.insert(
                old(self).keys@[i as int]@,
                old(self)@[old(self).keys@[i as int]@].push(v),
            ),
            final(self).spec_keys() == old(self).spec_keys(),
    {
        let ghost before = *self;
        self.values[i].push(v);
        proof {
            let k = before.keys@[i as int]@;
            before.lemma_view_at(i as int);
            assert(self.keys@ == before.keys@);
            assert forall|x: Seq<char>| #[trigger] self@.contains_key(x) implies self@[x]
                == before@.insert(k, before@[k].push(v))[x] by {
                let j = choose|j: int| 0 <= j < self.spec_keys().len() && self.spec_keys()[j] == x;
                self.lemma_view_at(j);
                before.lemma_view_at(j);
                if j != i {
                    assert(before.spec_keys()[j] != before.spec_keys()[i as int]);
                }
            }
            assert(self@ =~= before@.insert(k, before@[k].push(v)));
        }
    }
}

/// A map with a value added at the end of the vector of a key.
pub open spec fn with_value<T>(
    map: Map<Seq<char>, Seq<T>>,
    k: Seq<char>,
    v: T,
) -> Map<Seq<char>, Seq<T>> {
    let vector = if map.contains_key(k) {
        map[k]
    } else {
        Seq::empty()
    };
    map.insert(k, vector.push(v))
}

/// Adds a value to the vector of a key, which is new where the key was not in the map.
pub fn add_to_map_of_vecs<T>(map: &mut MapOfVecs<T>, k: &str, v: T)
    requires
        old(map).wf(),
    ensures
        final(map).wf(),
        final(map)@ == with_value(old(map)@, k@, v),
        final(map).spec_keys() == if old(map)@.contains_key(k@) {
            old(map).spec_keys()
        } else {
            old(map).spec_keys().push(k@)
        },
{
    let ghost before = map@;
    map.insert_missing(k, Vec::new());
    if let Some(i) = map.find(k) {
        map.push_at(i, v);
        assert(map@ =~= with_value(before, k@, v));
    }
}

/// A path, its parent, the parent's parent and so on to the empty path.
pub open spec fn dir_chain(path: Seq<char>) -> Seq<Seq<char>>
    decreases path.len(),
{
    if path.len() == 0 {
        seq![path]
    } else {
        seq![path] + dir_chain(parent_path(path))
    }
}

/// A map with an empty vector for each key of a list that it does not hold.
pub open spec fn with_keys<T>(map: Map<Seq<char>, Seq<T>>, keys: Seq<Seq<char>>) -> Map<
    Seq<char>,
    Seq<T>,
>
    decreases keys.len(),
{
    if keys.len() == 0 {
        map
    } else {
        with_keys(
            if map.contains_key(keys[0]) {
                map
            } else {
                map.insert(keys[0], Seq::empty())
            },
            keys.drop_first(),
        )
    }
}

/// A list of keys with those of another list added that it does not hold.
pub open spec fn plus_missing(keys: Seq<Seq<char>>, more: Seq<Seq<char>>) -> Seq<Seq<char>>
    decreases more.len(),
{
    if more.len() == 0 {
        keys
    } else {
        plus_missing(
            if keys.contains(more[0]) {
                keys
            } else {
                keys.push(more[0])
            },
            more.drop_first(),
        )
    }
}

/// What [`with_keys`] holds: the keys of the map and of the list, with the map's own vector
/// for the former and an empty one for the rest.
pub proof fn lemma_with_keys<T>(map: Map<Seq<char>, Seq<T>>, keys: Seq<Seq<char>>)
    ensures
        forall|k: Seq<char>|
            #[trigger] with_keys(map, keys).contains_key(k) <==> map.contains_key(k)
                || keys.contains(k),
        forall|k: Seq<char>|
            #[trigger] with_keys(map, keys).contains_key(k) ==> with_keys(map, keys)[k]
                == if map.contains_key(k) {
                map[k]
            } else {
                Seq::empty()
            },
    decreases keys.len(),
{
    if keys.len() > 0 {
        let m = if map.contains_key(keys[0]) {
            map
        } else {
            map.insert(keys[0], Seq::empty())
        };
        let rest = keys.drop_first();
        lemma_with_keys(m, rest);
        assert(with_keys(map, keys) == with_keys(m, rest));
        assert forall|k: Seq<char>| keys.contains(k) <==> k == keys[0] || rest.contains(k) by {
            if keys.contains(k) {
                let j = choose|j: int| 0 <= j < keys.len() && keys[j] == k;
                if j > 0 {
                    assert(rest[j - 1] == k);
                }
            }
            if rest.contains(k) {
                let j = choose|j: int| 0 <= j < rest.len() && rest[j] == k;
                assert(keys[j + 1] == k);
            }
        }
    }
}

/// Adds a path and every directory above it, down to the empty path, as keys with empty
/// vectors where they are not in the map.
pub fn add_parent_dirs_to_map_of_vecs<T>(map: &mut MapOfVecs<T>, path: &str)
    requires
        old(map).wf(),
    ensures
        final(map).wf(),
        final(map)@ == with_keys(old(map)@, dir_chain(path@)),
        final(map).spec_keys() == plus_missing(old(map).spec_keys(), dir_chain(path@)),
{
    let mut shrunk_path: &str = path;
    let ghost start = map@;
    let ghost start_keys = map.spec_keys();
    loop
        invariant
            map.wf(),
            start == old(map)@,
            start_keys == old(map).spec_keys(),
            with_keys(start, dir_chain(path@)) == with_keys(map@, dir_chain(shrunk_path@)),
            plus_missing(start_keys, dir_chain(path@)) == plus_missing(
                map.spec_keys(),
                dir_chain(shrunk_path@),
            ),
        decreases shrunk_path@.len(),
    {
        let ghost chain = dir_chain(shrunk_path@);
        let ghost before = map@;
        let ghost before_keys = map.spec_keys();
        map.insert_missing(shrunk_path, Vec::new());
        assert(plus_missing(map.spec_keys(), chain.drop_first()) == plus_missing(
            before_keys,
            chain,
        ));
        assert(map@ =~= if before.contains_key(chain[0]) {
            before
        } else {
            before.insert(chain[0], Seq::empty())
        });
        assert(with_keys(map@, chain.drop_first()) == with_keys(before, chain));
        if shrunk_path.is_empty() {
            assert(chain.drop_first() =~= Seq::<Seq<char>>::empty());
            assert(with_keys(map@, chain.drop_first()) == map@);
            assert(plus_missing(map.spec_keys(), chain.drop_first()) == map.spec_keys());
            return;
        }
        assert(chain.drop_first() =~= dir_chain(parent_path(shrunk_path@)));
        shrunk_path = index_path_parent(shrunk_path);
    }
}

/// A name followed by a moment, as commits, tags and ref logs record it.
pub open spec fn timestamped(name: Seq<char>, secs: int, offset: int) -> Seq<char> {
    name + seq![' '] + moment_text(secs, offset)
}

/// A name followed by the seconds since 1970 and the offset from UTC of a moment.
pub fn timestamped_name(name: &str, timestamp: &Timestamp) -> (r: String)
    ensures
        r@ == timestamped(name@, timestamp.spec_secs(), timestamp.spec_offset()),
{
    let secs: i64 = timestamp.timestamp();
    let offset: i32 = timestamp.offset();
    let moment = format_moment(secs, offset);
    let mut out = String::new();
    out.append(name);
    out.push(' ');
    out.append(moment.as_str());
    assert(out@ =~= timestamped(name@, timestamp.spec_secs(), timestamp.spec_offset()));
    out
}

/// Why a moment could not be read from the end of a name.
#[derive(Clone, Copy, Debug, PartialEq, Eq, Structural)]
pub enum TimestampError {
    /// The text holds no space.
    NoSpaces,
    /// The text holds only one space.
    OneSpace,
    /// What follows the name is not a moment.
    Unparseable,
}

/// The index of the last space but one of a text, or -1 where there are fewer than two.
pub open spec fn last_space_but_one(s: Seq<char>) -> int {
    let last = after_last(s, ' ') - 1;
    if last < 0 {
        -1
    } else {
        after_last(s.take(last), ' ') - 1
    }
}

/// What [`timestamp_from_timestamped_name`] reads from a text.
pub open spec fn read_timestamp(name: Seq<char>) -> Result<(int, int), TimestampError> {
    let input = trim(name);
    if after_last(input, ' ') == 0 {
        Err(TimestampError::NoSpaces)
    } else if last_space_but_one(input) < 0 {
        Err(TimestampError::OneSpace)
    } else {
        match parsed_moment(input.skip(last_space_but_one(input))) {
            Some((secs, offset)) => if valid_moment(secs as int, 0, offset as int) {
                Ok((secs as int, offset as int))
            } else {
                Err(TimestampError::Unparseable)
            },
            None => Err(TimestampError::Unparseable),
        }
    }
}

/// Whether a moment is one whose written form is read back: one since 1970 whose offset is a
/// whole number of minutes.
pub open spec fn readable_moment(secs: int, offset: int) -> bool {
    &&& 0 <= secs
    &&& supported_secs(secs)
    &&& supported_secs(secs + offset)
    &&& valid_offset(offset)
    &&& offset % 60 == 0
}

proof fn lemma_trim_start_concat(a: Seq<char>, b: Seq<char>)
    requires
        trim_start(a).len() > 0,
    ensures
        trim_start(a + b) == trim_start(a) + b,
    decreases a.len(),
{
    if a.len() > 0 {
        assert((a + b)[0] == a[0]);
        if is_white(a[0]) {
            assert((a + b).drop_first() =~= a.drop_first() + b);
            lemma_trim_start_concat(a.drop_first(), b);
        }
    }
}

proof fn lemma_digits_not_white(s: Seq<char>)
    requires
        all_digits(s, 10),
    ensures
        forall|i: int| 0 <= i < s.len() ==> !is_white(#[trigger] s[i]) && s[i] != ' ',
{
    assert forall|i: int| 0 <= i < s.len() implies !is_white(#[trigger] s[i]) && s[i] != ' ' by {
        assert(digit_value(s[i]) < 10);
    }
}

/// A moment's text holds one space, which stands behind the seconds, and ends in a digit.
proof fn lemma_moment_text(secs: int, offset: int)
    requires
        readable_moment(secs, offset),
    ensures
        ({
            let m = moment_text(secs, offset);
            let n = numeral(secs as nat, 10).len() as int;
            &&& 0 < n < m.len() - 1
            &&& m[n] == ' '
            &&& forall|i: int| 0 <= i < m.len() && i != n ==> #[trigger] m[i] != ' '
            &&& !is_white(m.last())
        }),
{
    let size = if offset < 0 {
        -offset
    } else {
        offset
    };
    let minutes = (size + 30) / 60;
    let a = numeral(secs as nat, 10);
    let h = numeral((minutes / 60) as nat, 10);
    let l = numeral((minutes % 60) as nat, 10);
    lemma_numeral(secs as nat, 10);
    lemma_numeral((minutes / 60) as nat, 10);
    lemma_numeral((minutes % 60) as nat, 10);
    lemma_digits_not_white(a);
    lemma_digits_not_white(h);
    lemma_digits_not_white(l);
    let hp = zero_padded(h, 2);
    let lp = zero_padded(l, 2);
    assert forall|i: int| 0 <= i < hp.len() implies #[trigger] hp[i] != ' ' by {
        if h.len() < 2 && i >= 2 - h.len() {
            assert(hp[i] == h[i - (2 - h.len())]);
        }
    }
    assert forall|i: int| 0 <= i < lp.len() implies #[trigger] lp[i] != ' ' && !is_white(lp[i]) by {
        if l.len() < 2 && i >= 2 - l.len() {
            assert(lp[i] == l[i - (2 - l.len())]);
        }
    }
    let m = moment_text(secs, offset);
    let sign = if offset < 0 {
        '-'
    } else {
        '+'
    };
    assert(m == a + seq![' ', sign] + hp + lp);
    let n = a.len() as int;
    assert(m[n] == ' ');
    assert(m.last() == lp.last());
    assert forall|i: int| 0 <= i < m.len() && i != n implies #[trigger] m[i] != ' ' by {
        if i < n {
            assert(m[i] == a[i]);
        } else if i == n + 1 {
            assert(m[i] == sign);
        } else if i < n + 2 + hp.len() {
            assert(m[i] == hp[i - n - 2]);
        } else {
            assert(m[i] == lp[i - n - 2 - hp.len()]);
        }
    }
}

/// Where the moment starts in a name followed by a moment.
proof fn lemma_timestamped_parts(name: Seq<char>, secs: int, offset: int)
    requires
        readable_moment(secs, offset),
        trim_start(name).len() > 0,
    ensures
        ({
            let input = trim(timestamped(name, secs, offset));
            &&& after_last(input, ' ') > 0
            &&& last_space_but_one(input) >= 0
            &&& input.skip(last_space_but_one(input)) == seq![' '] + moment_text(secs, offset)
        }),
{
    let m = moment_text(secs, offset);
    let tail = seq![' '] + m;
    let t = timestamped(name, secs, offset);
    lemma_moment_text(secs, offset);
    assert(t =~= name + tail);
    lemma_trim_start_concat(name, tail);
    let front = trim_start(name);
    let input = front + tail;
    assert(input.last() == m.last());
    assert(trim(t) == input);
    let k = front.len() as int;
    let n = numeral(secs as nat, 10).len() as int;
    assert forall|j: int| k + n + 2 <= j < input.len() implies input[j] != ' ' by {
        assert(input[j] == m[j - k - 1]);
    }
    assert(input[k + 1 + n] == m[n]);
    lemma_after_last_is(input, ' ', k + n + 2);
    let head = input.take(k + n + 1);
    assert(head[k] == ' ');
    assert forall|j: int| k + 1 <= j < head.len() implies head[j] != ' ' by {
        assert(head[j] == m[j - k - 1]);
    }
    lemma_after_last_is(head, ' ', k + 1);
    assert(input.skip(k) =~= tail);
}

/// The moment at the end of a text in the form `name seconds offset`.  The moment that
/// [`timestamped_name`] wrote behind a name that is not blank is read back.
pub fn timestamp_from_timestamped_name(timestamped_name: &str) -> (r: Result<
    Timestamp,
    TimestampError,
>)
    ensures
        match r {
            Ok(t) => read_timestamp(timestamped_name@) == Ok::<(int, int), TimestampError>(
                (t.spec_secs(), t.spec_offset()),
            ) && t.spec_nanos() == 0,
            Err(e) => read_timestamp(timestamped_name@) == Err::<(int, int), TimestampError>(e),
        },
        forall|name: Seq<char>, secs: int, offset: int|
            readable_moment(secs, offset) && trim_start(name).len() > 0 && timestamped_name@
                == #[trigger] timestamped(name, secs, offset) ==> (r matches Ok(t) && t.spec_secs()
                == secs && t.spec_offset() == offset),
{
    let moment = match timestamp_start(timestamped_name) {
        Err(e) => {
            proof {
                assert forall|name: Seq<char>, secs: int, offset: int|
                    readable_moment(secs, offset) && trim_start(name).len() > 0
                        && timestamped_name@ == #[trigger] timestamped(
                        name,
                        secs,
                        offset,
                    ) implies false by {
                    lemma_timestamped_parts(name, secs, offset);
                }
            }
            return Err(e);
        },
        Ok(moment) => moment,
    };
    let parts = parse_moment(moment.as_str());
    proof {
        assert forall|name: Seq<char>, secs: int, offset: int|
            readable_moment(secs, offset) && trim_start(name).len() > 0 && timestamped_name@
                == #[trigger] timestamped(name, secs, offset) implies parts == Some(
            (secs as i64, offset as i32),
        ) by {
            lemma_timestamped_parts(name, secs, offset);
            let s64 = secs as i64;
            let o32 = offset as i32;
            assert(moment@ == seq![' '] + moment_text(s64 as int, o32 as int));
        }
    }
    timestamp_from_parts(parts)
}

/// The part of a text in the form `name seconds offset` that follows the name, from the
/// space before the seconds on.
pub fn timestamp_start(timestamped_name: &str) -> (r: Result<String, TimestampError>)
    ensures
        match r {
            Ok(s) => {
                let input = trim(timestamped_name@);
                &&& after_last(input, ' ') > 0
                &&& last_space_but_one(input) >= 0
                &&& s@ == input.skip(last_space_but_one(input))
            },
            Err(e) => if after_last(trim(timestamped_name@), ' ') == 0 {
                e == TimestampError::NoSpaces
            } else {
                e == TimestampError::OneSpace && last_space_but_one(trim(timestamped_name@)) < 0
            },
        },
{
    let cs = chars_of(timestamped_name);
    let input = trim_chars(&cs);
    let last: usize = find_after_last(input, ' ');
    if last == 0 {
        return Err(TimestampError::NoSpaces);
    }
    let front = vstd::slice::slice_subrange(input, 0, last - 1);
    assert(front@ =~= input@.take(last - 1));
    let idx: usize = find_after_last(front, ' ');
    if idx == 0 {
        return Err(TimestampError::OneSpace);
    }
    let tail = vstd::slice::slice_subrange(input, idx - 1, input.len());
    assert(tail@ =~= input@.skip(idx - 1));
    Ok(string_of(tail))
}

/// The moment that the parts read from a text make up.
pub fn timestamp_from_parts(parts: Option<(i64, i32)>) -> (r: Result<Timestamp, TimestampError>)
    ensures
        match parts {
            Some((secs, offset)) => if valid_moment(secs as int, 0, offset as int) {
                r matches Ok(t) && t.spec_secs() == secs && t.spec_offset() == offset
                    && t.spec_nanos() == 0
            } else {
                r == Err::<Timestamp, TimestampError>(TimestampError::Unparseable)
            },
            None => r == Err::<Timestamp, TimestampError>(TimestampError::Unparseable),
        },
{
    match parts {
        Some((secs, offset)) => match Timestamp::new(secs, 0, offset) {
            Some(t) => Ok(t),
            None => Err(TimestampError::Unparseable),
        },
        None => Err(TimestampError::Unparseable),
    }
}

/// The first line of a text, empty where the text is.
pub open spec fn first_line(s: Seq<char>) -> Seq<char> {
    if lines_of(s).len() == 0 {
        Seq::empty()
    } else {
        lines_of(s)[0]
    }
}

/// A prefix, a colon, and the first line of a message without white space around it.
pub fn shorten_and_prefix_message(prefix: &str, message: &str) -> (r: String)
    ensures
        r@ == prefix@ + seq![':', ' '] + trim(first_line(message@)),
{
    let cs = chars_of(message);
    let lines = split_lines(&cs);
    let mut out = String::new();
    out.append(prefix);
    out.push(':');
    out.push(' ');
    assert(out@ =~= prefix@ + seq![':', ' ']);
    if lines.len() > 0 {
        assert(texts(lines@)[0] == lines@[0]@);
        let line = trim_text(lines[0].as_str());
        out.append(line.as_str());
    } else {
        assert(texts(lines@).len() == 0);
        assert(trim(Seq::<char>::empty()) =~= Seq::<char>::empty());
        assert(out@ =~= prefix@ + seq![':', ' '] + Seq::<char>::empty());
    }
    out
}

/// `s` with a line feed at its end, which is added where it is not there.
pub open spec fn with_newline(s: Seq<char>) -> Seq<char> {
    if s.len() > 0 && s.last() == '\n' {
        s
    } else {
        s.push('\n')
    }
}

/// The text with a line feed at its end, which is added where it is not there.
pub fn append_newline_if_necessary(s: &str) -> (r: String)
    ensures
        r@ == with_newline(s@),
{
    let cs = chars_of(s);
    let mut out = s.to_string();
    if cs.len() == 0 || cs[cs.len() - 1] != '\n' {
        out.push('\n');
    }
    out
}

/// Whether a text is a legal branch or tag name.
pub open spec fn legal_ref_name(name: Seq<char>) -> bool {
    &&& !contains_text(name, "/."@)
    &&& !contains_text(name, ".."@)
    &&& !contains_text(name, " "@)
    &&& !contains_text(name, ":"@)
    &&& !contains_text(name, "~"@)
    &&& !contains_text(name, "^"@)
    &&& !contains_text(name, "?"@)
    &&& !contains_text(name, "*"@)
    &&& !contains_text(name, "["@)
    &&& !contains_text(name, "\\"@)
    &&& !ends_with(name, ".lock"@)
    &&& !ends_with(name, "/"@)
    &&& !ends_with(name, "."@)
}

/// Whether a text is a legal branch or tag name according to Git's rules.
pub fn is_ref_name_legal(name: &str) -> (r: bool)
    ensures
        r == legal_ref_name(name@),
{
    let cs = chars_of(name);
    !(text_contains(&cs, "/.") || text_contains(&cs, "..") || text_contains(&cs, " ")
        || text_contains(&cs, ":") || text_contains(&cs, "~") || text_contains(&cs, "^")
        || text_contains(&cs, "?") || text_contains(&cs, "*") || text_contains(&cs, "[")
        || text_contains(&cs, "\\") || text_ends_with(&cs, ".lock") || text_ends_with(&cs, "/")
        || text_ends_with(&cs, "."))
}

/// A printable ASCII byte as itself, any other as a backslash and its hexadecimal value.
pub open spec fn escaped_byte(b: u8) -> Seq<char> {
    if 32 <= b < 127 {
        seq![b as char]
    } else {
        seq!['\\'] + numeral(b as nat, 16)
    }
}

/// The escaped form of each byte, one after the other.
pub open spec fn escaped(bytes: Seq<u8>) -> Seq<char>
    decreases bytes.len(),
{
    if bytes.len() == 0 {
        Seq::empty()
    } else {
        escaped(bytes.drop_last()) + escaped_byte(bytes.last())
    }
}

/// The bytes as text, with what is not printable ASCII escaped.
pub fn escaped_byte_string(b: &[u8]) -> (r: String)
    ensures
        r@ == escaped(b@),
{
    let mut out = String::new();
    let mut i: usize = 0;
    assert(b@.take(0) =~= Seq::<u8>::empty());
    while i < b.len()
        invariant
            i <= b@.len(),
            out@ == escaped(b@.take(i as int)),
        decreases b@.len() - i,
    {
        let v: u8 = b[i];
        let ghost next = b@.take(i + 1);
        assert(next.drop_last() =~= b@.take(i as int));
        assert(next.last() == v);
        if v >= 32 && v < 127 {
            out.push(v as char);
        } else {
            let digits = numeral_of(v as u64, 16);
            let hex = string_of(&digits);
            out.push('\\');
            out.append(hex.as_str());
        }
        assert(out@ =~= escaped(next));
        i = i + 1;
    }
    assert(b@.take(b@.len() as int) =~= b@);
    out
}

} // verus!
