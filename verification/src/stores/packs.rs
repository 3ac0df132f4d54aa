//! Packs: many objects in one file, some of them stored as changes to others.

use vstd::prelude::*;
use vstd::slice::slice_subrange;

use crate::index::u32_at;
use crate::interop::{
    hex_encode, hex_text, sha1_digest, sha1_of, zlib_decompress, zlib_inflated, zlib_length,
};
use crate::objects::delta::{
    combine_object_delta_data, delta_applies, delta_can_apply, delta_result,
};
use crate::objects::raw::{object_name, DataView, ObjectMetadata, RawObject, RawObjectData};
use crate::objects::{KindView, ObjectKind};
use crate::repo::{store_objects, Repository};
use crate::stores::backends::{with_object, ObjectMap, ObjectStore, RefStore};
use crate::stores::tables::{object_map, ObjectTable};
use crate::text::same_text;

verus! {

broadcast use vstd::string::group_string_axioms;

/// Why a pack cannot be read.
#[derive(Clone, Copy, Debug, PartialEq, Eq, Structural)]
pub enum PackError {
    /// It does not start as a pack does, or is too short for one.
    NotAPack,
    /// Its version is not known.
    Version,
    /// It does not end with the digest of what it holds.
    Digest,
    /// What comes before the contents of an object is not valid.
    Entry,
    /// The contents of an object are not a valid stream, or not as long as they should be.
    Contents,
    /// The object that changes are to be applied to does not come before them.
    MissingBase,
    /// Changes cannot be applied to their base object.
    BadDelta,
    /// Something follows the last object.
    TooLong,
}

/// What an entry of a pack holds: an object of a kind, or changes to the object at a place or
/// with an ID.
pub enum PackBase {
    /// An object.
    Whole(KindView),
    /// Changes to the object of the entry that starts at a place.
    At(int),
    /// Changes to the object with an ID.
    Named(Seq<char>),
}

/// An object of a pack, and where its entry starts.
pub struct PackItem {
    /// Where the entry starts.
    pub offset: int,
    /// The object.
    pub object: DataView,
}

/// How many bytes a number may take besides the first.
pub const NUMBER_BYTES: u8 = 8;

/// The largest distance to a base object that can be continued.
pub const MAX_DISTANCE: u64 = 0xffff_ffff_ffff;

/// A number from its seven-bit groups, the lowest first, and where it ends.  All its bytes but
/// the last have their highest bit set.
pub open spec fn number_at(d: Seq<u8>, i: int, bytes: nat) -> Option<(int, int)>
    decreases bytes,
{
    if bytes == 0 || i < 0 || i >= d.len() {
        None
    } else if d[i] < 0x80 {
        Some((d[i] as int, i + 1))
    } else {
        match number_at(d, i + 1, (bytes - 1) as nat) {
            Some((n, j)) => Some((d[i] - 0x80 + 0x80 * n, j)),
            None => None,
        }
    }
}

/// The number of the kind of an entry, the length of its contents, and where that ends.
pub open spec fn kind_and_size(d: Seq<u8>, at: int) -> Option<(int, int, int)> {
    if at < 0 || at >= d.len() {
        None
    } else {
        let kind = d[at] / 16 % 8;
        let low = d[at] % 16;
        if d[at] < 0x80 {
            Some((kind as int, low as int, at + 1))
        } else {
            match number_at(d, at + 1, NUMBER_BYTES as nat) {
                Some((n, j)) => Some((kind as int, low + 16 * n, j)),
                None => None,
            }
        }
    }
}

/// The distance to a base object, and where it ends: its seven-bit groups with the highest first,
/// where each continuation adds one.
pub open spec fn distance_at(d: Seq<u8>, i: int, so_far: int) -> Option<(int, int)>
    decreases d.len() - i,
{
    if i < 0 || i >= d.len() || so_far > MAX_DISTANCE {
        None
    } else {
        let n = so_far * 0x80 + d[i] % 0x80;
        if d[i] < 0x80 {
            Some((n, i + 1))
        } else {
            distance_at(d, i + 1, n + 1)
        }
    }
}

/// What the entry at a place holds, the length of its contents, and where these start.
pub open spec fn entry_at(d: Seq<u8>, at: int) -> Option<(PackBase, int, int)> {
    match kind_and_size(d, at) {
        None => None,
        Some((kind, size, next)) => if kind == 1 {
            Some((PackBase::Whole(KindView::Commit), size, next))
        } else if kind == 2 {
            Some((PackBase::Whole(KindView::Tree), size, next))
        } else if kind == 3 {
            Some((PackBase::Whole(KindView::Blob), size, next))
        } else if kind == 4 {
            Some((PackBase::Whole(KindView::Tag), size, next))
        } else if kind == 6 {
            match distance_at(d, next, 0) {
                Some((n, start)) => Some((PackBase::At(at - n), size, start)),
                None => None,
            }
        } else if kind == 7 && next + 20 <= d.len() {
            Some((PackBase::Named(hex_text(d.subrange(next, next + 20))), size, next + 20))
        } else {
            None
        },
    }
}

/// The ID of an object.
pub open spec fn name_of(o: DataView) -> Seq<char> {
    object_name(o.kind, o.size, o.data)
}

/// The object that changes are to be applied to: the first one that they name.
pub open spec fn base_object(items: Seq<PackItem>, base: PackBase) -> Option<DataView>
    decreases items.len(),
{
    if items.len() == 0 {
        None
    } else if match base {
        PackBase::Whole(_) => false,
        PackBase::At(offset) => items[0].offset == offset,
        PackBase::Named(id) => name_of(items[0].object) == id,
    } {
        Some(items[0].object)
    } else {
        base_object(items.skip(1), base)
    }
}

/// An object of a kind.
pub open spec fn object_of(kind: KindView, data: Seq<u8>) -> DataView {
    DataView { kind, size: data.len() as int, data }
}

/// The object of the entry at a place, given those of the entries before it, and where the entry
/// ends.
pub open spec fn object_at(d: Seq<u8>, at: int, items: Seq<PackItem>) -> Result<
    (DataView, int),
    PackError,
> {
    match entry_at(d, at) {
        None => Err(PackError::Entry),
        Some((base, size, start)) => {
            let rest = d.skip(start);
            match zlib_inflated(rest) {
                None => Err(PackError::Contents),
                Some(data) => if data.len() != size {
                    Err(PackError::Contents)
                } else {
                    let next = start + zlib_length(rest);
                    match base {
                        PackBase::Whole(kind) => Ok((object_of(kind, data), next)),
                        _ => match base_object(items, base) {
                            None => Err(PackError::MissingBase),
                            Some(b) => if delta_applies(b.data, data) {
                                Ok((object_of(b.kind, delta_result(b.data, data)), next))
                            } else {
                                Err(PackError::BadDelta)
                            },
                        },
                    }
                },
            }
        },
    }
}

/// The objects of a number of entries from a place on, after those of the entries before, and
/// where the last one ends.
pub open spec fn objects_from(d: Seq<u8>, at: int, count: nat, items: Seq<PackItem>) -> Result<
    (Seq<PackItem>, int),
    PackError,
>
    decreases count,
{
    if count == 0 {
        Ok((items, at))
    } else {
        match object_at(d, at, items) {
            Err(e) => Err(e),
            Ok((object, next)) => objects_from(
                d,
                next,
                (count - 1) as nat,
                items.push(PackItem { offset: at, object }),
            ),
        }
    }
}

/// The objects of a pack.  A pack starts with its name, its version and the number of its
/// entries; the entries follow, and the digest of all that.
pub open spec fn pack_items(d: Seq<u8>) -> Result<Seq<PackItem>, PackError> {
    let body = d.take(d.len() - 20);
    if d.len() < 32 || d.take(4) != seq![0x50u8, 0x41, 0x43, 0x4b] {
        Err(PackError::NotAPack)
    } else if u32_at(d, 4) != 2 {
        Err(PackError::Version)
    } else if sha1_digest(body) != d.skip(d.len() - 20) {
        Err(PackError::Digest)
    } else {
        match objects_from(body, 12, u32_at(d, 8) as nat, Seq::empty()) {
            Err(e) => Err(e),
            Ok((items, end)) => if end != body.len() {
                Err(PackError::TooLong)
            } else {
                Ok(items)
            },
        }
    }
}

/// Objects by their IDs.
pub open spec fn objects_by_name(items: Seq<PackItem>) -> ObjectMap
    decreases items.len(),
{
    if items.len() == 0 {
        Map::empty()
    } else {
        let o = items.last().object;
        with_object(objects_by_name(items.drop_last()), name_of(o), o)
    }
}

/// Each object of a pack is found by the ID that its contents give it.
pub proof fn theorem_packed_objects_have_their_names(items: Seq<PackItem>, id: Seq<char>)
    requires
        objects_by_name(items).contains_key(id),
    ensures
        name_of(objects_by_name(items)[id]) == id,
    decreases items.len(),
{
    if items.len() > 0 {
        let before = items.drop_last();
        if objects_by_name(before).contains_key(id) {
            theorem_packed_objects_have_their_names(before, id);
        }
    }
}

/// The bound of a number of so many bytes.
spec fn bound(bytes: nat) -> int
    decreases bytes,
{
    if bytes == 0 {
        1
    } else {
        0x80 * bound((bytes - 1) as nat)
    }
}

proof fn lemma_bound(bytes: nat)
    requires
        bytes <= 8,
    ensures
        1 <= bound(bytes) <= 0x100_0000_0000_0000,
{
    reveal_with_fuel(bound, 9);
}

fn read_number(d: &[u8], i: usize, bytes: u8) -> (r: Option<(u64, usize)>)
    requires
        i <= d@.len(),
        bytes <= NUMBER_BYTES,
    ensures
        match r {
            Some((n, j)) => number_at(d@, i as int, bytes as nat) == Some((n as int, j as int))
                && j <= d@.len() && n < bound(bytes as nat),
            None => number_at(d@, i as int, bytes as nat) is None,
        },
    decreases bytes,
{
    if bytes == 0 || i >= d.len() {
        return None;
    }
    proof {
        lemma_bound(bytes as nat);
        lemma_bound((bytes - 1) as nat);
    }
    let b: u8 = d[i];
    if b < 0x80 {
        return Some((b as u64, i + 1));
    }
    match read_number(d, i + 1, bytes - 1) {
        Some((n, j)) => Some(((b - 0x80) as u64 + 0x80 * n, j)),
        None => None,
    }
}

fn read_kind_and_size(d: &[u8], at: usize) -> (r: Option<(u8, u64, usize)>)
    ensures
        match r {
            Some((kind, size, next)) => kind_and_size(d@, at as int) == Some(
                (kind as int, size as int, next as int),
            ) && next <= d@.len(),
            None => kind_and_size(d@, at as int) is None,
        },
{
    if at >= d.len() {
        return None;
    }
    let b: u8 = d[at];
    let kind: u8 = b / 16 % 8;
    let low: u8 = b % 16;
    if b < 0x80 {
        return Some((kind, low as u64, at + 1));
    }
    match read_number(d, at + 1, NUMBER_BYTES) {
        Some((n, next)) => {
            proof {
                lemma_bound(8);
            }
            Some((kind, low as u64 + 16 * n, next))
        },
        None => None,
    }
}

fn read_distance(d: &[u8], from: usize) -> (r: Option<(u64, usize)>)
    requires
        from <= d@.len(),
    ensures
        match r {
            Some((n, j)) => distance_at(d@, from as int, 0) == Some((n as int, j as int)) && j
                <= d@.len(),
            None => distance_at(d@, from as int, 0) is None,
        },
{
    let mut i: usize = from;
    let mut so_far: u64 = 0;
    while i < d.len() && so_far <= MAX_DISTANCE
        invariant
            i <= d@.len(),
            distance_at(d@, from as int, 0) == distance_at(d@, i as int, so_far as int),
        decreases d@.len() - i,
    {
        let b: u8 = d[i];
        let n: u64 = so_far * 0x80 + (b % 0x80) as u64;
        if b < 0x80 {
            return Some((n, i + 1));
        }
        so_far = n + 1;
        i = i + 1;
    }
    None
}

/// What an entry holds.
enum Base {
    Whole(ObjectKind),
    At(usize),
    Named(String),
    /// Changes to an object that cannot be in the pack.
    Outside,
}

/// Whether what an entry holds is what was read; a place in front of the pack is no entry's.
spec fn same_base(b: Base, v: PackBase) -> bool {
    match b {
        Base::Whole(kind) => v == PackBase::Whole(kind@),
        Base::At(offset) => v == PackBase::At(offset as int),
        Base::Named(id) => v == PackBase::Named(id@),
        Base::Outside => v matches PackBase::At(offset) && offset < 0,
    }
}

fn read_entry(d: &[u8], at: usize) -> (r: Option<(Base, u64, usize)>)
    ensures
        match r {
            Some((base, size, start)) => entry_at(d@, at as int) matches Some((b, n, i))
                && same_base(base, b) && n == size && i == start && start <= d@.len(),
            None => entry_at(d@, at as int) is None,
        },
{
    match read_kind_and_size(d, at) {
        None => None,
        Some((kind, size, next)) => match kind {
            1 => Some((Base::Whole(ObjectKind::Commit), size, next)),
            2 => Some((Base::Whole(ObjectKind::Tree), size, next)),
            3 => Some((Base::Whole(ObjectKind::Blob), size, next)),
            4 => Some((Base::Whole(ObjectKind::Tag), size, next)),
            6 => match read_distance(d, next) {
                Some((n, start)) => if n <= at as u64 {
                    Some((Base::At(at - n as usize), size, start))
                } else {
                    Some((Base::Outside, size, start))
                },
                None => None,
            },
            7 => if d.len() - next >= 20 {
                let id = slice_subrange(d, next, next + 20);
                Some((Base::Named(hex_encode(id)), size, next + 20))
            } else {
                None
            },
            _ => None,
        },
    }
}

/// The objects of a pack that were read so far.
spec fn items_read(offsets: Seq<usize>, objects: Seq<RawObject>) -> Seq<PackItem> {
    Seq::new(
        objects.len(),
        |i: int| PackItem { offset: offsets[i] as int, object: objects[i].content@ },
    )
}

/// Whether the IDs of objects are those that their contents give them.
spec fn well_named(objects: Seq<RawObject>) -> bool {
    forall|i: int|
        0 <= i < objects.len() ==> (#[trigger] objects[i]).object_id@ == name_of(
            objects[i].content@,
        )
}

proof fn lemma_objects_by_name(offsets: Seq<usize>, objects: Seq<RawObject>)
    requires
        offsets.len() == objects.len(),
        well_named(objects),
    ensures
        object_map(objects) == objects_by_name(items_read(offsets, objects)),
    decreases objects.len(),
{
    if objects.len() > 0 {
        let before = items_read(offsets.drop_last(), objects.drop_last());
        assert(items_read(offsets, objects).drop_last() =~= before);
        assert forall|i: int| 0 <= i < objects.drop_last().len() implies (
        #[trigger] objects.drop_last()[i]).object_id@ == name_of(
            objects.drop_last()[i].content@,
        ) by {
            assert(objects[i].object_id@ == name_of(objects[i].content@));
        }
        lemma_objects_by_name(offsets.drop_last(), objects.drop_last());
        assert(objects[objects.len() - 1].object_id@ == name_of(objects.last().content@));
    }
}

fn find_base(
    offsets: &Vec<usize>,
    objects: &Vec<RawObject>,
    base: &Base,
    Ghost(v): Ghost<PackBase>,
) -> (r: Option<usize>)
    requires
        offsets@.len() == objects@.len(),
        well_named(objects@),
        same_base(*base, v),
        !(v is Whole),
    ensures
        match r {
            Some(i) => i < objects@.len() && base_object(items_read(offsets@, objects@), v) == Some(
                objects@[i as int].content@,
            ),
            None => base_object(items_read(offsets@, objects@), v) is None,
        },
{
    let ghost items = items_read(offsets@, objects@);
    let mut i: usize = 0;
    assert(items.skip(0) =~= items);
    while i < objects.len()
        invariant
            i <= objects@.len(),
            offsets@.len() == objects@.len(),
            items == items_read(offsets@, objects@),
            well_named(objects@),
            same_base(*base, v),
            !(v is Whole),
            base_object(items, v) == base_object(items.skip(i as int), v),
        decreases objects@.len() - i,
    {
        let ghost rest = items.skip(i as int);
        assert(rest[0] == items[i as int]);
        assert(rest.skip(1) =~= items.skip(i + 1));
        let found = match base {
            Base::At(offset) => offsets[i] == *offset,
            Base::Named(id) => same_text(objects[i].object_id.as_str(), id.as_str()),
            _ => false,
        };
        if found {
            return Some(i);
        }
        i = i + 1;
    }
    assert(items.skip(i as int) =~= Seq::empty());
    None
}

fn whole_object(kind: ObjectKind, data: Vec<u8>) -> (r: RawObject)
    requires
        !(kind@ is Delta),
    ensures
        r.content@ == object_of(kind@, data@),
        r.object_id@ == name_of(r.content@),
{
    let size: usize = data.len();
    let content = RawObjectData { data, metadata: ObjectMetadata::new(kind, size) };
    RawObject::of_content(content)
}

/// Whether objects are of kinds that have IDs.
spec fn none_delta(objects: Seq<RawObject>) -> bool {
    forall|i: int| 0 <= i < objects.len() ==> !((#[trigger] objects[i]).content@.kind is Delta)
}

fn read_object(d: &[u8], at: usize, offsets: &Vec<usize>, objects: &Vec<RawObject>) -> (r: Result<
    (RawObject, usize),
    PackError,
>)
    requires
        offsets@.len() == objects@.len(),
        well_named(objects@),
        none_delta(objects@),
    ensures
        match r {
            Ok((o, next)) => object_at(d@, at as int, items_read(offsets@, objects@)) == Ok::<
                (DataView, int),
                PackError,
            >((o.content@, next as int)) && o.object_id@ == name_of(o.content@) && !(
            o.content@.kind is Delta) && next <= d@.len(),
            Err(e) => object_at(d@, at as int, items_read(offsets@, objects@)) == Err::<
                (DataView, int),
                PackError,
            >(e),
        },
{
    let (base, size, start): (Base, u64, usize) = match read_entry(d, at) {
        None => {
            return Err(PackError::Entry);
        },
        Some(e) => e,
    };
    let ghost v = (entry_at(d@, at as int)->0).0;
    let rest = slice_subrange(d, start, d.len());
    assert(rest@ =~= d@.skip(start as int));
    let (data, used): (Vec<u8>, u64) = match zlib_decompress(rest) {
        None => {
            return Err(PackError::Contents);
        },
        Some(x) => x,
    };
    if data.len() as u64 != size {
        return Err(PackError::Contents);
    }
    let next: usize = start + used as usize;
    if let Base::Whole(kind) = &base {
        return Ok((whole_object(kind.clone(), data), next));
    }
    match find_base(offsets, objects, &base, Ghost(v)) {
        None => Err(PackError::MissingBase),
        Some(i) => {
            let on = objects[i].content.data.as_slice();
            if delta_can_apply(on, data.as_slice()) {
                let changed = combine_object_delta_data(on, data.as_slice());
                let kind = objects[i].content.metadata.kind.clone();
                assert(!(objects@[i as int].content@.kind is Delta));
                Ok((whole_object(kind, changed), next))
            } else {
                Err(PackError::BadDelta)
            }
        },
    }
}

fn read_be32(d: &[u8], i: usize) -> (r: u32)
    requires
        i + 4 <= d@.len(),
    ensures
        r == u32_at(d@, i as int),
{
    d[i] as u32 * 0x100_0000 + d[i + 1] as u32 * 0x1_0000 + d[i + 2] as u32 * 0x100 + d[i + 3] as u32
}

fn same_bytes(a: &[u8], b: &[u8]) -> (r: bool)
    ensures
        r == (a@ == b@),
{
    if a.len() != b.len() {
        return false;
    }
    let mut i: usize = 0;
    while i < a.len()
        invariant
            i <= a@.len(),
            a@.len() == b@.len(),
            forall|j: int| 0 <= j < i ==> a@[j] == b@[j],
        decreases a@.len() - i,
    {
        if a[i] != b[i] {
            return false;
        }
        i = i + 1;
    }
    assert(a@ =~= b@);
    true
}

/// Reads the objects of a pack.
pub fn load_pack(d: &[u8]) -> (r: Result<ObjectTable, PackError>)
    ensures
        match r {
            Ok(table) => pack_items(d@) matches Ok(items) && table.objects() == objects_by_name(
                items,
            ),
            Err(e) => pack_items(d@) == Err::<Seq<PackItem>, PackError>(e),
        },
{
    if d.len() < 32 {
        return Err(PackError::NotAPack);
    }
    assert(d@.take(4).len() == 4);
    if d[0] != 0x50 || d[1] != 0x41 || d[2] != 0x43 || d[3] != 0x4b {
        assert(d@.take(4)[0] == d@[0] && d@.take(4)[1] == d@[1] && d@.take(4)[2] == d@[2]
            && d@.take(4)[3] == d@[3]);
        return Err(PackError::NotAPack);
    }
    assert(d@.take(4) =~= seq![0x50u8, 0x41, 0x43, 0x4b]);
    if read_be32(d, 4) != 2 {
        return Err(PackError::Version);
    }
    let body_end: usize = d.len() - 20;
    let body = slice_subrange(d, 0, body_end);
    let digest = slice_subrange(d, body_end, d.len());
    assert(body@ =~= d@.take(d@.len() - 20));
    assert(digest@ =~= d@.skip(d@.len() - 20));
    if !same_bytes(sha1_of(body).as_slice(), digest) {
        return Err(PackError::Digest);
    }
    let count: u32 = read_be32(d, 8);
    let mut offsets: Vec<usize> = Vec::new();
    let mut table = ObjectTable { items: Vec::new() };
    let mut at: usize = 12;
    let mut done: u32 = 0;
    let ghost all = objects_from(body@, 12, count as nat, Seq::empty());
    assert(items_read(offsets@, table.items@) =~= Seq::empty());
    while done < count
        invariant
            done <= count,
            offsets@.len() == table.items@.len(),
            well_named(table.items@),
            none_delta(table.items@),
            at <= body@.len(),
            all == objects_from(
                body@,
                at as int,
                (count - done) as nat,
                items_read(offsets@, table.items@),
            ),
            pack_items(d@) == match all {
                Err(e) => Err(e),
                Ok((items, end)) => if end != body@.len() {
                    Err::<Seq<PackItem>, PackError>(PackError::TooLong)
                } else {
                    Ok(items)
                },
            },
        decreases count - done,
    {
        let ghost items = items_read(offsets@, table.items@);
        match read_object(body, at, &offsets, &table.items) {
            Err(e) => {
                return Err(e);
            },
            Ok((object, next)) => {
                let ghost item = PackItem { offset: at as int, object: object.content@ };
                offsets.push(at);
                table.items.push(object);
                assert(items_read(offsets@, table.items@) =~= items.push(item));
                at = next;
            },
        }
        done = done + 1;
    }
    if at != body.len() {
        return Err(PackError::TooLong);
    }
    proof {
        lemma_objects_by_name(offsets@, table.items@);
    }
    Ok(table)
}

impl<L: ObjectStore, R: RefStore> Repository<L, ObjectTable, R> {
    /// Adds the objects of a pack to the repository; they are searched after all others.
    pub fn store_pack(&mut self, pack: &[u8]) -> (r: Result<(), PackError>)
        ensures
            match r {
                Ok(_) => pack_items(pack@) matches Ok(items) && final(self)@.objects == old(
                    self,
                )@.objects.push(objects_by_name(items)),
                Err(e) => pack_items(pack@) == Err::<Seq<PackItem>, PackError>(e) && *final(self)
                    == *old(self),
            },
            final(self).loose_object_store == old(self).loose_object_store,
            final(self).ref_store == old(self).ref_store,
            final(self).head == old(self).head,
    {
        match load_pack(pack) {
            Err(e) => Err(e),
            Ok(table) => {
                let ghost objects = table.objects();
                let ghost before = self.packs@;
                self.packs.push(table);
                assert(store_objects(self.packs@) =~= store_objects(before).push(objects));
                assert(self@.objects =~= old(self)@.objects.push(objects));
                Ok(())
            },
        }
    }
}

/// The name of the file of a pack: the digest at its end, in hexadecimal.
pub fn pack_file_name(pack: &[u8]) -> (r: String)
    requires
        pack@.len() >= 20,
    ensures
        r@ == "pack-"@ + hex_text(pack@.skip(pack@.len() - 20)) + ".pack"@,
{
    let digest = slice_subrange(pack, pack.len() - 20, pack.len());
    assert(digest@ =~= pack@.skip(pack@.len() - 20));
    let mut name = crate::text::concat_texts("pack-", hex_encode(digest).as_str());
    name.append(".pack");
    name
}

} // verus!
