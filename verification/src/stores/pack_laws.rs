//! What holds of packs.

use vstd::prelude::*;

use crate::index::laws::lemma_be32_at;
use crate::interop::{hex_text, sha1_digest, zlib_inflated, zlib_length};
use crate::numerals::be32_bytes;
use crate::objects::delta::{delta_applies, delta_result};
use crate::objects::delta_laws::size_bytes;
use crate::objects::raw::DataView;
use crate::objects::KindView;
use crate::stores::packs::{
    base_object, distance_at, entry_at, kind_and_size, name_of, number_at, object_at,
    objects_by_name, objects_from, pack_items, PackBase, PackError, PackItem, MAX_DISTANCE,
    NUMBER_BYTES,
};

verus! {

/// A number is read as it is written, seven bits a byte with the lowest first, and ends where it
/// was written to end.
pub proof fn theorem_number_is_read(before: Seq<u8>, n: nat, after: Seq<u8>, bytes: nat)
    requires
        size_bytes(n).len() <= bytes,
    ensures
        number_at(before + size_bytes(n) + after, before.len() as int, bytes) == Some(
            (n as int, (before.len() + size_bytes(n).len()) as int),
        ),
    decreases n,
{
    let d = before + size_bytes(n) + after;
    let i = before.len() as int;
    if n < 128 {
        assert(d[i] == n as u8);
    } else {
        let first = (128 + n % 128) as u8;
        assert(d[i] == first);
        theorem_number_is_read(before.push(first), n / 128, after, (bytes - 1) as nat);
        assert(before.push(first) + size_bytes(n / 128) + after =~= d);
    }
}

/// What comes before the contents of an entry of a pack: the number of its kind in three bits of
/// the first byte, and the size in the four lowest bits and in the bytes that follow.
pub open spec fn entry_header(kind: nat, size: nat) -> Seq<u8> {
    if size < 16 {
        seq![(16 * kind + size) as u8]
    } else {
        seq![(128 + 16 * kind + size % 16) as u8] + size_bytes(size / 16)
    }
}

/// The kind and the size of an entry are read as they are written.
pub proof fn theorem_header_is_read(before: Seq<u8>, kind: nat, size: nat, after: Seq<u8>)
    requires
        kind < 8,
        size >= 16 ==> size_bytes(size / 16).len() <= NUMBER_BYTES,
    ensures
        kind_and_size(before + entry_header(kind, size) + after, before.len() as int) == Some(
            (kind as int, size as int, (before.len() + entry_header(kind, size).len()) as int),
        ),
{
    let d = before + entry_header(kind, size) + after;
    let i = before.len() as int;
    if size < 16 {
        let first = (16 * kind + size) as u8;
        assert(d[i] == first);
        assert(first / 16 % 8 == kind && first % 16 == size);
    } else {
        let first = (128 + 16 * kind + size % 16) as u8;
        assert(d[i] == first);
        assert(first >= 0x80);
        assert(first / 16 % 8 == kind && first % 16 == size % 16);
        theorem_number_is_read(before.push(first), size / 16, after, NUMBER_BYTES as nat);
        assert(before.push(first) + size_bytes(size / 16) + after =~= d);
    }
}

/// The first bytes of a distance, all but the last: seven bits a byte with the highest first, each
/// one less than it stands for.
pub open spec fn distance_front(m: nat) -> Seq<u8>
    decreases m,
{
    if m < 128 {
        seq![(128 + m) as u8]
    } else {
        distance_front((m / 128 - 1) as nat).push((128 + m % 128) as u8)
    }
}

/// The distance to a base object as it is written.
pub open spec fn distance_bytes(n: nat) -> Seq<u8> {
    if n < 128 {
        seq![n as u8]
    } else {
        distance_front((n / 128 - 1) as nat).push((n % 128) as u8)
    }
}

proof fn lemma_distance_front(before: Seq<u8>, m: nat, after: Seq<u8>)
    requires
        m <= MAX_DISTANCE,
    ensures
        distance_at(before + distance_front(m) + after, before.len() as int, 0) == distance_at(
            before + distance_front(m) + after,
            (before.len() + distance_front(m).len()) as int,
            m + 1int,
        ),
    decreases m,
{
    let d = before + distance_front(m) + after;
    let i = before.len() as int;
    if m < 128 {
        assert(d[i] == (128 + m) as u8);
        assert(d[i] % 0x80 == m);
    } else {
        let high = (m / 128 - 1) as nat;
        let last = (128 + m % 128) as u8;
        lemma_distance_front(before, high, seq![last] + after);
        assert(before + distance_front(high) + (seq![last] + after) =~= d);
        let k = i + distance_front(high).len();
        assert(d[k] == last);
        assert(last >= 0x80);
        assert(last % 0x80 == m % 128);
        assert((high + 1) * 0x80 + m % 128 == m);
        assert(distance_at(d, k, high + 1int) == distance_at(d, k + 1, m + 1int));
    }
}

/// A distance is read as it is written, and ends where it was written to end.
pub proof fn theorem_distance_is_read(before: Seq<u8>, n: nat, after: Seq<u8>)
    requires
        n / 128 <= MAX_DISTANCE,
    ensures
        distance_at(before + distance_bytes(n) + after, before.len() as int, 0) == Some(
            (n as int, (before.len() + distance_bytes(n).len()) as int),
        ),
{
    let d = before + distance_bytes(n) + after;
    let i = before.len() as int;
    if n < 128 {
        assert(d[i] == n as u8);
        assert(d[i] % 0x80 == n);
    } else {
        let high = (n / 128 - 1) as nat;
        let last = (n % 128) as u8;
        lemma_distance_front(before, high, seq![last] + after);
        assert(before + distance_front(high) + (seq![last] + after) =~= d);
        let k = i + distance_front(high).len();
        assert(d[k] == last);
        assert(last % 0x80 == n % 128);
        assert((high + 1) * 0x80 + n % 128 == n);
    }
}

/// The number of a kind in a pack.
pub open spec fn kind_number(kind: KindView) -> nat {
    match kind {
        KindView::Commit => 1,
        KindView::Tree => 2,
        KindView::Blob => 3,
        KindView::Tag => 4,
        KindView::Delta(_) => 0,
    }
}

/// The entry of an object is read as one of its kind, with the size that is written.
pub proof fn theorem_whole_entry_is_read(
    before: Seq<u8>,
    kind: KindView,
    size: nat,
    after: Seq<u8>,
)
    requires
        !(kind is Delta),
        size >= 16 ==> size_bytes(size / 16).len() <= NUMBER_BYTES,
    ensures
        ({
            let header = entry_header(kind_number(kind), size);
            entry_at(before + header + after, before.len() as int) == Some(
                (PackBase::Whole(kind), size as int, (before.len() + header.len()) as int),
            )
        }),
{
    theorem_header_is_read(before, kind_number(kind), size, after);
}

/// An entry with changes to the object of an earlier entry leads back by the distance that is
/// written.
pub proof fn theorem_entry_with_distance_is_read(
    before: Seq<u8>,
    size: nat,
    distance: nat,
    after: Seq<u8>,
)
    requires
        size >= 16 ==> size_bytes(size / 16).len() <= NUMBER_BYTES,
        distance / 128 <= MAX_DISTANCE,
    ensures
        ({
            let header = entry_header(6, size);
            let start = before.len() + header.len() + distance_bytes(distance).len();
            entry_at(
                before + header + distance_bytes(distance) + after,
                before.len() as int,
            ) == Some((PackBase::At(before.len() - distance), size as int, start as int))
        }),
{
    let header = entry_header(6, size);
    let d = before + header + distance_bytes(distance) + after;
    theorem_header_is_read(before, 6, size, distance_bytes(distance) + after);
    assert(before + header + (distance_bytes(distance) + after) =~= d);
    theorem_distance_is_read(before + header, distance, after);
}

/// An entry with changes to an object with an ID names it by the twenty bytes that follow.
pub proof fn theorem_entry_with_name_is_read(
    before: Seq<u8>,
    size: nat,
    id: Seq<u8>,
    after: Seq<u8>,
)
    requires
        size >= 16 ==> size_bytes(size / 16).len() <= NUMBER_BYTES,
        id.len() == 20,
    ensures
        ({
            let header = entry_header(7, size);
            let start = before.len() + header.len() + 20;
            entry_at(before + header + id + after, before.len() as int) == Some(
                (PackBase::Named(hex_text(id)), size as int, start as int),
            )
        }),
{
    let header = entry_header(7, size);
    let d = before + header + id + after;
    theorem_header_is_read(before, 7, size, id + after);
    assert(before + header + (id + after) =~= d);
    let next = (before.len() + header.len()) as int;
    assert(d.subrange(next, next + 20) =~= id);
}

/// Whether an item is the one that changes are to be applied to.
pub open spec fn is_base(item: PackItem, base: PackBase) -> bool {
    match base {
        PackBase::Whole(_) => false,
        PackBase::At(offset) => item.offset == offset,
        PackBase::Named(id) => name_of(item.object) == id,
    }
}

/// The object that changes are to be applied to is that of the first item at the place or with the
/// ID that they name, and there is none where no item is.
pub proof fn theorem_base_object(items: Seq<PackItem>, base: PackBase)
    ensures
        forall|i: int|
            0 <= i < items.len() && is_base(#[trigger] items[i], base) && (forall|j: int|
                0 <= j < i ==> !is_base(#[trigger] items[j], base)) ==> base_object(items, base)
                == Some(items[i].object),
        (forall|i: int| 0 <= i < items.len() ==> !is_base(#[trigger] items[i], base)) <==> (
        base_object(items, base) is None),
    decreases items.len(),
{
    if items.len() > 0 {
        let rest = items.skip(1);
        theorem_base_object(rest, base);
        assert forall|i: int|
            0 <= i < items.len() && is_base(#[trigger] items[i], base) && (forall|j: int|
                0 <= j < i ==> !is_base(#[trigger] items[j], base)) implies base_object(
            items,
            base,
        ) == Some(items[i].object) by {
            if i > 0 {
                assert(!is_base(items[0], base));
                assert(rest[i - 1] == items[i]);
                assert forall|j: int| 0 <= j < i - 1 implies !is_base(#[trigger] rest[j], base) by {
                    assert(!is_base(items[j + 1], base));
                }
            }
        }
        if is_base(items[0], base) {
            assert(base_object(items, base) is Some);
        } else {
            if forall|i: int| 0 <= i < rest.len() ==> !is_base(#[trigger] rest[i], base) {
                assert forall|i: int| 0 <= i < items.len() implies !is_base(
                    #[trigger] items[i],
                    base,
                ) by {
                    if i > 0 {
                        assert(!is_base(rest[i - 1], base));
                    }
                }
            }
            if forall|i: int| 0 <= i < items.len() ==> !is_base(#[trigger] items[i], base) {
                assert forall|i: int| 0 <= i < rest.len() implies !is_base(
                    #[trigger] rest[i],
                    base,
                ) by {
                    assert(!is_base(items[i + 1], base));
                }
            }
        }
    }
}

/// An entry of an object is read as the object: its contents are what the compressed stream behind
/// the header holds, of the size that the header gives, and the next entry starts where the stream
/// ends.
pub proof fn theorem_whole_object_is_read(
    before: Seq<u8>,
    kind: KindView,
    data: Seq<u8>,
    stream: Seq<u8>,
    items: Seq<PackItem>,
)
    requires
        !(kind is Delta),
        data.len() >= 16 ==> size_bytes(data.len() / 16).len() <= NUMBER_BYTES,
        zlib_inflated(stream) == Some(data),
    ensures
        ({
            let header = entry_header(kind_number(kind), data.len());
            object_at(before + header + stream, before.len() as int, items) == Ok::<
                (DataView, int),
                PackError,
            >(
                (
                    DataView { kind, size: data.len() as int, data },
                    before.len() + header.len() + zlib_length(stream),
                ),
            )
        }),
{
    let header = entry_header(kind_number(kind), data.len());
    let d = before + header + stream;
    theorem_whole_entry_is_read(before, kind, data.len(), stream);
    assert(d.skip((before.len() + header.len()) as int) =~= stream);
}

/// An entry with changes to the object of an earlier entry is read as what the changes make of
/// that object, and is of its kind.
pub proof fn theorem_changed_object_is_read(
    before: Seq<u8>,
    distance: nat,
    changes: Seq<u8>,
    stream: Seq<u8>,
    items: Seq<PackItem>,
    k: int,
)
    requires
        changes.len() >= 16 ==> size_bytes(changes.len() / 16).len() <= NUMBER_BYTES,
        distance / 128 <= MAX_DISTANCE,
        zlib_inflated(stream) == Some(changes),
        0 <= k < items.len(),
        items[k].offset == before.len() - distance,
        forall|j: int| 0 <= j < k ==> (#[trigger] items[j]).offset != before.len() - distance,
        delta_applies(items[k].object.data, changes),
    ensures
        ({
            let header = entry_header(6, changes.len());
            let result = delta_result(items[k].object.data, changes);
            object_at(
                before + header + distance_bytes(distance) + stream,
                before.len() as int,
                items,
            ) == Ok::<(DataView, int), PackError>(
                (
                    DataView {
                        kind: items[k].object.kind,
                        size: result.len() as int,
                        data: result,
                    },
                    before.len() + header.len() + distance_bytes(distance).len() + zlib_length(
                        stream,
                    ),
                ),
            )
        }),
{
    let header = entry_header(6, changes.len());
    let d = before + header + distance_bytes(distance) + stream;
    theorem_entry_with_distance_is_read(before, changes.len(), distance, stream);
    assert(d.skip((before.len() + header.len() + distance_bytes(distance).len()) as int)
        =~= stream);
    let base = PackBase::At(before.len() - distance);
    theorem_base_object(items, base);
    assert(is_base(items[k], base));
    assert forall|j: int| 0 <= j < k implies !is_base(#[trigger] items[j], base) by {
        assert(items[j].offset != before.len() - distance);
    }
}

/// Reading some entries and then more is reading all of them.
pub proof fn theorem_entries_follow(
    d: Seq<u8>,
    at: int,
    n: nat,
    m: nat,
    items: Seq<PackItem>,
)
    ensures
        objects_from(d, at, n + m, items) == match objects_from(d, at, n, items) {
            Ok((first, next)) => objects_from(d, next, m, first),
            Err(e) => Err(e),
        },
    decreases n,
{
    if n > 0 {
        if let Ok((object, next)) = object_at(d, at, items) {
            theorem_entries_follow(
                d,
                next,
                (n - 1) as nat,
                m,
                items.push(PackItem { offset: at, object }),
            );
        }
    }
}

/// Where the entry behind an item starts.
pub open spec fn next_start(items: Seq<PackItem>, end: int, k: int) -> int {
    if k + 1 < items.len() {
        items[k + 1].offset
    } else {
        end
    }
}

/// All entries are read: as many as there are to be, behind those before, each from where the one
/// before it ends, given all the objects before it.
pub proof fn theorem_each_entry_is_read(d: Seq<u8>, at: int, count: nat, items: Seq<PackItem>)
    ensures
        objects_from(d, at, count, items) matches Ok((all, end)) ==> {
            &&& all.len() == items.len() + count
            &&& all.take(items.len() as int) == items
            &&& count > 0 ==> all[items.len() as int].offset == at
            &&& count == 0 ==> end == at
            &&& forall|k: int|
                items.len() <= k < all.len() ==> object_at(
                    d,
                    (#[trigger] all[k]).offset,
                    all.take(k),
                ) == Ok::<(DataView, int), PackError>((all[k].object, next_start(all, end, k)))
        },
    decreases count,
{
    if count == 0 {
        assert(items.take(items.len() as int) =~= items);
    } else if let Ok((object, next)) = object_at(d, at, items) {
        let item = PackItem { offset: at, object };
        let more = items.push(item);
        theorem_each_entry_is_read(d, next, (count - 1) as nat, more);
        if let Ok((all, end)) = objects_from(d, at, count, items) {
            let n = items.len() as int;
            assert(all.take(n + 1) == more);
            assert(all[n] == more[n]) by {
                assert(all.take(n + 1)[n] == all[n]);
            }
            assert(all.take(n) =~= items) by {
                assert forall|i: int| 0 <= i < n implies all[i] == items[i] by {
                    assert(all.take(n + 1)[i] == all[i]);
                }
            }
            assert forall|k: int| n <= k < all.len() implies object_at(
                d,
                (#[trigger] all[k]).offset,
                all.take(k),
            ) == Ok::<(DataView, int), PackError>((all[k].object, next_start(all, end, k))) by {
                if k == n {
                    assert(next == next_start(all, end, k));
                }
            }
        }
    }
}

/// A pack has an object with an ID where one of its objects has that ID.
pub proof fn theorem_all_packed_objects_are_found(items: Seq<PackItem>, id: Seq<char>)
    ensures
        objects_by_name(items).contains_key(id) <==> exists|i: int|
            0 <= i < items.len() && name_of((#[trigger] items[i]).object) == id,
    decreases items.len(),
{
    if items.len() > 0 {
        let before = items.drop_last();
        let n = items.len() - 1;
        theorem_all_packed_objects_are_found(before, id);
        if exists|i: int| 0 <= i < before.len() && name_of((#[trigger] before[i]).object) == id {
            let i = choose|i: int|
                0 <= i < before.len() && name_of((#[trigger] before[i]).object) == id;
            assert(items[i] == before[i]);
        }
        if exists|i: int| 0 <= i < items.len() && name_of((#[trigger] items[i]).object) == id {
            let i = choose|i: int|
                0 <= i < items.len() && name_of((#[trigger] items[i]).object) == id;
            if i < n {
                assert(before[i] == items[i]);
            }
        }
    }
}

/// A pack up to its digest: its name, its version, the number of its entries, and the entries.
pub open spec fn pack_body(count: u32, entries: Seq<u8>) -> Seq<u8> {
    seq![0x50u8, 0x41, 0x43, 0x4b] + be32_bytes(2) + be32_bytes(count as int) + entries
}

/// A pack that ends with the digest of what comes before is read as its entries, where these end
/// where the digest starts.
pub proof fn theorem_pack_is_read(count: u32, entries: Seq<u8>, items: Seq<PackItem>, end: int)
    requires
        sha1_digest(pack_body(count, entries)).len() == 20,
        objects_from(pack_body(count, entries), 12, count as nat, Seq::empty()) == Ok::<
            (Seq<PackItem>, int),
            PackError,
        >((items, end)),
    ensures
        pack_items(pack_body(count, entries) + sha1_digest(pack_body(count, entries)))
            == if end == pack_body(count, entries).len() {
            Ok::<Seq<PackItem>, PackError>(items)
        } else {
            Err(PackError::TooLong)
        },
{
    let magic = seq![0x50u8, 0x41, 0x43, 0x4b];
    let body = pack_body(count, entries);
    let digest = sha1_digest(body);
    let d = body + digest;
    assert(d.take(d.len() - 20) =~= body);
    assert(d.skip(d.len() - 20) =~= digest);
    assert(d.take(4) =~= magic);
    assert(d.subrange(4, 8) =~= be32_bytes(2));
    assert(d.subrange(8, 12) =~= be32_bytes(count as int));
    lemma_be32_at(d, 4, 2);
    lemma_be32_at(d, 8, count as int);
}

/// A pack whose digest is not that of what comes before is refused.
pub proof fn theorem_damaged_pack_is_refused(count: u32, entries: Seq<u8>, digest: Seq<u8>)
    requires
        digest.len() == 20,
        digest != sha1_digest(pack_body(count, entries)),
    ensures
        pack_items(pack_body(count, entries) + digest) == Err::<Seq<PackItem>, PackError>(
            PackError::Digest,
        ),
{
    let magic = seq![0x50u8, 0x41, 0x43, 0x4b];
    let body = pack_body(count, entries);
    let d = body + digest;
    assert(d.take(d.len() - 20) =~= body);
    assert(d.skip(d.len() - 20) =~= digest);
    assert(d.take(4) =~= magic);
    assert(d.subrange(4, 8) =~= be32_bytes(2));
    lemma_be32_at(d, 4, 2);
}

} // verus!
