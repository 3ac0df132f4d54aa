//! What holds of every index: reading gives back what was written, and entries stay sorted.

use vstd::prelude::*;
use vstd::utf8::{encode_utf8, encode_utf8_decode_utf8, encode_utf8_valid_utf8};

use crate::index::{
    entries_bytes, entry_at, entry_bytes, entry_head, entry_length, entry_mode, entry_permissions,
    entry_type, entry_type_number, flags_word, has_path, id_bytes, index_bytes, listed_id, name_end, nul_bytes,
    other_path, parse_entries, parse_entry, parse_index, permissions_number, time_bytes, u16_at,
    u32_at, with_listed_ids, without_path, EntryView, IndexEntry,
};
use crate::index::errors::{InvalidIndexEntryKind, InvalidIndexKind};
use crate::interop::{
    hex_bytes, is_hex_text, text_of_bytes, theorem_hex_round_trip_text, valid_nanos,
};
use crate::numerals::{be16_bytes, be32_bytes};
use crate::sorting::{
    bytes_lt, is_sorted, key_lt, key_of, lemma_prefix_in_order, stable_sort, theorem_stable_sort,
};
use crate::text::lemma_first_index_is;

verus! {

/// Whether a text is a full object ID: forty lower-case hexadecimal digits.
pub open spec fn is_full_id(id: Seq<char>) -> bool {
    &&& id.len() == 40
    &&& is_hex_text(id)
    &&& forall|i: int| 0 <= i < id.len() ==> !('A' <= #[trigger] id[i] <= 'Z')
}

/// Whether the stored form of a moment says all there is to say of it.
pub open spec fn storable_time(t: (int, int, int)) -> bool {
    0 <= t.0 <= u32::MAX && 0 <= t.1 <= u32::MAX && valid_nanos(t.0, t.1) && t.2 == 0
}

/// Whether the stored form of an entry says all there is to say of it: its times are in UTC
/// and their seconds fit in 32 bits, its stage is one of four, its ID is a full object ID, and
/// no byte of its name is NUL.
pub open spec fn storable(e: EntryView) -> bool {
    &&& storable_time(e.ctime)
    &&& storable_time(e.mtime)
    &&& 0 <= e.dev <= u32::MAX
    &&& 0 <= e.ino <= u32::MAX
    &&& 0 <= e.uid <= u32::MAX
    &&& 0 <= e.gid <= u32::MAX
    &&& 0 <= e.fsize <= u32::MAX
    &&& e.flag_stage < 4
    &&& is_full_id(e.object_id)
    &&& !encode_utf8(e.object_name).contains(0u8)
}

pub(crate) proof fn lemma_be32_at(d: Seq<u8>, i: int, n: int)
    requires
        0 <= i,
        i + 4 <= d.len(),
        d.subrange(i, i + 4) == be32_bytes(n),
        0 <= n <= u32::MAX,
    ensures
        u32_at(d, i) == n,
{
    let s = d.subrange(i, i + 4);
    assert(s[0] == d[i] && s[1] == d[i + 1] && s[2] == d[i + 2] && s[3] == d[i + 3]);
}

proof fn lemma_flags(assume_valid: bool, stage: u8, name_len: int)
    requires
        stage < 4,
        0 <= name_len,
    ensures
        ({
            let f = flags_word(assume_valid, stage, name_len) as int;
            &&& f % 0x1000 == if name_len > 0xfff {
                0xfff
            } else {
                name_len
            }
            &&& f / 0x1000 % 4 == stage
            &&& (f / 0x8000 != 0) == assume_valid
        }),
{
    let a: u16 = if assume_valid {
        0x8000u16
    } else {
        0u16
    };
    let l: u16 = if name_len > 0xfff {
        0xfffu16
    } else {
        name_len as u16
    };
    let f: u16 = a | ((stage as u16) << 12) | l;
    assert(f % 0x1000 == l && f / 0x1000 % 4 == stage && f / 0x8000 == a / 0x8000) by (bit_vector)
        requires
            f == a | ((stage as u16) << 12) | l,
            stage < 4,
            l <= 0xfff,
            a == 0 || a == 0x8000,
    ;
}

/// Whether a byte sequence holds the fields of an entry in front of its name.
spec fn is_head(h: Seq<u8>, e: EntryView) -> bool {
    &&& h.len() == 62
    &&& u32_at(h, 0) == e.ctime.0
    &&& u32_at(h, 4) == e.ctime.1
    &&& u32_at(h, 8) == e.mtime.0
    &&& u32_at(h, 12) == e.mtime.1
    &&& u32_at(h, 16) == e.dev
    &&& u32_at(h, 20) == e.ino
    &&& u16_at(h, 26) == entry_mode(e)
    &&& u32_at(h, 28) == e.uid
    &&& u32_at(h, 32) == e.gid
    &&& u32_at(h, 36) == e.fsize
    &&& h.subrange(40, 60) == hex_bytes(e.object_id)
    &&& u16_at(h, 60) == flags_word(
        e.flag_assume_valid,
        e.flag_stage,
        encode_utf8(e.object_name).len() as int,
    )
}

/// Where each of the parts of a concatenation stands.
proof fn lemma_layout(
    c: Seq<u8>,
    m: Seq<u8>,
    dev: Seq<u8>,
    ino: Seq<u8>,
    mode: Seq<u8>,
    uid: Seq<u8>,
    gid: Seq<u8>,
    size: Seq<u8>,
    id: Seq<u8>,
    flags: Seq<u8>,
    h: Seq<u8>,
)
    requires
        c.len() == 8 && m.len() == 8 && dev.len() == 4 && ino.len() == 4 && mode.len() == 4
            && uid.len() == 4 && gid.len() == 4 && size.len() == 4 && id.len() == 20 && flags.len()
            == 2,
        h == c + m + dev + ino + mode + uid + gid + size + id + flags,
    ensures
        h.len() == 62,
        h.subrange(0, 8) == c,
        h.subrange(8, 16) == m,
        h.subrange(16, 20) == dev,
        h.subrange(20, 24) == ino,
        h.subrange(24, 28) == mode,
        h.subrange(28, 32) == uid,
        h.subrange(32, 36) == gid,
        h.subrange(36, 40) == size,
        h.subrange(40, 60) == id,
        h.subrange(60, 62) == flags,
{
    assert(h.subrange(0, 8) =~= c);
    assert(h.subrange(8, 16) =~= m);
    assert(h.subrange(16, 20) =~= dev);
    assert(h.subrange(20, 24) =~= ino);
    assert(h.subrange(24, 28) =~= mode);
    assert(h.subrange(28, 32) =~= uid);
    assert(h.subrange(32, 36) =~= gid);
    assert(h.subrange(36, 40) =~= size);
    assert(h.subrange(40, 60) =~= id);
    assert(h.subrange(60, 62) =~= flags);
}

proof fn lemma_time_at(h: Seq<u8>, i: int, t: (int, int, int))
    requires
        storable_time(t),
        0 <= i,
        i + 8 <= h.len(),
        h.subrange(i, i + 8) == time_bytes(t),
    ensures
        u32_at(h, i) == t.0,
        u32_at(h, i + 4) == t.1,
{
    let b = time_bytes(t);
    assert(h.subrange(i, i + 4) =~= b.subrange(0, 4));
    assert(h.subrange(i + 4, i + 8) =~= b.subrange(4, 8));
    assert(b.subrange(0, 4) =~= be32_bytes(t.0));
    assert(b.subrange(4, 8) =~= be32_bytes(t.1));
    lemma_be32_at(h, i, t.0);
    lemma_be32_at(h, i + 4, t.1);
}

proof fn lemma_be16_at(d: Seq<u8>, i: int, n: int)
    requires
        0 <= i,
        i + 2 <= d.len(),
        d.subrange(i, i + 2) == be16_bytes(n),
        0 <= n <= u16::MAX,
    ensures
        u16_at(d, i) == n,
{
    let s = d.subrange(i, i + 2);
    assert(s[0] == d[i] && s[1] == d[i + 1]);
}

proof fn lemma_mode_at(h: Seq<u8>, mode: int)
    requires
        28 <= h.len(),
        h.subrange(24, 28) == be32_bytes(mode),
        0 <= mode <= u16::MAX,
    ensures
        u16_at(h, 26) == mode,
{
    let s = h.subrange(24, 28);
    assert(s[2] == h[26] && s[3] == h[27]);
}

/// The fields in the part of a stored entry in front of its name.
proof fn lemma_head(e: EntryView)
    requires
        storable(e),
    ensures
        is_head(entry_head(e), e),
{
    let h = entry_head(e);
    let flags = flags_word(
        e.flag_assume_valid,
        e.flag_stage,
        encode_utf8(e.object_name).len() as int,
    );
    let mode = entry_mode(e);
    lemma_layout(
        time_bytes(e.ctime),
        time_bytes(e.mtime),
        be32_bytes(e.dev),
        be32_bytes(e.ino),
        be32_bytes(mode),
        be32_bytes(e.uid),
        be32_bytes(e.gid),
        be32_bytes(e.fsize),
        id_bytes(e.object_id),
        be16_bytes(flags as int),
        h,
    );
    lemma_time_at(h, 0, e.ctime);
    lemma_time_at(h, 8, e.mtime);
    lemma_be32_at(h, 16, e.dev);
    lemma_be32_at(h, 20, e.ino);
    lemma_mode_at(h, mode);
    lemma_be32_at(h, 28, e.uid);
    lemma_be32_at(h, 32, e.gid);
    lemma_be32_at(h, 36, e.fsize);
    lemma_be16_at(h, 60, flags as int);
}

proof fn lemma_name_end(d: Seq<u8>, name: Seq<u8>, declared: int)
    requires
        62 + name.len() < d.len(),
        declared == if name.len() > 0xfff {
            0xfff
        } else {
            name.len() as int
        },
        u16_at(d, 60) % 0x1000 == declared,
        !name.contains(0u8),
        d.subrange(62, 62 + name.len() as int) == name,
        d[62 + name.len() as int] == 0,
    ensures
        name_end(d) == 62 + name.len(),
{
    let n = name.len() as int;
    if n >= 0xfff {
        assert forall|j: int| 62 <= j < 62 + n implies d[j] != 0 by {
            assert(d.subrange(62, 62 + n)[j - 62] == d[j]);
            assert(name[j - 62] == d[j]);
            if d[j] == 0 {
                assert(name.contains(0u8));
            }
        }
        lemma_first_index_is(d, 0u8, 62, 62 + n);
    }
}

proof fn lemma_parse_stored(e: EntryView, h: Seq<u8>, name: Seq<u8>, d: Seq<u8>)
    requires
        storable(e),
        is_head(h, e),
        name == encode_utf8(e.object_name),
        d.len() >= entry_length(name.len() as int),
        d.take(62) == h,
        d.subrange(62, 62 + name.len() as int) == name,
        d[62 + name.len() as int] == 0,
    ensures
        parse_entry(d) == Ok::<EntryView, InvalidIndexEntryKind>(e),
{
    let n = name.len() as int;
    lemma_flags(e.flag_assume_valid, e.flag_stage, n);
    assert forall|i: int| 0 <= i < 62 implies d[i] == h[i] by {
        assert(d.take(62)[i] == d[i]);
    }
    assert(u32_at(d, 0) == e.ctime.0 && u32_at(d, 4) == e.ctime.1);
    assert(u32_at(d, 8) == e.mtime.0 && u32_at(d, 12) == e.mtime.1);
    assert(u32_at(d, 16) == e.dev && u32_at(d, 20) == e.ino);
    assert(u32_at(d, 28) == e.uid && u32_at(d, 32) == e.gid && u32_at(d, 36) == e.fsize);
    let mode = entry_mode(e);
    assert(u16_at(d, 26) == mode);
    let flags = u16_at(d, 60);
    assert(flags == u16_at(h, 60));
    assert(mode / 0x1000 == entry_type_number(e.mode_type));
    assert(mode % 0x200 == permissions_number(e.mode_perms));
    assert(d.subrange(40, 60) =~= h.subrange(40, 60));
    theorem_hex_round_trip_text(e.object_id);
    lemma_name_end(d, name, flags % 0x1000);
    encode_utf8_valid_utf8(e.object_name);
    encode_utf8_decode_utf8(e.object_name);
    assert(text_of_bytes(name) == e.object_name);
}

proof fn lemma_entry_length(n: int)
    requires
        n >= 0,
    ensures
        entry_length(n) % 8 == 0,
        n + 63 <= entry_length(n) <= n + 70,
{
}

proof fn lemma_head_length(e: EntryView)
    requires
        is_full_id(e.object_id),
    ensures
        entry_head(e).len() == 62,
{
    assert(id_bytes(e.object_id).len() == 20);
    assert(time_bytes(e.ctime).len() == 8);
    assert(time_bytes(e.mtime).len() == 8);
}

/// A stored entry is as long as its name calls for, and a multiple of eight bytes.
pub proof fn theorem_entry_bytes_length(e: EntryView)
    requires
        is_full_id(e.object_id),
    ensures
        entry_bytes(e).len() == entry_length(encode_utf8(e.object_name).len() as int),
        entry_bytes(e).len() % 8 == 0,
        entry_bytes(e).len() >= encode_utf8(e.object_name).len() + 63,
{
    let n = encode_utf8(e.object_name).len() as int;
    lemma_head_length(e);
    lemma_entry_length(n);
    assert(nul_bytes(entry_length(n) - n - 62).len() == entry_length(n) - n - 62);
}

/// Reading a stored entry gives back the entry that was stored, whatever follows it.
pub proof fn theorem_entry_round_trip(e: EntryView, rest: Seq<u8>)
    requires
        storable(e),
    ensures
        parse_entry(entry_bytes(e) + rest) == Ok::<EntryView, InvalidIndexEntryKind>(e),
{
    let h = entry_head(e);
    let name = encode_utf8(e.object_name);
    let n = name.len() as int;
    let pad = nul_bytes(entry_length(n) - n - 62);
    let d = entry_bytes(e) + rest;
    theorem_entry_bytes_length(e);
    lemma_head(e);
    lemma_stored_parts(h, name, pad, rest, d);
    lemma_parse_stored(e, h, name, d);
}

proof fn lemma_stored_parts(
    h: Seq<u8>,
    name: Seq<u8>,
    pad: Seq<u8>,
    rest: Seq<u8>,
    d: Seq<u8>,
)
    requires
        h.len() == 62,
        pad.len() > 0,
        pad[0] == 0,
        d == h + name + pad + rest,
    ensures
        d.take(62) == h,
        d.subrange(62, 62 + name.len() as int) == name,
        d[62 + name.len() as int] == 0,
{
    assert(d.take(62) =~= h);
    assert(d.subrange(62, 62 + name.len() as int) =~= name);
}

/// Where two sequences that follow each other stand in the data.
proof fn lemma_two_parts(d: Seq<u8>, at: int, a: Seq<u8>, b: Seq<u8>)
    requires
        0 <= at,
        at + a.len() + b.len() <= d.len(),
        d.subrange(at, at + (a + b).len()) == a + b,
    ensures
        d.skip(at) == a + d.skip(at + a.len()),
        d.subrange(at + a.len(), at + a.len() + b.len()) == b,
{
    let all = d.subrange(at, at + (a + b).len());
    assert forall|i: int| 0 <= i < a.len() implies d.skip(at)[i] == a[i] by {
        assert(all[i] == d[at + i]);
        assert((a + b)[i] == a[i]);
    }
    assert(d.skip(at) =~= a + d.skip(at + a.len()));
    assert forall|i: int| 0 <= i < b.len() implies d.subrange(
        at + a.len(),
        at + a.len() + b.len(),
    )[i] == b[i] by {
        assert(all[a.len() + i] == d[at + a.len() + i]);
        assert((a + b)[a.len() + i] == b[i]);
    }
    assert(d.subrange(at + a.len(), at + a.len() + b.len()) =~= b);
}

proof fn lemma_entry_at(d: Seq<u8>, at: int, e: EntryView)
    requires
        storable(e),
        0 <= at,
        at + entry_bytes(e).len() < d.len(),
        d.skip(at) == entry_bytes(e) + d.skip(at + entry_bytes(e).len()),
    ensures
        entry_at(d, at) == Ok::<(EntryView, int), InvalidIndexKind>(
            (e, at + entry_bytes(e).len()),
        ),
{
    theorem_entry_bytes_length(e);
    theorem_entry_round_trip(e, d.skip(at + entry_bytes(e).len()));
}

proof fn lemma_entries_step(
    d: Seq<u8>,
    at: int,
    e: EntryView,
    next: int,
    rest: Seq<EntryView>,
    s: Seq<EntryView>,
)
    requires
        entry_at(d, at) == Ok::<(EntryView, int), InvalidIndexKind>((e, next)),
        parse_entries(d, next, rest.len()) == Ok::<Seq<EntryView>, InvalidIndexKind>(rest),
        s == seq![e] + rest,
    ensures
        parse_entries(d, at, s.len()) == Ok::<Seq<EntryView>, InvalidIndexKind>(s),
{
    assert((s.len() - 1) as nat == rest.len());
}

#[verifier::spinoff_prover]
#[verifier::rlimit(40)]
proof fn lemma_entries_round_trip(d: Seq<u8>, at: int, s: Seq<EntryView>)
    requires
        forall|i: int| 0 <= i < s.len() ==> storable(#[trigger] s[i]),
        0 <= at,
        at + entries_bytes(s).len() <= d.len(),
        s.len() > 0 ==> at + entries_bytes(s).len() < d.len(),
        d.subrange(at, at + entries_bytes(s).len()) == entries_bytes(s),
    ensures
        parse_entries(d, at, s.len()) == Ok::<Seq<EntryView>, InvalidIndexKind>(s),
    decreases s.len(),
{
    if s.len() > 0 {
        let e = s[0];
        let rest = s.drop_first();
        let next = at + entry_bytes(e).len();
        lemma_two_parts(d, at, entry_bytes(e), entries_bytes(rest));
        lemma_entry_at(d, at, e);
        assert forall|i: int| 0 <= i < rest.len() implies storable(#[trigger] rest[i]) by {
            assert(rest[i] == s[i + 1]);
        }
        lemma_entries_round_trip(d, next, rest);
        assert(s =~= seq![e] + rest);
        lemma_entries_step(d, at, e, next, rest, s);
    } else {
        assert(s =~= Seq::<EntryView>::empty());
    }
}

/// Reading a stored index gives back the entries that were stored, where anything follows the
/// last of them, as the checksum of an index file does.
pub proof fn theorem_index_round_trip(s: Seq<EntryView>, trailer: Seq<u8>)
    requires
        forall|i: int| 0 <= i < s.len() ==> storable(#[trigger] s[i]),
        s.len() <= u32::MAX,
        s.len() > 0 ==> trailer.len() > 0,
    ensures
        parse_index(index_bytes(2, s) + trailer) == Ok::<Seq<EntryView>, InvalidIndexKind>(s),
{
    let magic = seq![68u8, 73, 82, 67];
    let eb = entries_bytes(s);
    let d = index_bytes(2, s) + trailer;
    assert(d == magic + be32_bytes(2) + be32_bytes(s.len() as int) + eb + trailer);
    assert(d.take(4) =~= magic);
    assert(d.subrange(4, 8) =~= be32_bytes(2));
    assert(d.subrange(8, 12) =~= be32_bytes(s.len() as int));
    lemma_be32_at(d, 4, 2);
    lemma_be32_at(d, 8, s.len() as int);
    assert(d.subrange(12, 12 + eb.len() as int) =~= eb);
    lemma_entries_round_trip(d, 12, s);
}

proof fn lemma_filter_sorted(s: Seq<IndexEntry>, p: spec_fn(IndexEntry) -> bool)
    requires
        is_sorted(s),
    ensures
        is_sorted(s.filter(p)),
    decreases s.len(),
{
    reveal(Seq::filter);
    if s.len() > 0 {
        let t = s.drop_last();
        lemma_prefix_in_order(s, key_of::<IndexEntry>());
        lemma_filter_sorted(t, p);
        let f = t.filter(p);
        let r = s.filter(p);
        let key = key_of::<IndexEntry>();
        assert forall|i: int, j: int| 0 <= i < j < r.len() implies !key_lt(
            key(#[trigger] r[j]),
            key(#[trigger] r[i]),
        ) by {
            if j < f.len() {
                assert(r[j] == f[j] && r[i] == f[i]);
            } else {
                assert(r[i] == f[i]);
                assert(f.contains(f[i]));
                t.lemma_filter_contains_rev(p, f[i]);
                let k = choose|k: int| 0 <= k < t.len() && t[k] == f[i];
                assert(s[k] == f[i]);
                assert(r[j] == s[s.len() - 1]);
            }
        }
    }
}

/// Every operation on an index leaves its entries sorted: those that add sort them, and those
/// that remove keep the order.
pub proof fn theorem_entries_stay_sorted(
    s: Seq<IndexEntry>,
    added: Seq<IndexEntry>,
    path: Seq<char>,
    ids: Seq<Seq<char>>,
)
    ensures
        is_sorted(stable_sort(s + added)),
        is_sorted(s) ==> is_sorted(without_path(s, path)),
        is_sorted(s) ==> is_sorted(with_listed_ids(s, ids)),
{
    theorem_stable_sort(s + added);
    if is_sorted(s) {
        lemma_filter_sorted(s, other_path(path));
        lemma_filter_sorted(s, listed_id(ids));
    }
}

/// Adding entries drops none: what the index held and what was added is all there.
pub proof fn theorem_add_keeps_entries(s: Seq<IndexEntry>, added: Seq<IndexEntry>)
    ensures
        stable_sort(s + added).to_multiset() == s.to_multiset().add(added.to_multiset()),
{
    theorem_stable_sort(s + added);
    vstd::seq_lib::lemma_multiset_commutative(s, added);
}

/// A sorted index has its entries in the order of the bytes of their paths, and those with the same
/// path in the order of their stages.
pub proof fn theorem_order_of_entries(s: Seq<IndexEntry>, i: int, j: int)
    requires
        is_sorted(s),
        0 <= i < j < s.len(),
    ensures
        !bytes_lt(encode_utf8(s[j].object_name@), encode_utf8(s[i].object_name@)),
        s[i].object_name@ == s[j].object_name@ ==> s[i].flag_stage <= s[j].flag_stage,
{
    let key = key_of::<IndexEntry>();
    assert(!key_lt(key(s[j]), key(s[i])));
}

/// A path that is taken out of an index is gone, and every other entry is still there.
pub proof fn theorem_removed_path_is_gone(s: Seq<IndexEntry>, path: Seq<char>, e: IndexEntry)
    ensures
        !has_path(without_path(s, path), path),
        without_path(s, path).contains(e) <==> s.contains(e) && e.object_name@ != path,
{
    let after = without_path(s, path);
    crate::text::lemma_filter_contains(s, other_path(path), e);
    if has_path(after, path) {
        let i = choose|i: int| 0 <= i < after.len() && (#[trigger] after[i]).object_name@ == path;
        assert(after.contains(after[i]));
        crate::text::lemma_filter_contains(s, other_path(path), after[i]);
    }
}

/// Of an index the entries with listed IDs stay, all of them, and no others.
pub proof fn theorem_listed_entries_stay(
    s: Seq<IndexEntry>,
    ids: Seq<Seq<char>>,
    e: IndexEntry,
)
    ensures
        with_listed_ids(s, ids).contains(e) <==> s.contains(e) && ids.contains(e.object_id@),
{
    crate::text::lemma_filter_contains(s, listed_id(ids), e);
}

/// The mode of an entry tells its type and its permissions.
pub proof fn theorem_mode_of_entry(e: EntryView)
    ensures
        entry_type(entry_mode(e) / 0x1000) == Some(e.mode_type),
        entry_permissions(entry_mode(e) % 0x200) == Some(e.mode_perms),
{
}

} // verus!
