//! What holds of the trees that an index is stored as.

use vstd::prelude::*;
use vstd::utf8::encode_utf8;

use crate::encoding::lemma_encode_concat;
use crate::helpers::fs::parent_path;
use crate::helpers::{dir_chain, plus_missing};
use crate::index::EntryView;
use crate::repo::trees::{all_dirs, dir_key, dir_order, root_tree, subtree_nodes, tree_name};
use crate::sorting::{key_lt, theorem_sorted_by};

verus! {

/// Whether an entry of an index lies in a directory or below it.
pub open spec fn is_below(e: EntryView, dir: Seq<char>) -> bool {
    dir_chain(parent_path(e.object_name)).contains(dir)
}

proof fn lemma_plus_missing(keys: Seq<Seq<char>>, more: Seq<Seq<char>>)
    ensures
        keys.no_duplicates() ==> plus_missing(keys, more).no_duplicates(),
        forall|k: Seq<char>| #[trigger]
            plus_missing(keys, more).contains(k) <==> keys.contains(k) || more.contains(k),
    decreases more.len(),
{
    if more.len() > 0 {
        let first = more[0];
        let rest = more.drop_first();
        let next = if keys.contains(first) {
            keys
        } else {
            keys.push(first)
        };
        lemma_plus_missing(next, rest);
        assert(plus_missing(keys, more) == plus_missing(next, rest));
        assert forall|k: Seq<char>| #[trigger]
            plus_missing(keys, more).contains(k) <==> keys.contains(k) || more.contains(k) by {
            assert(next.contains(k) <==> keys.contains(k) || k == first) by {
                if keys.contains(k) {
                    let j = choose|j: int| 0 <= j < keys.len() && keys[j] == k;
                    assert(next[j] == k);
                }
                if k == first && !keys.contains(first) {
                    assert(next[keys.len() as int] == k);
                }
            }
            assert(more.contains(k) <==> k == first || rest.contains(k)) by {
                if more.contains(k) {
                    let j = choose|j: int| 0 <= j < more.len() && more[j] == k;
                    if j > 0 {
                        assert(rest[j - 1] == k);
                    }
                }
                if rest.contains(k) {
                    let j = choose|j: int| 0 <= j < rest.len() && rest[j] == k;
                    assert(more[j + 1] == k);
                }
            }
        }
    }
}

proof fn lemma_all_dirs(entries: Seq<EntryView>)
    ensures
        all_dirs(entries).no_duplicates(),
        forall|d: Seq<char>| #[trigger]
            all_dirs(entries).contains(d) <==> exists|i: int|
                0 <= i < entries.len() && is_below(#[trigger] entries[i], d),
    decreases entries.len(),
{
    if entries.len() > 0 {
        let before = entries.drop_last();
        let last = entries.last();
        lemma_all_dirs(before);
        lemma_plus_missing(all_dirs(before), dir_chain(parent_path(last.object_name)));
        assert forall|d: Seq<char>| #[trigger]
            all_dirs(entries).contains(d) <==> exists|i: int|
                0 <= i < entries.len() && is_below(#[trigger] entries[i], d) by {
            if all_dirs(before).contains(d) {
                let i = choose|i: int| 0 <= i < before.len() && is_below(#[trigger] before[i], d);
                assert(is_below(entries[i], d));
            }
            if is_below(last, d) {
                assert(is_below(entries[entries.len() - 1], d));
            }
            if exists|i: int| 0 <= i < entries.len() && is_below(#[trigger] entries[i], d) {
                let i = choose|i: int| 0 <= i < entries.len() && is_below(#[trigger] entries[i], d);
                if i < before.len() {
                    assert(is_below(before[i], d));
                }
            }
        }
    }
}

pub(crate) proof fn lemma_chain_ends(path: Seq<char>)
    ensures
        dir_chain(path).contains(Seq::empty()),
    decreases path.len(),
{
    if path.len() == 0 {
        assert(path =~= Seq::empty());
        assert(dir_chain(path)[0] == path);
    } else {
        let parent = parent_path(path);
        crate::text::lemma_after_last(path, '/');
        lemma_chain_ends(parent);
        let rest = dir_chain(parent);
        let j = choose|j: int| 0 <= j < rest.len() && rest[j] == Seq::<char>::empty();
        assert(dir_chain(path)[j + 1] == Seq::<char>::empty());
    }
}

proof fn lemma_encode_longer(d: Seq<char>)
    requires
        d.len() > 0,
    ensures
        encode_utf8(parent_path(d)).len() < encode_utf8(d).len(),
{
    let p = parent_path(d);
    crate::text::lemma_after_last(d, '/');
    let rest = d.skip(p.len() as int);
    assert(d =~= p + rest);
    lemma_encode_concat(p, rest);
    assert(rest.len() > 0);
    vstd::utf8::encode_utf8_valid_utf8(rest);
    if encode_utf8(rest).len() == 0 {
        crate::encoding::lemma_decode_encode(rest);
        crate::encoding::lemma_decode_encode(Seq::<char>::empty());
        assert(encode_utf8(rest) =~= encode_utf8(Seq::<char>::empty()));
    }
}

/// The directories of an index are those that its entries lie in or below, each once, and each
/// comes after the directories directly below it.
pub proof fn theorem_dir_order(entries: Seq<EntryView>)
    ensures
        dir_order(entries).no_duplicates(),
        forall|d: Seq<char>| #[trigger]
            dir_order(entries).contains(d) <==> exists|i: int|
                0 <= i < entries.len() && is_below(#[trigger] entries[i], d),
        forall|i: int, j: int|
            0 <= i < dir_order(entries).len() && 0 <= j < dir_order(entries).len()
                && #[trigger] dir_order(entries)[j].len() > 0 && parent_path(dir_order(entries)[j])
                == #[trigger] dir_order(entries)[i] ==> j < i,
{
    let dirs = dir_order(entries);
    let all = all_dirs(entries);
    lemma_all_dirs(entries);
    theorem_sorted_by(all, dir_key());
    all.lemma_multiset_has_no_duplicates();
    dirs.lemma_multiset_has_no_duplicates_conv();
    assert forall|d: Seq<char>| #[trigger]
        dirs.contains(d) <==> exists|i: int|
            0 <= i < entries.len() && is_below(#[trigger] entries[i], d) by {
        vstd::seq_lib::to_multiset_contains(all, d);
        vstd::seq_lib::to_multiset_contains(dirs, d);
        assert(dirs.contains(d) <==> all.contains(d));
    }
    assert forall|i: int, j: int|
        0 <= i < dirs.len() && 0 <= j < dirs.len() && #[trigger] dirs[j].len() > 0 && parent_path(
            dirs[j],
        ) == #[trigger] dirs[i] implies j < i by {
        lemma_encode_longer(dirs[j]);
        if i < j {
            assert(!key_lt(dir_key()(dirs[j]), dir_key()(dirs[i])));
        }
    }
}

/// The tree for a directory has an entry for each directory directly below it.
pub proof fn theorem_subtrees_complete(entries: Seq<EntryView>, i: nat)
    requires
        i < dir_order(entries).len(),
    ensures
        ({
            let dirs = dir_order(entries);
            subtree_nodes(entries, dirs, dirs[i as int], i) == subtree_nodes(
                entries,
                dirs,
                dirs[i as int],
                dirs.len(),
            )
        }),
{
    theorem_dir_order(entries);
    lemma_subtrees_from(entries, i, dir_order(entries).len());
}

proof fn lemma_subtrees_from(entries: Seq<EntryView>, i: nat, n: nat)
    requires
        i < dir_order(entries).len(),
        i <= n <= dir_order(entries).len(),
        forall|a: int, b: int|
            0 <= a < dir_order(entries).len() && 0 <= b < dir_order(entries).len()
                && #[trigger] dir_order(entries)[b].len() > 0 && parent_path(dir_order(entries)[b])
                == #[trigger] dir_order(entries)[a] ==> b < a,
    ensures
        ({
            let dirs = dir_order(entries);
            subtree_nodes(entries, dirs, dirs[i as int], i) == subtree_nodes(
                entries,
                dirs,
                dirs[i as int],
                n,
            )
        }),
    decreases n,
{
    if n > i {
        let dirs = dir_order(entries);
        lemma_subtrees_from(entries, i, (n - 1) as nat);
        let d = dirs[n - 1];
        assert(!(d.len() > 0 && parent_path(d) == dirs[i as int]));
    }
}

/// The tree for the top directory is the one that is made last, and there is one where the index
/// has entries.
pub proof fn theorem_root_tree(entries: Seq<EntryView>)
    requires
        entries.len() > 0,
    ensures
        dir_order(entries).len() > 0,
        dir_order(entries).last() == Seq::<char>::empty(),
        root_tree(entries) == tree_name(
            entries,
            dir_order(entries),
            (dir_order(entries).len() - 1) as nat,
        ),
{
    let dirs = dir_order(entries);
    let top = Seq::<char>::empty();
    theorem_dir_order(entries);
    lemma_chain_ends(parent_path(entries[0].object_name));
    assert(is_below(entries[0], top));
    assert(dirs.contains(top));
    let k = choose|k: int| 0 <= k < dirs.len() && dirs[k] == top;
    let n = dirs.len() - 1;
    theorem_sorted_by(all_dirs(entries), dir_key());
    if k < n {
        assert(dirs[n] != dirs[k]);
        assert(dirs[n].len() > 0) by {
            if dirs[n].len() == 0 {
                assert(dirs[n] =~= top);
            }
        }
        lemma_encode_longer(dirs[n]);
        crate::encoding::lemma_encode_ascii(top);
        assert(encode_utf8(top).len() == 0);
        assert(!key_lt(dir_key()(dirs[n]), dir_key()(dirs[k])));
        crate::sorting::lemma_bytes_irreflexive(Seq::<u8>::empty());
    }
}

} // verus!
