//! What holds of what is made in the worktree when a tree is checked out.

use vstd::prelude::*;

use crate::helpers::dir_chain;
use crate::helpers::fs::parent_path;
use crate::index::laws::is_full_id;
use crate::index::EntryView;
use crate::objects::raw::DataView;
use crate::objects::tree::{node_key, storable_node, theorem_tree_round_trip, NodeView};
use crate::objects::StoredView;
use crate::repo::checkout::{checkout_items, ItemView};
use crate::repo::flatten::path_below;
use crate::repo::model::{object_at, raw_object, Fault};
use crate::repo::read_back::{
    dir_node, has_file, id_of_path, is_subtree, lemma_chain_prefix, lemma_chain_tail,
    lemma_dir_relative, lemma_file_name_plain, lemma_files_in, lemma_id_of_path, lemma_mode_of_file,
    lemma_path_below, lemma_pieces, lemma_some_piece_next, lemma_subtree_nodes, piece,
    plain_entries, plain_entry, some_piece_has,
};
use crate::repo::tree_laws::{is_below, lemma_chain_ends, theorem_dir_order, theorem_root_tree};
use crate::repo::trees::{
    dir_order, file_node, files_in, root_tree, subtree_nodes, tree_data, tree_name, tree_nodes,
};
use crate::sorting::theorem_sorted_by;
use crate::stores::backends::ObjectMap;
use crate::text::lemma_after_last;

verus! {

/// The path of something to make.
pub open spec fn item_path(item: ItemView) -> Seq<char> {
    match item {
        ItemView::Directory(path) => path,
        ItemView::File(path, _, _) => path,
    }
}

/// Whether a path lies below a directory: it starts with the path of the directory and a slash.
pub open spec fn lies_below(path: Seq<char>, dir: Seq<char>) -> bool {
    path.len() > dir.len() && path.take(dir.len() as int) == dir && path[dir.len() as int] == '/'
}

proof fn lemma_lies_below(path: Seq<char>, middle: Seq<char>, dir: Seq<char>)
    requires
        lies_below(path, middle),
        lies_below(middle, dir),
    ensures
        lies_below(path, dir),
{
    assert(path.take(dir.len() as int) =~= middle.take(dir.len() as int)) by {
        assert forall|i: int| 0 <= i < dir.len() implies path[i] == middle[i] by {
            assert(path.take(middle.len() as int)[i] == path[i]);
        }
    }
    assert(path.take(middle.len() as int)[dir.len() as int] == path[dir.len() as int]);
}

/// What is made for the entries of a directory lies below it: the path of each file and each
/// directory starts with that of the directory and a slash.
pub proof fn theorem_items_lie_below(
    objects: Seq<ObjectMap>,
    nodes: Seq<NodeView>,
    dir: Seq<char>,
    steps: nat,
)
    requires
        dir.len() > 0,
    ensures
        checkout_items(objects, nodes, dir, steps) matches Some(items) ==> forall|i: int|
            0 <= i < items.len() ==> lies_below(item_path(#[trigger] items[i]), dir),
    decreases steps, nodes.len(),
{
    if nodes.len() > 0 && checkout_items(objects, nodes, dir, steps) is Some {
        let node = nodes.last();
        let path = path_below(dir, node.name);
        theorem_items_lie_below(objects, nodes.drop_last(), dir, steps);
        let before = checkout_items(objects, nodes.drop_last(), dir, steps)->0;
        let items = checkout_items(objects, nodes, dir, steps)->0;
        assert(path.take(dir.len() as int) =~= dir);
        assert(lies_below(path, dir));
        match object_at(objects, node.object_id) {
            Ok(Some(StoredView::Tree(below))) => {
                theorem_items_lie_below(objects, below, path, (steps - 1) as nat);
                let more = checkout_items(objects, below, path, (steps - 1) as nat)->0;
                assert forall|i: int| 0 <= i < items.len() implies lies_below(
                    item_path(#[trigger] items[i]),
                    dir,
                ) by {
                    if i < before.len() {
                        assert(items[i] == before[i]);
                    } else if i > before.len() {
                        assert(items[i] == more[i - before.len() - 1]);
                        lemma_lies_below(item_path(items[i]), path, dir);
                    }
                }
            },
            Ok(Some(StoredView::Blob(_))) => {
                assert forall|i: int| 0 <= i < items.len() implies lies_below(
                    item_path(#[trigger] items[i]),
                    dir,
                ) by {
                    if i < before.len() {
                        assert(items[i] == before[i]);
                    }
                }
            },
            _ => {},
        }
    }
}

/// The entries of a tree are made one after the other: what is made for further entries comes
/// behind what is made for the first ones.
pub proof fn theorem_items_follow(
    objects: Seq<ObjectMap>,
    a: Seq<NodeView>,
    b: Seq<NodeView>,
    prefix: Seq<char>,
    steps: nat,
)
    ensures
        checkout_items(objects, a + b, prefix, steps) == match (
            checkout_items(objects, a, prefix, steps),
            checkout_items(objects, b, prefix, steps),
        ) {
            (Some(first), Some(second)) => Some(first + second),
            _ => None,
        },
    decreases b.len(),
{
    let first = checkout_items(objects, a, prefix, steps);
    if b.len() == 0 {
        assert(a + b =~= a);
        assert(checkout_items(objects, b, prefix, steps) == Some(Seq::<ItemView>::empty()));
        if first is Some {
            assert(first->0 + Seq::<ItemView>::empty() =~= first->0);
        }
    } else {
        theorem_items_follow(objects, a, b.drop_last(), prefix, steps);
        assert((a + b).drop_last() =~= a + b.drop_last());
        assert((a + b).last() == b.last());
        let second = checkout_items(objects, b.drop_last(), prefix, steps);
        if first is Some && second is Some {
            let node = b.last();
            let path = path_below(prefix, node.name);
            let x = first->0;
            let y = second->0;
            match object_at(objects, node.object_id) {
                Ok(Some(StoredView::Tree(below))) => {
                    if steps > 0 {
                        if let Some(more) = checkout_items(
                            objects,
                            below,
                            path,
                            (steps - 1) as nat,
                        ) {
                            assert((x + y).push(ItemView::Directory(path)) + more =~= x + (y.push(
                                ItemView::Directory(path),
                            ) + more));
                        }
                    }
                },
                Ok(Some(StoredView::Blob(data))) => {
                    let file = ItemView::File(path, data, node.object_id);
                    assert((x + y).push(file) =~= x + y.push(file));
                },
                _ => {},
            }
        }
    }
}

/// For an entry of a directory that is a blob, a file is made with the path of the directory, a
/// slash and the name of the entry, with the contents of the blob and its ID.
pub proof fn theorem_blob_becomes_file(
    objects: Seq<ObjectMap>,
    node: NodeView,
    dir: Seq<char>,
    data: Seq<u8>,
    steps: nat,
)
    requires
        object_at(objects, node.object_id) == Ok::<Option<StoredView>, Fault>(
            Some(StoredView::Blob(data)),
        ),
    ensures
        checkout_items(objects, seq![node], Seq::empty(), steps) == Some(
            seq![ItemView::File(node.name, data, node.object_id)],
        ),
        dir.len() > 0 ==> checkout_items(objects, seq![node], dir, steps) == Some(
            seq![ItemView::File(dir + seq!['/'] + node.name, data, node.object_id)],
        ),
{
    let one = seq![node];
    let top = Seq::<char>::empty();
    assert(one.drop_last() =~= Seq::empty());
    assert(one.last() == node);
    assert(checkout_items(objects, one.drop_last(), top, steps) == Some(
        Seq::<ItemView>::empty(),
    ));
    assert(checkout_items(objects, one.drop_last(), dir, steps) == Some(
        Seq::<ItemView>::empty(),
    ));
    assert(Seq::empty().push(ItemView::File(node.name, data, node.object_id))
        =~= seq![ItemView::File(node.name, data, node.object_id)]);
    let path = dir + seq!['/'] + node.name;
    assert(Seq::empty().push(ItemView::File(path, data, node.object_id))
        =~= seq![ItemView::File(path, data, node.object_id)]);
}

/// For an entry of a directory that is a tree, a directory is made with the path of the first, a
/// slash and the name of the entry, and behind it what is made for the entries of the tree with
/// that path.
pub proof fn theorem_tree_becomes_directory(
    objects: Seq<ObjectMap>,
    node: NodeView,
    dir: Seq<char>,
    below: Seq<NodeView>,
    steps: nat,
)
    requires
        steps > 0,
        object_at(objects, node.object_id) == Ok::<Option<StoredView>, Fault>(
            Some(StoredView::Tree(below)),
        ),
    ensures
        checkout_items(objects, seq![node], Seq::empty(), steps) == match checkout_items(
            objects,
            below,
            node.name,
            (steps - 1) as nat,
        ) {
            Some(more) => Some(seq![ItemView::Directory(node.name)] + more),
            None => None,
        },
        dir.len() > 0 ==> checkout_items(objects, seq![node], dir, steps) == match checkout_items(
            objects,
            below,
            dir + seq!['/'] + node.name,
            (steps - 1) as nat,
        ) {
            Some(more) => Some(
                seq![ItemView::Directory(dir + seq!['/'] + node.name)] + more,
            ),
            None => None,
        },
{
    let one = seq![node];
    let top = Seq::<char>::empty();
    let none = Seq::<ItemView>::empty();
    assert(one.drop_last() =~= Seq::empty());
    assert(one.last() == node);
    assert(checkout_items(objects, one.drop_last(), top, steps) == Some(none));
    assert(checkout_items(objects, one.drop_last(), dir, steps) == Some(none));
    let path = dir + seq!['/'] + node.name;
    assert(none.push(ItemView::Directory(node.name)) =~= seq![ItemView::Directory(node.name)]);
    assert(none.push(ItemView::Directory(path)) =~= seq![ItemView::Directory(path)]);
}

/// Whether objects hold the trees of an index under their IDs.
pub open spec fn stores_trees(objects: Seq<ObjectMap>, entries: Seq<EntryView>) -> bool {
    let dirs = dir_order(entries);
    forall|i: nat|
        i < dirs.len() ==> is_full_id(#[trigger] tree_name(entries, dirs, i)) && raw_object(
            objects,
            tree_name(entries, dirs, i),
        ) == Ok::<Option<DataView>, Fault>(Some(tree_data(entries, dirs, i)))
}

/// Whether the object of each entry of an index is a blob.
pub open spec fn stores_files(objects: Seq<ObjectMap>, entries: Seq<EntryView>) -> bool {
    forall|k: int|
        0 <= k < entries.len() ==> object_at(objects, (#[trigger] entries[k]).object_id) matches Ok(
            Some(StoredView::Blob(_)),
        )
}

/// Whether the files among things to make are those with the given paths, each once, with the IDs
/// that the index has for them and the contents of the blobs with these IDs.
spec fn lists_files(
    objects: Seq<ObjectMap>,
    entries: Seq<EntryView>,
    items: Seq<ItemView>,
    paths: spec_fn(Seq<char>) -> bool,
) -> bool {
    &&& forall|i: int|
        0 <= i < items.len() ==> (#[trigger] items[i] matches ItemView::File(p, data, id) ==> paths(
            p,
        ) && id == id_of_path(entries, p) && object_at(objects, id) == Ok::<
            Option<StoredView>,
            Fault,
        >(Some(StoredView::Blob(data))))
    &&& forall|p: Seq<char>| #[trigger] paths(p) ==> exists|i: int| is_file_at(items, i, p)
    &&& forall|i: int, j: int, p: Seq<char>|
        is_file_at(items, i, p) && is_file_at(items, j, p) ==> i == j
}

/// Whether the item at an index is a file with a path.
pub open spec fn is_file_at(items: Seq<ItemView>, i: int, path: Seq<char>) -> bool {
    0 <= i < items.len() && items[i] is File && item_path(items[i]) == path
}

proof fn lemma_lists_both(
    objects: Seq<ObjectMap>,
    entries: Seq<EntryView>,
    a: Seq<ItemView>,
    p: spec_fn(Seq<char>) -> bool,
    b: Seq<ItemView>,
    q: spec_fn(Seq<char>) -> bool,
    r: spec_fn(Seq<char>) -> bool,
)
    requires
        lists_files(objects, entries, a, p),
        lists_files(objects, entries, b, q),
        forall|x: Seq<char>| !(#[trigger] p(x) && q(x)),
        forall|x: Seq<char>| #[trigger] r(x) == (p(x) || q(x)),
    ensures
        lists_files(objects, entries, a + b, r),
{
    let c = a + b;
    let n = a.len() as int;
    assert forall|i: int| 0 <= i < c.len() implies (#[trigger] c[i] matches ItemView::File(
        x,
        data,
        id,
    ) ==> r(x) && id == id_of_path(entries, x) && object_at(objects, id) == Ok::<
        Option<StoredView>,
        Fault,
    >(Some(StoredView::Blob(data)))) by {
        if i < n {
            assert(c[i] == a[i]);
        } else {
            assert(c[i] == b[i - n]);
        }
    }
    assert forall|x: Seq<char>| #[trigger] r(x) implies exists|i: int| is_file_at(c, i, x) by {
        if p(x) {
            let i = choose|i: int| is_file_at(a, i, x);
            assert(c[i] == a[i]);
            assert(is_file_at(c, i, x));
        } else {
            let i = choose|i: int| is_file_at(b, i, x);
            assert(c[i + n] == b[i]);
            assert(is_file_at(c, i + n, x));
        }
    }
    assert forall|i: int, j: int, x: Seq<char>|
        is_file_at(c, i, x) && is_file_at(c, j, x) implies i == j by {
        lemma_file_in_part(objects, entries, a, p, b, q, i, x);
        lemma_file_in_part(objects, entries, a, p, b, q, j, x);
    }
}

proof fn lemma_file_in_part(
    objects: Seq<ObjectMap>,
    entries: Seq<EntryView>,
    a: Seq<ItemView>,
    p: spec_fn(Seq<char>) -> bool,
    b: Seq<ItemView>,
    q: spec_fn(Seq<char>) -> bool,
    i: int,
    x: Seq<char>,
)
    requires
        lists_files(objects, entries, a, p),
        lists_files(objects, entries, b, q),
        is_file_at(a + b, i, x),
    ensures
        i < a.len() ==> is_file_at(a, i, x) && p(x),
        i >= a.len() ==> is_file_at(b, i - a.len(), x) && q(x),
{
    let c = a + b;
    if i < a.len() {
        assert(c[i] == a[i]);
        assert(a[i] is File);
    } else {
        assert(c[i] == b[i - a.len()]);
        assert(b[i - a.len()] is File);
    }
}

proof fn lemma_lists_none(
    objects: Seq<ObjectMap>,
    entries: Seq<EntryView>,
    items: Seq<ItemView>,
    paths: spec_fn(Seq<char>) -> bool,
)
    requires
        forall|i: int| 0 <= i < items.len() ==> #[trigger] items[i] is Directory,
        forall|x: Seq<char>| !#[trigger] paths(x),
    ensures
        lists_files(objects, entries, items, paths),
{
    assert forall|i: int, j: int, p: Seq<char>|
        is_file_at(items, i, p) && is_file_at(items, j, p) implies i == j by {
        assert(items[i] is Directory);
    }
}

spec fn piece_paths(entries: Seq<EntryView>, dir: Seq<char>, node: NodeView) -> spec_fn(
    Seq<char>,
) -> bool {
    |p: Seq<char>| piece(entries, dir, node).contains_key(p)
}

spec fn pieces_paths(entries: Seq<EntryView>, dir: Seq<char>, nodes: Seq<NodeView>) -> spec_fn(
    Seq<char>,
) -> bool {
    |p: Seq<char>| some_piece_has(entries, dir, nodes, p)
}

/// Whether a tree entry is made as the files that it stands for.
spec fn makes_piece(
    objects: Seq<ObjectMap>,
    entries: Seq<EntryView>,
    dir: Seq<char>,
    steps: nat,
    node: NodeView,
) -> bool {
    checkout_items(objects, seq![node], dir, steps) matches Some(items) && lists_files(
        objects,
        entries,
        items,
        piece_paths(entries, dir, node),
    )
}

/// Whether two tree entries stand for the same path.
spec fn both_have(
    entries: Seq<EntryView>,
    dir: Seq<char>,
    x: NodeView,
    y: NodeView,
    p: Seq<char>,
) -> bool {
    piece(entries, dir, x).contains_key(p) && piece(entries, dir, y).contains_key(p)
}

/// Whether no two of some tree entries stand for the same path.
spec fn pieces_apart(entries: Seq<EntryView>, dir: Seq<char>, nodes: Seq<NodeView>) -> bool {
    forall|a: int, b: int, p: Seq<char>|
        0 <= a < nodes.len() && 0 <= b < nodes.len() && #[trigger] both_have(
            entries,
            dir,
            nodes[a],
            nodes[b],
            p,
        ) ==> a == b
}

proof fn lemma_nodes_made(
    objects: Seq<ObjectMap>,
    entries: Seq<EntryView>,
    dir: Seq<char>,
    steps: nat,
    nodes: Seq<NodeView>,
)
    requires
        forall|n: int|
            0 <= n < nodes.len() ==> makes_piece(objects, entries, dir, steps, #[trigger] nodes[n]),
        pieces_apart(entries, dir, nodes),
    ensures
        checkout_items(objects, nodes, dir, steps) matches Some(items) && lists_files(
            objects,
            entries,
            items,
            pieces_paths(entries, dir, nodes),
        ),
    decreases nodes.len(),
{
    let all = pieces_paths(entries, dir, nodes);
    if nodes.len() == 0 {
        lemma_lists_none(objects, entries, Seq::empty(), all);
    } else {
        let before = nodes.drop_last();
        let node = nodes.last();
        let n = nodes.len() - 1;
        assert forall|m: int| 0 <= m < before.len() implies makes_piece(
            objects,
            entries,
            dir,
            steps,
            #[trigger] before[m],
        ) by {
            assert(before[m] == nodes[m]);
        }
        assert forall|a: int, b: int, p: Seq<char>|
            0 <= a < before.len() && 0 <= b < before.len() && #[trigger] both_have(
                entries,
                dir,
                before[a],
                before[b],
                p,
            ) implies a == b by {
            assert(both_have(entries, dir, nodes[a], nodes[b], p));
        }
        lemma_nodes_made(objects, entries, dir, steps, before);
        assert(makes_piece(objects, entries, dir, steps, nodes[n]));
        theorem_items_follow(objects, before, seq![node], dir, steps);
        assert(before + seq![node] =~= nodes);
        let p = pieces_paths(entries, dir, before);
        let q = piece_paths(entries, dir, node);
        assert forall|x: Seq<char>| !(#[trigger] p(x) && q(x)) by {
            if p(x) && q(x) {
                let a = choose|a: int|
                    0 <= a < before.len() && piece(
                        entries,
                        dir,
                        #[trigger] before[a],
                    ).contains_key(x);
                assert(both_have(entries, dir, nodes[a], nodes[n], x));
            }
        }
        assert forall|x: Seq<char>| #[trigger] all(x) == (p(x) || q(x)) by {
            lemma_some_piece_next(entries, dir, nodes, x);
        }
        lemma_lists_both(
            objects,
            entries,
            checkout_items(objects, before, dir, steps)->0,
            p,
            checkout_items(objects, seq![node], dir, steps)->0,
            q,
            all,
        );
    }
}

proof fn lemma_files_in_once(entries: Seq<EntryView>, dir: Seq<char>)
    requires
        plain_entries(entries),
    ensures
        files_in(entries, dir).no_duplicates(),
    decreases entries.len(),
{
    if entries.len() > 0 {
        let before = entries.drop_last();
        let last = entries.last();
        let n = entries.len() - 1;
        assert(plain_entries(before)) by {
            assert forall|i: int| 0 <= i < before.len() implies plain_entry(
                #[trigger] before[i],
            ) by {
                assert(plain_entry(entries[i]));
            }
            assert forall|i: int, j: int| 0 <= i < j < before.len() implies (
            #[trigger] before[i]).object_name != (#[trigger] before[j]).object_name by {
                assert(entries[i].object_name != entries[j].object_name);
            }
        }
        lemma_files_in_once(before, dir);
        let x = file_node(last);
        if parent_path(last.object_name) == dir && files_in(before, dir).contains(x) {
            lemma_files_in(before, dir, x);
            let k = choose|k: int|
                0 <= k < before.len() && parent_path((#[trigger] before[k]).object_name) == dir
                    && file_node(before[k]) == x;
            assert(plain_entry(entries[k]));
            assert(plain_entry(entries[n]));
            lemma_path_below(entries[k].object_name);
            lemma_path_below(entries[n].object_name);
            assert(entries[k].object_name != entries[n].object_name);
        }
    }
}

proof fn lemma_subtrees_once(entries: Seq<EntryView>, dir: Seq<char>, n: nat)
    requires
        plain_entries(entries),
        n <= dir_order(entries).len(),
    ensures
        subtree_nodes(entries, dir_order(entries), dir, n).no_duplicates(),
    decreases n,
{
    let dirs = dir_order(entries);
    if n > 0 {
        let m = (n - 1) as nat;
        lemma_subtrees_once(entries, dir, m);
        let d = dirs[m as int];
        let x = dir_node(entries, dirs, m);
        if d.len() > 0 && parent_path(d) == dir && subtree_nodes(entries, dirs, dir, m).contains(
            x,
        ) {
            lemma_subtree_nodes(entries, dirs, dir, m, x);
            let j = choose|j: nat| is_subtree(entries, dirs, dir, m, x, j);
            lemma_dir_relative(entries, j);
            lemma_dir_relative(entries, m);
            lemma_path_below(dirs[j as int]);
            lemma_path_below(d);
            theorem_dir_order(entries);
            assert(dirs[j as int] != dirs[m as int]);
        }
    }
}

/// Where a tree entry of a directory comes from: a file in it, or a directory in it.
proof fn lemma_node_origin(entries: Seq<EntryView>, i: nat, x: NodeView)
    requires
        i < dir_order(entries).len(),
        tree_nodes(entries, dir_order(entries), i).contains(x),
    ensures
        (exists|k: int|
            0 <= k < entries.len() && parent_path((#[trigger] entries[k]).object_name)
                == dir_order(entries)[i as int] && file_node(entries[k]) == x) || (exists|j: nat|
            is_subtree(entries, dir_order(entries), dir_order(entries)[i as int], i, x, j)),
{
    let dirs = dir_order(entries);
    let dir = dirs[i as int];
    let files = files_in(entries, dir);
    let subs = subtree_nodes(entries, dirs, dir, i);
    theorem_sorted_by(files + subs, node_key());
    vstd::seq_lib::to_multiset_contains(tree_nodes(entries, dirs, i), x);
    vstd::seq_lib::to_multiset_contains(files + subs, x);
    crate::repo::commits::lemma_contains_concat(files, subs, x);
    lemma_files_in(entries, dir, x);
    lemma_subtree_nodes(entries, dirs, dir, i, x);
}

proof fn lemma_nodes_once(entries: Seq<EntryView>, i: nat)
    requires
        plain_entries(entries),
        i < dir_order(entries).len(),
    ensures
        tree_nodes(entries, dir_order(entries), i).no_duplicates(),
{
    let dirs = dir_order(entries);
    let dir = dirs[i as int];
    let files = files_in(entries, dir);
    let subs = subtree_nodes(entries, dirs, dir, i);
    let base = files + subs;
    let nodes = tree_nodes(entries, dirs, i);
    lemma_files_in_once(entries, dir);
    lemma_subtrees_once(entries, dir, i);
    assert forall|a: int, b: int| 0 <= a < b < base.len() implies base[a] != base[b] by {
        if a < files.len() && b >= files.len() {
            let x = files[a];
            let y = subs[b - files.len()];
            assert(files.contains(x));
            assert(subs.contains(y));
            lemma_files_in(entries, dir, x);
            lemma_subtree_nodes(entries, dirs, dir, i, y);
            let k = choose|k: int|
                0 <= k < entries.len() && parent_path((#[trigger] entries[k]).object_name) == dir
                    && file_node(entries[k]) == x;
            lemma_mode_of_file(entries[k]);
            let j = choose|j: nat| is_subtree(entries, dirs, dir, i, y, j);
            assert(y.mode < 0o100000);
        }
    }
    theorem_sorted_by(base, node_key());
    base.lemma_multiset_has_no_duplicates();
    nodes.lemma_multiset_has_no_duplicates_conv();
}

/// Of the directories above a path no two are in the same one.
proof fn lemma_chain_siblings(path: Seq<char>, x: Seq<char>, y: Seq<char>)
    requires
        dir_chain(path).contains(x),
        dir_chain(path).contains(y),
        x.len() > 0,
        y.len() > 0,
        parent_path(x) == parent_path(y),
    ensures
        x == y,
    decreases path.len(),
{
    if path.len() == 0 {
        lemma_chain_prefix(path, x);
    } else {
        lemma_after_last(path, '/');
        lemma_after_last(x, '/');
        lemma_after_last(y, '/');
        lemma_chain_tail(path, x);
        lemma_chain_tail(path, y);
        if x == path && y != path {
            lemma_chain_prefix(parent_path(path), y);
        } else if y == path && x != path {
            lemma_chain_prefix(parent_path(path), x);
        } else if x != path {
            lemma_chain_siblings(parent_path(path), x, y);
        }
    }
}

proof fn lemma_pieces_apart(entries: Seq<EntryView>, i: nat)
    requires
        plain_entries(entries),
        i < dir_order(entries).len(),
    ensures
        pieces_apart(
            entries,
            dir_order(entries)[i as int],
            tree_nodes(entries, dir_order(entries), i),
        ),
{
    let dirs = dir_order(entries);
    let dir = dirs[i as int];
    let nodes = tree_nodes(entries, dirs, i);
    lemma_nodes_once(entries, i);
    assert forall|a: int, b: int, p: Seq<char>|
        0 <= a < nodes.len() && 0 <= b < nodes.len() && #[trigger] both_have(
            entries,
            dir,
            nodes[a],
            nodes[b],
            p,
        ) implies a == b by {
        assert(nodes.contains(nodes[a]));
        assert(nodes.contains(nodes[b]));
        lemma_same_node(entries, i, nodes[a], nodes[b], p);
    }
}

/// What a tree entry that stands for a path comes from.
proof fn lemma_piece_origin(entries: Seq<EntryView>, i: nat, x: NodeView, p: Seq<char>)
    requires
        plain_entries(entries),
        i < dir_order(entries).len(),
        tree_nodes(entries, dir_order(entries), i).contains(x),
        piece(entries, dir_order(entries)[i as int], x).contains_key(p),
    ensures
        (parent_path(p) == dir_order(entries)[i as int] && exists|k: int|
            0 <= k < entries.len() && (#[trigger] entries[k]).object_name == p && file_node(
                entries[k],
            ) == x) || (exists|j: nat|
            is_subtree(entries, dir_order(entries), dir_order(entries)[i as int], i, x, j)
                && dir_chain(parent_path(p)).contains(dir_order(entries)[j as int])),
{
    let dirs = dir_order(entries);
    let dir = dirs[i as int];
    lemma_node_origin(entries, i, x);
    if exists|k: int|
        0 <= k < entries.len() && parent_path((#[trigger] entries[k]).object_name) == dir
            && file_node(entries[k]) == x {
        let k = choose|k: int|
            0 <= k < entries.len() && parent_path((#[trigger] entries[k]).object_name) == dir
                && file_node(entries[k]) == x;
        assert(plain_entry(entries[k]));
        lemma_path_below(entries[k].object_name);
        lemma_mode_of_file(entries[k]);
    } else {
        let j = choose|j: nat| is_subtree(entries, dirs, dir, i, x, j);
        let d = dirs[j as int];
        lemma_dir_relative(entries, j);
        lemma_path_below(d);
        assert(has_file(entries, d, p));
        let k = choose|k: int|
            0 <= k < entries.len() && (#[trigger] entries[k]).object_name == p && is_below(
                entries[k],
                d,
            );
        assert(dir_chain(parent_path(p)).contains(d));
    }
}

proof fn lemma_same_node(entries: Seq<EntryView>, i: nat, x: NodeView, y: NodeView, p: Seq<char>)
    requires
        plain_entries(entries),
        i < dir_order(entries).len(),
        tree_nodes(entries, dir_order(entries), i).contains(x),
        tree_nodes(entries, dir_order(entries), i).contains(y),
        both_have(entries, dir_order(entries)[i as int], x, y, p),
    ensures
        x == y,
{
    let dirs = dir_order(entries);
    let dir = dirs[i as int];
    lemma_piece_origin(entries, i, x, p);
    lemma_piece_origin(entries, i, y, p);
    theorem_dir_order(entries);
    let x_is_dir = exists|j: nat|
        is_subtree(entries, dirs, dir, i, x, j) && dir_chain(parent_path(p)).contains(
            dirs[j as int],
        );
    let y_is_dir = exists|j: nat|
        is_subtree(entries, dirs, dir, i, y, j) && dir_chain(parent_path(p)).contains(
            dirs[j as int],
        );
    if x_is_dir {
        let a = choose|j: nat|
            is_subtree(entries, dirs, dir, i, x, j) && dir_chain(parent_path(p)).contains(
                dirs[j as int],
            );
        lemma_after_last(dirs[a as int], '/');
        lemma_chain_prefix(parent_path(p), dirs[a as int]);
        assert(parent_path(p) != dir);
        assert(y_is_dir);
        let b = choose|j: nat|
            is_subtree(entries, dirs, dir, i, y, j) && dir_chain(parent_path(p)).contains(
                dirs[j as int],
            );
        lemma_chain_siblings(parent_path(p), dirs[a as int], dirs[b as int]);
        assert(a == b);
    } else {
        if y_is_dir {
            let b = choose|j: nat|
                is_subtree(entries, dirs, dir, i, y, j) && dir_chain(parent_path(p)).contains(
                    dirs[j as int],
                );
            lemma_after_last(dirs[b as int], '/');
            lemma_chain_prefix(parent_path(p), dirs[b as int]);
        }
        let k = choose|k: int|
            0 <= k < entries.len() && (#[trigger] entries[k]).object_name == p && file_node(
                entries[k],
            ) == x;
        let m = choose|k: int|
            0 <= k < entries.len() && (#[trigger] entries[k]).object_name == p && file_node(
                entries[k],
            ) == y;
        if k < m {
            assert(entries[k].object_name != entries[m].object_name);
        } else if m < k {
            assert(entries[m].object_name != entries[k].object_name);
        }
    }
}

proof fn lemma_file_made(
    objects: Seq<ObjectMap>,
    entries: Seq<EntryView>,
    dir: Seq<char>,
    steps: nat,
    k: int,
)
    requires
        plain_entries(entries),
        stores_files(objects, entries),
        0 <= k < entries.len(),
        parent_path(entries[k].object_name) == dir,
    ensures
        storable_node(file_node(entries[k])),
        makes_piece(objects, entries, dir, steps, file_node(entries[k])),
{
    let x = file_node(entries[k]);
    let path = entries[k].object_name;
    assert(plain_entry(entries[k]));
    lemma_mode_of_file(entries[k]);
    lemma_file_name_plain(path);
    lemma_path_below(path);
    lemma_id_of_path(entries, k);
    assert(object_at(objects, entries[k].object_id) matches Ok(Some(StoredView::Blob(_))));
    let data = object_at(objects, x.object_id)->Ok_0->0->Blob_0;
    theorem_blob_becomes_file(objects, x, dir, data, steps);
    if dir.len() == 0 {
        assert(dir =~= Seq::empty());
    }
    let items = seq![ItemView::File(path, data, x.object_id)];
    assert(checkout_items(objects, seq![x], dir, steps) == Some(items));
    let paths = piece_paths(entries, dir, x);
    assert forall|p: Seq<char>| #[trigger] paths(p) implies exists|i: int|
        is_file_at(items, i, p) by {
        assert(p == path);
        assert(is_file_at(items, 0, p));
    }
    assert(paths(path));
}

/// The tree for a directory of an index is made as the files that lie below it.
proof fn lemma_tree_made(objects: Seq<ObjectMap>, entries: Seq<EntryView>, i: nat, steps: nat)
    requires
        plain_entries(entries),
        stores_trees(objects, entries),
        stores_files(objects, entries),
        i < dir_order(entries).len(),
        steps >= i,
    ensures
        ({
            let dirs = dir_order(entries);
            let nodes = tree_nodes(entries, dirs, i);
            &&& object_at(objects, tree_name(entries, dirs, i)) == Ok::<Option<StoredView>, Fault>(
                Some(StoredView::Tree(nodes)),
            )
            &&& checkout_items(objects, nodes, dirs[i as int], steps) matches Some(items)
                && lists_files(
                objects,
                entries,
                items,
                |p: Seq<char>| has_file(entries, dirs[i as int], p),
            )
        }),
    decreases i,
{
    let dirs = dir_order(entries);
    let dir = dirs[i as int];
    let nodes = tree_nodes(entries, dirs, i);
    assert forall|n: int| 0 <= n < nodes.len() implies storable_node(#[trigger] nodes[n])
        && makes_piece(objects, entries, dir, steps, nodes[n]) by {
        let x = nodes[n];
        assert(nodes.contains(x));
        lemma_node_origin(entries, i, x);
        if exists|k: int|
            0 <= k < entries.len() && parent_path((#[trigger] entries[k]).object_name) == dir
                && file_node(entries[k]) == x {
            let k = choose|k: int|
                0 <= k < entries.len() && parent_path((#[trigger] entries[k]).object_name) == dir
                    && file_node(entries[k]) == x;
            lemma_file_made(objects, entries, dir, steps, k);
        } else {
            let j = choose|j: nat| is_subtree(entries, dirs, dir, i, x, j);
            lemma_tree_made(objects, entries, j, (steps - 1) as nat);
            lemma_directory_made(objects, entries, i, steps, j);
        }
    }
    assert forall|n: int| 0 <= n < nodes.len() implies storable_node(#[trigger] nodes[n]) by {
        assert(storable_node(nodes[n]) && makes_piece(objects, entries, dir, steps, nodes[n]));
    }
    assert forall|n: int| 0 <= n < nodes.len() implies makes_piece(
        objects,
        entries,
        dir,
        steps,
        #[trigger] nodes[n],
    ) by {
        assert(storable_node(nodes[n]) && makes_piece(objects, entries, dir, steps, nodes[n]));
    }
    lemma_tree_put_together(objects, entries, i, steps);
}

proof fn lemma_tree_put_together(
    objects: Seq<ObjectMap>,
    entries: Seq<EntryView>,
    i: nat,
    steps: nat,
)
    requires
        plain_entries(entries),
        stores_trees(objects, entries),
        i < dir_order(entries).len(),
        ({
            let dirs = dir_order(entries);
            let nodes = tree_nodes(entries, dirs, i);
            &&& forall|n: int| 0 <= n < nodes.len() ==> storable_node(#[trigger] nodes[n])
            &&& forall|n: int|
                0 <= n < nodes.len() ==> makes_piece(
                    objects,
                    entries,
                    dirs[i as int],
                    steps,
                    #[trigger] nodes[n],
                )
        }),
    ensures
        ({
            let dirs = dir_order(entries);
            let nodes = tree_nodes(entries, dirs, i);
            &&& object_at(objects, tree_name(entries, dirs, i)) == Ok::<Option<StoredView>, Fault>(
                Some(StoredView::Tree(nodes)),
            )
            &&& checkout_items(objects, nodes, dirs[i as int], steps) matches Some(items)
                && lists_files(
                objects,
                entries,
                items,
                |p: Seq<char>| has_file(entries, dirs[i as int], p),
            )
        }),
{
    let dirs = dir_order(entries);
    let dir = dirs[i as int];
    let nodes = tree_nodes(entries, dirs, i);
    lemma_tree_is_read(objects, entries, i);
    lemma_pieces_apart(entries, i);
    lemma_nodes_made(objects, entries, dir, steps, nodes);
    lemma_pieces_paths(entries, i);
}

proof fn lemma_pieces_paths(entries: Seq<EntryView>, i: nat)
    requires
        plain_entries(entries),
        i < dir_order(entries).len(),
    ensures
        pieces_paths(
            entries,
            dir_order(entries)[i as int],
            tree_nodes(entries, dir_order(entries), i),
        ) == (|p: Seq<char>| has_file(entries, dir_order(entries)[i as int], p)),
{
    let dirs = dir_order(entries);
    let p = pieces_paths(entries, dirs[i as int], tree_nodes(entries, dirs, i));
    let q = |p: Seq<char>| has_file(entries, dirs[i as int], p);
    assert forall|x: Seq<char>| #[trigger] p(x) == q(x) by {
        lemma_pieces(entries, i, x);
    }
    assert(p =~= q);
}

proof fn lemma_tree_is_read(objects: Seq<ObjectMap>, entries: Seq<EntryView>, i: nat)
    requires
        stores_trees(objects, entries),
        i < dir_order(entries).len(),
        forall|n: int|
            0 <= n < tree_nodes(entries, dir_order(entries), i).len() ==> storable_node(
                #[trigger] tree_nodes(entries, dir_order(entries), i)[n],
            ),
    ensures
        object_at(objects, tree_name(entries, dir_order(entries), i)) == Ok::<
            Option<StoredView>,
            Fault,
        >(Some(StoredView::Tree(tree_nodes(entries, dir_order(entries), i)))),
{
    let dirs = dir_order(entries);
    theorem_sorted_by(
        files_in(entries, dirs[i as int]) + subtree_nodes(entries, dirs, dirs[i as int], i),
        node_key(),
    );
    theorem_tree_round_trip(tree_nodes(entries, dirs, i));
    assert(is_full_id(tree_name(entries, dirs, i)));
}

proof fn lemma_directory_made(
    objects: Seq<ObjectMap>,
    entries: Seq<EntryView>,
    i: nat,
    steps: nat,
    j: nat,
)
    requires
        plain_entries(entries),
        stores_trees(objects, entries),
        i < dir_order(entries).len(),
        steps >= i,
        is_subtree(
            entries,
            dir_order(entries),
            dir_order(entries)[i as int],
            i,
            dir_node(entries, dir_order(entries), j),
            j,
        ),
        ({
            let dirs = dir_order(entries);
            let nodes = tree_nodes(entries, dirs, j);
            &&& object_at(objects, tree_name(entries, dirs, j)) == Ok::<Option<StoredView>, Fault>(
                Some(StoredView::Tree(nodes)),
            )
            &&& checkout_items(objects, nodes, dirs[j as int], (steps - 1) as nat) matches Some(
                items,
            ) && lists_files(
                objects,
                entries,
                items,
                |p: Seq<char>| has_file(entries, dirs[j as int], p),
            )
        }),
    ensures
        storable_node(dir_node(entries, dir_order(entries), j)),
        makes_piece(
            objects,
            entries,
            dir_order(entries)[i as int],
            steps,
            dir_node(entries, dir_order(entries), j),
        ),
{
    let dirs = dir_order(entries);
    let dir = dirs[i as int];
    let d = dirs[j as int];
    let x = dir_node(entries, dirs, j);
    let below = tree_nodes(entries, dirs, j);
    lemma_dir_relative(entries, j);
    lemma_path_below(d);
    lemma_file_name_plain(d);
    assert(is_full_id(tree_name(entries, dirs, j)));
    theorem_tree_becomes_directory(objects, x, dir, below, steps);
    if dir.len() == 0 {
        assert(dir =~= Seq::empty());
    }
    let more = checkout_items(objects, below, d, (steps - 1) as nat)->0;
    let made = seq![ItemView::Directory(d)];
    let none = |p: Seq<char>| false;
    let under = |p: Seq<char>| has_file(entries, d, p);
    let paths = piece_paths(entries, dir, x);
    lemma_lists_none(objects, entries, made, none);
    assert forall|p: Seq<char>| #[trigger] paths(p) == (none(p) || under(p)) by {}
    lemma_lists_both(objects, entries, made, none, more, under, paths);
}

/// Checking out the tree that an index was stored as makes exactly one file for each entry of the
/// index, with the full path of the entry, its ID, and the contents of the blob with that ID, and
/// no other files.
pub proof fn theorem_stored_index_is_checked_out(
    objects: Seq<ObjectMap>,
    entries: Seq<EntryView>,
    steps: nat,
)
    requires
        entries.len() > 0,
        plain_entries(entries),
        stores_trees(objects, entries),
        stores_files(objects, entries),
        steps >= dir_order(entries).len(),
    ensures
        object_at(objects, root_tree(entries)) matches Ok(Some(StoredView::Tree(nodes)))
            && checkout_items(objects, nodes, Seq::empty(), steps) matches Some(items) && (forall|
            k: int,
        |
            0 <= k < entries.len() ==> exists|i: int|
                is_file_at(items, i, (#[trigger] entries[k]).object_name)) && (forall|
            i: int,
            j: int,
            p: Seq<char>,
        |
            is_file_at(items, i, p) && is_file_at(items, j, p) ==> i == j) && (forall|i: int|
            0 <= i < items.len() ==> (#[trigger] items[i] matches ItemView::File(p, data, id)
                ==> object_at(objects, id) == Ok::<Option<StoredView>, Fault>(
                Some(StoredView::Blob(data)),
            ) && exists|k: int|
                0 <= k < entries.len() && (#[trigger] entries[k]).object_name == p
                    && entries[k].object_id == id)),
{
    let dirs = dir_order(entries);
    let top = Seq::<char>::empty();
    theorem_root_tree(entries);
    let t = (dirs.len() - 1) as nat;
    lemma_tree_made(objects, entries, t, steps);
    let nodes = tree_nodes(entries, dirs, t);
    let items = checkout_items(objects, nodes, top, steps)->0;
    let paths = |p: Seq<char>| has_file(entries, top, p);
    assert(lists_files(objects, entries, items, paths));
    assert forall|k: int| 0 <= k < entries.len() implies exists|i: int|
        is_file_at(items, i, (#[trigger] entries[k]).object_name) by {
        lemma_chain_ends(parent_path(entries[k].object_name));
        assert(is_below(entries[k], top));
        assert(paths(entries[k].object_name));
    }
    assert forall|i: int| 0 <= i < items.len() implies (#[trigger] items[i] matches ItemView::File(
        p,
        data,
        id,
    ) ==> object_at(objects, id) == Ok::<Option<StoredView>, Fault>(Some(StoredView::Blob(data)))
        && exists|k: int|
        0 <= k < entries.len() && (#[trigger] entries[k]).object_name == p && entries[k].object_id
            == id) by {
        if let ItemView::File(p, data, id) = items[i] {
            assert(paths(p));
            let k = choose|k: int|
                0 <= k < entries.len() && (#[trigger] entries[k]).object_name == p && is_below(
                    entries[k],
                    top,
                );
            lemma_id_of_path(entries, k);
        }
    }
}

/// For an entry that is a tag nothing is made; an entry whose object is missing or not valid, or is
/// a commit, cannot be checked out, nor can what comes with it.
pub proof fn theorem_other_entries(
    objects: Seq<ObjectMap>,
    node: NodeView,
    dir: Seq<char>,
    steps: nat,
)
    ensures
        object_at(objects, node.object_id) matches Ok(Some(StoredView::Tag(_, _)))
            ==> checkout_items(objects, seq![node], dir, steps) == Some(Seq::<ItemView>::empty()),
        (object_at(objects, node.object_id) is Err || object_at(objects, node.object_id) == Ok::<
            Option<StoredView>,
            Fault,
        >(None) || object_at(objects, node.object_id) matches Ok(Some(StoredView::Commit(_, _))))
            ==> checkout_items(objects, seq![node], dir, steps) is None,
{
    let one = seq![node];
    assert(one.drop_last() =~= Seq::empty());
    assert(one.last() == node);
    assert(checkout_items(objects, one.drop_last(), dir, steps) == Some(
        Seq::<ItemView>::empty(),
    ));
}

} // verus!
