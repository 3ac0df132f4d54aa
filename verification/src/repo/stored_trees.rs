//! What holds of the directories of an index and of their trees once they are stored.

use vstd::prelude::*;
use vstd::utf8::encode_utf8;

use crate::helpers::dir_chain;
use crate::helpers::fs::parent_path;
use crate::index::EntryView;
use crate::objects::tree::{node_key, NodeView};
use crate::repo::tree_laws::lemma_chain_ends;
use crate::repo::trees::{
    dir_order, files_in, subtree_nodes, tree_data, tree_name, tree_nodes, with_trees,
};
use crate::sorting::{bytes_lt, key_lt, theorem_sorted_by};
use crate::stores::backends::ObjectMap;

verus! {

/// A directory is above a path where it is the path, the top directory, or where the path starts
/// with it and a slash.
pub proof fn theorem_directories_above(path: Seq<char>, d: Seq<char>)
    ensures
        dir_chain(path).contains(d) <==> d == path || d.len() == 0 || (d.len() < path.len()
            && path.take(d.len() as int) == d && path[d.len() as int] == '/'),
    decreases path.len(),
{
    let chain = dir_chain(path);
    let top = Seq::<char>::empty();
    lemma_chain_ends(path);
    assert(chain[0] == path);
    if d.len() == 0 {
        assert(d =~= top);
    }
    if path.len() == 0 {
        if chain.contains(d) {
            let j = choose|j: int| 0 <= j < chain.len() && chain[j] == d;
            assert(chain[j] == path);
        }
    } else {
        let parent = parent_path(path);
        let n = parent.len() as int;
        crate::text::lemma_after_last(path, '/');
        let rest = dir_chain(parent);
        theorem_directories_above(parent, d);
        assert(chain == seq![path] + rest);
        if chain.contains(d) && d != path {
            let j = choose|j: int| 0 <= j < chain.len() && chain[j] == d;
            assert(rest[j - 1] == d);
            assert(rest.contains(d));
            if d.len() > 0 {
                assert(path[n] == '/');
                assert(parent =~= path.take(n));
                if d != parent {
                    assert(parent.take(d.len() as int) =~= path.take(d.len() as int));
                }
            }
        }
        if 0 < d.len() < path.len() && path.take(d.len() as int) == d && path[d.len() as int]
            == '/' {
            assert(d.len() <= n);
            if d.len() == n {
                assert(d =~= parent);
            } else {
                assert(parent.take(d.len() as int) =~= path.take(d.len() as int));
            }
            assert(rest.contains(d));
            let j = choose|j: int| 0 <= j < rest.len() && rest[j] == d;
            assert(chain[j + 1] == d);
        }
    }
}

/// The entries of a tree come in the order of their names, where the name of a directory counts
/// with a slash behind it.
pub proof fn theorem_tree_order(entries: Seq<EntryView>, i: nat, a: int, b: int)
    requires
        i < dir_order(entries).len(),
        0 <= a < b < tree_nodes(entries, dir_order(entries), i).len(),
    ensures
        ({
            let nodes = tree_nodes(entries, dir_order(entries), i);
            !bytes_lt(encode_utf8(order_text(nodes[b])), encode_utf8(order_text(nodes[a])))
        }),
{
    let dirs = dir_order(entries);
    let dir = dirs[i as int];
    let base = files_in(entries, dir) + subtree_nodes(entries, dirs, dir, i);
    theorem_sorted_by(base, node_key());
    let nodes = tree_nodes(entries, dirs, i);
    assert(!key_lt(node_key()(nodes[b]), node_key()(nodes[a])));
    assert(nodes[a].name.push('/') =~= nodes[a].name + seq!['/']);
    assert(nodes[b].name.push('/') =~= nodes[b].name + seq!['/']);
}

/// What an entry of a tree is ordered by.
pub open spec fn order_text(n: NodeView) -> Seq<char> {
    if n.mode == 0o40000 {
        n.name + seq!['/']
    } else {
        n.name
    }
}

/// All trees of an index are stored: each under its ID, as the tree that it is, unless another
/// object has that ID; and what was stored before stays.
pub proof fn theorem_trees_are_stored(
    objects: ObjectMap,
    entries: Seq<EntryView>,
    n: nat,
    i: nat,
    id: Seq<char>,
)
    requires
        i < n <= dir_order(entries).len(),
    ensures
        ({
            let dirs = dir_order(entries);
            let after = with_trees(objects, entries, dirs, n);
            let name = tree_name(entries, dirs, i);
            &&& after.contains_key(name)
            &&& !objects.contains_key(name) && (forall|j: nat|
                j < n && tree_name(entries, dirs, j) == name ==> #[trigger] tree_data(
                    entries,
                    dirs,
                    j,
                ) == tree_data(entries, dirs, i)) ==> after[name] == tree_data(entries, dirs, i)
            &&& objects.contains_key(id) ==> after.contains_key(id) && after[id] == objects[id]
            &&& after.contains_key(id) && !objects.contains_key(id) ==> exists|j: nat|
                j < n && #[trigger] tree_name(entries, dirs, j) == id
        }),
    decreases n,
{
    let dirs = dir_order(entries);
    let m = (n - 1) as nat;
    let name = tree_name(entries, dirs, i);
    let before = with_trees(objects, entries, dirs, m);
    lemma_stored_trees(objects, entries, m, id);
    lemma_stored_trees(objects, entries, m, name);
    if i < m {
        theorem_trees_are_stored(objects, entries, m, i, id);
    } else if before.contains_key(name) && !objects.contains_key(name) {
        let j = choose|j: nat|
            j < m && #[trigger] tree_name(entries, dirs, j) == name && before[name] == tree_data(
                entries,
                dirs,
                j,
            );
        assert(before[name] == tree_data(entries, dirs, j));
    }
    assert(tree_name(entries, dirs, m) == tree_name(entries, dirs, m));
}

proof fn lemma_stored_trees(objects: ObjectMap, entries: Seq<EntryView>, n: nat, id: Seq<char>)
    ensures
        ({
            let dirs = dir_order(entries);
            let after = with_trees(objects, entries, dirs, n);
            &&& objects.contains_key(id) ==> after.contains_key(id) && after[id] == objects[id]
            &&& after.contains_key(id) && !objects.contains_key(id) ==> exists|j: nat|
                j < n && #[trigger] tree_name(entries, dirs, j) == id && after[id] == tree_data(
                    entries,
                    dirs,
                    j,
                )
        }),
    decreases n,
{
    if n > 0 {
        let dirs = dir_order(entries);
        let m = (n - 1) as nat;
        lemma_stored_trees(objects, entries, m, id);
        let before = with_trees(objects, entries, dirs, m);
        if before.contains_key(id) && !objects.contains_key(id) {
            let j = choose|j: nat|
                j < m && #[trigger] tree_name(entries, dirs, j) == id && before[id] == tree_data(
                    entries,
                    dirs,
                    j,
                );
            assert(tree_name(entries, dirs, j) == id);
        }
        assert(tree_name(entries, dirs, m) == tree_name(entries, dirs, m));
    }
}

} // verus!
