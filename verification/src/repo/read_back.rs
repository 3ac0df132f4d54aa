//! What is stored in a repository is what is read from it.

use vstd::prelude::*;
use vstd::utf8::encode_utf8;

use crate::helpers::dir_chain;
use crate::helpers::fs::{file_of_path, parent_path, theorem_parent_and_file};
use crate::index::laws::is_full_id;
use crate::index::{entry_mode, EntryView};
use crate::objects::raw::DataView;
use crate::objects::tree::{
    node_key, storable_node, theorem_tree_round_trip, NodeView, DIRECTORY_MODE,
};
use crate::objects::StoredView;
use crate::repo::flatten::{found_tree, lemma_found_tree, nodes_files, path_below, tree_files};
use crate::repo::model::{is_sole_candidate, lookup, object_at, raw_object, Fault, RepoView};
use crate::repo::tree_laws::{is_below, theorem_dir_order, theorem_root_tree};
use crate::repo::trees::{
    dir_order, file_node, files_in, root_tree, subtree_nodes, tree_data, tree_name, tree_nodes,
};
use crate::sorting::theorem_sorted_by;
use crate::stores::backends::{with_object, ObjectMap};
use crate::text::{after_last, lemma_after_last};

verus! {

/// An object that was written is read as it was written, unless another object had its ID.
pub proof fn theorem_written_object_is_read(
    objects: Seq<ObjectMap>,
    id: Seq<char>,
    data: DataView,
)
    requires
        objects.len() > 0,
        !(data.kind is Delta),
        objects[0].contains_key(id) ==> objects[0][id] == data,
    ensures
        raw_object(objects.update(0, with_object(objects[0], id, data)), id) == Ok::<
            Option<DataView>,
            Fault,
        >(Some(data)),
{
    let after = objects.update(0, with_object(objects[0], id, data));
    assert(after[0].contains_key(id));
    assert(lookup(after, id) == Some(data));
}

/// Writing an object changes no other object.
pub proof fn theorem_write_keeps_other_objects(
    objects: Seq<ObjectMap>,
    id: Seq<char>,
    data: DataView,
    other: Seq<char>,
)
    requires
        objects.len() > 0,
        other != id,
    ensures
        lookup(objects.update(0, with_object(objects[0], id, data)), other) == lookup(
            objects,
            other,
        ),
{
    let after = objects.update(0, with_object(objects[0], id, data));
    assert(after.skip(1) =~= objects.skip(1));
}

/// Whether the paths of an index are ones that its trees can hold: each is relative and occurs
/// once, and no byte of it is NUL; and the IDs are full ones.
pub open spec fn plain_entries(entries: Seq<EntryView>) -> bool {
    &&& forall|i: int|
        0 <= i < entries.len() ==> plain_entry(#[trigger] entries[i])
    &&& forall|i: int, j: int|
        0 <= i < j < entries.len() ==> (#[trigger] entries[i]).object_name != (
        #[trigger] entries[j]).object_name
}

/// Whether the path of an entry is one that a tree can hold, and its ID a full one.
pub open spec fn plain_entry(e: EntryView) -> bool {
    &&& e.object_name.len() > 0
    &&& e.object_name[0] != '/'
    &&& forall|i: int| 0 <= i < e.object_name.len() ==> #[trigger] e.object_name[i] != '\0'
    &&& is_full_id(e.object_id)
}

/// Whether a repository holds the trees of an index, and each ID stands for its tree alone.
pub open spec fn holds_trees(repo: RepoView, entries: Seq<EntryView>) -> bool {
    let dirs = dir_order(entries);
    forall|i: nat|
        i < dirs.len() ==> {
            &&& is_full_id(#[trigger] tree_name(entries, dirs, i))
            &&& is_sole_candidate(
                repo,
                tree_name(entries, dirs, i),
                tree_name(entries, dirs, i),
            )
            &&& raw_object(repo.objects, tree_name(entries, dirs, i)) == Ok::<
                Option<DataView>,
                Fault,
            >(Some(tree_data(entries, dirs, i)))
        }
}

/// Whether some entry below a directory has a path.
pub open spec fn has_file(entries: Seq<EntryView>, dir: Seq<char>, path: Seq<char>) -> bool {
    exists|k: int|
        0 <= k < entries.len() && (#[trigger] entries[k]).object_name == path && is_below(
            entries[k],
            dir,
        )
}

/// The ID of the entry with a path.
pub open spec fn id_of_path(entries: Seq<EntryView>, path: Seq<char>) -> Seq<char> {
    let k = choose|k: int| 0 <= k < entries.len() && (#[trigger] entries[k]).object_name == path;
    entries[k].object_id
}

/// The paths and IDs of the entries below a directory.
pub open spec fn files_below(entries: Seq<EntryView>, dir: Seq<char>) -> Map<Seq<char>, Seq<char>> {
    Map::new(|p: Seq<char>| has_file(entries, dir, p), |p: Seq<char>| id_of_path(entries, p))
}

pub(crate) proof fn lemma_id_of_path(entries: Seq<EntryView>, k: int)
    requires
        plain_entries(entries),
        0 <= k < entries.len(),
    ensures
        id_of_path(entries, entries[k].object_name) == entries[k].object_id,
{
    let p = entries[k].object_name;
    let j = choose|j: int| 0 <= j < entries.len() && (#[trigger] entries[j]).object_name == p;
    if j < k {
        assert(entries[j].object_name != entries[k].object_name);
    } else if k < j {
        assert(entries[k].object_name != entries[j].object_name);
    }
}

proof fn lemma_chain_starts(path: Seq<char>)
    ensures
        dir_chain(path).contains(path),
{
    assert(dir_chain(path)[0] == path);
}

pub(crate) proof fn lemma_chain_tail(path: Seq<char>, d: Seq<char>)
    requires
        path.len() > 0,
    ensures
        dir_chain(path).contains(d) <==> d == path || dir_chain(parent_path(path)).contains(d),
{
    lemma_after_last(path, '/');
    let chain = dir_chain(path);
    let rest = dir_chain(parent_path(path));
    assert(chain == seq![path] + rest);
    if chain.contains(d) {
        let j = choose|j: int| 0 <= j < chain.len() && chain[j] == d;
        if j > 0 {
            assert(rest[j - 1] == d);
        }
    }
    if rest.contains(d) {
        let j = choose|j: int| 0 <= j < rest.len() && rest[j] == d;
        assert(chain[j + 1] == d);
    }
    assert(chain[0] == path);
}

/// With a directory, its parent is above a path.
proof fn lemma_chain_parent(path: Seq<char>, d: Seq<char>)
    requires
        dir_chain(path).contains(d),
        d.len() > 0,
    ensures
        dir_chain(path).contains(parent_path(d)),
    decreases path.len(),
{
    if path.len() == 0 {
        let chain = dir_chain(path);
        let j = choose|j: int| 0 <= j < chain.len() && chain[j] == d;
        assert(chain[j] == path);
    } else {
        lemma_after_last(path, '/');
        lemma_chain_tail(path, d);
        lemma_chain_tail(path, parent_path(d));
        if d == path {
            lemma_chain_starts(parent_path(path));
        } else {
            lemma_chain_parent(parent_path(path), d);
        }
    }
}

/// A directory above a path, but not the path itself, is the parent of another one above it.
proof fn lemma_chain_child(path: Seq<char>, dir: Seq<char>) -> (d: Seq<char>)
    requires
        dir_chain(path).contains(dir),
        path != dir,
    ensures
        dir_chain(path).contains(d),
        d.len() > 0,
        parent_path(d) == dir,
    decreases path.len(),
{
    if path.len() == 0 {
        let chain = dir_chain(path);
        let j = choose|j: int| 0 <= j < chain.len() && chain[j] == dir;
        assert(chain[j] == path);
        path
    } else {
        lemma_after_last(path, '/');
        lemma_chain_tail(path, dir);
        lemma_chain_starts(path);
        if parent_path(path) == dir {
            path
        } else {
            let d = lemma_chain_child(parent_path(path), dir);
            lemma_chain_tail(path, d);
            d
        }
    }
}

/// What is above a path is the start of it.
pub(crate) proof fn lemma_chain_prefix(path: Seq<char>, d: Seq<char>)
    requires
        dir_chain(path).contains(d),
    ensures
        d.len() <= path.len(),
        d == path.take(d.len() as int),
    decreases path.len(),
{
    if path.len() == 0 {
        let chain = dir_chain(path);
        let j = choose|j: int| 0 <= j < chain.len() && chain[j] == d;
        assert(chain[j] == path);
        assert(path.take(0) =~= path);
    } else {
        lemma_after_last(path, '/');
        lemma_chain_tail(path, d);
        if d == path {
            assert(path.take(path.len() as int) =~= path);
        } else {
            lemma_chain_prefix(parent_path(path), d);
            assert(path.take(d.len() as int) =~= parent_path(path).take(d.len() as int));
        }
    }
}

/// A relative path is put together from its parent and its last component.
pub(crate) proof fn lemma_path_below(path: Seq<char>)
    requires
        path.len() > 0,
        path[0] != '/',
    ensures
        path_below(parent_path(path), file_of_path(path)) == path,
{
    theorem_parent_and_file(path);
    lemma_after_last(path, '/');
    if after_last(path, '/') > 0 {
        if parent_path(path).len() == 0 {
            assert(after_last(path, '/') == 1);
            assert(path[0] == '/');
        }
    } else {
        assert(file_of_path(path) =~= path);
    }
}

proof fn lemma_no_nul(s: Seq<char>)
    requires
        forall|i: int| 0 <= i < s.len() ==> #[trigger] s[i] != '\0',
    ensures
        !encode_utf8(s).contains(0u8),
{
    if encode_utf8(s).contains(0u8) {
        crate::encoding::lemma_encode_contains_ascii(s, 0u8);
        let i = choose|i: int| 0 <= i < s.len() && s[i] == '\0';
        assert(s[i] != '\0');
    }
}

pub(crate) proof fn lemma_file_name_plain(path: Seq<char>)
    requires
        forall|i: int| 0 <= i < path.len() ==> #[trigger] path[i] != '\0',
    ensures
        !encode_utf8(file_of_path(path)).contains(0u8),
{
    lemma_after_last(path, '/');
    let name = file_of_path(path);
    assert forall|i: int| 0 <= i < name.len() implies #[trigger] name[i] != '\0' by {
        assert(name[i] == path[i + after_last(path, '/')]);
    }
    lemma_no_nul(name);
}

pub(crate) proof fn lemma_files_in(entries: Seq<EntryView>, dir: Seq<char>, x: NodeView)
    ensures
        files_in(entries, dir).contains(x) <==> exists|k: int|
            0 <= k < entries.len() && parent_path((#[trigger] entries[k]).object_name) == dir
                && file_node(entries[k]) == x,
    decreases entries.len(),
{
    if entries.len() > 0 {
        let before = entries.drop_last();
        let last = entries.last();
        lemma_files_in(before, dir, x);
        let a = files_in(before, dir);
        let b = files_in(entries, dir);
        if b.contains(x) {
            let j = choose|j: int| 0 <= j < b.len() && b[j] == x;
            if j < a.len() {
                assert(a[j] == x);
                let k = choose|k: int|
                    0 <= k < before.len() && parent_path((#[trigger] before[k]).object_name) == dir
                        && file_node(before[k]) == x;
                assert(entries[k] == before[k]);
            } else {
                assert(entries[entries.len() - 1] == last);
            }
        }
        if exists|k: int|
            0 <= k < entries.len() && parent_path((#[trigger] entries[k]).object_name) == dir
                && file_node(entries[k]) == x {
            let k = choose|k: int|
                0 <= k < entries.len() && parent_path((#[trigger] entries[k]).object_name) == dir
                    && file_node(entries[k]) == x;
            if k < before.len() {
                assert(before[k] == entries[k]);
                assert(a.contains(x));
                let j = choose|j: int| 0 <= j < a.len() && a[j] == x;
                assert(b[j] == x);
            } else {
                assert(b[a.len() as int] == x);
            }
        }
    }
}

/// The tree entry for a directory.
pub open spec fn dir_node(entries: Seq<EntryView>, dirs: Seq<Seq<char>>, j: nat) -> NodeView {
    NodeView {
        mode: DIRECTORY_MODE as int,
        name: file_of_path(dirs[j as int]),
        object_id: tree_name(entries, dirs, j),
    }
}

/// Whether a directory is one of the first `n`, directly below another one, with a tree entry.
pub open spec fn is_subtree(
    entries: Seq<EntryView>,
    dirs: Seq<Seq<char>>,
    dir: Seq<char>,
    n: nat,
    x: NodeView,
    j: nat,
) -> bool {
    j < n && dirs[j as int].len() > 0 && parent_path(dirs[j as int]) == dir && x == dir_node(
        entries,
        dirs,
        j,
    )
}

pub(crate) proof fn lemma_subtree_nodes(
    entries: Seq<EntryView>,
    dirs: Seq<Seq<char>>,
    dir: Seq<char>,
    n: nat,
    x: NodeView,
)
    ensures
        subtree_nodes(entries, dirs, dir, n).contains(x) <==> exists|j: nat|
            is_subtree(entries, dirs, dir, n, x, j),
    decreases n,
{
    if n > 0 {
        let m = (n - 1) as nat;
        lemma_subtree_nodes(entries, dirs, dir, m, x);
        let a = subtree_nodes(entries, dirs, dir, m);
        let b = subtree_nodes(entries, dirs, dir, n);
        if b.contains(x) {
            let i = choose|i: int| 0 <= i < b.len() && b[i] == x;
            if i < a.len() {
                assert(a[i] == x);
                let j = choose|j: nat| is_subtree(entries, dirs, dir, m, x, j);
                assert(is_subtree(entries, dirs, dir, n, x, j));
            } else {
                assert(is_subtree(entries, dirs, dir, n, x, m));
            }
        }
        if exists|j: nat| is_subtree(entries, dirs, dir, n, x, j) {
            let j = choose|j: nat| is_subtree(entries, dirs, dir, n, x, j);
            if j < m {
                assert(is_subtree(entries, dirs, dir, m, x, j));
                let i = choose|i: int| 0 <= i < a.len() && a[i] == x;
                assert(b[i] == x);
            } else {
                assert(b[a.len() as int] == x);
            }
        }
    }
}

/// The paths and IDs of the entries that a tree entry stands for.
pub open spec fn piece(entries: Seq<EntryView>, dir: Seq<char>, node: NodeView) -> Map<
    Seq<char>,
    Seq<char>,
> {
    let path = path_below(dir, node.name);
    if node.mode < 0o100000 {
        files_below(entries, path)
    } else {
        map![path => node.object_id]
    }
}

/// Whether a tree entry gives what it stands for.
spec fn gives_piece(
    repo: RepoView,
    entries: Seq<EntryView>,
    dir: Seq<char>,
    steps: nat,
    node: NodeView,
) -> bool {
    let path = path_below(dir, node.name);
    if node.mode < 0o100000 {
        tree_files(repo, node.object_id, path, steps) == Some(files_below(entries, path))
    } else {
        node.object_id == id_of_path(entries, path)
    }
}

/// Whether one of some tree entries stands for a path.
pub open spec fn some_piece_has(
    entries: Seq<EntryView>,
    dir: Seq<char>,
    nodes: Seq<NodeView>,
    path: Seq<char>,
) -> bool {
    exists|i: int|
        0 <= i < nodes.len() && piece(entries, dir, #[trigger] nodes[i]).contains_key(path)
}

pub(crate) proof fn lemma_some_piece_next(
    entries: Seq<EntryView>,
    dir: Seq<char>,
    nodes: Seq<NodeView>,
    path: Seq<char>,
)
    requires
        nodes.len() > 0,
    ensures
        some_piece_has(entries, dir, nodes, path) <==> some_piece_has(
            entries,
            dir,
            nodes.drop_last(),
            path,
        ) || piece(entries, dir, nodes.last()).contains_key(path),
{
    let before = nodes.drop_last();
    if some_piece_has(entries, dir, before, path) {
        let i = choose|i: int|
            0 <= i < before.len() && piece(entries, dir, #[trigger] before[i]).contains_key(path);
        assert(nodes[i] == before[i]);
    }
    if some_piece_has(entries, dir, nodes, path) {
        let i = choose|i: int|
            0 <= i < nodes.len() && piece(entries, dir, #[trigger] nodes[i]).contains_key(path);
        if i < before.len() {
            assert(before[i] == nodes[i]);
        }
    }
    assert(nodes[nodes.len() - 1] == nodes.last());
}

/// Whether a map holds what tree entries stand for, with the IDs of the entries of the index.
spec fn holds_pieces(
    files: Map<Seq<char>, Seq<char>>,
    entries: Seq<EntryView>,
    dir: Seq<char>,
    nodes: Seq<NodeView>,
) -> bool {
    &&& forall|p: Seq<char>| #[trigger]
        files.contains_key(p) <==> some_piece_has(entries, dir, nodes, p)
    &&& forall|p: Seq<char>| #[trigger]
        files.contains_key(p) ==> files[p] == id_of_path(entries, p)
}

proof fn lemma_nodes_files(
    repo: RepoView,
    entries: Seq<EntryView>,
    dir: Seq<char>,
    steps: nat,
    nodes: Seq<NodeView>,
)
    requires
        forall|i: int|
            0 <= i < nodes.len() ==> gives_piece(repo, entries, dir, steps, #[trigger] nodes[i]),
    ensures
        nodes_files(repo, nodes, dir, steps) matches Some(files) && holds_pieces(
            files,
            entries,
            dir,
            nodes,
        ),
    decreases nodes.len(),
{
    if nodes.len() > 0 {
        let before = nodes.drop_last();
        let node = nodes.last();
        assert forall|i: int| 0 <= i < before.len() implies gives_piece(
            repo,
            entries,
            dir,
            steps,
            #[trigger] before[i],
        ) by {
            assert(before[i] == nodes[i]);
        }
        lemma_nodes_files(repo, entries, dir, steps, before);
        assert(gives_piece(repo, entries, dir, steps, nodes[nodes.len() - 1]));
        let old = nodes_files(repo, before, dir, steps)->0;
        let more = piece(entries, dir, node);
        let path = path_below(dir, node.name);
        let files = old.union_prefer_right(more);
        assert(nodes_files(repo, nodes, dir, steps) == Some(files)) by {
            if node.mode >= 0o100000 {
                assert(old.insert(path, node.object_id) =~= files);
            }
        }
        lemma_union_holds(old, more, entries, dir, nodes);
    }
}

proof fn lemma_union_holds(
    old: Map<Seq<char>, Seq<char>>,
    more: Map<Seq<char>, Seq<char>>,
    entries: Seq<EntryView>,
    dir: Seq<char>,
    nodes: Seq<NodeView>,
)
    requires
        nodes.len() > 0,
        holds_pieces(old, entries, dir, nodes.drop_last()),
        more == piece(entries, dir, nodes.last()),
        forall|p: Seq<char>| #[trigger]
            more.contains_key(p) ==> more[p] == id_of_path(entries, p),
    ensures
        holds_pieces(old.union_prefer_right(more), entries, dir, nodes),
{
    let files = old.union_prefer_right(more);
    assert forall|p: Seq<char>| #[trigger]
        files.contains_key(p) <==> some_piece_has(entries, dir, nodes, p) by {
        lemma_some_piece_next(entries, dir, nodes, p);
        assert(files.contains_key(p) <==> old.contains_key(p) || more.contains_key(p));
        assert(old.contains_key(p) <==> some_piece_has(entries, dir, nodes.drop_last(), p));
    }
    assert forall|p: Seq<char>| #[trigger] files.contains_key(p) implies files[p] == id_of_path(
        entries,
        p,
    ) by {
        if more.contains_key(p) {
            assert(files[p] == more[p]);
        } else {
            assert(old.contains_key(p));
        }
    }
}

/// What a directory of an index holds by its tree entries is what lies below it.
pub(crate) proof fn lemma_pieces(entries: Seq<EntryView>, i: nat, p: Seq<char>)
    requires
        plain_entries(entries),
        i < dir_order(entries).len(),
    ensures
        some_piece_has(
            entries,
            dir_order(entries)[i as int],
            tree_nodes(entries, dir_order(entries), i),
            p,
        ) <==> has_file(entries, dir_order(entries)[i as int], p),
{
    let dirs = dir_order(entries);
    let dir = dirs[i as int];
    let files = files_in(entries, dir);
    let subs = subtree_nodes(entries, dirs, dir, i);
    let base = files + subs;
    let nodes = tree_nodes(entries, dirs, i);
    theorem_dir_order(entries);
    theorem_sorted_by(base, node_key());
    assert forall|x: NodeView| #[trigger] nodes.contains(x) <==> base.contains(x) by {
        vstd::seq_lib::to_multiset_contains(nodes, x);
        vstd::seq_lib::to_multiset_contains(base, x);
    }
    if some_piece_has(entries, dir, nodes, p) {
        let n = choose|n: int|
            0 <= n < nodes.len() && piece(entries, dir, #[trigger] nodes[n]).contains_key(p);
        let x = nodes[n];
        assert(nodes.contains(x));
        crate::repo::commits::lemma_contains_concat(files, subs, x);
        if files.contains(x) {
            lemma_files_in(entries, dir, x);
            let k = choose|k: int|
                0 <= k < entries.len() && parent_path((#[trigger] entries[k]).object_name) == dir
                    && file_node(entries[k]) == x;
            assert(plain_entry(entries[k]));
            lemma_path_below(entries[k].object_name);
            lemma_mode_of_file(entries[k]);
            lemma_chain_starts(dir);
            assert(is_below(entries[k], dir));
        } else {
            lemma_subtree_nodes(entries, dirs, dir, i, x);
            let j = choose|j: nat| is_subtree(entries, dirs, dir, i, x, j);
            let d = dirs[j as int];
            lemma_dir_relative(entries, j);
            lemma_path_below(d);
            let k = choose|k: int|
                0 <= k < entries.len() && (#[trigger] entries[k]).object_name == p && is_below(
                    entries[k],
                    d,
                );
            lemma_chain_parent(parent_path(entries[k].object_name), d);
            assert(is_below(entries[k], dir));
        }
    }
    if has_file(entries, dir, p) {
        let k = choose|k: int|
            0 <= k < entries.len() && (#[trigger] entries[k]).object_name == p && is_below(
                entries[k],
                dir,
            );
        assert(plain_entry(entries[k]));
        let q = parent_path(p);
        if q == dir {
            let x = file_node(entries[k]);
            lemma_files_in(entries, dir, x);
            assert(files.contains(x));
            crate::repo::commits::lemma_contains_concat(files, subs, x);
            assert(nodes.contains(x));
            let n = choose|n: int| 0 <= n < nodes.len() && nodes[n] == x;
            lemma_path_below(p);
            lemma_mode_of_file(entries[k]);
            assert(piece(entries, dir, nodes[n]).contains_key(p));
        } else {
            let d = lemma_chain_child(q, dir);
            assert(is_below(entries[k], d));
            assert(dirs.contains(d));
            let j = choose|j: int| 0 <= j < dirs.len() && dirs[j] == d;
            assert(dirs[j].len() > 0 && parent_path(dirs[j]) == dirs[i as int]);
            assert(j < i);
            let x = dir_node(entries, dirs, j as nat);
            assert(is_subtree(entries, dirs, dir, i, x, j as nat));
            lemma_subtree_nodes(entries, dirs, dir, i, x);
            crate::repo::commits::lemma_contains_concat(files, subs, x);
            assert(nodes.contains(x));
            let n = choose|n: int| 0 <= n < nodes.len() && nodes[n] == x;
            lemma_dir_relative(entries, j as nat);
            lemma_path_below(d);
            assert(has_file(entries, d, p));
            assert(piece(entries, dir, nodes[n]).contains_key(p));
        }
    }
}

pub(crate) proof fn lemma_mode_of_file(e: EntryView)
    ensures
        0o100000 <= entry_mode(e) < 0o1000000,
{
}

/// The directories of an index are relative paths without NUL bytes.
pub(crate) proof fn lemma_dir_relative(entries: Seq<EntryView>, j: nat)
    requires
        plain_entries(entries),
        j < dir_order(entries).len(),
    ensures
        ({
            let d = dir_order(entries)[j as int];
            &&& d.len() > 0 ==> d[0] != '/'
            &&& forall|i: int| 0 <= i < d.len() ==> #[trigger] d[i] != '\0'
        }),
{
    let dirs = dir_order(entries);
    let d = dirs[j as int];
    theorem_dir_order(entries);
    assert(dirs.contains(d));
    let k = choose|k: int| 0 <= k < entries.len() && is_below(#[trigger] entries[k], d);
    let name = entries[k].object_name;
    assert(plain_entry(entries[k]));
    lemma_after_last(name, '/');
    lemma_chain_prefix(parent_path(name), d);
    assert forall|i: int| 0 <= i < d.len() implies #[trigger] d[i] == name[i] by {
        assert(parent_path(name).take(d.len() as int)[i] == parent_path(name)[i]);
    }
}

/// The tree for a directory of an index lists the files that lie below it.
proof fn lemma_tree_files(repo: RepoView, entries: Seq<EntryView>, i: nat, steps: nat)
    requires
        plain_entries(entries),
        holds_trees(repo, entries),
        i < dir_order(entries).len(),
        steps > i,
    ensures
        ({
            let dirs = dir_order(entries);
            tree_files(repo, tree_name(entries, dirs, i), dirs[i as int], steps) == Some(
                files_below(entries, dirs[i as int]),
            )
        }),
    decreases i,
{
    let dirs = dir_order(entries);
    let dir = dirs[i as int];
    let id = tree_name(entries, dirs, i);
    let nodes = tree_nodes(entries, dirs, i);
    let files = files_in(entries, dir);
    let subs = subtree_nodes(entries, dirs, dir, i);
    let base = files + subs;
    let below = (steps - 1) as nat;
    assert(is_full_id(id));
    lemma_found_tree(repo, id, id);
    assert(found_tree(repo, id) == Some(id));
    theorem_sorted_by(base, node_key());
    assert forall|n: int| 0 <= n < nodes.len() implies storable_node(#[trigger] nodes[n])
        && gives_piece(repo, entries, dir, below, nodes[n]) by {
        let x = nodes[n];
        assert(nodes.contains(x));
        vstd::seq_lib::to_multiset_contains(nodes, x);
        vstd::seq_lib::to_multiset_contains(base, x);
        assert(base.contains(x));
        crate::repo::commits::lemma_contains_concat(files, subs, x);
        if files.contains(x) {
            lemma_files_in(entries, dir, x);
            let k = choose|k: int|
                0 <= k < entries.len() && parent_path((#[trigger] entries[k]).object_name) == dir
                    && file_node(entries[k]) == x;
            assert(plain_entry(entries[k]));
            lemma_mode_of_file(entries[k]);
            lemma_file_name_plain(entries[k].object_name);
            lemma_path_below(entries[k].object_name);
            lemma_id_of_path(entries, k);
        } else {
            lemma_subtree_nodes(entries, dirs, dir, i, x);
            let j = choose|j: nat| is_subtree(entries, dirs, dir, i, x, j);
            lemma_dir_relative(entries, j);
            lemma_path_below(dirs[j as int]);
            lemma_file_name_plain(dirs[j as int]);
            assert(is_full_id(tree_name(entries, dirs, j)));
            lemma_tree_files(repo, entries, j, below);
        }
    }
    assert forall|n: int| 0 <= n < nodes.len() implies storable_node(#[trigger] nodes[n]) by {
        assert(storable_node(nodes[n]) && gives_piece(repo, entries, dir, below, nodes[n]));
    }
    theorem_tree_round_trip(nodes);
    assert(object_at(repo.objects, id) == Ok::<Option<StoredView>, Fault>(
        Some(StoredView::Tree(nodes)),
    ));
    lemma_nodes_files(repo, entries, dir, below, nodes);
    let found = nodes_files(repo, nodes, dir, below)->0;
    assert forall|p: Seq<char>| #[trigger]
        found.contains_key(p) <==> files_below(entries, dir).contains_key(p) by {
        lemma_pieces(entries, i, p);
    }
    assert(found =~= files_below(entries, dir));
}

/// The files of the tree that an index was stored as are the entries of the index: their paths,
/// and the IDs of their contents.
pub proof fn theorem_stored_index_is_read(repo: RepoView, entries: Seq<EntryView>, steps: nat)
    requires
        entries.len() > 0,
        plain_entries(entries),
        holds_trees(repo, entries),
        steps >= dir_order(entries).len(),
    ensures
        tree_files(repo, root_tree(entries), Seq::empty(), steps) matches Some(files)
            && (forall|k: int|
            0 <= k < entries.len() ==> files.contains_key((#[trigger] entries[k]).object_name)
                && files[entries[k].object_name] == entries[k].object_id) && (forall|p: Seq<char>|
            #[trigger] files.contains_key(p) ==> exists|k: int|
                0 <= k < entries.len() && (#[trigger] entries[k]).object_name == p),
{
    let dirs = dir_order(entries);
    let top = Seq::<char>::empty();
    theorem_root_tree(entries);
    let i = (dirs.len() - 1) as nat;
    lemma_tree_files(repo, entries, i, steps);
    let files = files_below(entries, top);
    assert forall|k: int| 0 <= k < entries.len() implies files.contains_key(
        (#[trigger] entries[k]).object_name,
    ) && files[entries[k].object_name] == entries[k].object_id by {
        crate::repo::tree_laws::lemma_chain_ends(parent_path(entries[k].object_name));
        assert(is_below(entries[k], top));
        lemma_id_of_path(entries, k);
    }
}

} // verus!
