//! The trees of a repository: storing the index as trees, and listing the files of a tree.

use vstd::prelude::*;
use vstd::utf8::encode_utf8;

use crate::helpers::fs::{file_of_path, index_path_file, index_path_parent, parent_path};
use crate::helpers::{
    add_parent_dirs_to_map_of_vecs, add_to_map_of_vecs, dir_chain, lemma_with_keys, plus_missing,
    with_keys, MapOfVecs,
};
use crate::index::{entry_mode, entry_views, EntryView, Index, IndexEntry};
use crate::objects::raw::{object_name, DataView, RawObject};
use crate::objects::tree::{
    node_key, node_views, tree_bytes, NodeView, Tree, TreeNode, DIRECTORY_MODE,
};
use crate::objects::KindView;
use crate::repo::Repository;
use crate::sorting::{sort_items, sorted_by, Keyed, SortKey};
use crate::stores::backends::{with_object, ObjectMap, ObjectStore, RefStore, StoreError};
use crate::text::texts;

verus! {

broadcast use vstd::string::group_string_axioms;

/// The directories that the entries of an index are in, and those above them, in the order in
/// which they come up.
pub open spec fn all_dirs(entries: Seq<EntryView>) -> Seq<Seq<char>>
    decreases entries.len(),
{
    if entries.len() == 0 {
        Seq::empty()
    } else {
        plus_missing(
            all_dirs(entries.drop_last()),
            dir_chain(parent_path(entries.last().object_name)),
        )
    }
}

/// What directories are sorted by: the longest names first.
pub open spec fn dir_key() -> spec_fn(Seq<char>) -> SortKey {
    |d: Seq<char>| (Seq::<u8>::empty(), Seq::<u8>::empty(), -(encode_utf8(d).len() as int))
}

/// The directories of an index, the longest names first: each comes after those below it.
pub open spec fn dir_order(entries: Seq<EntryView>) -> Seq<Seq<char>> {
    sorted_by(all_dirs(entries), dir_key())
}

/// The tree entry for a file in the index.
pub open spec fn file_node(e: EntryView) -> NodeView {
    NodeView { mode: entry_mode(e), name: file_of_path(e.object_name), object_id: e.object_id }
}

/// The tree entries for the files that are directly in a directory.
pub open spec fn files_in(entries: Seq<EntryView>, dir: Seq<char>) -> Seq<NodeView>
    decreases entries.len(),
{
    if entries.len() == 0 {
        Seq::empty()
    } else {
        let before = files_in(entries.drop_last(), dir);
        if parent_path(entries.last().object_name) == dir {
            before.push(file_node(entries.last()))
        } else {
            before
        }
    }
}

/// The tree entries for those of the first `n` directories that are directly below a directory.
pub open spec fn subtree_nodes(
    entries: Seq<EntryView>,
    dirs: Seq<Seq<char>>,
    dir: Seq<char>,
    n: nat,
) -> Seq<NodeView>
    decreases n, 0nat,
{
    if n == 0 {
        Seq::empty()
    } else {
        let j = (n - 1) as nat;
        let before = subtree_nodes(entries, dirs, dir, j);
        let d = dirs[j as int];
        if d.len() > 0 && parent_path(d) == dir {
            before.push(
                NodeView {
                    mode: DIRECTORY_MODE as int,
                    name: file_of_path(d),
                    object_id: tree_name(entries, dirs, j),
                },
            )
        } else {
            before
        }
    }
}

/// The entries of the tree for a directory: its files and the directories directly below it,
/// sorted.
pub open spec fn tree_nodes(
    entries: Seq<EntryView>,
    dirs: Seq<Seq<char>>,
    i: nat,
) -> Seq<NodeView>
    decreases i, 1nat,
{
    sorted_by(
        files_in(entries, dirs[i as int]) + subtree_nodes(entries, dirs, dirs[i as int], i),
        node_key(),
    )
}

/// The ID of the tree for a directory.
pub open spec fn tree_name(entries: Seq<EntryView>, dirs: Seq<Seq<char>>, i: nat) -> Seq<char>
    decreases i, 2nat,
{
    let data = tree_bytes(tree_nodes(entries, dirs, i));
    object_name(KindView::Tree, data.len() as int, data)
}

/// The stored form of the tree for a directory.
pub open spec fn tree_data(entries: Seq<EntryView>, dirs: Seq<Seq<char>>, i: nat) -> DataView {
    let data = tree_bytes(tree_nodes(entries, dirs, i));
    DataView { kind: KindView::Tree, size: data.len() as int, data }
}

/// Objects and the trees for the first `n` directories.
pub open spec fn with_trees(
    objects: ObjectMap,
    entries: Seq<EntryView>,
    dirs: Seq<Seq<char>>,
    n: nat,
) -> ObjectMap
    decreases n,
{
    if n == 0 {
        objects
    } else {
        let j = (n - 1) as nat;
        with_object(
            with_trees(objects, entries, dirs, j),
            tree_name(entries, dirs, j),
            tree_data(entries, dirs, j),
        )
    }
}

/// The ID of the tree for the top directory; empty for an index without entries.
pub open spec fn root_tree(entries: Seq<EntryView>) -> Seq<char> {
    let dirs = dir_order(entries);
    root_among(entries, dirs, dirs.len())
}

/// The ID of the tree for the top directory, where it is among the first `n`.
pub open spec fn root_among(entries: Seq<EntryView>, dirs: Seq<Seq<char>>, n: nat) -> Seq<char>
    decreases n,
{
    if n == 0 {
        Seq::empty()
    } else if dirs[n - 1].len() == 0 {
        tree_name(entries, dirs, (n - 1) as nat)
    } else {
        root_among(entries, dirs, (n - 1) as nat)
    }
}

/// A directory, to be sorted by the length of its name.
struct DirName {
    name: String,
}

impl Keyed for DirName {
    closed spec fn sort_key(&self) -> SortKey {
        (Seq::empty(), Seq::empty(), -(encode_utf8(self.name@).len() as int))
    }

    fn before(&self, other: &Self) -> (r: bool) {
        proof {
            crate::sorting::lemma_bytes_irreflexive(Seq::<u8>::empty());
        }
        self.name.as_str().as_bytes().len() > other.name.as_str().as_bytes().len()
    }
}

spec fn dir_view() -> spec_fn(DirName) -> Seq<char> {
    |d: DirName| d.name@
}

/// What a map of vectors holds for a key, or nothing.
spec fn vector_at(map: Map<Seq<char>, Seq<TreeNode>>, k: Seq<char>) -> Seq<NodeView> {
    if map.contains_key(k) {
        node_views(map[k])
    } else {
        Seq::empty()
    }
}

proof fn lemma_plus_missing_first(keys: Seq<Seq<char>>, dir: Seq<char>)
    ensures
        plus_missing(
            if keys.contains(dir) {
                keys
            } else {
                keys.push(dir)
            },
            dir_chain(parent_path(dir)),
        ) == plus_missing(keys, dir_chain(dir)),
{
    let one = if keys.contains(dir) {
        keys
    } else {
        keys.push(dir)
    };
    let chain = dir_chain(dir);
    if dir.len() == 0 {
        assert(crate::text::after_last(dir, '/') == 0);
        assert(parent_path(dir) =~= dir);
        assert(chain.drop_first() =~= Seq::<Seq<char>>::empty());
        assert(one.contains(dir)) by {
            if !keys.contains(dir) {
                assert(one[keys.len() as int] == dir);
            }
        }
        assert(chain[0] == dir);
        assert(plus_missing(one, chain) == plus_missing(one, chain.drop_first()));
        assert(plus_missing(keys, chain) == plus_missing(one, chain.drop_first()));
    } else {
        assert(chain.drop_first() =~= dir_chain(parent_path(dir)));
        assert(chain[0] == dir);
    }
}

/// Groups the files of an index by the directories that they are in.
fn group_by_directory(entries: &[IndexEntry]) -> (r: MapOfVecs<TreeNode>)
    ensures
        r.wf(),
        r.spec_keys() == all_dirs(entry_views(entries@)),
        forall|d: Seq<char>| #[trigger]
            vector_at(r@, d) == files_in(entry_views(entries@), d),
{
    let ghost views = entry_views(entries@);
    let mut map: MapOfVecs<TreeNode> = MapOfVecs::new();
    let mut i: usize = 0;
    assert(views.take(0) =~= Seq::empty());
    while i < entries.len()
        invariant
            i <= entries@.len(),
            views == entry_views(entries@),
            map.wf(),
            map.spec_keys() == all_dirs(views.take(i as int)),
            forall|d: Seq<char>| #[trigger]
                vector_at(map@, d) == files_in(views.take(i as int), d),
        decreases entries@.len() - i,
    {
        let ghost before = map@;
        let ghost keys = map.spec_keys();
        proof {
            map.lemma_keys();
            assert(views.take(i + 1).drop_last() =~= views.take(i as int));
            assert(views.take(i + 1).last() == entries@[i as int]@);
        }
        let node = TreeNode::from_index_entry(&entries[i]);
        let dir = entries[i].object_directory_name();
        add_to_map_of_vecs(&mut map, dir, node);
        let ghost middle = map@;
        add_parent_dirs_to_map_of_vecs(&mut map, index_path_parent(dir));
        proof {
            lemma_with_keys(middle, dir_chain(parent_path(dir@)));
            lemma_plus_missing_first(keys, dir@);
            assert forall|d: Seq<char>| #[trigger]
                vector_at(map@, d) == files_in(views.take(i + 1), d) by {
                assert(vector_at(before, d) == files_in(views.take(i as int), d));
                if d == dir@ {
                    assert(node_views(middle[d]) =~= vector_at(before, d).push(node@));
                    assert(middle.contains_key(d));
                    assert(with_keys(middle, dir_chain(parent_path(dir@))).contains_key(d));
                } else {
                    assert(node_views(Seq::<TreeNode>::empty()) =~= Seq::<NodeView>::empty());
                    assert(vector_at(middle, d) == vector_at(before, d));
                    assert(with_keys(middle, dir_chain(parent_path(dir@))).contains_key(d)
                        ==> vector_at(map@, d) == vector_at(middle, d));
                }
            }
        }
        i = i + 1;
    }
    assert(views.take(i as int) =~= views);
    map
}

/// The directories that files are grouped by, the longest names first.
fn sorted_directories(map: &MapOfVecs<TreeNode>) -> (r: Vec<String>)
    requires
        map.wf(),
    ensures
        texts(r@) == sorted_by(map.spec_keys(), dir_key()),
        forall|i: int| 0 <= i < r@.len() ==> map@.contains_key(#[trigger] texts(r@)[i]),
{
    let mut dirs: Vec<DirName> = Vec::new();
    let mut i: usize = 0;
    while i < map.len()
        invariant
            map.wf(),
            i <= map.spec_keys().len(),
            dirs@.len() == i,
            forall|j: int| 0 <= j < i ==> (#[trigger] dirs@[j]).name@ == map.spec_keys()[j],
        decreases map.spec_keys().len() - i,
    {
        dirs.push(DirName { name: map.key_at(i).to_string() });
        i = i + 1;
    }
    let ghost before = dirs@;
    sort_items(&mut dirs);
    let mut names: Vec<String> = Vec::new();
    let mut k: usize = 0;
    while k < dirs.len()
        invariant
            k <= dirs@.len(),
            names@.len() == k,
            forall|j: int| 0 <= j < k ==> (#[trigger] names@[j])@ == dirs@[j].name@,
        decreases dirs@.len() - k,
    {
        names.push(dirs[k].name.clone());
        k = k + 1;
    }
    proof {
        let keys = map.spec_keys();
        assert(before.map_values(dir_view()) =~= keys);
        crate::sorting::lemma_sort_map(
            before,
            dir_view(),
            crate::sorting::key_of::<DirName>(),
            dir_key(),
        );
        assert(texts(names@) =~= dirs@.map_values(dir_view()));
        crate::sorting::theorem_sorted_by(keys, dir_key());
        let sorted = texts(names@);
        map.lemma_keys();
        assert forall|i: int| 0 <= i < names@.len() implies map@.contains_key(
            #[trigger] sorted[i],
        ) by {
            assert(sorted.contains(sorted[i]));
            vstd::seq_lib::to_multiset_contains(sorted, sorted[i]);
            vstd::seq_lib::to_multiset_contains(keys, sorted[i]);
            assert(keys.contains(sorted[i]));
        }
    }
    names
}

/// Adds copies of tree entries at the end of others.
fn copy_nodes(from: &[TreeNode], to: &mut Vec<TreeNode>)
    ensures
        node_views(final(to)@) == node_views(old(to)@) + node_views(from@),
{
    let ghost before = node_views(to@);
    let mut i: usize = 0;
    assert(node_views(to@) =~= before + node_views(from@).take(0));
    while i < from.len()
        invariant
            i <= from@.len(),
            node_views(to@) == before + node_views(from@).take(i as int),
        decreases from@.len() - i,
    {
        let ghost was = to@;
        to.push(from[i].clone());
        assert(node_views(to@) =~= node_views(was).push(from@[i as int]@));
        assert(node_views(to@) =~= before + node_views(from@).take(i + 1));
        i = i + 1;
    }
    assert(node_views(from@).take(i as int) =~= node_views(from@));
}

/// The tree of some files and directories.
fn tree_of(files: Option<&Vec<TreeNode>>, subtrees: Option<&Vec<TreeNode>>) -> (r: Tree)
    ensures
        node_views(r.entries@) == sorted_by(
            (match files {
                Some(v) => node_views(v@),
                None => Seq::empty(),
            }) + (match subtrees {
                Some(v) => node_views(v@),
                None => Seq::empty(),
            }),
            node_key(),
        ),
{
    let mut nodes: Vec<TreeNode> = Vec::new();
    let mut tree = Tree::new();
    assert(node_views(nodes@) =~= Seq::<NodeView>::empty());
    if let Some(v) = files {
        copy_nodes(v.as_slice(), &mut nodes);
        assert(node_views(nodes@) =~= node_views(v@));
    }
    let ghost so_far = node_views(nodes@);
    if let Some(v) = subtrees {
        copy_nodes(v.as_slice(), &mut nodes);
    } else {
        assert(so_far + Seq::<NodeView>::empty() =~= so_far);
    }
    assert(node_views(tree.entries@) + node_views(nodes@) =~= node_views(nodes@));
    tree.add_entries(&mut nodes);
    tree
}

/// Stores the trees for the directories of an index, and gives the ID of the one for the top
/// directory.
fn store_trees<S: ObjectStore>(
    store: &mut S,
    contents: &MapOfVecs<TreeNode>,
    dirs: &[String],
    Ghost(entries): Ghost<Seq<EntryView>>,
) -> (r: Result<String, StoreError>)
    requires
        contents.wf(),
        forall|d: Seq<char>| #[trigger] vector_at(contents@, d) == files_in(entries, d),
    ensures
        r is Err ==> !old(store).accepts_writes(),
        old(store).accepts_writes() ==> final(store).accepts_writes(),
        r matches Ok(id) ==> {
            &&& id@ == root_among(entries, texts(dirs@), dirs@.len())
            &&& final(store).objects() == with_trees(
                old(store).objects(),
                entries,
                texts(dirs@),
                dirs@.len(),
            )
        },
{
    let ghost names = texts(dirs@);
    let ghost start = store.objects();
    let mut trees: MapOfVecs<TreeNode> = MapOfVecs::new();
    let mut root = String::new();
    let mut i: usize = 0;
    assert(root@ =~= Seq::empty());
    while i < dirs.len()
        invariant
            i <= dirs@.len(),
            names == texts(dirs@),
            contents.wf(),
            trees.wf(),
            forall|d: Seq<char>| #[trigger] vector_at(contents@, d) == files_in(entries, d),
            forall|d: Seq<char>| #[trigger]
                vector_at(trees@, d) == subtree_nodes(entries, names, d, i as nat),
            root@ == root_among(entries, names, i as nat),
            store.objects() == with_trees(start, entries, names, i as nat),
            old(store).accepts_writes() ==> store.accepts_writes(),
        decreases dirs@.len() - i,
    {
        let dir = dirs[i].as_str();
        let ghost before = trees@;
        assert(dir@ == names[i as int]);
        let tree = tree_of(contents.get(dir), trees.get(dir));
        proof {
            assert(vector_at(contents@, dir@) == files_in(entries, dir@));
            assert(vector_at(trees@, dir@) == subtree_nodes(entries, names, dir@, i as nat));
            assert(node_views(tree.entries@) == tree_nodes(entries, names, i as nat));
        }
        let raw = RawObject::from_git_object(&tree);
        assert(raw.object_id@ == tree_name(entries, names, i as nat));
        assert(raw.content@ == tree_data(entries, names, i as nat));
        let id = match store.write_raw_object(&raw) {
            Err(e) => {
                return Err(e);
            },
            Ok(id) => id,
        };
        if dir.is_empty() {
            root = id;
            proof {
                assert forall|d: Seq<char>| #[trigger]
                    vector_at(trees@, d) == subtree_nodes(entries, names, d, (i + 1) as nat) by {
                    assert(vector_at(before, d) == subtree_nodes(entries, names, d, i as nat));
                }
            }
        } else {
            let node = TreeNode::from_subtree(index_path_file(dir), id.as_str());
            let parent = index_path_parent(dir);
            add_to_map_of_vecs(&mut trees, parent, node);
            proof {
                assert forall|d: Seq<char>| #[trigger]
                    vector_at(trees@, d) == subtree_nodes(entries, names, d, (i + 1) as nat) by {
                    assert(vector_at(before, d) == subtree_nodes(entries, names, d, i as nat));
                    if d == parent@ {
                        assert(node_views(trees@[d]) =~= vector_at(before, d).push(node@));
                    }
                }
            }
        }
        i = i + 1;
    }
    Ok(root)
}

impl<L: ObjectStore, P: ObjectStore, R: RefStore> Repository<L, P, R> {
    /// Stores the index as trees, and gives the ID of the top one.
    pub fn store_index(&mut self, index: &Index) -> (r: Result<String, StoreError>)
        ensures
            final(self).packs == old(self).packs,
            final(self).ref_store == old(self).ref_store,
            final(self).head == old(self).head,
            r is Err ==> !old(self).loose_object_store.accepts_writes(),
            old(self).loose_object_store.accepts_writes()
                ==> final(self).loose_object_store.accepts_writes(),
            r matches Ok(id) ==> {
                let entries = entry_views(index.entries@);
                &&& id@ == root_tree(entries)
                &&& final(self).loose_object_store.objects() == with_trees(
                    old(self).loose_object_store.objects(),
                    entries,
                    dir_order(entries),
                    dir_order(entries).len(),
                )
            },
    {
        let contents = group_by_directory(index.entries.as_slice());
        let dirs = sorted_directories(&contents);
        let ghost entries = entry_views(index.entries@);
        assert(texts(dirs@).len() == dirs@.len());
        store_trees(
            &mut self.loose_object_store,
            &contents,
            dirs.as_slice(),
            Ghost(entries),
        )
    }
}

} // verus!
