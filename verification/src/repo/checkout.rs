//! What the worktree holds when a commit is checked out.

use vstd::prelude::*;

use crate::index::laws::theorem_entries_stay_sorted;
use crate::index::{has_path, listed_id, other_path, with_listed_ids, Index, IndexEntry};
use crate::objects::tree::{node_views, NodeView, Tree};
use crate::objects::{StoredObject, StoredView};
use crate::repo::commits::lemma_contains_concat;
use crate::repo::flatten::path_below;
use crate::repo::model::{first_of, object_at, stands_for, Fault, STEP_LIMIT};
use crate::repo::{fault_error, find_result, RepoError, Repository};
use crate::stores::backends::{ObjectMap, ObjectStore, RefStore};
use crate::sorting::{is_sorted, stable_sort, theorem_stable_sort};
use crate::text::{concat_texts, texts};

verus! {

broadcast use vstd::string::group_string_axioms;

/// Something to make in the worktree.
#[derive(Debug)]
pub enum CheckoutItem {
    /// A directory with the given path.
    Directory(String),
    /// A file with the given path, contents and ID of the contents.
    File(String, Vec<u8>, String),
}

/// What is to be made.
pub enum ItemView {
    /// A directory.
    Directory(Seq<char>),
    /// A file.
    File(Seq<char>, Seq<u8>, Seq<char>),
}

impl View for CheckoutItem {
    type V = ItemView;

    open spec fn view(&self) -> ItemView {
        match self {
            CheckoutItem::Directory(path) => ItemView::Directory(path@),
            CheckoutItem::File(path, data, id) => ItemView::File(path@, data@, id@),
        }
    }
}

/// What things to make are.
pub open spec fn item_views(s: Seq<CheckoutItem>) -> Seq<ItemView> {
    s.map_values(|i: CheckoutItem| i@)
}

/// What to make in the worktree for the entries of a tree, below a path: a file for each blob,
/// and a directory with what it holds for each tree; nothing where an object is missing, is not
/// valid, or is a commit.
pub open spec fn checkout_items(
    objects: Seq<ObjectMap>,
    nodes: Seq<NodeView>,
    prefix: Seq<char>,
    steps: nat,
) -> Option<Seq<ItemView>>
    decreases steps, nodes.len(),
{
    if nodes.len() == 0 {
        Some(Seq::empty())
    } else {
        let node = nodes.last();
        let path = path_below(prefix, node.name);
        match checkout_items(objects, nodes.drop_last(), prefix, steps) {
            None => None,
            Some(items) => match object_at(objects, node.object_id) {
                Ok(Some(StoredView::Tree(below))) => if steps == 0 {
                    None
                } else {
                    match checkout_items(objects, below, path, (steps - 1) as nat) {
                        None => None,
                        Some(more) => Some(items.push(ItemView::Directory(path)) + more),
                    }
                },
                Ok(Some(StoredView::Blob(data))) => Some(
                    items.push(ItemView::File(path, data, node.object_id)),
                ),
                Ok(Some(StoredView::Tag(_, _))) => Some(items),
                _ => None,
            },
        }
    }
}

/// Why a commit cannot be checked out.
#[derive(Debug)]
pub enum CheckoutError {
    /// An object is not in the repository.
    ObjectNotFound(String),
    /// An entry of a tree is a commit of another repository.
    Submodule(String),
    /// The object is not a commit.
    NotACommit(String),
    /// The commit names no tree.
    NoTree(String),
    /// The tree of the commit is not in the repository.
    MissingTree(String),
    /// The tree of the commit is not a tree.
    NotATree(String),
    /// An object could not be found or read.
    Repo(RepoError),
}

proof fn lemma_items_fail(
    objects: Seq<ObjectMap>,
    nodes: Seq<NodeView>,
    prefix: Seq<char>,
    steps: nat,
    i: int,
)
    requires
        0 <= i <= nodes.len(),
    ensures
        checkout_items(objects, nodes.take(i), prefix, steps) is None ==> checkout_items(
            objects,
            nodes,
            prefix,
            steps,
        ) is None,
    decreases nodes.len() - i,
{
    if i < nodes.len() {
        lemma_items_fail(objects, nodes, prefix, steps, i + 1);
        assert(nodes.take(i + 1).drop_last() =~= nodes.take(i));
    } else {
        assert(nodes.take(i) =~= nodes);
    }
}

fn path_of_entry(prefix: &str, name: &str) -> (r: String)
    ensures
        r@ == path_below(prefix@, name@),
{
    if prefix.is_empty() {
        name.to_string()
    } else {
        let mut p = concat_texts(prefix, "/");
        p.append(name);
        proof {
            reveal_strlit("/");
            assert("/"@ =~= seq!['/']);
        }
        p
    }
}

impl Tree {
    /// What to make in the worktree for the tree.
    pub fn checkout<L: ObjectStore, P: ObjectStore, R: RefStore>(
        &self,
        repo: &Repository<L, P, R>,
    ) -> (r: Result<Vec<CheckoutItem>, CheckoutError>)
        ensures
            match r {
                Ok(items) => checkout_items(
                    repo@.objects,
                    node_views(self.entries@),
                    Seq::empty(),
                    STEP_LIMIT as nat,
                ) == Some(item_views(items@)),
                Err(CheckoutError::Repo(RepoError::Store(_))) => !repo.reliable(),
                Err(_) => checkout_items(
                    repo@.objects,
                    node_views(self.entries@),
                    Seq::empty(),
                    STEP_LIMIT as nat,
                ) is None,
            },
    {
        proof {
            reveal_strlit("");
            assert(""@ =~= Seq::<char>::empty());
        }
        self.checkout_below(repo, "", STEP_LIMIT)
    }

    fn checkout_below<L: ObjectStore, P: ObjectStore, R: RefStore>(
        &self,
        repo: &Repository<L, P, R>,
        prefix: &str,
        steps: u64,
    ) -> (r: Result<Vec<CheckoutItem>, CheckoutError>)
        ensures
            match r {
                Ok(items) => checkout_items(
                    repo@.objects,
                    node_views(self.entries@),
                    prefix@,
                    steps as nat,
                ) == Some(item_views(items@)),
                Err(CheckoutError::Repo(RepoError::Store(_))) => !repo.reliable(),
                Err(_) => checkout_items(
                    repo@.objects,
                    node_views(self.entries@),
                    prefix@,
                    steps as nat,
                ) is None,
            },
        decreases steps,
    {
        let ghost nodes = node_views(self.entries@);
        let ghost objects = repo@.objects;
        let mut items: Vec<CheckoutItem> = Vec::new();
        let mut i: usize = 0;
        assert(nodes.take(0) =~= Seq::empty());
        assert(item_views(items@) =~= Seq::empty());
        while i < self.entries.len()
            invariant
                i <= self.entries@.len(),
                nodes == node_views(self.entries@),
                objects == repo@.objects,
                checkout_items(objects, nodes.take(i as int), prefix@, steps as nat) == Some(
                    item_views(items@),
                ),
            decreases self.entries@.len() - i,
        {
            let entry = &self.entries[i];
            let ghost before = item_views(items@);
            proof {
                assert(nodes.take(i + 1).drop_last() =~= nodes.take(i as int));
                assert(nodes.take(i + 1).last() == entry@);
                lemma_items_fail(objects, nodes, prefix@, steps as nat, i + 1);
            }
            let found = match repo.read_object(entry.object_id.as_str()) {
                Err(e) => {
                    return Err(CheckoutError::Repo(e));
                },
                Ok(None) => {
                    return Err(CheckoutError::ObjectNotFound(entry.object_id.clone()));
                },
                Ok(Some(found)) => found,
            };
            let path = path_of_entry(prefix, entry.name());
            match found {
                StoredObject::Tree(tree) => {
                    if steps == 0 {
                        return Err(CheckoutError::Repo(RepoError::Fault(Fault::Endless)));
                    }
                    match tree.checkout_below(repo, path.as_str(), steps - 1) {
                        Err(e) => {
                            return Err(e);
                        },
                        Ok(mut below) => {
                            let ghost more = item_views(below@);
                            let directory = CheckoutItem::Directory(path);
                            items.push(directory);
                            items.append(&mut below);
                            assert(item_views(items@) =~= before.push(directory@) + more);
                        },
                    }
                },
                StoredObject::Blob(blob) => {
                    let item = CheckoutItem::File(path, blob.data, entry.object_id.clone());
                    items.push(item);
                    assert(item_views(items@) =~= before.push(item@));
                },
                StoredObject::Tag(_) => {},
                StoredObject::Commit(_) => {
                    return Err(CheckoutError::Submodule(entry.object_id.clone()));
                },
            }
            i = i + 1;
        }
        assert(nodes.take(i as int) =~= nodes);
        Ok(items)
    }
}

/// A commit to check out: its ID, and its tree.
#[derive(Debug)]
pub struct CheckoutTarget {
    /// The ID of the commit.
    pub target_id: String,
    /// The tree of the commit.
    pub tree: Tree,
}

/// What keeps a commit from being checked out, or the entries of its tree.
pub enum TargetView {
    /// The object is not in the repository.
    NotFound,
    /// The object is not a commit.
    NotACommit,
    /// The commit names no tree.
    NoTree,
    /// The tree is not in the repository.
    MissingTree,
    /// The tree is not one.
    NotATree,
    /// An object is not valid.
    Invalid(Fault),
    /// The entries of the tree.
    Entries(Seq<NodeView>),
}

/// What checking out the commit with an ID leads to.
pub open spec fn checkout_target_of(objects: Seq<ObjectMap>, id: Seq<char>) -> TargetView {
    match object_at(objects, id) {
        Err(f) => TargetView::Invalid(f),
        Ok(None) => TargetView::NotFound,
        Ok(Some(StoredView::Commit(fields, _))) => match first_of(fields, "tree"@) {
            None => TargetView::NoTree,
            Some(tree) => match object_at(objects, tree) {
                Err(f) => TargetView::Invalid(f),
                Ok(None) => TargetView::MissingTree,
                Ok(Some(StoredView::Tree(nodes))) => TargetView::Entries(nodes),
                Ok(Some(_)) => TargetView::NotATree,
            },
        },
        Ok(Some(_)) => TargetView::NotACommit,
    }
}

impl<L: ObjectStore, P: ObjectStore, R: RefStore> Repository<L, P, R> {
    /// The commit that a name stands for, and its tree.
    pub fn checkout_target(&self, target_name: &str) -> (r: Result<CheckoutTarget, CheckoutError>)
        ensures
            match r {
                Ok(t) => stands_for(self@, target_name@, t.target_id@)
                    && checkout_target_of(self@.objects, t.target_id@) == TargetView::Entries(
                    node_views(t.tree.entries@),
                ),
                Err(CheckoutError::Repo(RepoError::Store(_))) => !self.reliable(),
                Err(CheckoutError::ObjectNotFound(name)) => name@ == target_name@ && exists|
                    id: Seq<char>,
                | #[trigger]
                    stands_for(self@, target_name@, id) && checkout_target_of(
                        self@.objects,
                        id,
                    ) is NotFound,
                Err(CheckoutError::NotACommit(id)) => stands_for(self@, target_name@, id@)
                    && checkout_target_of(self@.objects, id@) is NotACommit,
                Err(CheckoutError::NoTree(id)) => stands_for(self@, target_name@, id@)
                    && checkout_target_of(self@.objects, id@) is NoTree,
                Err(CheckoutError::MissingTree(id)) => stands_for(self@, target_name@, id@)
                    && checkout_target_of(self@.objects, id@) is MissingTree,
                Err(CheckoutError::NotATree(id)) => stands_for(self@, target_name@, id@)
                    && checkout_target_of(self@.objects, id@) is NotATree,
                Err(CheckoutError::Submodule(_)) => false,
                Err(CheckoutError::Repo(e)) => {
                    ||| find_result(self@, target_name@, None, true, self.reliable(), Err(e))
                    ||| exists|id: Seq<char>| #[trigger]
                        stands_for(self@, target_name@, id) && (checkout_target_of(
                            self@.objects,
                            id,
                        ) matches TargetView::Invalid(f) && fault_error(e, f))
                },
            },
    {
        let target_id = match self.find_object(target_name, None, true) {
            Err(e) => {
                return Err(CheckoutError::Repo(e));
            },
            Ok(id) => id,
        };
        assert(stands_for(self@, target_name@, target_id@));
        let commit = match self.read_object(target_id.as_str()) {
            Err(e) => {
                return Err(CheckoutError::Repo(e));
            },
            Ok(None) => {
                return Err(CheckoutError::ObjectNotFound(target_name.to_string()));
            },
            Ok(Some(StoredObject::Commit(commit))) => commit,
            Ok(Some(_)) => {
                return Err(CheckoutError::NotACommit(target_id));
            },
        };
        let tree_id = match commit.tree() {
            Err(_) => {
                return Err(CheckoutError::NoTree(target_id));
            },
            Ok(id) => id,
        };
        match self.read_object(tree_id.as_str()) {
            Err(e) => Err(CheckoutError::Repo(e)),
            Ok(None) => Err(CheckoutError::MissingTree(target_id)),
            Ok(Some(StoredObject::Tree(tree))) => Ok(CheckoutTarget { target_id, tree }),
            Ok(Some(_)) => Err(CheckoutError::NotATree(target_id)),
        }
    }
}

/// Whether an entry has the path of none of others.
pub open spec fn path_not_among(files: Seq<IndexEntry>) -> spec_fn(IndexEntry) -> bool {
    |e: IndexEntry| !has_path(files, e.object_name@)
}

/// The object IDs of entries.
pub open spec fn ids_of(files: Seq<IndexEntry>) -> Seq<Seq<char>> {
    files.map_values(|e: IndexEntry| e.object_id@)
}

/// The entries of the index once files are checked out: the files take the place of the entries
/// with their paths, and of the others those stay whose contents a file has.
pub open spec fn checked_out(entries: Seq<IndexEntry>, files: Seq<IndexEntry>) -> Seq<IndexEntry> {
    with_listed_ids(
        stable_sort(entries.filter(path_not_among(files)) + files),
        ids_of(files),
    )
}

proof fn lemma_filter_in<T>(s: Seq<T>, p: spec_fn(T) -> bool, x: T)
    ensures
        s.filter(p).contains(x) <==> s.contains(x) && p(x),
{
    broadcast use vstd::seq_lib::group_filter_ensures;

    if s.filter(p).contains(x) {
        let i = choose|i: int| 0 <= i < s.filter(p).len() && s.filter(p)[i] == x;
        assert(p(s.filter(p)[i]));
        s.lemma_filter_contains_rev(p, x);
    }
    if s.contains(x) && p(x) {
        let i = choose|i: int| 0 <= i < s.len() && s[i] == x;
        assert(s.filter(p).contains(s[i]));
    }
}

proof fn lemma_filter_twice<T>(
    s: Seq<T>,
    p: spec_fn(T) -> bool,
    q: spec_fn(T) -> bool,
    both: spec_fn(T) -> bool,
)
    requires
        forall|x: T| #[trigger] both(x) <==> p(x) && q(x),
    ensures
        s.filter(p).filter(q) == s.filter(both),
    decreases s.len(),
{
    reveal(Seq::filter);
    if s.len() > 0 {
        let x = s.last();
        let rest = s.drop_last();
        lemma_filter_twice(rest, p, q, both);
        assert(both(x) <==> p(x) && q(x));
        if p(x) {
            assert(rest.filter(p).push(x).drop_last() =~= rest.filter(p));
        }
    }
}

/// Once files are checked out, the index lists each of them; it lists no other entry with the
/// path of one, and of the other entries it had those whose contents are those of a file.  Its
/// entries are sorted.
pub proof fn theorem_index_lists_checked_out(entries: Seq<IndexEntry>, files: Seq<IndexEntry>)
    ensures
        forall|e: IndexEntry| #[trigger]
            checked_out(entries, files).contains(e) <==> files.contains(e) || (entries.contains(e)
                && !has_path(files, e.object_name@) && ids_of(files).contains(e.object_id@)),
        is_sorted(checked_out(entries, files)),
{
    let kept = entries.filter(path_not_among(files));
    let all = stable_sort(kept + files);
    let out = checked_out(entries, files);
    theorem_stable_sort(kept + files);
    theorem_entries_stay_sorted(all, Seq::empty(), Seq::empty(), ids_of(files));
    assert forall|e: IndexEntry| #[trigger] out.contains(e) <==> files.contains(e) || (
    entries.contains(e) && !has_path(files, e.object_name@) && ids_of(files).contains(
        e.object_id@,
    )) by {
        lemma_filter_in(all, listed_id(ids_of(files)), e);
        vstd::seq_lib::to_multiset_contains(all, e);
        vstd::seq_lib::to_multiset_contains(kept + files, e);
        lemma_contains_concat(kept, files, e);
        lemma_filter_in(entries, path_not_among(files), e);
        if files.contains(e) {
            let i = choose|i: int| 0 <= i < files.len() && files[i] == e;
            assert(ids_of(files)[i] == e.object_id@);
        }
    }
}

/// Makes the index follow a checkout, given the entries of the files that were checked out.
pub fn update_index(index: &mut Index, files: Vec<IndexEntry>)
    ensures
        final(index).version == old(index).version,
        final(index).entries@ == checked_out(old(index).entries@, files@),
{
    let ghost before = index.entries@;
    let ghost listed = files@;
    let mut ids: Vec<String> = Vec::new();
    let mut i: usize = 0;
    proof {
        assert(texts(ids@) =~= ids_of(listed.take(0)));
        assert(before.filter(path_not_among(listed.take(0))) =~= before) by {
            lemma_filter_all(before, path_not_among(listed.take(0)));
        }
    }
    while i < files.len()
        invariant
            i <= files@.len(),
            listed == files@,
            index.version == old(index).version,
            index.entries@ == before.filter(path_not_among(listed.take(i as int))),
            texts(ids@) == ids_of(listed.take(i as int)),
        decreases files@.len() - i,
    {
        index.remove(files[i].object_name.as_str());
        let ghost known = texts(ids@);
        let id = files[i].object_id.clone();
        ids.push(id);
        proof {
            let a = listed.take(i as int);
            let b = listed.take(i + 1);
            let file = listed[i as int];
            assert(b =~= a.push(file));
            assert forall|e: IndexEntry| #[trigger] path_not_among(b)(e) <==> path_not_among(a)(e)
                && other_path(file.object_name@)(e) by {
                if has_path(a, e.object_name@) {
                    let k = choose|k: int|
                        0 <= k < a.len() && (#[trigger] a[k]).object_name@ == e.object_name@;
                    assert(b[k].object_name@ == e.object_name@);
                }
                if e.object_name@ == file.object_name@ {
                    assert(b[i as int].object_name@ == e.object_name@);
                }
                if has_path(b, e.object_name@) && e.object_name@ != file.object_name@ {
                    let k = choose|k: int|
                        0 <= k < b.len() && (#[trigger] b[k]).object_name@ == e.object_name@;
                    assert(a[k].object_name@ == e.object_name@);
                }
            }
            lemma_filter_twice(
                before,
                path_not_among(a),
                other_path(file.object_name@),
                path_not_among(b),
            );
            assert(texts(ids@) =~= known.push(file.object_id@));
            assert(ids_of(b) =~= ids_of(a).push(file.object_id@));
        }
        i = i + 1;
    }
    assert(listed.take(i as int) =~= listed);
    let mut files = files;
    index.add_range(&mut files);
    index.remove_not_present(ids.as_slice());
}

proof fn lemma_filter_all<T>(s: Seq<T>, p: spec_fn(T) -> bool)
    requires
        forall|x: T| #[trigger] p(x),
    ensures
        s.filter(p) == s,
    decreases s.len(),
{
    reveal(Seq::filter);
    if s.len() > 0 {
        lemma_filter_all(s.drop_last(), p);
        assert(p(s.last()));
        assert(s.drop_last().push(s.last()) =~= s);
    }
}

} // verus!
