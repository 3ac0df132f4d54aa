//! The files that a tree holds, with the directories below it.

use vstd::prelude::*;

use crate::objects::tree::{node_views, NodeView};
use crate::objects::{KindView, ObjectKind, StoredObject, StoredView};
use crate::repo::model::{
    follow, head_valid, is_candidate, is_sole_candidate, object_at, Fault, RepoView, STEP_LIMIT,
};
use crate::repo::{find_result, RepoError, Repository};
use crate::stores::backends::{ObjectStore, RefStore};
use crate::text::{concat_texts, same_text, texts, trim};

verus! {

broadcast use vstd::string::group_string_axioms;

/// A file: its path, and the ID of its contents.
#[derive(Debug)]
pub struct PathItem {
    /// The path, in repository format.
    pub path: String,
    /// The ID of the contents.
    pub object_id: String,
}

/// The contents of files by their paths.
#[derive(Debug)]
pub struct PathMap {
    /// The files, each path once.
    pub items: Vec<PathItem>,
}

/// What a list of files holds for each path; of two files with the same path the last one
/// counts.
pub open spec fn path_map(s: Seq<PathItem>) -> Map<Seq<char>, Seq<char>>
    decreases s.len(),
{
    if s.len() == 0 {
        Map::empty()
    } else {
        path_map(s.drop_last()).insert(s.last().path@, s.last().object_id@)
    }
}

impl View for PathMap {
    type V = Map<Seq<char>, Seq<char>>;

    open spec fn view(&self) -> Map<Seq<char>, Seq<char>> {
        path_map(self.items@)
    }
}

pub(crate) proof fn lemma_path_map_at(s: Seq<PathItem>, k: Seq<char>, i: int)
    requires
        0 <= i < s.len(),
        s[i].path@ == k,
        forall|j: int| i < j < s.len() ==> (#[trigger] s[j]).path@ != k,
    ensures
        path_map(s).contains_key(k),
        path_map(s)[k] == s[i].object_id@,
    decreases s.len(),
{
    if i < s.len() - 1 {
        let before = s.drop_last();
        assert(s[s.len() - 1].path@ != k);
        assert forall|j: int| i < j < before.len() implies (#[trigger] before[j]).path@ != k by {
            assert(s[j].path@ != k);
        }
        lemma_path_map_at(before, k, i);
    }
}

pub(crate) proof fn lemma_path_map_missing(s: Seq<PathItem>, k: Seq<char>)
    requires
        forall|j: int| 0 <= j < s.len() ==> (#[trigger] s[j]).path@ != k,
    ensures
        !path_map(s).contains_key(k),
    decreases s.len(),
{
    if s.len() > 0 {
        let before = s.drop_last();
        assert(s[s.len() - 1].path@ != k);
        assert forall|j: int| 0 <= j < before.len() implies (#[trigger] before[j]).path@ != k by {
            assert(s[j].path@ != k);
        }
        lemma_path_map_missing(before, k);
    }
}

/// Replacing one file by another with the same path, where no path occurs twice.
proof fn lemma_path_map_update(s: Seq<PathItem>, i: int, item: PathItem)
    requires
        0 <= i < s.len(),
        s[i].path@ == item.path@,
        forall|j: int, k: int|
            0 <= j < k < s.len() ==> (#[trigger] s[j]).path@ != (#[trigger] s[k]).path@,
    ensures
        path_map(s.update(i, item)) == path_map(s).insert(item.path@, item.object_id@),
    decreases s.len(),
{
    let t = s.update(i, item);
    let before = s.drop_last();
    if i == s.len() - 1 {
        assert(t.drop_last() =~= before);
        assert(path_map(t) =~= path_map(s).insert(item.path@, item.object_id@));
    } else {
        assert forall|j: int, k: int| 0 <= j < k < before.len() implies (
        #[trigger] before[j]).path@ != (#[trigger] before[k]).path@ by {
            assert(s[j].path@ != s[k].path@);
        }
        lemma_path_map_update(before, i, item);
        assert(t.drop_last() =~= before.update(i, item));
        assert(s[i].path@ != s[s.len() - 1].path@);
        assert(path_map(t) =~= path_map(s).insert(item.path@, item.object_id@));
    }
}

impl PathMap {
    /// No path occurs twice.
    pub open spec fn wf(&self) -> bool {
        forall|j: int, k: int|
            0 <= j < k < self.items@.len() ==> (#[trigger] self.items@[j]).path@ != (
            #[trigger] self.items@[k]).path@
    }

    /// No files.
    pub fn new() -> (r: Self)
        ensures
            r.wf(),
            r@ == Map::<Seq<char>, Seq<char>>::empty(),
    {
        PathMap { items: Vec::new() }
    }

    fn position(&self, path: &str) -> (r: Option<usize>)
        requires
            self.wf(),
        ensures
            match r {
                Some(i) => i < self.items@.len() && self.items@[i as int].path@ == path@
                    && self@.contains_key(path@) && self@[path@]
                    == self.items@[i as int].object_id@,
                None => !self@.contains_key(path@) && forall|j: int|
                    0 <= j < self.items@.len() ==> (#[trigger] self.items@[j]).path@ != path@,
            },
    {
        let mut i: usize = 0;
        while i < self.items.len()
            invariant
                self.wf(),
                i <= self.items@.len(),
                forall|j: int| 0 <= j < i ==> (#[trigger] self.items@[j]).path@ != path@,
            decreases self.items@.len() - i,
        {
            if same_text(self.items[i].path.as_str(), path) {
                proof {
                    assert forall|j: int| i < j < self.items@.len() implies (
                    #[trigger] self.items@[j]).path@ != path@ by {
                        assert(self.items@[i as int].path@ != self.items@[j].path@);
                    }
                    lemma_path_map_at(self.items@, path@, i as int);
                }
                return Some(i);
            }
            i = i + 1;
        }
        proof {
            lemma_path_map_missing(self.items@, path@);
        }
        None
    }

    /// The ID of the contents of a file.
    pub fn get(&self, path: &str) -> (r: Option<&str>)
        requires
            self.wf(),
        ensures
            match r {
                Some(id) => self@.contains_key(path@) && id@ == self@[path@],
                None => !self@.contains_key(path@),
            },
    {
        match self.position(path) {
            Some(i) => Some(self.items[i].object_id.as_str()),
            None => None,
        }
    }

    /// Adds a file, or replaces the one with the same path.
    pub fn insert(&mut self, path: String, object_id: String)
        requires
            old(self).wf(),
        ensures
            final(self).wf(),
            final(self)@ == old(self)@.insert(path@, object_id@),
    {
        let ghost before = self.items@;
        match self.position(path.as_str()) {
            Some(i) => {
                let item = PathItem { path, object_id };
                proof {
                    lemma_path_map_update(before, i as int, item);
                }
                self.items.set(i, item);
                assert(self.items@ =~= before.update(i as int, item));
                assert(forall|j: int|
                    0 <= j < before.len() ==> (#[trigger] self.items@[j]).path@
                        == before[j].path@);
            },
            None => {
                self.items.push(PathItem { path, object_id });
                assert(self.items@.drop_last() =~= before);
            },
        }
    }

    /// Adds or replaces all files of another map.
    pub fn extend(&mut self, other: PathMap)
        requires
            old(self).wf(),
        ensures
            final(self).wf(),
            final(self)@ == old(self)@.union_prefer_right(other@),
    {
        let ghost before = self@;
        let mut i: usize = 0;
        assert(before.union_prefer_right(path_map(other.items@.take(0))) =~= before);
        while i < other.items.len()
            invariant
                self.wf(),
                i <= other.items@.len(),
                self@ == before.union_prefer_right(path_map(other.items@.take(i as int))),
            decreases other.items@.len() - i,
        {
            assert(other.items@.take(i + 1).drop_last() =~= other.items@.take(i as int));
            self.insert(other.items[i].path.clone(), other.items[i].object_id.clone());
            assert(self@ =~= before.union_prefer_right(path_map(other.items@.take(i + 1))));
            i = i + 1;
        }
        assert(other.items@.take(i as int) =~= other.items@);
    }
}

/// The tree that a name stands for, or leads to.
pub open spec fn found_tree(repo: RepoView, name: Seq<char>) -> Option<Seq<char>> {
    if exists|id: Seq<char>| is_sole_candidate(repo, name, id) {
        let id = choose|id: Seq<char>| is_sole_candidate(repo, name, id);
        match follow(repo.objects, id, KindView::Tree, true, STEP_LIMIT as nat) {
            Ok(tree) => Some(tree),
            Err(_) => None,
        }
    } else {
        None
    }
}

/// A name in a directory as a path.
pub open spec fn path_below(prefix: Seq<char>, name: Seq<char>) -> Seq<char> {
    if prefix.len() == 0 {
        name
    } else {
        prefix + seq!['/'] + name
    }
}

/// The files of the tree that a name stands for, and of the directories below it, with a prefix
/// in front of their paths; nothing where the tree or one of the directories is not valid.
pub open spec fn tree_files(
    repo: RepoView,
    name: Seq<char>,
    prefix: Seq<char>,
    steps: nat,
) -> Option<Map<Seq<char>, Seq<char>>>
    decreases steps, 0nat,
{
    match found_tree(repo, name) {
        None => None,
        Some(id) => match object_at(repo.objects, id) {
            Ok(Some(StoredView::Tree(nodes))) => if steps == 0 {
                None
            } else {
                nodes_files(repo, nodes, prefix, (steps - 1) as nat)
            },
            _ => None,
        },
    }
}

/// The files of the entries of a tree, and of the directories among them.
pub open spec fn nodes_files(
    repo: RepoView,
    nodes: Seq<NodeView>,
    prefix: Seq<char>,
    steps: nat,
) -> Option<Map<Seq<char>, Seq<char>>>
    decreases steps, nodes.len() + 1,
{
    if nodes.len() == 0 {
        Some(Map::empty())
    } else {
        let node = nodes.last();
        let path = path_below(prefix, node.name);
        match nodes_files(repo, nodes.drop_last(), prefix, steps) {
            None => None,
            Some(files) => if node.mode < 0o100000 {
                match tree_files(repo, node.object_id, path, steps) {
                    None => None,
                    Some(below) => Some(files.union_prefer_right(below)),
                }
            } else {
                Some(files.insert(path, node.object_id))
            },
        }
    }
}

pub(crate) proof fn lemma_found_tree(repo: RepoView, name: Seq<char>, id: Seq<char>)
    requires
        is_sole_candidate(repo, name, id),
    ensures
        found_tree(repo, name) == match follow(
            repo.objects,
            id,
            KindView::Tree,
            true,
            STEP_LIMIT as nat,
        ) {
            Ok(tree) => Some(tree),
            Err(_) => None,
        },
{
    let other = choose|other: Seq<char>| is_sole_candidate(repo, name, other);
    assert(is_candidate(repo, name, other));
    assert(other == id);
}

proof fn lemma_find_tree(repo: RepoView, name: Seq<char>, reliable: bool, r: Result<String, RepoError>)
    requires
        find_result(repo, name, Some(KindView::Tree), true, reliable, r),
    ensures
        match r {
            Ok(id) => found_tree(repo, name) == Some(id@),
            Err(RepoError::Store(_)) => !reliable,
            Err(_) => found_tree(repo, name) is None || (trim(name) == "HEAD"@ && !head_valid(
                repo,
            )),
        },
{
    match r {
        Ok(found) => {
            let id = choose|id: Seq<char>| #[trigger]
                is_sole_candidate(repo, name, id) && follow(
                    repo.objects,
                    id,
                    KindView::Tree,
                    true,
                    STEP_LIMIT as nat,
                ) == Ok::<Seq<char>, Fault>(found@);
            lemma_found_tree(repo, name, id);
        },
        Err(e) => {
            if exists|id: Seq<char>| is_sole_candidate(repo, name, id) {
                let id = choose|id: Seq<char>| is_sole_candidate(repo, name, id);
                lemma_found_tree(repo, name, id);
                if let RepoError::Find(f) = e {
                    if let Some(ids) = f.candidates {
                        let list = texts(ids@);
                        assert(list[0] != list[1]);
                        assert(list.contains(list[0]));
                        assert(list.contains(list[1]));
                        assert(is_candidate(repo, name, list[0]));
                        assert(is_candidate(repo, name, list[1]));
                    }
                }
                assert(is_candidate(repo, name, id));
            }
        },
    }
}

impl<L: ObjectStore, P: ObjectStore, R: RefStore> Repository<L, P, R> {
    /// The files of the tree that the current commit is of, by their paths.
    pub fn flatten_head_tree(&self) -> (r: Result<PathMap, RepoError>)
        ensures
            match r {
                Ok(files) => files.wf() && tree_files(
                    self@,
                    "HEAD"@,
                    Seq::empty(),
                    STEP_LIMIT as nat,
                ) == Some(files@),
                Err(RepoError::Store(_)) => !self.reliable(),
                Err(_) => tree_files(self@, "HEAD"@, Seq::empty(), STEP_LIMIT as nat) is None,
            },
    {
        proof {
            reveal_strlit("HEAD");
            reveal_strlit("");
            assert(""@ =~= Seq::<char>::empty());
        }
        self.flatten_tree_recursive("HEAD", "", STEP_LIMIT)
    }

    fn flatten_tree_recursive(&self, tree_id: &str, prefix: &str, steps: u64) -> (r: Result<
        PathMap,
        RepoError,
    >)
        ensures
            match r {
                Ok(files) => files.wf() && tree_files(self@, tree_id@, prefix@, steps as nat)
                    == Some(files@),
                Err(RepoError::Store(_)) => !self.reliable(),
                Err(_) => tree_files(self@, tree_id@, prefix@, steps as nat) is None,
            },
        decreases steps,
    {
        let found = self.find_object(tree_id, Some(ObjectKind::Tree), true);
        proof {
            lemma_find_tree(self@, tree_id@, self.reliable(), found);
            if trim(tree_id@) == "HEAD"@ && !head_valid(self@) {
                lemma_no_head_at(self@, tree_id@);
            }
        }
        let id = match found {
            Err(e) => {
                return Err(e);
            },
            Ok(id) => id,
        };
        let tree = match self.read_object(id.as_str()) {
            Err(e) => {
                return Err(e);
            },
            Ok(Some(StoredObject::Tree(tree))) => tree,
            Ok(_) => {
                return Err(RepoError::Fault(Fault::NotATree));
            },
        };
        if steps == 0 {
            return Err(RepoError::Fault(Fault::Endless));
        }
        let ghost nodes = node_views(tree.entries@);
        let ghost below = (steps - 1) as nat;
        let mut map = PathMap::new();
        let mut i: usize = 0;
        assert(nodes.take(0) =~= Seq::empty());
        while i < tree.entries.len()
            invariant
                steps > 0,
                below == steps - 1,
                i <= tree.entries@.len(),
                nodes == node_views(tree.entries@),
                map.wf(),
                nodes_files(self@, nodes.take(i as int), prefix@, below) == Some(map@),
                tree_files(self@, tree_id@, prefix@, steps as nat) == nodes_files(
                    self@,
                    nodes,
                    prefix@,
                    below,
                ),
            decreases tree.entries@.len() - i,
        {
            let entry = &tree.entries[i];
            proof {
                assert(nodes.take(i + 1).drop_last() =~= nodes.take(i as int));
                assert(nodes.take(i + 1).last() == entry@);
            }
            let path = if prefix.is_empty() {
                entry.name().to_string()
            } else {
                let mut p = concat_texts(prefix, "/");
                p.append(entry.name());
                proof {
                    reveal_strlit("/");
                    assert("/"@ =~= seq!['/']);
                }
                p
            };
            assert(path@ == path_below(prefix@, entry@.name));
            if entry.mode < 0o100000 {
                match self.flatten_tree_recursive(
                    entry.object_id.as_str(),
                    path.as_str(),
                    steps - 1,
                ) {
                    Err(e) => {
                        proof {
                            lemma_files_fail(self@, nodes, prefix@, below, i + 1);
                        }
                        return Err(e);
                    },
                    Ok(sub) => {
                        map.extend(sub);
                    },
                }
            } else {
                map.insert(path, entry.object_id.clone());
            }
            i = i + 1;
        }
        assert(nodes.take(i as int) =~= nodes);
        Ok(map)
    }
}

proof fn lemma_files_fail(
    repo: RepoView,
    nodes: Seq<NodeView>,
    prefix: Seq<char>,
    steps: nat,
    i: int,
)
    requires
        0 <= i <= nodes.len(),
    ensures
        nodes_files(repo, nodes.take(i), prefix, steps) is None ==> nodes_files(
            repo,
            nodes,
            prefix,
            steps,
        ) is None,
    decreases nodes.len() - i,
{
    if i < nodes.len() {
        lemma_files_fail(repo, nodes, prefix, steps, i + 1);
        assert(nodes.take(i + 1).drop_last() =~= nodes.take(i));
    } else {
        assert(nodes.take(i) =~= nodes);
    }
}

proof fn lemma_no_head_at(repo: RepoView, name: Seq<char>)
    requires
        trim(name) == "HEAD"@,
        !head_valid(repo),
    ensures
        found_tree(repo, name) is None,
{
    reveal_strlit("HEAD");
    assert forall|id: Seq<char>| !is_sole_candidate(repo, name, id) by {
        assert(!is_candidate(repo, name, id));
    }
}

} // verus!
