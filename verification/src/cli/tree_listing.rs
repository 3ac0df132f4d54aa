//! The command that lists trees.

use vstd::prelude::*;

use crate::numerals::{numeral, padded_numeral_of, zero_padded};
use crate::objects::tree::{node_views, NodeView, Tree};
use crate::objects::{KindView, ObjectKind, StoredObject, StoredView};
use crate::repo::flatten::path_below;
use crate::repo::model::{object_at, Fault, STEP_LIMIT};
use crate::repo::{find_result, RepoError, Repository};
use crate::stores::backends::{ObjectMap, ObjectStore, RefStore};
use crate::text::{concat_texts, string_of, texts};

verus! {

broadcast use vstd::string::group_string_axioms;

/// Whether an entry of a tree is a directory, by its mode.
pub open spec fn is_directory(mode: int) -> bool {
    mode < 0o100000
}

/// The line for an entry of a tree: its mode in octal, its kind, its ID and its path.
pub open spec fn entry_line(node: NodeView, path: Seq<char>) -> Seq<char> {
    zero_padded(numeral(node.mode as nat, 8), 6) + if is_directory(node.mode) {
        " tree "@
    } else {
        " blob "@
    } + node.object_id + "\t"@ + path
}

/// The lines for the entries of a tree, below a path; where asked for, those of directories in
/// place of their own.  Nothing where a directory is not a tree that can be read.
pub open spec fn tree_lines(
    objects: Seq<ObjectMap>,
    nodes: Seq<NodeView>,
    prefix: Seq<char>,
    recursive: bool,
    steps: nat,
) -> Option<Seq<Seq<char>>>
    decreases steps, nodes.len(),
{
    if nodes.len() == 0 {
        Some(Seq::empty())
    } else {
        let node = nodes.last();
        let path = path_below(prefix, node.name);
        match tree_lines(objects, nodes.drop_last(), prefix, recursive, steps) {
            None => None,
            Some(lines) => if recursive && is_directory(node.mode) {
                match object_at(objects, node.object_id) {
                    Ok(Some(StoredView::Tree(below))) => if steps == 0 {
                        None
                    } else {
                        match tree_lines(objects, below, path, recursive, (steps - 1) as nat) {
                            None => None,
                            Some(more) => Some(lines + more),
                        }
                    },
                    _ => None,
                }
            } else {
                Some(lines.push(entry_line(node, path)))
            },
        }
    }
}

proof fn lemma_lines_fail(
    objects: Seq<ObjectMap>,
    nodes: Seq<NodeView>,
    prefix: Seq<char>,
    recursive: bool,
    steps: nat,
    i: int,
)
    requires
        0 <= i <= nodes.len(),
    ensures
        tree_lines(objects, nodes.take(i), prefix, recursive, steps) is None ==> tree_lines(
            objects,
            nodes,
            prefix,
            recursive,
            steps,
        ) is None,
    decreases nodes.len() - i,
{
    if i < nodes.len() {
        lemma_lines_fail(objects, nodes, prefix, recursive, steps, i + 1);
        assert(nodes.take(i + 1).drop_last() =~= nodes.take(i));
    } else {
        assert(nodes.take(i) =~= nodes);
    }
}

fn line_for_entry(mode: u32, object_id: &str, path: &str, Ghost(name): Ghost<Seq<char>>) -> (r:
    String)
    ensures
        r@ == entry_line(NodeView { mode: mode as int, name, object_id: object_id@ }, path@),
{
    let digits = padded_numeral_of(mode as u64, 8, 6);
    let mut line = string_of(digits.as_slice());
    if mode < 0o100000 {
        line.append(" tree ");
    } else {
        line.append(" blob ");
    }
    line.append(object_id);
    line.append("\t");
    line.append(path);
    line
}

impl<L: ObjectStore, P: ObjectStore, R: RefStore> Repository<L, P, R> {
    fn lines_of_tree(&self, tree: &Tree, prefix: &str, recursive: bool, steps: u64) -> (r: Result<
        Vec<String>,
        RepoError,
    >)
        ensures
            match r {
                Ok(lines) => tree_lines(
                    self@.objects,
                    node_views(tree.entries@),
                    prefix@,
                    recursive,
                    steps as nat,
                ) == Some(texts(lines@)),
                Err(RepoError::Store(_)) => !self.reliable(),
                Err(_) => tree_lines(
                    self@.objects,
                    node_views(tree.entries@),
                    prefix@,
                    recursive,
                    steps as nat,
                ) is None,
            },
        decreases steps,
    {
        let ghost nodes = node_views(tree.entries@);
        let ghost objects = self@.objects;
        let mut lines: Vec<String> = Vec::new();
        let mut i: usize = 0;
        assert(nodes.take(0) =~= Seq::empty());
        assert(texts(lines@) =~= Seq::empty());
        while i < tree.entries.len()
            invariant
                i <= tree.entries@.len(),
                nodes == node_views(tree.entries@),
                objects == self@.objects,
                tree_lines(objects, nodes.take(i as int), prefix@, recursive, steps as nat) == Some(
                    texts(lines@),
                ),
            decreases tree.entries@.len() - i,
        {
            let entry = &tree.entries[i];
            let ghost before = texts(lines@);
            proof {
                assert(nodes.take(i + 1).drop_last() =~= nodes.take(i as int));
                assert(nodes.take(i + 1).last() == entry@);
                lemma_lines_fail(objects, nodes, prefix@, recursive, steps as nat, i + 1);
            }
            let path = if prefix.is_empty() {
                entry.name().to_string()
            } else {
                let mut p = concat_texts(prefix, "/");
                p.append(entry.name());
                proof {
                    reveal_strlit("/");
                    assert("/"@ =~= seq!['/']);
                }
                p
            };
            assert(path@ == path_below(prefix@, entry@.name));
            if recursive && entry.mode < 0o100000 {
                let below = match self.read_object(entry.object_id.as_str()) {
                    Err(e) => {
                        return Err(e);
                    },
                    Ok(Some(StoredObject::Tree(below))) => below,
                    Ok(_) => {
                        return Err(RepoError::Fault(Fault::NotATree));
                    },
                };
                if steps == 0 {
                    return Err(RepoError::Fault(Fault::Endless));
                }
                match self.lines_of_tree(&below, path.as_str(), recursive, steps - 1) {
                    Err(e) => {
                        return Err(e);
                    },
                    Ok(mut more) => {
                        let ghost new = texts(more@);
                        lines.append(&mut more);
                        assert(texts(lines@) =~= before + new);
                    },
                }
            } else {
                let line = line_for_entry(
                    entry.mode,
                    entry.object_id.as_str(),
                    path.as_str(),
                    Ghost(entry@.name),
                );
                lines.push(line);
                assert(texts(lines@) =~= before.push(line@));
            }
            i = i + 1;
        }
        assert(nodes.take(i as int) =~= nodes);
        Ok(lines)
    }

    /// The lines for the tree that a name stands for or leads to, and where asked for those of
    /// the directories in it.
    pub fn list_tree(&self, name: &str, recursive: bool) -> (r: Result<Vec<String>, RepoError>)
        ensures
            match r {
                Ok(lines) => exists|id: String|
                    #[trigger] find_result(
                        self@,
                        name@,
                        Some(KindView::Tree),
                        true,
                        self.reliable(),
                        Ok(id),
                    ) && (object_at(self@.objects, id@) matches Ok(Some(StoredView::Tree(nodes)))
                        && tree_lines(
                        self@.objects,
                        nodes,
                        Seq::empty(),
                        recursive,
                        STEP_LIMIT as nat,
                    ) == Some(texts(lines@))),
                Err(RepoError::Store(_)) => !self.reliable(),
                Err(e) => find_result(
                    self@,
                    name@,
                    Some(KindView::Tree),
                    true,
                    self.reliable(),
                    Err(e),
                ) || exists|id: String|
                    #[trigger] find_result(
                        self@,
                        name@,
                        Some(KindView::Tree),
                        true,
                        self.reliable(),
                        Ok(id),
                    ) && !(object_at(self@.objects, id@) matches Ok(Some(StoredView::Tree(nodes)))
                        && tree_lines(
                        self@.objects,
                        nodes,
                        Seq::empty(),
                        recursive,
                        STEP_LIMIT as nat,
                    ) is Some),
            },
    {
        let id = match self.find_object(name, Some(ObjectKind::Tree), true) {
            Err(e) => {
                return Err(e);
            },
            Ok(id) => id,
        };
        let ghost found = id;
        assert(find_result(
            self@,
            name@,
            Some(KindView::Tree),
            true,
            self.reliable(),
            Ok(found),
        ));
        let tree = match self.read_object(id.as_str()) {
            Err(e) => {
                return Err(e);
            },
            Ok(Some(StoredObject::Tree(tree))) => tree,
            Ok(_) => {
                return Err(RepoError::Fault(Fault::NotATree));
            },
        };
        proof {
            reveal_strlit("");
            assert(""@ =~= Seq::<char>::empty());
        }
        self.lines_of_tree(&tree, "", recursive, STEP_LIMIT)
    }
}

} // verus!
