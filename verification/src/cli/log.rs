//! The command that draws the history.

use vstd::prelude::*;

use crate::cli::log_laws::{draws_history, leads_to_invalid, theorem_graph_shows_history};
use crate::objects::kvlm::field_values;
use crate::objects::{KindView, ObjectKind, StoredObject, StoredView};
use crate::repo::commits::{lemma_commit_stored, lemma_done_grows, stored_ids};
use crate::repo::model::object_at;
use crate::repo::{find_result, RepoError, Repository};
use crate::stores::backends::{ObjectMap, ObjectStore, RefStore};
use crate::text::{
    chars_of, concat_texts, find_char, is_listed, replace_char, replace_in_text, string_of, texts,
    trim, trim_text, until,
};
use vstd::slice::slice_subrange;

verus! {

broadcast use vstd::string::group_string_axioms;

/// The first line of a message, with `\` and `"` escaped.
pub open spec fn label_message(message: Seq<char>) -> Seq<char> {
    until(replace_char(replace_char(trim(message), '\\', "\\\\"@), '"', "\\\""@), '\n')
}

/// The start of an ID.
pub open spec fn short_id(id: Seq<char>) -> Seq<char> {
    if id.len() > 7 {
        id.take(8)
    } else {
        id
    }
}

/// The line for a commit.
pub open spec fn node_line(id: Seq<char>, message: Seq<char>) -> Seq<char> {
    "  c_"@ + id + " [label=\""@ + short_id(id) + ": "@ + label_message(message) + "\"]"@
}

/// The line for a commit and one of its parents.
pub open spec fn edge_line(id: Seq<char>, parent: Seq<char>) -> Seq<char> {
    "  c_"@ + id + " -> c_"@ + parent + ";"@
}

/// The number of objects that have not been seen.
pub open spec fn unseen(objects: Seq<ObjectMap>, seen: Seq<Seq<char>>) -> nat {
    stored_ids(objects).difference(seen.to_set()).len()
}

/// The lines for a commit and its ancestors that have not been seen, and what has been seen
/// then.
pub open spec fn graph_lines(objects: Seq<ObjectMap>, id: Seq<char>, seen: Seq<Seq<char>>) -> Option<
    (Seq<Seq<char>>, Seq<Seq<char>>),
>
    decreases unseen(objects, seen), 0nat,
{
    let now = seen.push(id);
    if seen.contains(id) {
        Some((Seq::empty(), seen))
    } else {
        match object_at(objects, id) {
            Err(_) => None,
            Ok(Some(StoredView::Commit(fields, message))) => if unseen(objects, now) < unseen(
                objects,
                seen,
            ) {
                match edge_lines(objects, id, field_values(fields, "parent"@), now) {
                    None => None,
                    Some((lines, after)) => Some((seq![node_line(id, message)] + lines, after)),
                }
            } else {
                None
            },
            Ok(_) => Some((Seq::empty(), now)),
        }
    }
}

/// The lines for a commit and some of its parents, and their ancestors.
pub open spec fn edge_lines(
    objects: Seq<ObjectMap>,
    id: Seq<char>,
    parents: Seq<Seq<char>>,
    seen: Seq<Seq<char>>,
) -> Option<(Seq<Seq<char>>, Seq<Seq<char>>)>
    decreases unseen(objects, seen), parents.len() + 1,
{
    if parents.len() == 0 {
        Some((Seq::empty(), seen))
    } else {
        match graph_lines(objects, parents[0], seen) {
            None => None,
            Some((above, then)) => if unseen(objects, then) <= unseen(objects, seen) {
                match edge_lines(objects, id, parents.drop_first(), then) {
                    None => None,
                    Some((rest, after)) => Some(
                        (seq![edge_line(id, parents[0])] + above + rest, after),
                    ),
                }
            } else {
                None
            },
        }
    }
}

pub(crate) proof fn lemma_unseen_less(objects: Seq<ObjectMap>, seen: Seq<Seq<char>>, id: Seq<char>)
    requires
        stored_ids(objects).finite(),
        stored_ids(objects).contains(id),
        !seen.contains(id),
    ensures
        unseen(objects, seen.push(id)) < unseen(objects, seen),
{
    let now = seen.push(id);
    assert forall|x: Seq<char>| #[trigger]
        now.to_set().contains(x) <==> seen.to_set().insert(id).contains(x) by {
        if seen.contains(x) {
            let k = choose|k: int| 0 <= k < seen.len() && seen[k] == x;
            assert(now[k] == x);
        }
        assert(now[seen.len() as int] == id);
    }
    assert(now.to_set() =~= seen.to_set().insert(id));
    lemma_done_grows(objects, seen.to_set(), id);
}

pub(crate) proof fn lemma_unseen_shrinks(
    objects: Seq<ObjectMap>,
    seen: Seq<Seq<char>>,
    then: Seq<Seq<char>>,
)
    requires
        stored_ids(objects).finite(),
        forall|x: Seq<char>| #[trigger] seen.contains(x) ==> then.contains(x),
    ensures
        unseen(objects, then) <= unseen(objects, seen),
{
    let a = stored_ids(objects).difference(then.to_set());
    let b = stored_ids(objects).difference(seen.to_set());
    assert(a.subset_of(b)) by {
        assert forall|x: Seq<char>| a.contains(x) implies b.contains(x) by {
            if seen.to_set().contains(x) {
                assert(seen.contains(x));
            }
        }
    }
    vstd::set_lib::lemma_len_subset(a, b);
}

fn node_text(id: &str, message: &str) -> (r: String)
    ensures
        r@ == node_line(id@, message@),
{
    let trimmed = chars_of(trim_text(message).as_str());
    let slashes = chars_of(replace_in_text(&trimmed, '\\', "\\\\").as_str());
    let quotes = chars_of(replace_in_text(&slashes, '"', "\\\"").as_str());
    let end: usize = find_char(&quotes, '\n', 0);
    let first = slice_subrange(&quotes, 0, end);
    assert(first@ =~= quotes@.take(end as int));
    let ids = chars_of(id);
    let short = if ids.len() > 7 {
        let start = slice_subrange(&ids, 0, 8);
        assert(start@ =~= ids@.take(8));
        string_of(start)
    } else {
        id.to_string()
    };
    let mut out = concat_texts("  c_", id);
    out.append(" [label=\"");
    out.append(short.as_str());
    out.append(": ");
    out.append(string_of(first).as_str());
    out.append("\"]");
    out
}

fn edge_text(id: &str, parent: &str) -> (r: String)
    ensures
        r@ == edge_line(id@, parent@),
{
    let mut out = concat_texts("  c_", id);
    out.append(" -> c_");
    out.append(parent);
    out.append(";");
    out
}

/// Whether what was added to lines, and what has been seen then, is what drawing gives.
spec fn drew(
    result: Option<(Seq<Seq<char>>, Seq<Seq<char>>)>,
    lines: Seq<Seq<char>>,
    lines_after: Seq<Seq<char>>,
    seen: Seq<Seq<char>>,
    seen_after: Seq<Seq<char>>,
) -> bool {
    &&& result matches Some((new, after)) && lines_after == lines + new && seen_after == after
    &&& forall|x: Seq<char>| #[trigger] seen.contains(x) ==> seen_after.contains(x)
}

impl<L: ObjectStore, P: ObjectStore, R: RefStore> Repository<L, P, R> {
    fn draw_commit(&self, id: &str, seen: &mut Vec<String>, lines: &mut Vec<String>) -> (r: Result<
        (),
        RepoError,
    >)
        ensures
            match r {
                Ok(_) => drew(
                    graph_lines(self@.objects, id@, texts(old(seen)@)),
                    texts(old(lines)@),
                    texts(final(lines)@),
                    texts(old(seen)@),
                    texts(final(seen)@),
                ),
                Err(RepoError::Store(_)) => !self.reliable(),
                Err(_) => graph_lines(self@.objects, id@, texts(old(seen)@)) is None,
            },
        decreases unseen(self@.objects, texts(old(seen)@)), 0nat,
    {
        let ghost objects = self@.objects;
        let ghost before = texts(seen@);
        let ghost drawn = texts(lines@);
        if is_listed(seen.as_slice(), id) {
            assert(drawn + Seq::<Seq<char>>::empty() =~= drawn);
            return Ok(());
        }
        seen.push(id.to_string());
        let ghost now = before.push(id@);
        assert(texts(seen@) =~= now);
        proof {
            assert forall|x: Seq<char>| #[trigger] before.contains(x) implies now.contains(x) by {
                let k = choose|k: int| 0 <= k < before.len() && before[k] == x;
                assert(now[k] == x);
            }
        }
        match self.read_object(id) {
            Err(e) => Err(e),
            Ok(Some(StoredObject::Commit(commit))) => {
                proof {
                    self.lemma_stored_finite();
                    assert(crate::repo::commits::is_commit(objects, id@));
                    lemma_commit_stored(objects, id@);
                    lemma_unseen_less(objects, before, id@);
                }
                let line = node_text(id, commit.message.as_str());
                lines.push(line);
                assert(texts(lines@) =~= drawn.push(line@));
                let parents = commit.parents();
                assert(texts(parents@).skip(0) =~= texts(parents@));
                match self.draw_parents(id, parents.as_slice(), 0, seen, lines) {
                    Err(e) => Err(e),
                    Ok(_) => {
                        proof {
                            let new = (edge_lines(objects, id@, texts(parents@), now)->0).0;
                            assert(texts(lines@) =~= drawn + (seq![line@] + new));
                        }
                        Ok(())
                    },
                }
            },
            Ok(_) => {
                assert(drawn + Seq::<Seq<char>>::empty() =~= drawn);
                Ok(())
            },
        }
    }

    fn draw_parents(
        &self,
        id: &str,
        parents: &[String],
        from: usize,
        seen: &mut Vec<String>,
        lines: &mut Vec<String>,
    ) -> (r: Result<(), RepoError>)
        requires
            from <= parents@.len(),
        ensures
            match r {
                Ok(_) => drew(
                    edge_lines(
                        self@.objects,
                        id@,
                        texts(parents@).skip(from as int),
                        texts(old(seen)@),
                    ),
                    texts(old(lines)@),
                    texts(final(lines)@),
                    texts(old(seen)@),
                    texts(final(seen)@),
                ),
                Err(RepoError::Store(_)) => !self.reliable(),
                Err(_) => edge_lines(
                    self@.objects,
                    id@,
                    texts(parents@).skip(from as int),
                    texts(old(seen)@),
                ) is None,
            },
        decreases unseen(self@.objects, texts(old(seen)@)), parents@.len() - from + 1,
    {
        let ghost objects = self@.objects;
        let ghost before = texts(seen@);
        let ghost drawn = texts(lines@);
        let ghost rest = texts(parents@).skip(from as int);
        if from >= parents.len() {
            assert(rest =~= Seq::empty());
            assert(drawn + Seq::<Seq<char>>::empty() =~= drawn);
            return Ok(());
        }
        assert(rest[0] == parents@[from as int]@);
        assert(rest.drop_first() =~= texts(parents@).skip(from + 1));
        let parent = parents[from].as_str();
        let line = edge_text(id, parent);
        lines.push(line);
        assert(texts(lines@) =~= drawn.push(line@));
        match self.draw_commit(parent, seen, lines) {
            Err(e) => {
                return Err(e);
            },
            Ok(_) => {},
        }
        let ghost then = texts(seen@);
        let ghost above = (graph_lines(objects, parent@, before)->0).0;
        proof {
            self.lemma_stored_finite();
            lemma_unseen_shrinks(objects, before, then);
        }
        match self.draw_parents(id, parents, from + 1, seen, lines) {
            Err(e) => Err(e),
            Ok(_) => {
                proof {
                    let more = (edge_lines(objects, id@, rest.drop_first(), then)->0).0;
                    assert(texts(lines@) =~= drawn + (seq![line@] + above + more));
                }
                Ok(())
            },
        }
    }

    /// The lines that draw a commit and its ancestors: one for each commit that is drawn, and
    /// one for each of its parents.
    pub fn log_commits_graphviz(&self, commit_id: &str) -> (r: Result<Vec<String>, RepoError>)
        ensures
            match r {
                Ok(lines) => graph_lines(self@.objects, commit_id@, Seq::empty()) matches Some(
                    drawn,
                ) && texts(lines@) == drawn.0 && draws_history(
                    self@.objects,
                    commit_id@,
                    texts(lines@),
                ),
                Err(RepoError::Store(_)) => !self.reliable(),
                Err(_) => leads_to_invalid(self@.objects, seq![commit_id@]),
            },
    {
        let mut seen: Vec<String> = Vec::new();
        let mut lines: Vec<String> = Vec::new();
        assert(texts(seen@) =~= Seq::empty());
        assert(texts(lines@) =~= Seq::empty());
        proof {
            self.lemma_stored_finite();
            theorem_graph_shows_history(self@.objects, commit_id@);
        }
        match self.draw_commit(commit_id, &mut seen, &mut lines) {
            Err(e) => Err(e),
            Ok(_) => {
                proof {
                    let drawn = (graph_lines(self@.objects, commit_id@, Seq::empty())->0).0;
                    assert(Seq::<Seq<char>>::empty() + drawn =~= drawn);
                }
                Ok(lines)
            },
        }
    }

    /// A drawing, as a graph in the language of Graphviz, of the history of the commit that a
    /// name stands for or leads to.
    pub fn log(&self, commit: &str) -> (r: Result<Vec<String>, RepoError>)
        ensures
            match r {
                Ok(lines) => exists|id: String|
                    #[trigger] find_result(
                        self@,
                        commit@,
                        Some(KindView::Commit),
                        true,
                        self.reliable(),
                        Ok(id),
                    ) && (graph_lines(self@.objects, id@, Seq::empty()) matches Some(drawn)
                        && draws_history(self@.objects, id@, drawn.0) && texts(lines@)
                        == seq!["digraph cvlog{"@, "  node[shape=rect]"@] + drawn.0 + seq!["}"@]),
                Err(RepoError::Store(_)) => !self.reliable(),
                Err(e) => find_result(
                    self@,
                    commit@,
                    Some(KindView::Commit),
                    true,
                    self.reliable(),
                    Err(e),
                ) || exists|id: String|
                    #[trigger] find_result(
                        self@,
                        commit@,
                        Some(KindView::Commit),
                        true,
                        self.reliable(),
                        Ok(id),
                    ) && leads_to_invalid(self@.objects, seq![id@]),
            },
    {
        let id = match self.find_object(commit, Some(ObjectKind::Commit), true) {
            Err(e) => {
                return Err(e);
            },
            Ok(id) => id,
        };
        let ghost found = id;
        assert(find_result(
            self@,
            commit@,
            Some(KindView::Commit),
            true,
            self.reliable(),
            Ok(found),
        ));
        match self.log_commits_graphviz(id.as_str()) {
            Err(e) => Err(e),
            Ok(mut lines) => {
                let ghost drawn = lines@;
                let mut out: Vec<String> = Vec::new();
                out.push("digraph cvlog{".to_string());
                out.push("  node[shape=rect]".to_string());
                let ghost head = out@;
                out.append(&mut lines);
                out.push("}".to_string());
                assert(texts(out@) =~= seq!["digraph cvlog{"@, "  node[shape=rect]"@] + texts(drawn)
                    + seq!["}"@]);
                Ok(out)
            },
        }
    }
}

} // verus!
