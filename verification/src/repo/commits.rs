//! Walking through the commits of a repository.

use vstd::prelude::*;

use crate::helpers::{read_timestamp, timestamp_from_timestamped_name};
use crate::moments::{now, Timestamp};
use crate::objects::kvlm::{field_values, fields_of, first_value, FieldsView};
use crate::objects::{Commit, KindView, ObjectKind, StoredObject, StoredView};
use crate::repo::model::{
    first_of, is_stored, lookup, object_at, peel, raw_object, stored_view, Fault, RepoView,
    STEP_LIMIT,
};
use crate::repo::{read_stored, RepoError, Repository};
use crate::sorting::{sort_items, Keyed, SortKey};
use crate::stores::backends::{lists_refs, ObjectMap, ObjectStore, RefStore};
use crate::stores::{RefTarget, RefView, TargetView, TargetedRef};
use crate::text::{is_listed, opt_str, opt_text, texts};

verus! {

broadcast use vstd::string::group_string_axioms;

/// The parents of a commit, if the object with an ID is one.
pub open spec fn commit_parents(objects: Seq<ObjectMap>, id: Seq<char>) -> Option<Seq<Seq<char>>> {
    match object_at(objects, id) {
        Ok(Some(StoredView::Commit(fields, _))) => Some(field_values(fields, "parent"@)),
        _ => None,
    }
}

/// Whether an ID is that of a commit.
pub open spec fn is_commit(objects: Seq<ObjectMap>, id: Seq<char>) -> bool {
    commit_parents(objects, id) is Some
}

/// Whether one commit is a parent of another.
pub open spec fn is_parent(objects: Seq<ObjectMap>, child: Seq<char>, parent: Seq<char>) -> bool {
    commit_parents(objects, child) matches Some(parents) && parents.contains(parent)
}

/// Whether each commit of a line of descent is a parent of the one before it, and none but the
/// first one is among those that are left out.
pub open spec fn is_line(
    objects: Seq<ObjectMap>,
    left_out: Seq<Seq<char>>,
    line: Seq<Seq<char>>,
) -> bool {
    forall|i: int|
        1 <= i < line.len() ==> is_parent(objects, line[i - 1], #[trigger] line[i])
            && !left_out.contains(line[i])
}

/// Whether a line of descent leads from one of some commits to another, past those that are
/// left out.
pub open spec fn reachable(
    objects: Seq<ObjectMap>,
    left_out: Seq<Seq<char>>,
    starts: Seq<Seq<char>>,
    id: Seq<char>,
) -> bool {
    exists|line: Seq<Seq<char>>|
        line.len() > 0 && starts.contains(line[0]) && line.last() == id && #[trigger] is_line(
            objects,
            left_out,
            line,
        )
}

/// Those IDs of a list that are neither seen nor left out, each once.
pub open spec fn fresh(
    ids: Seq<Seq<char>>,
    seen: Seq<Seq<char>>,
    left_out: Seq<Seq<char>>,
) -> Seq<Seq<char>>
    decreases ids.len(),
{
    if ids.len() == 0 {
        Seq::empty()
    } else {
        let rest = fresh(ids.drop_last(), seen, left_out);
        let id = ids.last();
        if seen.contains(id) || left_out.contains(id) || rest.contains(id) {
            rest
        } else {
            rest.push(id)
        }
    }
}

/// The commit that an object leads to: itself, or the target of a tag.
pub open spec fn peeled(objects: Seq<ObjectMap>, id: Seq<char>) -> Option<Seq<char>> {
    match raw_object(objects, id) {
        Ok(Some(d)) => match d.kind {
            KindView::Commit => Some(id),
            KindView::Tag => match stored_view(d) {
                Ok(StoredView::Tag(fields, _)) => first_of(fields, "object"@),
                _ => None,
            },
            _ => None,
        },
        _ => None,
    }
}

/// What a walk gives in a number of steps, in order, and what it has then in its queue and has
/// seen.  A step gives the first commit of the queue, and queues those of its parents that were
/// neither seen nor left out; what is not a commit is passed over.
pub open spec fn after_steps(
    objects: Seq<ObjectMap>,
    left_out: Seq<Seq<char>>,
    queue: Seq<Seq<char>>,
    seen: Seq<Seq<char>>,
    n: nat,
) -> (Seq<Seq<char>>, Seq<Seq<char>>, Seq<Seq<char>>)
    decreases n,
{
    if n == 0 {
        (Seq::empty(), queue, seen)
    } else {
        let (out, q, s) = after_steps(objects, left_out, queue, seen, (n - 1) as nat);
        if q.len() == 0 {
            (out, q, s)
        } else {
            match commit_parents(objects, q[0]) {
                Some(parents) => {
                    let new = fresh(parents, s, left_out);
                    (out.push(q[0]), q.skip(1) + new, s + new)
                },
                None => (out, q.skip(1), s),
            }
        }
    }
}

/// Whether a walk gives commits in this order, and has then this in its queue and has seen that.
pub open spec fn walks(
    objects: Seq<ObjectMap>,
    left_out: Seq<Seq<char>>,
    queue: Seq<Seq<char>>,
    seen: Seq<Seq<char>>,
    out: Seq<Seq<char>>,
    queue_then: Seq<Seq<char>>,
    seen_then: Seq<Seq<char>>,
) -> bool {
    exists|n: nat| #[trigger]
        after_steps(objects, left_out, queue, seen, n) == (out, queue_then, seen_then)
}

/// Whether a walk from some commits gives others in this order, and ends.
pub open spec fn whole_walk(
    objects: Seq<ObjectMap>,
    left_out: Seq<Seq<char>>,
    starts: Seq<Seq<char>>,
    out: Seq<Seq<char>>,
) -> bool {
    exists|seen: Seq<Seq<char>>| #[trigger]
        walks(objects, left_out, starts, starts, out, Seq::empty(), seen)
}

pub(crate) proof fn lemma_walk_begins(
    objects: Seq<ObjectMap>,
    left_out: Seq<Seq<char>>,
    queue: Seq<Seq<char>>,
    seen: Seq<Seq<char>>,
)
    ensures
        walks(objects, left_out, queue, seen, Seq::empty(), queue, seen),
{
    assert(after_steps(objects, left_out, queue, seen, 0) == (
        Seq::<Seq<char>>::empty(),
        queue,
        seen,
    ));
}

pub(crate) proof fn lemma_walk_goes_on(
    objects: Seq<ObjectMap>,
    left_out: Seq<Seq<char>>,
    queue: Seq<Seq<char>>,
    seen: Seq<Seq<char>>,
    out: Seq<Seq<char>>,
    q: Seq<Seq<char>>,
    s: Seq<Seq<char>>,
)
    requires
        walks(objects, left_out, queue, seen, out, q, s),
        q.len() > 0,
    ensures
        match commit_parents(objects, q[0]) {
            Some(parents) => walks(
                objects,
                left_out,
                queue,
                seen,
                out.push(q[0]),
                q.skip(1) + fresh(parents, s, left_out),
                s + fresh(parents, s, left_out),
            ),
            None => walks(objects, left_out, queue, seen, out, q.skip(1), s),
        },
{
    let n = choose|n: nat| #[trigger]
        after_steps(objects, left_out, queue, seen, n) == (out, q, s);
    let next = after_steps(objects, left_out, queue, seen, n + 1);
    assert(next.2 == match commit_parents(objects, q[0]) {
        Some(parents) => s + fresh(parents, s, left_out),
        None => s,
    });
}

proof fn lemma_walk_stays_ended(
    objects: Seq<ObjectMap>,
    left_out: Seq<Seq<char>>,
    queue: Seq<Seq<char>>,
    seen: Seq<Seq<char>>,
    n: nat,
    m: nat,
)
    requires
        n <= m,
        after_steps(objects, left_out, queue, seen, n).1.len() == 0,
    ensures
        after_steps(objects, left_out, queue, seen, m) == after_steps(
            objects,
            left_out,
            queue,
            seen,
            n,
        ),
    decreases m - n,
{
    if n < m {
        lemma_walk_stays_ended(objects, left_out, queue, seen, n, (m - 1) as nat);
    }
}

/// A walk gives its commits in one order only.
pub proof fn theorem_walk_has_one_order(
    objects: Seq<ObjectMap>,
    left_out: Seq<Seq<char>>,
    starts: Seq<Seq<char>>,
    a: Seq<Seq<char>>,
    b: Seq<Seq<char>>,
)
    requires
        whole_walk(objects, left_out, starts, a),
        whole_walk(objects, left_out, starts, b),
    ensures
        a == b,
{
    let none = Seq::<Seq<char>>::empty();
    let s = choose|s: Seq<Seq<char>>| #[trigger]
        walks(objects, left_out, starts, starts, a, none, s);
    let t = choose|t: Seq<Seq<char>>| #[trigger]
        walks(objects, left_out, starts, starts, b, none, t);
    let n = choose|n: nat| #[trigger]
        after_steps(objects, left_out, starts, starts, n) == (a, none, s);
    let m = choose|m: nat| #[trigger]
        after_steps(objects, left_out, starts, starts, m) == (b, none, t);
    if n <= m {
        lemma_walk_stays_ended(objects, left_out, starts, starts, n, m);
    } else {
        lemma_walk_stays_ended(objects, left_out, starts, starts, m, n);
    }
}

/// Walks through commits and their ancestors.
pub struct Commits<'a, L: ObjectStore, P: ObjectStore, R: RefStore> {
    /// The repository.
    pub repo: &'a Repository<L, P, R>,
    /// The commits that come next.
    pub queue: Vec<String>,
    /// The commits that came already, or that come next.
    pub seen: Vec<String>,
    /// The commits that are left out.
    pub prune: Vec<String>,
}

/// Why a step of a walk gives no commit.
#[derive(Debug)]
pub enum WalkError {
    /// The object could not be read.
    Unreadable,
    /// The object is not there or is not a commit.
    NotACommit,
}

pub(crate) fn copy_texts(list: &[String]) -> (r: Vec<String>)
    ensures
        texts(r@) == texts(list@),
{
    let mut out: Vec<String> = Vec::new();
    let mut i: usize = 0;
    while i < list.len()
        invariant
            i <= list@.len(),
            out@.len() == i,
            forall|j: int| 0 <= j < i ==> (#[trigger] out@[j])@ == list@[j]@,
        decreases list@.len() - i,
    {
        out.push(list[i].clone());
        i = i + 1;
    }
    assert(texts(out@) =~= texts(list@));
    out
}

impl<'a, L: ObjectStore, P: ObjectStore, R: RefStore> Commits<'a, L, P, R> {
    /// The next commit, whose parents will come later unless they came already or are left out.
    pub fn next(&mut self) -> (r: Option<Result<String, WalkError>>)
        ensures
            final(self).repo == old(self).repo,
            final(self).prune == old(self).prune,
            match r {
                None => old(self).queue@.len() == 0 && *final(self) == *old(self),
                Some(res) => {
                    let objects = old(self).repo@.objects;
                    let id = old(self).queue@[0]@;
                    &&& old(self).queue@.len() > 0
                    &&& match res {
                        Ok(found) => {
                            &&& found@ == id
                            &&& commit_parents(objects, id) matches Some(parents) && {
                                let new = fresh(
                                    parents,
                                    texts(old(self).seen@),
                                    texts(old(self).prune@),
                                );
                                &&& texts(final(self).queue@) == texts(old(self).queue@).skip(1) + new
                                &&& texts(final(self).seen@) == texts(old(self).seen@) + new
                            }
                        },
                        Err(e) => {
                            &&& old(self).repo.reliable() ==> !is_commit(objects, id)
                            &&& match e {
                                WalkError::Unreadable => old(self).repo.reliable() ==> object_at(
                                    objects,
                                    id,
                                ) is Err,
                                WalkError::NotACommit => object_at(objects, id) is Ok,
                            }
                            &&& texts(final(self).queue@) == texts(old(self).queue@).skip(1)
                            &&& texts(final(self).seen@) == texts(old(self).seen@)
                        },
                    }
                },
            },
    {
        if self.queue.len() == 0 {
            return None;
        }
        let ghost objects = self.repo@.objects;
        let ghost queue = texts(self.queue@);
        let ghost seen = texts(self.seen@);
        let ghost prune = texts(self.prune@);
        let id = self.queue.remove(0);
        assert(texts(self.queue@) =~= queue.skip(1));
        let parents = match self.repo.read_object(id.as_str()) {
            Err(_) => {
                return Some(Err(WalkError::Unreadable));
            },
            Ok(Some(StoredObject::Commit(commit))) => commit.parents(),
            Ok(_) => {
                return Some(Err(WalkError::NotACommit));
            },
        };
        let ghost all = texts(parents@);
        let mut i: usize = 0;
        assert(queue.skip(1) + fresh(all.take(0), seen, prune) =~= queue.skip(1));
        assert(seen + fresh(all.take(0), seen, prune) =~= seen);
        while i < parents.len()
            invariant
                i <= parents@.len(),
                all == texts(parents@),
                self.repo == old(self).repo,
                self.prune == old(self).prune,
                prune == texts(self.prune@),
                texts(self.queue@) == queue.skip(1) + fresh(all.take(i as int), seen, prune),
                texts(self.seen@) == seen + fresh(all.take(i as int), seen, prune),
            decreases parents@.len() - i,
        {
            let ghost sofar = fresh(all.take(i as int), seen, prune);
            let ghost next = fresh(all.take(i + 1), seen, prune);
            let ghost q = texts(self.queue@);
            let ghost s = texts(self.seen@);
            let parent = parents[i].clone();
            proof {
                assert(all.take(i + 1).drop_last() =~= all.take(i as int));
                assert(all.take(i + 1).last() == parent@);
                lemma_contains_concat(seen, sofar, parent@);
            }
            if !is_listed(self.seen.as_slice(), parent.as_str()) && !is_listed(
                self.prune.as_slice(),
                parent.as_str(),
            ) {
                self.queue.push(parent.clone());
                self.seen.push(parent);
                assert(texts(self.queue@) =~= q.push(parent@));
                assert(texts(self.seen@) =~= s.push(parent@));
                assert(next == sofar.push(parent@));
                assert(q.push(parent@) =~= queue.skip(1) + next);
                assert(s.push(parent@) =~= seen + next);
            } else {
                assert(next == sofar);
            }
            i = i + 1;
        }
        assert(all.take(i as int) =~= all);
        Some(Ok(id))
    }

    /// The number of commits that are known to come next.
    pub fn queue_length(&self) -> (r: usize)
        ensures
            r == self.queue@.len(),
    {
        self.queue.len()
    }
}

pub(crate) proof fn lemma_contains_concat<A>(a: Seq<A>, b: Seq<A>, x: A)
    ensures
        (a + b).contains(x) <==> a.contains(x) || b.contains(x),
{
    let c = a + b;
    if a.contains(x) {
        let i = choose|i: int| 0 <= i < a.len() && a[i] == x;
        assert(c[i] == x);
    }
    if b.contains(x) {
        let i = choose|i: int| 0 <= i < b.len() && b[i] == x;
        assert(c[a.len() + i] == x);
    }
    if c.contains(x) {
        let i = choose|i: int| 0 <= i < c.len() && c[i] == x;
        if i < a.len() {
            assert(a[i] == x);
        } else {
            assert(b[i - a.len()] == x);
        }
    }
}

/// The IDs of the objects that one of the stores holds.
pub open spec fn stored_ids(objects: Seq<ObjectMap>) -> Set<Seq<char>> {
    Set::new(|id: Seq<char>| is_stored(objects, id))
}

proof fn lemma_stored_ids_finite(objects: Seq<ObjectMap>)
    requires
        forall|i: int| 0 <= i < objects.len() ==> (#[trigger] objects[i]).dom().finite(),
    ensures
        stored_ids(objects).finite(),
    decreases objects.len(),
{
    if objects.len() == 0 {
        assert(stored_ids(objects) =~= Set::empty());
    } else {
        let before = objects.drop_last();
        let n = objects.len() - 1;
        assert forall|i: int| 0 <= i < before.len() implies (#[trigger] before[i]).dom().finite() by {
            assert(objects[i].dom().finite());
        }
        lemma_stored_ids_finite(before);
        assert(objects[n].dom().finite());
        assert forall|id: Seq<char>| #[trigger]
            stored_ids(objects).contains(id) <==> stored_ids(before).union(
                objects[n].dom(),
            ).contains(id) by {
            crate::repo::lemma_is_stored_next(objects, n, id);
            assert(objects.take(n) =~= before);
            assert(objects.take(n + 1) =~= objects);
        }
        assert(stored_ids(objects) =~= stored_ids(before).union(objects[n].dom()));
    }
}

proof fn lemma_lookup_stored(objects: Seq<ObjectMap>, id: Seq<char>)
    ensures
        lookup(objects, id) is Some ==> is_stored(objects, id),
    decreases objects.len(),
{
    if objects.len() > 0 {
        if objects[0].contains_key(id) {
        } else {
            let rest = objects.skip(1);
            lemma_lookup_stored(rest, id);
            if is_stored(rest, id) {
                let i = choose|i: int| 0 <= i < rest.len() && (#[trigger] rest[i]).contains_key(id);
                assert(objects[i + 1].contains_key(id));
            }
        }
    }
}

pub(crate) proof fn lemma_commit_stored(objects: Seq<ObjectMap>, id: Seq<char>)
    requires
        is_commit(objects, id),
    ensures
        stored_ids(objects).contains(id),
{
    lemma_lookup_stored(objects, id);
}

pub(crate) proof fn lemma_start_reachable(
    objects: Seq<ObjectMap>,
    left_out: Seq<Seq<char>>,
    starts: Seq<Seq<char>>,
    id: Seq<char>,
)
    requires
        starts.contains(id),
    ensures
        reachable(objects, left_out, starts, id),
{
    let line = seq![id];
    assert(is_line(objects, left_out, line));
}

pub(crate) proof fn lemma_parent_reachable(
    objects: Seq<ObjectMap>,
    left_out: Seq<Seq<char>>,
    starts: Seq<Seq<char>>,
    id: Seq<char>,
    parent: Seq<char>,
)
    requires
        reachable(objects, left_out, starts, id),
        is_parent(objects, id, parent),
        !left_out.contains(parent),
    ensures
        reachable(objects, left_out, starts, parent),
{
    let line = choose|line: Seq<Seq<char>>|
        line.len() > 0 && starts.contains(line[0]) && line.last() == id && #[trigger] is_line(
            objects,
            left_out,
            line,
        );
    let longer = line.push(parent);
    assert forall|i: int| 1 <= i < longer.len() implies is_parent(
        objects,
        longer[i - 1],
        #[trigger] longer[i],
    ) && !left_out.contains(longer[i]) by {
        if i < line.len() {
            assert(longer[i] == line[i]);
            assert(longer[i - 1] == line[i - 1]);
        }
    }
    assert(is_line(objects, left_out, longer));
    assert(longer[0] == line[0]);
    assert(longer.last() == parent);
}

/// Whether a set holds some commits and, with each commit, its parents but those left out.
pub open spec fn is_closed(
    objects: Seq<ObjectMap>,
    left_out: Seq<Seq<char>>,
    starts: Seq<Seq<char>>,
    ids: Seq<Seq<char>>,
) -> bool {
    &&& forall|x: Seq<char>| #[trigger] starts.contains(x) ==> ids.contains(x)
    &&& forall|x: Seq<char>, p: Seq<char>|
        ids.contains(x) && #[trigger] is_parent(objects, x, p) && !left_out.contains(p)
            ==> ids.contains(p)
}

proof fn lemma_closed_line(
    objects: Seq<ObjectMap>,
    left_out: Seq<Seq<char>>,
    starts: Seq<Seq<char>>,
    ids: Seq<Seq<char>>,
    line: Seq<Seq<char>>,
    i: int,
)
    requires
        is_closed(objects, left_out, starts, ids),
        is_line(objects, left_out, line),
        0 <= i < line.len(),
        starts.contains(line[0]),
    ensures
        ids.contains(line[i]),
    decreases i,
{
    if i > 0 {
        lemma_closed_line(objects, left_out, starts, ids, line, i - 1);
        assert(is_parent(objects, line[i - 1], line[i]));
    }
}

pub(crate) proof fn lemma_closed_reachable(
    objects: Seq<ObjectMap>,
    left_out: Seq<Seq<char>>,
    starts: Seq<Seq<char>>,
    ids: Seq<Seq<char>>,
    id: Seq<char>,
)
    requires
        is_closed(objects, left_out, starts, ids),
        reachable(objects, left_out, starts, id),
    ensures
        ids.contains(id),
{
    let line = choose|line: Seq<Seq<char>>|
        line.len() > 0 && starts.contains(line[0]) && line.last() == id && #[trigger] is_line(
            objects,
            left_out,
            line,
        );
    lemma_closed_line(objects, left_out, starts, ids, line, line.len() - 1);
}

pub(crate) proof fn lemma_fresh(ids: Seq<Seq<char>>, seen: Seq<Seq<char>>, left_out: Seq<Seq<char>>)
    ensures
        fresh(ids, seen, left_out).no_duplicates(),
        forall|x: Seq<char>| #[trigger]
            fresh(ids, seen, left_out).contains(x) <==> ids.contains(x) && !seen.contains(x)
                && !left_out.contains(x),
    decreases ids.len(),
{
    if ids.len() > 0 {
        let before = ids.drop_last();
        lemma_fresh(before, seen, left_out);
        let rest = fresh(before, seen, left_out);
        let all = fresh(ids, seen, left_out);
        let last = ids.last();
        assert(ids =~= before + seq![last]);
        assert(seq![last].len() == 1 && seq![last][0] == last);
        assert forall|x: Seq<char>| #[trigger]
            all.contains(x) <==> ids.contains(x) && !seen.contains(x) && !left_out.contains(x) by {
            lemma_contains_concat(before, seq![last], x);
            lemma_contains_concat(rest, seq![last], x);
            assert(rest.push(last) =~= rest + seq![last]);
            assert(seq![last].contains(x) <==> x == last) by {
                assert(seq![last][0] == last);
            }
            assert(rest.contains(x) <==> before.contains(x) && !seen.contains(x)
                && !left_out.contains(x));
        }
    }
}

impl<L: ObjectStore, P: ObjectStore, R: RefStore> Repository<L, P, R> {
    pub(crate) proof fn lemma_stored_finite(&self)
        ensures
            stored_ids(self@.objects).finite(),
    {
        let objects = self@.objects;
        assert forall|i: int| 0 <= i < objects.len() implies (#[trigger] objects[i]).dom().finite() by {
            if i == 0 {
                self.loose_object_store.objects_finite();
            } else {
                self.packs@[i - 1].objects_finite();
            }
        }
        lemma_stored_ids_finite(objects);
    }
}

impl<'a, L: ObjectStore, P: ObjectStore, R: RefStore> Commits<'a, L, P, R> {
    /// Whether the walk has not begun yet.
    pub open spec fn is_new(&self) -> bool {
        texts(self.queue@).no_duplicates() && texts(self.seen@) == texts(self.queue@)
    }

    /// All commits that a new walk comes through, each once: those that a line of descent leads
    /// to from the ones it starts with.
    pub fn all(self) -> (r: Vec<String>)
        requires
            self.is_new(),
        ensures
            texts(r@).no_duplicates(),
            forall|id: Seq<char>| #[trigger]
                texts(r@).contains(id) ==> is_commit(self.repo@.objects, id) && reachable(
                    self.repo@.objects,
                    texts(self.prune@),
                    texts(self.queue@),
                    id,
                ),
            self.repo.reliable() ==> forall|id: Seq<char>| #[trigger]
                texts(r@).contains(id) <==> is_commit(self.repo@.objects, id) && reachable(
                    self.repo@.objects,
                    texts(self.prune@),
                    texts(self.queue@),
                    id,
                ),
            self.repo.reliable() ==> whole_walk(
                self.repo@.objects,
                texts(self.prune@),
                texts(self.queue@),
                texts(r@),
            ),
    {
        let mut walk = self;
        let mut out: Vec<String> = Vec::new();
        let ghost objects = self.repo@.objects;
        let ghost prune = texts(self.prune@);
        let ghost starts = texts(self.queue@);
        let ghost mut done: Set<Seq<char>> = Set::empty();
        proof {
            self.repo.lemma_stored_finite();
            assert forall|x: Seq<char>| #[trigger] starts.contains(x) implies reachable(
                objects,
                prune,
                starts,
                x,
            ) by {
                lemma_start_reachable(objects, prune, starts, x);
            }
            lemma_walk_begins(objects, prune, starts, starts);
            assert(texts(out@) =~= Seq::empty());
        }
        loop
            invariant
                walk.repo == self.repo,
                objects == self.repo@.objects,
                stored_ids(objects).finite(),
                texts(walk.prune@) == prune,
                walk_state(
                    objects,
                    prune,
                    starts,
                    texts(walk.queue@),
                    texts(walk.seen@),
                    done,
                ),
                self.repo.reliable() ==> walk_complete(
                    objects,
                    prune,
                    texts(walk.seen@),
                    texts(out@),
                    done,
                ),
                self.repo.reliable() ==> walks(
                    objects,
                    prune,
                    starts,
                    starts,
                    texts(out@),
                    texts(walk.queue@),
                    texts(walk.seen@),
                ),
                texts(out@).no_duplicates(),
                forall|x: Seq<char>| #[trigger]
                    texts(out@).contains(x) ==> done.contains(x) && is_commit(objects, x),
            ensures
                walk.queue@.len() == 0,
            decreases stored_ids(objects).difference(done).len(), walk.queue@.len(),
        {
            let ghost queue = texts(walk.queue@);
            let ghost seen = texts(walk.seen@);
            let ghost was = texts(out@);
            match walk.next() {
                None => {
                    break;
                },
                Some(Ok(id)) => {
                    proof {
                        let parents = commit_parents(objects, id@)->0;
                        lemma_walk_step(objects, prune, starts, queue, seen, done, parents);
                        if self.repo.reliable() {
                            lemma_walk_goes_on(objects, prune, starts, starts, was, queue, seen);
                        }
                        lemma_commit_stored(objects, id@);
                        lemma_done_grows(objects, done, id@);
                        assert(queue[0] == id@);
                        assert(queue.contains(id@));
                        if self.repo.reliable() {
                            lemma_walk_complete_step(
                                objects,
                                prune,
                                seen,
                                was,
                                done,
                                id@,
                                parents,
                            );
                        }
                        assert(!was.contains(id@));
                        done = done.insert(id@);
                    }
                    out.push(id);
                    proof {
                        assert(texts(out@) =~= was.push(id@));
                        assert forall|x: Seq<char>| #[trigger] texts(out@).contains(
                            x,
                        ) implies done.contains(x) && is_commit(objects, x) by {
                            if x != id@ {
                                let k = choose|k: int|
                                    0 <= k < texts(out@).len() && texts(out@)[k] == x;
                                assert(was[k] == x);
                                assert(was.contains(x));
                            }
                        }
                    }
                },
                Some(Err(_)) => {
                    proof {
                        assert(queue.contains(queue[0]));
                        lemma_walk_skip(objects, prune, starts, queue, seen, done);
                        if self.repo.reliable() {
                            lemma_walk_goes_on(objects, prune, starts, starts, was, queue, seen);
                        }
                        assert(stored_ids(objects).difference(done.insert(queue[0])).subset_of(
                            stored_ids(objects).difference(done),
                        ));
                        vstd::set_lib::lemma_len_subset(
                            stored_ids(objects).difference(done.insert(queue[0])),
                            stored_ids(objects).difference(done),
                        );
                        assert(texts(walk.queue@).len() == queue.len() - 1);
                        done = done.insert(queue[0]);
                    }
                },
            }
        }
        proof {
            let seen = texts(walk.seen@);
            assert(texts(walk.queue@).len() == 0);
            assert(texts(walk.queue@) =~= Seq::empty());
            assert forall|id: Seq<char>| #[trigger]
                texts(out@).contains(id) implies is_commit(objects, id) && reachable(
                objects,
                prune,
                starts,
                id,
            ) by {
                assert(seen.contains(id));
            }
            if self.repo.reliable() {
                assert(is_closed(objects, prune, starts, seen));
                assert forall|id: Seq<char>| #[trigger]
                    texts(out@).contains(id) <==> is_commit(objects, id) && reachable(
                        objects,
                        prune,
                        starts,
                        id,
                    ) by {
                    if is_commit(objects, id) && reachable(objects, prune, starts, id) {
                        lemma_closed_reachable(objects, prune, starts, seen, id);
                        assert(done.contains(id));
                    }
                }
            }
        }
        out
    }
}

impl<'a, L: ObjectStore, P: ObjectStore, R: RefStore> Commits<'a, L, P, R> {
    /// All commits that a new walk comes through, each once; an error where something that it
    /// comes to cannot be read as a commit.
    pub fn all_or_error(self) -> (r: Result<Vec<String>, WalkError>)
        requires
            self.is_new(),
        ensures
            match r {
                Ok(ids) => {
                    &&& texts(ids@).no_duplicates()
                    &&& forall|id: Seq<char>| #[trigger]
                        texts(ids@).contains(id) ==> is_commit(self.repo@.objects, id)
                    &&& whole_walk(
                        self.repo@.objects,
                        texts(self.prune@),
                        texts(self.queue@),
                        texts(ids@),
                    )
                    &&& forall|id: Seq<char>| #[trigger]
                        texts(ids@).contains(id) <==> reachable(
                            self.repo@.objects,
                            texts(self.prune@),
                            texts(self.queue@),
                            id,
                        )
                },
                Err(_) => self.repo.reliable() ==> exists|id: Seq<char>| #[trigger]
                    reachable(
                        self.repo@.objects,
                        texts(self.prune@),
                        texts(self.queue@),
                        id,
                    ) && !is_commit(self.repo@.objects, id),
            },
    {
        let mut walk = self;
        let mut out: Vec<String> = Vec::new();
        let ghost objects = self.repo@.objects;
        let ghost prune = texts(self.prune@);
        let ghost starts = texts(self.queue@);
        let ghost mut done: Set<Seq<char>> = Set::empty();
        proof {
            self.repo.lemma_stored_finite();
            assert forall|x: Seq<char>| #[trigger] starts.contains(x) implies reachable(
                objects,
                prune,
                starts,
                x,
            ) by {
                lemma_start_reachable(objects, prune, starts, x);
            }
            lemma_walk_begins(objects, prune, starts, starts);
            assert(texts(out@) =~= Seq::empty());
        }
        loop
            invariant
                walk.repo == self.repo,
                objects == self.repo@.objects,
                prune == texts(self.prune@),
                starts == texts(self.queue@),
                stored_ids(objects).finite(),
                texts(walk.prune@) == prune,
                walk_state(
                    objects,
                    prune,
                    starts,
                    texts(walk.queue@),
                    texts(walk.seen@),
                    done,
                ),
                walk_complete(objects, prune, texts(walk.seen@), texts(out@), done),
                walks(
                    objects,
                    prune,
                    starts,
                    starts,
                    texts(out@),
                    texts(walk.queue@),
                    texts(walk.seen@),
                ),
                texts(out@).no_duplicates(),
                forall|x: Seq<char>| #[trigger]
                    texts(out@).contains(x) <==> done.contains(x),
                forall|x: Seq<char>| #[trigger] done.contains(x) ==> is_commit(objects, x),
            ensures
                walk.queue@.len() == 0,
            decreases stored_ids(objects).difference(done).len(), walk.queue@.len(),
        {
            let ghost queue = texts(walk.queue@);
            let ghost seen = texts(walk.seen@);
            let ghost was = texts(out@);
            match walk.next() {
                None => {
                    break;
                },
                Some(Err(e)) => {
                    proof {
                        assert(queue.contains(queue[0]));
                        assert(seen.contains(queue[0]));
                        assert(reachable(objects, prune, starts, queue[0]));
                    }
                    return Err(e);
                },
                Some(Ok(id)) => {
                    proof {
                        let parents = commit_parents(objects, id@)->0;
                        lemma_walk_step(objects, prune, starts, queue, seen, done, parents);
                        lemma_walk_goes_on(objects, prune, starts, starts, was, queue, seen);
                        lemma_commit_stored(objects, id@);
                        lemma_done_grows(objects, done, id@);
                        assert(queue[0] == id@);
                        assert(queue.contains(id@));
                        lemma_walk_complete_step(objects, prune, seen, was, done, id@, parents);
                        assert(!was.contains(id@));
                        done = done.insert(id@);
                    }
                    out.push(id);
                    proof {
                        let now = texts(out@);
                        assert(now =~= was.push(id@));
                        assert forall|x: Seq<char>| #[trigger]
                            now.contains(x) <==> done.contains(x) by {
                            if was.contains(x) {
                                let k = choose|k: int| 0 <= k < was.len() && was[k] == x;
                                assert(now[k] == x);
                            }
                            if now.contains(x) && x != id@ {
                                let k = choose|k: int| 0 <= k < now.len() && now[k] == x;
                                assert(was[k] == x);
                                assert(was.contains(x));
                            }
                            assert(now[was.len() as int] == id@);
                        }
                    }
                },
            }
        }
        proof {
            let seen = texts(walk.seen@);
            assert(texts(walk.queue@).len() == 0);
            assert(texts(walk.queue@) =~= Seq::empty());
            assert(is_closed(objects, prune, starts, seen));
            assert forall|id: Seq<char>| #[trigger]
                texts(out@).contains(id) <==> reachable(objects, prune, starts, id) by {
                if reachable(objects, prune, starts, id) {
                    lemma_closed_reachable(objects, prune, starts, seen, id);
                    assert(done.contains(id));
                }
                if texts(out@).contains(id) {
                    assert(seen.contains(id));
                }
            }
        }
        Ok(out)
    }
}

/// What holds in the middle of a walk.
spec fn walk_state(
    objects: Seq<ObjectMap>,
    prune: Seq<Seq<char>>,
    starts: Seq<Seq<char>>,
    queue: Seq<Seq<char>>,
    seen: Seq<Seq<char>>,
    done: Set<Seq<char>>,
) -> bool {
    &&& queue.no_duplicates()
    &&& forall|x: Seq<char>| #[trigger]
        seen.contains(x) <==> done.contains(x) || queue.contains(x)
    &&& forall|x: Seq<char>| #[trigger] done.contains(x) ==> !queue.contains(x)
    &&& forall|x: Seq<char>| #[trigger]
        seen.contains(x) ==> reachable(objects, prune, starts, x)
    &&& forall|x: Seq<char>| #[trigger] starts.contains(x) ==> seen.contains(x)
}

/// What a walk that met no failure has come through.
spec fn walk_complete(
    objects: Seq<ObjectMap>,
    prune: Seq<Seq<char>>,
    seen: Seq<Seq<char>>,
    out: Seq<Seq<char>>,
    done: Set<Seq<char>>,
) -> bool {
    &&& forall|x: Seq<char>, p: Seq<char>|
        done.contains(x) && #[trigger] is_parent(objects, x, p) && !prune.contains(p)
            ==> seen.contains(p)
    &&& forall|x: Seq<char>| #[trigger]
        done.contains(x) && is_commit(objects, x) ==> out.contains(x)
}

pub(crate) proof fn lemma_skip_first(queue: Seq<Seq<char>>, x: Seq<char>)
    requires
        queue.len() > 0,
        queue.no_duplicates(),
    ensures
        queue.skip(1).contains(x) <==> queue.contains(x) && x != queue[0],
        queue.skip(1).no_duplicates(),
{
    let rest = queue.skip(1);
    if rest.contains(x) {
        let i = choose|i: int| 0 <= i < rest.len() && rest[i] == x;
        assert(queue[i + 1] == x);
    }
    if queue.contains(x) && x != queue[0] {
        let i = choose|i: int| 0 <= i < queue.len() && queue[i] == x;
        assert(rest[i - 1] == x);
    }
}

proof fn lemma_walk_skip(
    objects: Seq<ObjectMap>,
    prune: Seq<Seq<char>>,
    starts: Seq<Seq<char>>,
    queue: Seq<Seq<char>>,
    seen: Seq<Seq<char>>,
    done: Set<Seq<char>>,
)
    requires
        queue.len() > 0,
        walk_state(objects, prune, starts, queue, seen, done),
    ensures
        walk_state(objects, prune, starts, queue.skip(1), seen, done.insert(queue[0])),
{
    let later = done.insert(queue[0]);
    assert(queue.contains(queue[0]));
    assert(seen.contains(queue[0]));
    lemma_skip_first(queue, queue[0]);
    assert forall|x: Seq<char>| #[trigger]
        seen.contains(x) <==> later.contains(x) || queue.skip(1).contains(x) by {
        lemma_skip_first(queue, x);
    }
    assert forall|x: Seq<char>| #[trigger] later.contains(x) implies !queue.skip(1).contains(x) by {
        lemma_skip_first(queue, x);
    }
}

proof fn lemma_walk_step(
    objects: Seq<ObjectMap>,
    prune: Seq<Seq<char>>,
    starts: Seq<Seq<char>>,
    queue: Seq<Seq<char>>,
    seen: Seq<Seq<char>>,
    done: Set<Seq<char>>,
    parents: Seq<Seq<char>>,
)
    requires
        queue.len() > 0,
        walk_state(objects, prune, starts, queue, seen, done),
        commit_parents(objects, queue[0]) == Some(parents),
    ensures
        walk_state(
            objects,
            prune,
            starts,
            queue.skip(1) + fresh(parents, seen, prune),
            seen + fresh(parents, seen, prune),
            done.insert(queue[0]),
        ),
{
    let new = fresh(parents, seen, prune);
    let id = queue[0];
    let rest = queue.skip(1);
    let queue2 = rest + new;
    let seen2 = seen + new;
    let done2 = done.insert(id);
    lemma_fresh(parents, seen, prune);
    lemma_walk_skip(objects, prune, starts, queue, seen, done);
    assert(queue.contains(id));
    assert(seen.contains(id));
    assert(queue2.no_duplicates()) by {
        assert forall|i: int, j: int| 0 <= i < j < queue2.len() implies queue2[i] != queue2[j] by {
            if i < rest.len() && j >= rest.len() {
                assert(rest.contains(queue2[i]));
                assert(new.contains(queue2[j])) by {
                    assert(new[j - rest.len()] == queue2[j]);
                }
                assert(seen.contains(queue2[i]));
            }
        }
    }
    assert forall|x: Seq<char>| #[trigger]
        seen2.contains(x) <==> done2.contains(x) || queue2.contains(x) by {
        lemma_contains_concat(seen, new, x);
        lemma_contains_concat(rest, new, x);
        assert(seen.contains(x) <==> done2.contains(x) || rest.contains(x));
    }
    assert forall|x: Seq<char>| #[trigger] done2.contains(x) implies !queue2.contains(x) by {
        lemma_contains_concat(rest, new, x);
        assert(seen.contains(x));
        assert(new.contains(x) ==> !seen.contains(x));
    }
    assert forall|x: Seq<char>| #[trigger] seen2.contains(x) implies reachable(
        objects,
        prune,
        starts,
        x,
    ) by {
        lemma_contains_concat(seen, new, x);
        if new.contains(x) {
            lemma_parent_reachable(objects, prune, starts, id, x);
        }
    }
    assert forall|x: Seq<char>| #[trigger] starts.contains(x) implies seen2.contains(x) by {
        lemma_contains_concat(seen, new, x);
    }
}

proof fn lemma_walk_complete_step(
    objects: Seq<ObjectMap>,
    prune: Seq<Seq<char>>,
    seen: Seq<Seq<char>>,
    out: Seq<Seq<char>>,
    done: Set<Seq<char>>,
    id: Seq<char>,
    parents: Seq<Seq<char>>,
)
    requires
        walk_complete(objects, prune, seen, out, done),
        commit_parents(objects, id) == Some(parents),
    ensures
        walk_complete(
            objects,
            prune,
            seen + fresh(parents, seen, prune),
            out.push(id),
            done.insert(id),
        ),
{
    let new = fresh(parents, seen, prune);
    let seen2 = seen + new;
    let done2 = done.insert(id);
    let out2 = out.push(id);
    lemma_fresh(parents, seen, prune);
    assert forall|x: Seq<char>, p: Seq<char>|
        done2.contains(x) && #[trigger] is_parent(objects, x, p) && !prune.contains(
            p,
        ) implies seen2.contains(p) by {
        lemma_contains_concat(seen, new, p);
        if x == id {
            assert(parents.contains(p));
            assert(new.contains(p) <==> parents.contains(p) && !seen.contains(p)
                && !prune.contains(p));
        }
    }
    assert forall|x: Seq<char>| #[trigger]
        done2.contains(x) && is_commit(objects, x) implies out2.contains(x) by {
        if x == id {
            assert(out2[out.len() as int] == id);
        } else {
            assert(done.contains(x));
            let k = choose|k: int| 0 <= k < out.len() && out[k] == x;
            assert(out2[k] == x);
        }
    }
}

pub(crate) proof fn lemma_done_grows(objects: Seq<ObjectMap>, done: Set<Seq<char>>, id: Seq<char>)
    requires
        stored_ids(objects).finite(),
        stored_ids(objects).contains(id),
        !done.contains(id),
    ensures
        stored_ids(objects).difference(done.insert(id)).len() < stored_ids(objects).difference(
            done,
        ).len(),
{
    let a = stored_ids(objects).difference(done);
    let b = stored_ids(objects).difference(done.insert(id));
    assert(b =~= a.remove(id));
    assert(a.contains(id));
}

impl Commit {
    /// The moment at which the commit was made, if the commit says so.
    pub fn timestamp(&self) -> (r: Option<Timestamp>)
        ensures
            match r {
                Some(t) => commit_moment(fields_of(self.map)) == Some(t.spec_secs())
                    && t.spec_nanos() == 0,
                None => commit_moment(fields_of(self.map)) is None,
            },
    {
        match first_value(&self.map, "committer") {
            None => None,
            Some(text) => match timestamp_from_timestamped_name(text.as_str()) {
                Ok(t) => Some(t),
                Err(_) => None,
            },
        }
    }
}

/// The seconds since 1970 at which a commit with the given fields was made, if they say so.
pub open spec fn commit_moment(fields: FieldsView) -> Option<int> {
    match first_of(fields, "committer"@) {
        None => None,
        Some(text) => match read_timestamp(text) {
            Ok((secs, _)) => Some(secs),
            Err(_) => None,
        },
    }
}

/// A point in time as a number that is greater for later ones.
pub open spec fn moment_number(secs: int, nanos: int) -> int {
    secs * 2_000_000_000 + nanos
}

/// When a commit was made, or a given moment where that is not known.
pub open spec fn commit_number(objects: Seq<ObjectMap>, id: Seq<char>, now: Timestamp) -> int {
    match object_at(objects, id) {
        Ok(Some(StoredView::Commit(fields, _))) => match commit_moment(fields) {
            Some(secs) => moment_number(secs, 0),
            None => moment_number(now.spec_secs(), now.spec_nanos()),
        },
        _ => moment_number(now.spec_secs(), now.spec_nanos()),
    }
}

/// A commit and when it was made.
struct Dated {
    id: String,
    when: Timestamp,
}

impl Keyed for Dated {
    closed spec fn sort_key(&self) -> SortKey {
        (
            Seq::empty(),
            Seq::empty(),
            moment_number(self.when.spec_secs(), self.when.spec_nanos()),
        )
    }

    fn before(&self, other: &Self) -> (r: bool) {
        let a: i64 = self.when.timestamp();
        let b: i64 = other.when.timestamp();
        let m: u32 = self.when.timestamp_subsec_nanos();
        let n: u32 = other.when.timestamp_subsec_nanos();
        proof {
            crate::sorting::lemma_bytes_irreflexive(Seq::<u8>::empty());
            assert(m < 2_000_000_000 && n < 2_000_000_000);
        }
        a < b || (a == b && m < n)
    }
}

spec fn dated_id() -> spec_fn(Dated) -> Seq<char> {
    |d: Dated| d.id@
}

/// Whether commits are listed with the newest first.
pub open spec fn newest_first(
    objects: Seq<ObjectMap>,
    ids: Seq<Seq<char>>,
    now: Timestamp,
) -> bool {
    forall|i: int, j: int|
        0 <= i < j < ids.len() ==> commit_number(objects, #[trigger] ids[i], now) >= commit_number(
            objects,
            #[trigger] ids[j],
            now,
        )
}

impl<'a, L: ObjectStore, P: ObjectStore, R: RefStore> Commits<'a, L, P, R> {
    /// The given commits, with the newest first.  A commit whose time is not known counts as
    /// made at the given moment.
    fn generate_queue(repo: &Repository<L, P, R>, ids: &[String], now: &Timestamp) -> (r: Vec<
        String,
    >)
        ensures
            texts(r@).to_multiset() == texts(ids@).to_multiset(),
            repo.reliable() ==> newest_first(repo@.objects, texts(r@), *now),
    {
        let ghost objects = repo@.objects;
        let mut items: Vec<Dated> = Vec::new();
        let mut i: usize = 0;
        while i < ids.len()
            invariant
                i <= ids@.len(),
                items@.len() == i,
                objects == repo@.objects,
                forall|j: int| 0 <= j < i ==> (#[trigger] items@[j]).id@ == ids@[j]@,
                repo.reliable() ==> forall|j: int|
                    0 <= j < i ==> (#[trigger] items@[j]).sort_key().2 == commit_number(
                        objects,
                        items@[j].id@,
                        *now,
                    ),
            decreases ids@.len() - i,
        {
            let when = match repo.read_object(ids[i].as_str()) {
                Ok(Some(StoredObject::Commit(commit))) => match commit.timestamp() {
                    Some(t) => t,
                    None => *now,
                },
                _ => *now,
            };
            items.push(Dated { id: ids[i].clone(), when });
            i = i + 1;
        }
        let ghost before = items@;
        sort_items(&mut items);
        proof {
            assert(before.map_values(dated_id()) =~= texts(ids@));
            crate::sorting::lemma_sort_map_multiset(
                before,
                dated_id(),
                crate::sorting::key_of::<Dated>(),
            );
            crate::sorting::theorem_stable_sort(before);
        }
        let ghost sorted = items@.map_values(dated_id());
        let mut out: Vec<String> = Vec::new();
        let n: usize = items.len();
        let mut k: usize = n;
        while k > 0
            invariant
                n == items@.len(),
                k <= n,
                out@.len() == n - k,
                forall|j: int| 0 <= j < n - k ==> (#[trigger] out@[j])@ == items@[n - 1 - j].id@,
            decreases k,
        {
            k = k - 1;
            out.push(items[k].id.clone());
        }
        proof {
            assert(texts(out@) =~= sorted.reverse());
            sorted.lemma_reverse_to_multiset();
            if repo.reliable() {
                assert forall|j: int| 0 <= j < n implies (#[trigger] items@[j]).sort_key().2
                    == commit_number(objects, items@[j].id@, *now) by {
                    vstd::seq_lib::to_multiset_contains(items@, items@[j]);
                    vstd::seq_lib::to_multiset_contains(before, items@[j]);
                    assert(items@.contains(items@[j]));
                    assert(before.contains(items@[j]));
                }
                assert forall|i: int, j: int| 0 <= i < j < n implies commit_number(
                    objects,
                    #[trigger] texts(out@)[i],
                    *now,
                ) >= commit_number(objects, #[trigger] texts(out@)[j], *now) by {
                    let a = items@[n - 1 - i];
                    let b = items@[n - 1 - j];
                    assert(texts(out@)[i] == a.id@);
                    assert(texts(out@)[j] == b.id@);
                    assert(!crate::sorting::key_lt(
                        crate::sorting::key_of::<Dated>()(a),
                        crate::sorting::key_of::<Dated>()(b),
                    ));
                }
            }
        }
        out
    }
}

/// The commit that a reference leads to, directly or through tags, if it leads to one.
pub open spec fn ref_commit(objects: Seq<ObjectMap>, target: TargetView) -> Option<Seq<char>> {
    match target {
        TargetView::SymbolicRef(_) => None,
        TargetView::Object(id) => match peel(objects, id, STEP_LIMIT as nat) {
            Ok(found) => match raw_object(objects, found) {
                Ok(Some(d)) => if d.kind is Commit {
                    Some(found)
                } else {
                    None
                },
                _ => None,
            },
            Err(_) => None,
        },
    }
}

fn target_to_commit_id<L: ObjectStore, P: ObjectStore, R: RefStore>(
    targeted_ref: &TargetedRef,
    repo: &Repository<L, P, R>,
) -> (r: Option<String>)
    ensures
        r matches Some(id) ==> ref_commit(repo@.objects, targeted_ref@.target) == Some(id@),
        repo.reliable() ==> opt_text(r) == ref_commit(repo@.objects, targeted_ref@.target),
{
    match &targeted_ref.target {
        RefTarget::SymbolicRef(_) => None,
        RefTarget::Object(id) => match repo.follow_tags_from(id.clone()) {
            Err(_) => None,
            Ok(found) => match repo.read_raw_object(found.as_str()) {
                Ok(Some(raw)) => match raw.metadata().kind {
                    ObjectKind::Commit => Some(found),
                    _ => None,
                },
                _ => None,
            },
        },
    }
}

fn peel_to_commit<L: ObjectStore, P: ObjectStore, R: RefStore>(
    commit_or_tag: &str,
    repo: &Repository<L, P, R>,
) -> (r: Option<String>)
    ensures
        r matches Some(id) ==> peeled(repo@.objects, commit_or_tag@) == Some(id@),
        repo.reliable() ==> opt_text(r) == peeled(repo@.objects, commit_or_tag@),
{
    match repo.read_raw_object(commit_or_tag) {
        Ok(Some(raw)) => match raw.metadata().kind {
            ObjectKind::Commit => Some(commit_or_tag.to_string()),
            ObjectKind::Tag => match read_stored(&raw) {
                Ok(StoredObject::Tag(tag)) => match tag.target() {
                    Ok(id) => Some(id),
                    Err(_) => None,
                },
                _ => None,
            },
            _ => None,
        },
        _ => None,
    }
}

/// Whether a walk starts with a commit: the one that a given object leads to, or else each one
/// that a reference leads to; in either case unless it is left out.
pub open spec fn is_start(
    repo: RepoView,
    start: Option<Seq<char>>,
    left_out: Seq<Seq<char>>,
    id: Seq<char>,
) -> bool {
    match start {
        Some(s) => !left_out.contains(s) && peeled(repo.objects, s) == Some(id),
        None => !left_out.contains(id) && is_tip(repo, id),
    }
}

/// Whether a reference leads to a commit, directly or through tags.
pub open spec fn is_tip(repo: RepoView, id: Seq<char>) -> bool {
    exists|r: RefView| #[trigger]
        repo.refs.contains_key(r) && ref_commit(repo.objects, repo.refs[r]) == Some(id)
}

/// Whether a reference of a list leads to a commit, directly or through tags.
spec fn list_has_tip(objects: Seq<ObjectMap>, list: Seq<TargetedRef>, id: Seq<char>) -> bool {
    exists|k: int|
        0 <= k < list.len() && ref_commit(objects, (#[trigger] list[k])@.target) == Some(id)
}

proof fn lemma_list_has_tip(repo: RepoView, list: Seq<TargetedRef>, id: Seq<char>)
    requires
        lists_refs(list, repo.refs),
    ensures
        list_has_tip(repo.objects, list, id) <==> is_tip(repo, id),
{
    if list_has_tip(repo.objects, list, id) {
        let k = choose|k: int|
            0 <= k < list.len() && ref_commit(repo.objects, (#[trigger] list[k])@.target) == Some(
                id,
            );
        assert(repo.refs.contains_key(list[k]@.spec));
    }
    if is_tip(repo, id) {
        let r = choose|r: RefView| #[trigger]
            repo.refs.contains_key(r) && ref_commit(repo.objects, repo.refs[r]) == Some(id);
        let k = choose|k: int| 0 <= k < list.len() && (#[trigger] list[k])@.spec == r;
        assert(ref_commit(repo.objects, list[k]@.target) == Some(id));
    }
}

proof fn lemma_same_members(a: Seq<Seq<char>>, b: Seq<Seq<char>>)
    requires
        a.to_multiset() == b.to_multiset(),
        a.no_duplicates(),
    ensures
        b.no_duplicates(),
        forall|x: Seq<char>| #[trigger] b.contains(x) <==> a.contains(x),
{
    a.lemma_multiset_has_no_duplicates();
    b.lemma_multiset_has_no_duplicates_conv();
    assert forall|x: Seq<char>| #[trigger] b.contains(x) <==> a.contains(x) by {
        vstd::seq_lib::to_multiset_contains(a, x);
        vstd::seq_lib::to_multiset_contains(b, x);
    }
}

/// Whether a walk is the one through the given commits.
pub open spec fn walk_from<L: ObjectStore, P: ObjectStore, R: RefStore>(
    c: Commits<L, P, R>,
    repo: Repository<L, P, R>,
    start: Option<Seq<char>>,
    left_out: Seq<Seq<char>>,
) -> bool {
    &&& *c.repo == repo
    &&& texts(c.prune@) == left_out
    &&& c.is_new()
    &&& forall|id: Seq<char>| #[trigger]
        texts(c.queue@).contains(id) ==> is_start(repo@, start, left_out, id)
    &&& repo.reliable() ==> forall|id: Seq<char>|
        is_start(repo@, start, left_out, id) ==> #[trigger] texts(c.queue@).contains(id)
}

impl<'a, L: ObjectStore, P: ObjectStore, R: RefStore> Commits<'a, L, P, R> {
    /// The commits that references lead to, but those left out, each once.
    fn tips(repo: &Repository<L, P, R>, prune: &[String]) -> (r: Result<Vec<String>, RepoError>)
        ensures
            match r {
                Ok(ids) => {
                    &&& texts(ids@).no_duplicates()
                    &&& forall|id: Seq<char>| #[trigger]
                        texts(ids@).contains(id) ==> is_start(repo@, None, texts(prune@), id)
                    &&& repo.reliable() ==> forall|id: Seq<char>|
                        is_start(repo@, None, texts(prune@), id) ==> #[trigger] texts(
                            ids@,
                        ).contains(id)
                },
                Err(_) => !repo.reliable(),
            },
    {
        let list = match repo.ref_store.all_ref_targets() {
            Err(e) => {
                return Err(RepoError::Store(e));
            },
            Ok(list) => list,
        };
        let ghost objects = repo@.objects;
        let mut ids: Vec<String> = Vec::new();
        let mut i: usize = 0;
        while i < list.len()
            invariant
                i <= list@.len(),
                objects == repo@.objects,
                lists_refs(list@, repo@.refs),
                texts(ids@).no_duplicates(),
                forall|id: Seq<char>| #[trigger]
                    texts(ids@).contains(id) ==> !texts(prune@).contains(id) && list_has_tip(
                        objects,
                        list@,
                        id,
                    ),
                repo.reliable() ==> forall|k: int|
                    0 <= k < i ==> (ref_commit(objects, (#[trigger] list@[k])@.target) matches Some(
                        id,
                    ) ==> texts(prune@).contains(id) || texts(ids@).contains(id)),
            decreases list@.len() - i,
        {
            let ghost before = texts(ids@);
            if let Some(id) = target_to_commit_id(&list[i], repo) {
                assert(ref_commit(objects, list@[i as int]@.target) == Some(id@));
                if !is_listed(prune, id.as_str()) {
                    crate::repo::add_once(&mut ids, id);
                }
            }
            proof {
                assert(forall|id: Seq<char>| #[trigger]
                    before.contains(id) ==> texts(ids@).contains(id));
            }
            i = i + 1;
        }
        proof {
            assert forall|id: Seq<char>| true implies (#[trigger] list_has_tip(objects, list@, id)
                <==> is_tip(repo@, id)) by {
                lemma_list_has_tip(repo@, list@, id);
            }
            if repo.reliable() {
                assert forall|id: Seq<char>|
                    is_start(repo@, None, texts(prune@), id) implies #[trigger] texts(
                    ids@,
                ).contains(id) by {
                    assert(list_has_tip(objects, list@, id));
                }
            }
        }
        Ok(ids)
    }

    /// A walk through the commit that an object leads to and its ancestors, or through all
    /// commits that references lead to and their ancestors; with the newest first at its start,
    /// where commits whose time is not known count as made at the given moment.
    pub fn new_prunable(
        repo: &'a Repository<L, P, R>,
        start: Option<&str>,
        prune_commits: &[String],
        now: &Timestamp,
    ) -> (r: Result<Commits<'a, L, P, R>, RepoError>)
        ensures
            match r {
                Ok(c) => {
                    &&& walk_from(c, *repo, opt_str(start), texts(prune_commits@))
                    &&& repo.reliable() ==> newest_first(repo@.objects, texts(c.queue@), *now)
                },
                Err(_) => start is None && !repo.reliable(),
            },
    {
        let prune = copy_texts(prune_commits);
        let starts = match start {
            Some(id) => {
                let mut ids: Vec<String> = Vec::new();
                if !is_listed(prune.as_slice(), id) {
                    if let Some(commit) = peel_to_commit(id, repo) {
                        ids.push(commit);
                        assert(texts(ids@) =~= seq![commit@]);
                        assert(texts(ids@)[0] == commit@);
                    }
                }
                ids
            },
            None => match Commits::tips(repo, prune.as_slice()) {
                Err(e) => {
                    return Err(e);
                },
                Ok(ids) => ids,
            },
        };
        let queue = Commits::generate_queue(repo, starts.as_slice(), now);
        let seen = copy_texts(queue.as_slice());
        proof {
            lemma_same_members(texts(starts@), texts(queue@));
        }
        Ok(Commits { repo, queue, seen, prune })
    }
}

/// Whether a commit is the one that an object leads to, or an ancestor of it.
pub open spec fn descends(objects: Seq<ObjectMap>, descendant: Seq<char>, ancestor: Seq<char>) -> bool {
    &&& is_commit(objects, ancestor)
    &&& peeled(objects, descendant) matches Some(c) && reachable(
        objects,
        Seq::empty(),
        seq![c],
        ancestor,
    )
}

/// Whether a commit is an ancestor of another one and all other ancestors of that one are either
/// ancestors or descendants of it.
pub open spec fn descends_purely(
    objects: Seq<ObjectMap>,
    descendant: Seq<char>,
    ancestor: Seq<char>,
) -> bool {
    &&& descends(objects, descendant, ancestor)
    &&& forall|x: Seq<char>| #[trigger]
        descends(objects, descendant, x) ==> descends(objects, ancestor, x) || descends(
            objects,
            x,
            ancestor,
        )
}

pub(crate) proof fn lemma_commit_peels(objects: Seq<ObjectMap>, id: Seq<char>)
    requires
        is_commit(objects, id),
    ensures
        peeled(objects, id) == Some(id),
{
}

/// Following one line of descent after another gives a line of descent.
proof fn lemma_reachable_through(
    objects: Seq<ObjectMap>,
    starts: Seq<Seq<char>>,
    line: Seq<Seq<char>>,
    i: int,
)
    requires
        0 <= i < line.len(),
        reachable(objects, Seq::empty(), starts, line[i]),
        is_line(objects, Seq::empty(), line),
    ensures
        reachable(objects, Seq::empty(), starts, line.last()),
    decreases line.len() - i,
{
    if i < line.len() - 1 {
        assert(is_parent(objects, line[i], line[i + 1]));
        lemma_parent_reachable(objects, Seq::empty(), starts, line[i], line[i + 1]);
        lemma_reachable_through(objects, starts, line, i + 1);
    }
}

/// A commit descends from those that its ancestors descend from.
pub proof fn theorem_descent_transitive(
    objects: Seq<ObjectMap>,
    a: Seq<char>,
    b: Seq<char>,
    c: Seq<char>,
)
    requires
        descends(objects, a, b),
        descends(objects, b, c),
    ensures
        descends(objects, a, c),
{
    lemma_commit_peels(objects, b);
    let start = peeled(objects, a)->0;
    let line = choose|line: Seq<Seq<char>>|
        line.len() > 0 && seq![b].contains(line[0]) && line.last() == c && #[trigger] is_line(
            objects,
            Seq::empty(),
            line,
        );
    assert(line[0] == b);
    lemma_reachable_through(objects, seq![start], line, 0);
}

/// A commit descends from itself.
pub proof fn theorem_descent_reflexive(objects: Seq<ObjectMap>, id: Seq<char>)
    requires
        is_commit(objects, id),
    ensures
        descends(objects, id, id),
{
    lemma_commit_peels(objects, id);
    assert(seq![id][0] == id);
    lemma_start_reachable(objects, Seq::empty(), seq![id], id);
}

/// Whether a walk that leaves the ancestors of a commit out comes through a commit.
spec fn walked_past(
    repo: RepoView,
    descendant: Seq<char>,
    left_out: Seq<Seq<char>>,
    id: Seq<char>,
) -> bool {
    &&& is_commit(repo.objects, id)
    &&& !left_out.contains(descendant)
    &&& peeled(repo.objects, descendant) matches Some(c) && reachable(
        repo.objects,
        left_out,
        seq![c],
        id,
    )
}

proof fn lemma_pure(
    repo: RepoView,
    descendant: Seq<char>,
    ancestor: Seq<char>,
    left_out: Seq<Seq<char>>,
)
    requires
        descends(repo.objects, descendant, ancestor),
        forall|x: Seq<char>| #[trigger]
            left_out.contains(x) <==> descends(repo.objects, ancestor, x),
    ensures
        descends_purely(repo.objects, descendant, ancestor) <==> (forall|x: Seq<char>| #[trigger]
            walked_past(repo, descendant, left_out, x) ==> descends(repo.objects, x, ancestor)),
{
    let objects = repo.objects;
    let none = Seq::<Seq<char>>::empty();
    let c = peeled(objects, descendant)->0;
    if descends_purely(objects, descendant, ancestor) {
        assert forall|x: Seq<char>| #[trigger]
            walked_past(repo, descendant, left_out, x) implies descends(objects, x, ancestor) by {
            let line = choose|line: Seq<Seq<char>>|
                line.len() > 0 && seq![c].contains(line[0]) && line.last() == x
                    && #[trigger] is_line(objects, left_out, line);
            assert(is_line(objects, none, line));
            assert(descends(objects, descendant, x));
            if line.len() == 1 {
                assert(x == c);
                lemma_commit_peels(objects, c);
            } else {
                assert(!left_out.contains(line[line.len() - 1]));
            }
        }
    }
    if forall|x: Seq<char>| #[trigger]
        walked_past(repo, descendant, left_out, x) ==> descends(objects, x, ancestor) {
        assert forall|x: Seq<char>| #[trigger]
            descends(objects, descendant, x) implies descends(objects, ancestor, x) || descends(
            objects,
            x,
            ancestor,
        ) by {
            if !descends(objects, ancestor, x) {
                let line = choose|line: Seq<Seq<char>>|
                    line.len() > 0 && seq![c].contains(line[0]) && line.last() == x
                        && #[trigger] is_line(objects, none, line);
                assert(line[0] == c);
                assert forall|i: int| 0 <= i < line.len() implies !left_out.contains(
                    #[trigger] line[i],
                ) by {
                    if left_out.contains(line[i]) {
                        let start = peeled(objects, ancestor)->0;
                        lemma_reachable_through(objects, seq![start], line, i);
                    }
                }
                assert(is_line(objects, left_out, line));
                if left_out.contains(descendant) {
                    lemma_commit_peels(objects, descendant);
                    assert(left_out.contains(line[0]));
                }
                assert(walked_past(repo, descendant, left_out, x));
            }
        }
    }
}

impl<L: ObjectStore, P: ObjectStore, R: RefStore> Repository<L, P, R> {
    /// A walk through the commit that an object leads to and its ancestors, or through all
    /// commits that references lead to and their ancestors.
    pub fn commits<'a>(&'a self, start: Option<&str>) -> (r: Result<
        Commits<'a, L, P, R>,
        RepoError,
    >)
        ensures
            match r {
                Ok(c) => {
                    &&& walk_from(c, *self, opt_str(start), Seq::empty())
                    &&& self.reliable() ==> exists|now: Timestamp| #[trigger]
                        newest_first(self@.objects, texts(c.queue@), now)
                },
                Err(_) => start is None && !self.reliable(),
            },
    {
        let none: Vec<String> = Vec::new();
        assert(texts(none@) =~= Seq::empty());
        let moment = now();
        Commits::new_prunable(self, start, none.as_slice(), &moment)
    }

    /// The commit that an object leads to and its ancestors, each once.
    fn ancestors(&self, start: &str, left_out: &[String]) -> (r: Vec<String>)
        ensures
            texts(r@).no_duplicates(),
            forall|id: Seq<char>| #[trigger]
                texts(r@).contains(id) ==> walked_past(self@, start@, texts(left_out@), id),
            self.reliable() ==> forall|id: Seq<char>| #[trigger]
                texts(r@).contains(id) <==> walked_past(self@, start@, texts(left_out@), id),
    {
        match Commits::new_prunable(self, Some(start), left_out, &now()) {
            Err(_) => Vec::new(),
            Ok(walk) => {
                proof {
                    let objects = self@.objects;
                    let prune = texts(left_out@);
                    let queue = texts(walk.queue@);
                    match peeled(objects, start@) {
                        Some(c) => {
                            lemma_same_starts(objects, prune, queue, c);
                            if self.reliable() && !prune.contains(start@) {
                                assert(is_start(self@, Some(start@), prune, c));
                            }
                        },
                        None => {
                            assert forall|id: Seq<char>| !queue.contains(id) by {
                                assert(!is_start(self@, Some(start@), prune, id));
                            }
                        },
                    }
                }
                walk.all()
            },
        }
    }

    /// Whether a commit is the one that an object leads to, or an ancestor of it.
    pub fn commit_is_ancestor(&self, descendant: &str, ancestor: &str) -> (r: Result<
        bool,
        RepoError,
    >)
        ensures
            r matches Ok(b) && (b ==> descends(self@.objects, descendant@, ancestor@)) && (
            self.reliable() ==> b == descends(self@.objects, descendant@, ancestor@)),
    {
        let none: Vec<String> = Vec::new();
        assert(texts(none@) =~= Seq::empty());
        let line = self.ancestors(descendant, none.as_slice());
        Ok(is_listed(line.as_slice(), ancestor))
    }

    /// Whether a commit is an ancestor of another one and all other ancestors of that one are
    /// either ancestors or descendants of it.
    pub fn commit_is_pure_ancestor(&self, descendant: &str, ancestor: &str) -> (r: Result<
        bool,
        RepoError,
    >)
        ensures
            r matches Ok(b) && (self.reliable() ==> b == descends_purely(
                self@.objects,
                descendant@,
                ancestor@,
            )),
    {
        match self.commit_is_ancestor(descendant, ancestor) {
            Ok(true) => {},
            other => {
                return other;
            },
        }
        let none: Vec<String> = Vec::new();
        assert(texts(none@) =~= Seq::empty());
        let ancestors = self.ancestors(ancestor, none.as_slice());
        let others = self.ancestors(descendant, ancestors.as_slice());
        proof {
            if self.reliable() {
                lemma_pure(self@, descendant@, ancestor@, texts(ancestors@));
            }
        }
        let pure = self.all_descend(others.as_slice(), ancestor);
        proof {
            let list = texts(others@);
            assert(forall|k: int| 0 <= k < others@.len() ==> (#[trigger] others@[k])@ == list[k]);
            if self.reliable() && pure {
                assert forall|x: Seq<char>| #[trigger]
                    walked_past(self@, descendant@, texts(ancestors@), x) implies descends(
                    self@.objects,
                    x,
                    ancestor@,
                ) by {
                    assert(list.contains(x));
                    let k = choose|k: int| 0 <= k < list.len() && list[k] == x;
                    assert(others@[k]@ == x);
                }
            }
            if self.reliable() && !pure {
                let k = choose|k: int|
                    0 <= k < others@.len() && !descends(
                        self@.objects,
                        (#[trigger] others@[k])@,
                        ancestor@,
                    );
                assert(list.contains(list[k]));
            }
        }
        Ok(pure)
    }

    /// Whether all of some commits descend from a commit.
    fn all_descend(&self, list: &[String], ancestor: &str) -> (r: bool)
        ensures
            self.reliable() ==> r == (forall|k: int|
                0 <= k < list@.len() ==> descends(
                    self@.objects,
                    (#[trigger] list@[k])@,
                    ancestor@,
                )),
    {
        let mut i: usize = 0;
        while i < list.len()
            invariant
                i <= list@.len(),
                self.reliable() ==> forall|k: int|
                    0 <= k < i ==> descends(self@.objects, (#[trigger] list@[k])@, ancestor@),
            decreases list@.len() - i,
        {
            match self.commit_is_ancestor(list[i].as_str(), ancestor) {
                Ok(true) => {},
                _ => {
                    return false;
                },
            }
            i = i + 1;
        }
        true
    }
}

proof fn lemma_same_starts(
    objects: Seq<ObjectMap>,
    left_out: Seq<Seq<char>>,
    queue: Seq<Seq<char>>,
    c: Seq<char>,
)
    requires
        forall|x: Seq<char>| #[trigger] queue.contains(x) ==> x == c,
    ensures
        forall|id: Seq<char>| #[trigger]
            reachable(objects, left_out, queue, id) ==> reachable(objects, left_out, seq![c], id)
                && queue.contains(c),
        queue.contains(c) ==> forall|id: Seq<char>| #[trigger]
            reachable(objects, left_out, seq![c], id) ==> reachable(objects, left_out, queue, id),
{
    assert(seq![c][0] == c);
    assert forall|id: Seq<char>| #[trigger] reachable(objects, left_out, queue, id) implies reachable(
        objects,
        left_out,
        seq![c],
        id,
    ) && queue.contains(c) by {
        let line = choose|line: Seq<Seq<char>>|
            line.len() > 0 && queue.contains(line[0]) && line.last() == id && #[trigger] is_line(
                objects,
                left_out,
                line,
            );
        assert(line[0] == c);
        assert(seq![c].contains(line[0]));
    }
    if queue.contains(c) {
        assert forall|id: Seq<char>| #[trigger]
            reachable(objects, left_out, seq![c], id) implies reachable(
            objects,
            left_out,
            queue,
            id,
        ) by {
            let line = choose|line: Seq<Seq<char>>|
                line.len() > 0 && seq![c].contains(line[0]) && line.last() == id
                    && #[trigger] is_line(objects, left_out, line);
            assert(line[0] == c);
        }
    }
}

/// Whether a commit has come in a walk: it has been seen, and does not come later.
pub open spec fn has_come(queue: Seq<Seq<char>>, seen: Seq<Seq<char>>, id: Seq<char>) -> bool {
    seen.contains(id) && !queue.contains(id)
}

/// The commits that have come in a walk.
pub open spec fn come(queue: Seq<Seq<char>>, seen: Seq<Seq<char>>) -> Set<Seq<char>> {
    Set::new(|id: Seq<char>| has_come(queue, seen, id))
}

/// Each commit that comes later in a walk comes once and has been seen.
pub open spec fn walk_wf(queue: Seq<Seq<char>>, seen: Seq<Seq<char>>) -> bool {
    queue.no_duplicates() && forall|x: Seq<char>| #[trigger]
        queue.contains(x) ==> seen.contains(x)
}

/// A step of a walk brings a commit that has not come before, and no other: each comes once.
pub proof fn theorem_commit_comes_once(
    queue: Seq<Seq<char>>,
    seen: Seq<Seq<char>>,
    new: Seq<Seq<char>>,
    parents: Seq<Seq<char>>,
    prune: Seq<Seq<char>>,
)
    requires
        queue.len() > 0,
        walk_wf(queue, seen),
        new == fresh(parents, seen, prune) || new.len() == 0,
    ensures
        walk_wf(queue.skip(1) + new, seen + new),
        come(queue.skip(1) + new, seen + new) == come(queue, seen).insert(queue[0]),
        !come(queue, seen).contains(queue[0]),
{
    let id = queue[0];
    let rest = queue.skip(1);
    let queue2 = rest + new;
    let seen2 = seen + new;
    lemma_fresh(parents, seen, prune);
    lemma_skip_first(queue, id);
    assert(queue.contains(id));
    assert forall|x: Seq<char>| #[trigger] new.contains(x) implies !seen.contains(x) by {}
    assert(queue2.no_duplicates()) by {
        assert forall|i: int, j: int| 0 <= i < j < queue2.len() implies queue2[i] != queue2[j] by {
            if i < rest.len() && j >= rest.len() {
                assert(rest[i] == queue[i + 1]);
                assert(queue.contains(queue2[i]));
                assert(new[j - rest.len()] == queue2[j]);
                assert(new.contains(queue2[j]));
            } else if i >= rest.len() {
                assert(new[i - rest.len()] != new[j - rest.len()]);
            }
        }
    }
    assert forall|x: Seq<char>| #[trigger] queue2.contains(x) implies seen2.contains(x) by {
        lemma_contains_concat(rest, new, x);
        lemma_contains_concat(seen, new, x);
        lemma_skip_first(queue, x);
    }
    assert forall|x: Seq<char>| #[trigger]
        come(queue2, seen2).contains(x) <==> come(queue, seen).insert(id).contains(x) by {
        lemma_contains_concat(rest, new, x);
        lemma_contains_concat(seen, new, x);
        lemma_skip_first(queue, x);
        assert(new.contains(x) ==> !seen.contains(x));
        assert(queue.contains(x) ==> seen.contains(x));
    }
    assert(come(queue2, seen2) =~= come(queue, seen).insert(id));
}

/// Whether lines of descent lead from some commits to all of others.
pub open spec fn all_reachable(
    objects: Seq<ObjectMap>,
    left_out: Seq<Seq<char>>,
    starts: Seq<Seq<char>>,
    ids: Seq<Seq<char>>,
) -> bool {
    forall|x: Seq<char>| #[trigger] ids.contains(x) ==> reachable(objects, left_out, starts, x)
}

/// A step of a walk only comes to what lines of descent lead to.
pub(crate) proof fn lemma_step_reachable(
    objects: Seq<ObjectMap>,
    left_out: Seq<Seq<char>>,
    starts: Seq<Seq<char>>,
    seen: Seq<Seq<char>>,
    id: Seq<char>,
    parents: Seq<Seq<char>>,
)
    requires
        all_reachable(objects, left_out, starts, seen),
        seen.contains(id),
        commit_parents(objects, id) == Some(parents),
    ensures
        all_reachable(objects, left_out, starts, seen + fresh(parents, seen, left_out)),
{
    let new = fresh(parents, seen, left_out);
    lemma_fresh(parents, seen, left_out);
    assert forall|x: Seq<char>| #[trigger] (seen + new).contains(x) implies reachable(
        objects,
        left_out,
        starts,
        x,
    ) by {
        lemma_contains_concat(seen, new, x);
        if new.contains(x) {
            lemma_parent_reachable(objects, left_out, starts, id, x);
        }
    }
}

/// A walk starts with what lines of descent lead to.
pub(crate) proof fn lemma_starts_reachable(
    objects: Seq<ObjectMap>,
    left_out: Seq<Seq<char>>,
    starts: Seq<Seq<char>>,
)
    ensures
        all_reachable(objects, left_out, starts, starts),
{
    assert forall|x: Seq<char>| #[trigger] starts.contains(x) implies reachable(
        objects,
        left_out,
        starts,
        x,
    ) by {
        lemma_start_reachable(objects, left_out, starts, x);
    }
}

/// A walk from the references starts also with the commits that references lead to through tags.
pub proof fn theorem_tagged_commit_is_start(
    repo: RepoView,
    r: RefView,
    tag: Seq<char>,
    commit: Seq<char>,
)
    requires
        repo.refs.contains_key(r),
        repo.refs[r] == TargetView::Object(tag),
        peel(repo.objects, tag, STEP_LIMIT as nat) == Ok::<Seq<char>, Fault>(commit),
        raw_object(repo.objects, commit) matches Ok(Some(d)) && d.kind is Commit,
    ensures
        is_start(repo, None, Seq::empty(), commit),
{
    assert(ref_commit(repo.objects, repo.refs[r]) == Some(commit));
}

} // verus!
