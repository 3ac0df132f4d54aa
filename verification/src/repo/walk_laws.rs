//! What holds of walks through history.

use vstd::prelude::*;

use crate::objects::kvlm::field_values;
use crate::objects::StoredView;
use crate::repo::commits::{
    after_steps, commit_parents, descends, fresh, is_commit, is_line, is_parent, lemma_commit_peels,
    reachable, theorem_descent_reflexive,
};
use crate::repo::model::{first_of, object_at, raw_object, stored_view};
use crate::stores::backends::ObjectMap;
use crate::text::lemma_push_contains;

verus! {

/// What is new among some commits are those that have not been seen and are not left out, each
/// once.
pub proof fn theorem_fresh(ids: Seq<Seq<char>>, seen: Seq<Seq<char>>, left_out: Seq<Seq<char>>)
    ensures
        fresh(ids, seen, left_out).no_duplicates(),
        forall|id: Seq<char>| #[trigger]
            fresh(ids, seen, left_out).contains(id) <==> ids.contains(id) && !seen.contains(id)
                && !left_out.contains(id),
        ids.no_duplicates() ==> fresh(ids, seen, left_out) == ids.filter(
            |id: Seq<char>| !seen.contains(id) && !left_out.contains(id),
        ),
    decreases ids.len(),
{
    reveal(Seq::filter);
    if ids.len() > 0 {
        let before = ids.drop_last();
        let last = ids.last();
        theorem_fresh(before, seen, left_out);
        let rest = fresh(before, seen, left_out);
        assert forall|id: Seq<char>| #[trigger]
            fresh(ids, seen, left_out).contains(id) <==> ids.contains(id) && !seen.contains(id)
                && !left_out.contains(id) by {
            lemma_push_contains(before, Some(last), id);
            assert(before.push(last) =~= ids);
            lemma_push_contains(rest, Some(last), id);
        }
        if ids.no_duplicates() {
            assert(before.no_duplicates());
            assert(!before.contains(last)) by {
                if before.contains(last) {
                    let i = choose|i: int| 0 <= i < before.len() && before[i] == last;
                    assert(ids[i] == ids[ids.len() - 1]);
                }
            }
        }
    }
}

/// A walk takes the commits that wait in their order, before any that it finds meanwhile: after as
/// many steps as there are commits waiting, or fewer, those have come that waited in front, but
/// for the ones that are no commits, and the others still wait in front of what was found.
pub proof fn theorem_waiting_commits_come_first(
    objects: Seq<ObjectMap>,
    left_out: Seq<Seq<char>>,
    queue: Seq<Seq<char>>,
    seen: Seq<Seq<char>>,
    n: nat,
)
    requires
        n <= queue.len(),
    ensures
        ({
            let (out, then, after) = after_steps(objects, left_out, queue, seen, n);
            &&& out == queue.take(n as int).filter(|id: Seq<char>| is_commit(objects, id))
            &&& then.len() >= queue.len() - n
            &&& then.take(queue.len() - n) == queue.skip(n as int)
            &&& after.len() >= seen.len()
            &&& after.take(seen.len() as int) == seen
            &&& then.skip(queue.len() - n) == after.skip(seen.len() as int)
        }),
    decreases n,
{
    let keep = |id: Seq<char>| is_commit(objects, id);
    reveal(Seq::filter);
    if n == 0 {
        assert(queue.take(0) =~= Seq::empty());
        assert(queue.take(0).filter(keep) =~= Seq::empty());
        assert(queue.take(queue.len() as int) =~= queue);
        assert(queue.skip(0) =~= queue);
        assert(seen.take(seen.len() as int) =~= seen);
        assert(queue.skip(queue.len() as int) =~= Seq::empty());
        assert(seen.skip(seen.len() as int) =~= Seq::empty());
    } else {
        let m = (n - 1) as nat;
        theorem_waiting_commits_come_first(objects, left_out, queue, seen, m);
        let (out, q, s) = after_steps(objects, left_out, queue, seen, m);
        let (out_then, then, after) = after_steps(objects, left_out, queue, seen, n);
        let left = queue.len() - m;
        assert(q.take(left)[0] == q[0]);
        assert(q[0] == queue[m as int]);
        let part = queue.take(n as int);
        assert(part.drop_last() =~= queue.take(m as int));
        assert(part.last() == q[0]);
        let new = match commit_parents(objects, q[0]) {
            Some(parents) => fresh(parents, s, left_out),
            None => Seq::<Seq<char>>::empty(),
        };
        assert(then =~= q.skip(1) + new);
        assert(after =~= s + new);
        assert(then.take(queue.len() - n) =~= queue.skip(n as int)) by {
            assert forall|i: int| 0 <= i < queue.len() - n implies then[i] == queue[i + n] by {
                assert(q.take(left)[i + 1] == q[i + 1]);
                assert(queue.skip(m as int)[i + 1] == queue[i + n]);
            }
        }
        assert(after.take(seen.len() as int) =~= seen) by {
            assert forall|i: int| 0 <= i < seen.len() implies after[i] == seen[i] by {
                assert(s.take(seen.len() as int)[i] == s[i]);
            }
        }
        assert(then.skip(queue.len() - n) =~= q.skip(left) + new);
        assert(after.skip(seen.len() as int) =~= s.skip(seen.len() as int) + new);
    }
}

/// A walk that goes on from where it was is the same walk.
pub proof fn theorem_walk_goes_on(
    objects: Seq<ObjectMap>,
    left_out: Seq<Seq<char>>,
    queue: Seq<Seq<char>>,
    seen: Seq<Seq<char>>,
    n: nat,
    m: nat,
)
    ensures
        ({
            let (first, q, s) = after_steps(objects, left_out, queue, seen, n);
            let (second, then, after) = after_steps(objects, left_out, q, s, m);
            after_steps(objects, left_out, queue, seen, n + m) == (first + second, then, after)
        }),
    decreases m,
{
    let (first, q, s) = after_steps(objects, left_out, queue, seen, n);
    if m == 0 {
        assert(first + Seq::<Seq<char>>::empty() =~= first);
    } else {
        theorem_walk_goes_on(objects, left_out, queue, seen, n, (m - 1) as nat);
        let (out, q2, s2) = after_steps(objects, left_out, q, s, (m - 1) as nat);
        assert((n + m - 1) as nat == n + (m - 1) as nat);
        if q2.len() > 0 {
            if commit_parents(objects, q2[0]) is Some {
                assert((first + out).push(q2[0]) =~= first + out.push(q2[0]));
            }
        }
    }
}

/// A commit descends from each of its parents, the commits in its fields of that name.
pub proof fn theorem_parent_is_ancestor(
    objects: Seq<ObjectMap>,
    child: Seq<char>,
    parent: Seq<char>,
)
    requires
        object_at(objects, child) matches Ok(Some(StoredView::Commit(fields, _))) && field_values(
            fields,
            "parent"@,
        ).contains(parent),
        object_at(objects, parent) matches Ok(Some(StoredView::Commit(_, _))),
    ensures
        descends(objects, child, parent),
{
    let line = seq![child, parent];
    theorem_descent_reflexive(objects, child);
    assert(is_line(objects, Seq::empty(), line));
    let starts = seq![child];
    assert(starts[0] == child);
    assert(starts.contains(line[0]));
    assert(line.last() == parent);
    assert(reachable(objects, Seq::empty(), starts, parent));
    lemma_commit_peels(objects, child);
}

/// What a commit descends from, other than itself, one of its parents descends from: there is no
/// other way back than through the parents.
pub proof fn theorem_ancestors_come_through_parents(
    objects: Seq<ObjectMap>,
    child: Seq<char>,
    ancestor: Seq<char>,
)
    requires
        is_commit(objects, child),
        descends(objects, child, ancestor),
        ancestor != child,
    ensures
        exists|p: Seq<char>|
            (object_at(objects, child) matches Ok(Some(StoredView::Commit(fields, _)))
                && field_values(fields, "parent"@).contains(p)) && is_commit(objects, p)
                && #[trigger] descends(objects, p, ancestor),
{
    let none = Seq::<Seq<char>>::empty();
    lemma_commit_peels(objects, child);
    let line = choose|line: Seq<Seq<char>>|
        line.len() > 0 && seq![child].contains(line[0]) && line.last() == ancestor
            && #[trigger] is_line(objects, none, line);
    assert(line[0] == child);
    assert(line.len() > 1);
    let p = line[1];
    let rest = line.skip(1);
    assert(is_parent(objects, line[0], line[1]));
    assert(is_line(objects, none, rest)) by {
        assert forall|i: int| 1 <= i < rest.len() implies is_parent(
            objects,
            rest[i - 1],
            #[trigger] rest[i],
        ) && !none.contains(rest[i]) by {
            assert(is_parent(objects, line[i], line[i + 1]));
        }
    }
    if rest.len() > 1 {
        assert(is_parent(objects, line[1], line[2]));
    } else {
        assert(p == ancestor);
    }
    assert(is_commit(objects, p));
    lemma_commit_peels(objects, p);
    let starts = seq![p];
    assert(starts[0] == p);
    assert(starts.contains(rest[0]));
    assert(rest.last() == ancestor);
    assert(reachable(objects, none, starts, ancestor));
    assert(descends(objects, p, ancestor));
}

/// A tag of a commit descends from what the commit descends from.
pub proof fn theorem_tag_descends_as_its_commit(
    objects: Seq<ObjectMap>,
    tag: Seq<char>,
    commit: Seq<char>,
    ancestor: Seq<char>,
)
    requires
        raw_object(objects, tag) matches Ok(Some(d)) && d.kind is Tag && (stored_view(
            d,
        ) matches Ok(StoredView::Tag(fields, _)) && first_of(fields, "object"@) == Some(commit)),
        is_commit(objects, commit),
    ensures
        descends(objects, tag, ancestor) == descends(objects, commit, ancestor),
{
    lemma_commit_peels(objects, commit);
}

} // verus!
