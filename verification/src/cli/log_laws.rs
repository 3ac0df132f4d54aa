//! What the drawing of a history shows.

use vstd::prelude::*;
use vstd::seq_lib::lemma_multiset_commutative;

use crate::cli::log::{
    edge_line, edge_lines, graph_lines, lemma_unseen_less, lemma_unseen_shrinks, node_line, unseen,
};
use crate::objects::kvlm::field_values;
use crate::objects::StoredView;
use crate::repo::commits::{
    commit_parents, is_closed, is_parent, lemma_closed_reachable, lemma_commit_stored,
    lemma_contains_concat, lemma_parent_reachable, lemma_start_reachable, reachable, stored_ids,
};
use crate::repo::model::object_at;
use crate::stores::backends::ObjectMap;

verus! {

/// The lines for a commit and its parents.
pub open spec fn parent_lines(id: Seq<char>, parents: Seq<Seq<char>>) -> Seq<Seq<char>> {
    parents.map_values(|p: Seq<char>| edge_line(id, p))
}

/// The lines for an object: where it is a commit, one for itself and one for each parent.
pub open spec fn commit_lines(objects: Seq<ObjectMap>, id: Seq<char>) -> Seq<Seq<char>> {
    match object_at(objects, id) {
        Ok(Some(StoredView::Commit(fields, message))) => seq![node_line(id, message)]
            + parent_lines(id, field_values(fields, "parent"@)),
        _ => Seq::empty(),
    }
}

/// The lines for some objects.
pub open spec fn history_lines(objects: Seq<ObjectMap>, ids: Seq<Seq<char>>) -> Seq<Seq<char>>
    decreases ids.len(),
{
    if ids.len() == 0 {
        Seq::empty()
    } else {
        history_lines(objects, ids.drop_last()) + commit_lines(objects, ids.last())
    }
}

/// Whether lines draw the history of a commit: for each commit that a line of descent leads to
/// from it, there is one line, and one line for each of its parents, and there are no others.
pub open spec fn draws_history(
    objects: Seq<ObjectMap>,
    start: Seq<char>,
    lines: Seq<Seq<char>>,
) -> bool {
    exists|ids: Seq<Seq<char>>|
        ids.no_duplicates() && (forall|x: Seq<char>| #[trigger]
            ids.contains(x) <==> reachable(objects, Seq::empty(), seq![start], x))
            && lines.to_multiset() == (#[trigger] history_lines(objects, ids)).to_multiset()
}

/// Whether a line of descent leads from one of some commits to something that is not a valid
/// object.
pub open spec fn leads_to_invalid(objects: Seq<ObjectMap>, starts: Seq<Seq<char>>) -> bool {
    exists|x: Seq<char>| #[trigger]
        reachable(objects, Seq::empty(), starts, x) && object_at(objects, x) is Err
}

proof fn lemma_history_concat(objects: Seq<ObjectMap>, a: Seq<Seq<char>>, b: Seq<Seq<char>>)
    ensures
        history_lines(objects, a + b) == history_lines(objects, a) + history_lines(objects, b),
    decreases b.len(),
{
    if b.len() == 0 {
        assert(a + b =~= a);
    } else {
        lemma_history_concat(objects, a, b.drop_last());
        assert((a + b).drop_last() =~= a + b.drop_last());
        assert((a + b).last() == b.last());
    }
}

/// What has been seen after, but not before.
spec fn added(seen: Seq<Seq<char>>, after: Seq<Seq<char>>) -> Seq<Seq<char>> {
    after.skip(seen.len() as int)
}

/// Whether a part of the drawing has the lines for what it has come to, and for some parents.
spec fn draws_part(
    objects: Seq<ObjectMap>,
    starts: Seq<Seq<char>>,
    seen: Seq<Seq<char>>,
    after: Seq<Seq<char>>,
    lines: Seq<Seq<char>>,
    edges: Seq<Seq<char>>,
) -> bool {
    &&& after.no_duplicates()
    &&& seen.len() <= after.len()
    &&& after == seen + added(seen, after)
    &&& lines.to_multiset() == edges.to_multiset().add(
        history_lines(objects, added(seen, after)).to_multiset(),
    )
    &&& forall|x: Seq<char>| #[trigger]
        added(seen, after).contains(x) ==> reachable(objects, Seq::empty(), starts, x)
            && object_at(objects, x) is Ok
    &&& forall|x: Seq<char>, p: Seq<char>|
        added(seen, after).contains(x) && #[trigger] is_parent(objects, x, p) ==> after.contains(p)
}

proof fn lemma_parts(
    objects: Seq<ObjectMap>,
    starts: Seq<Seq<char>>,
    seen: Seq<Seq<char>>,
    then: Seq<Seq<char>>,
    after: Seq<Seq<char>>,
    above: Seq<Seq<char>>,
    edge: Seq<char>,
    rest: Seq<Seq<char>>,
    edges: Seq<Seq<char>>,
)
    requires
        draws_part(objects, starts, seen, then, above, Seq::empty()),
        draws_part(objects, starts, then, after, rest, edges),
    ensures
        draws_part(
            objects,
            starts,
            seen,
            after,
            seq![edge] + above + rest,
            seq![edge] + edges,
        ),
        forall|x: Seq<char>| #[trigger] then.contains(x) ==> after.contains(x),
{
    let a = added(seen, then);
    let b = added(then, after);
    let all = added(seen, after);
    assert(all =~= a + b);
    assert(after =~= seen + all);
    lemma_history_concat(objects, a, b);
    lemma_multiset_commutative(history_lines(objects, a), history_lines(objects, b));
    lemma_multiset_commutative(seq![edge], above);
    lemma_multiset_commutative(seq![edge] + above, rest);
    lemma_multiset_commutative(seq![edge], edges);
    Seq::<Seq<char>>::empty().to_multiset_ensures();
    assert(Seq::<Seq<char>>::empty().to_multiset() =~= vstd::multiset::Multiset::empty());
    assert((seq![edge] + above + rest).to_multiset() =~= (seq![edge] + edges).to_multiset().add(
        history_lines(objects, all).to_multiset(),
    ));
    assert forall|x: Seq<char>| #[trigger] then.contains(x) implies after.contains(x) by {
        lemma_contains_concat(then, b, x);
    }
    assert forall|x: Seq<char>| #[trigger] all.contains(x) implies reachable(
        objects,
        Seq::empty(),
        starts,
        x,
    ) && object_at(objects, x) is Ok by {
        lemma_contains_concat(a, b, x);
    }
    assert forall|x: Seq<char>, p: Seq<char>|
        all.contains(x) && #[trigger] is_parent(objects, x, p) implies after.contains(p) by {
        lemma_contains_concat(a, b, x);
        if a.contains(x) {
            assert(then.contains(p));
        }
    }
}

proof fn lemma_graph(
    objects: Seq<ObjectMap>,
    starts: Seq<Seq<char>>,
    id: Seq<char>,
    seen: Seq<Seq<char>>,
)
    requires
        stored_ids(objects).finite(),
        seen.no_duplicates(),
        reachable(objects, Seq::empty(), starts, id),
    ensures
        match graph_lines(objects, id, seen) {
            Some((lines, after)) => draws_part(
                objects,
                starts,
                seen,
                after,
                lines,
                Seq::empty(),
            ) && after.contains(id),
            None => leads_to_invalid(objects, starts),
        },
    decreases unseen(objects, seen), 0nat,
{
    let none = Seq::<Seq<char>>::empty();
    none.to_multiset_ensures();
    assert(none.to_multiset() =~= vstd::multiset::Multiset::empty());
    let now = seen.push(id);
    if seen.contains(id) {
        assert(added(seen, seen) =~= none);
        assert(seen =~= seen + none);
        assert(none.to_multiset() =~= none.to_multiset().add(none.to_multiset()));
    } else {
        assert(now.no_duplicates());
        assert(added(seen, now) =~= seq![id]);
        assert(now =~= seen + seq![id]);
        assert(now[seen.len() as int] == id);
        match object_at(objects, id) {
            Err(_) => {},
            Ok(Some(StoredView::Commit(fields, message))) => {
                let parents = field_values(fields, "parent"@);
                assert(commit_parents(objects, id) == Some(parents));
                lemma_commit_stored(objects, id);
                lemma_unseen_less(objects, seen, id);
                assert forall|p: Seq<char>| #[trigger] parents.contains(p) implies reachable(
                    objects,
                    Seq::empty(),
                    starts,
                    p,
                ) by {
                    lemma_parent_reachable(objects, Seq::empty(), starts, id, p);
                }
                lemma_edges(objects, starts, id, parents, now);
                if let Some((lines, after)) = edge_lines(objects, id, parents, now) {
                    let b = added(now, after);
                    let all = added(seen, after);
                    let node = seq![node_line(id, message)];
                    let edges = parent_lines(id, parents);
                    assert(all =~= seq![id] + b);
                    assert(after =~= seen + all);
                    lemma_history_concat(objects, seq![id], b);
                    assert(seq![id].drop_last() =~= none);
                    assert(history_lines(objects, none) =~= none);
                    assert(history_lines(objects, seq![id]) =~= node + edges);
                    lemma_multiset_commutative(
                        history_lines(objects, seq![id]),
                        history_lines(objects, b),
                    );
                    lemma_multiset_commutative(node, edges);
                    lemma_multiset_commutative(node, lines);
                    assert((node + lines).to_multiset() =~= none.to_multiset().add(
                        history_lines(objects, all).to_multiset(),
                    ));
                    lemma_contains_concat(now, b, id);
                    assert forall|x: Seq<char>| #[trigger] all.contains(x) implies reachable(
                        objects,
                        Seq::empty(),
                        starts,
                        x,
                    ) && object_at(objects, x) is Ok by {
                        lemma_contains_concat(seq![id], b, x);
                    }
                    assert forall|x: Seq<char>, p: Seq<char>|
                        all.contains(x) && #[trigger] is_parent(
                            objects,
                            x,
                            p,
                        ) implies after.contains(p) by {
                        lemma_contains_concat(seq![id], b, x);
                    }
                }
            },
            Ok(_) => {
                assert(seq![id].drop_last() =~= none);
                assert(history_lines(objects, none) =~= none);
                assert(history_lines(objects, seq![id]) =~= none);
                assert(none.to_multiset() =~= none.to_multiset().add(none.to_multiset()));
                assert forall|x: Seq<char>| #[trigger] seq![id].contains(x) implies x == id by {}
            },
        }
    }
}

proof fn lemma_edges(
    objects: Seq<ObjectMap>,
    starts: Seq<Seq<char>>,
    id: Seq<char>,
    parents: Seq<Seq<char>>,
    seen: Seq<Seq<char>>,
)
    requires
        stored_ids(objects).finite(),
        seen.no_duplicates(),
        forall|p: Seq<char>| #[trigger]
            parents.contains(p) ==> reachable(objects, Seq::empty(), starts, p),
    ensures
        match edge_lines(objects, id, parents, seen) {
            Some((lines, after)) => {
                &&& draws_part(objects, starts, seen, after, lines, parent_lines(id, parents))
                &&& forall|p: Seq<char>| #[trigger] parents.contains(p) ==> after.contains(p)
            },
            None => leads_to_invalid(objects, starts),
        },
    decreases unseen(objects, seen), parents.len() + 1,
{
    let none = Seq::<Seq<char>>::empty();
    if parents.len() == 0 {
        none.to_multiset_ensures();
        assert(none.to_multiset() =~= vstd::multiset::Multiset::empty());
        assert(added(seen, seen) =~= none);
        assert(seen =~= seen + none);
        assert(parent_lines(id, parents) =~= none);
        assert(none.to_multiset() =~= none.to_multiset().add(none.to_multiset()));
    } else {
        assert(parents.contains(parents[0]));
        lemma_graph(objects, starts, parents[0], seen);
        if let Some((above, then)) = graph_lines(objects, parents[0], seen) {
            assert forall|x: Seq<char>| #[trigger] seen.contains(x) implies then.contains(x) by {
                lemma_contains_concat(seen, added(seen, then), x);
            }
            lemma_unseen_shrinks(objects, seen, then);
            let others = parents.drop_first();
            assert(parents =~= seq![parents[0]] + others);
            assert forall|p: Seq<char>| #[trigger] others.contains(p) implies reachable(
                objects,
                Seq::empty(),
                starts,
                p,
            ) by {
                lemma_contains_concat(seq![parents[0]], others, p);
                assert(parents.contains(p));
            }
            lemma_edges(objects, starts, id, others, then);
            if let Some((rest, after)) = edge_lines(objects, id, others, then) {
                let edge = edge_line(id, parents[0]);
                lemma_parts(
                    objects,
                    starts,
                    seen,
                    then,
                    after,
                    above,
                    edge,
                    rest,
                    parent_lines(id, others),
                );
                assert(parent_lines(id, parents) =~= seq![edge] + parent_lines(id, others));
                assert forall|p: Seq<char>| #[trigger] parents.contains(p) implies after.contains(
                    p,
                ) by {
                    lemma_contains_concat(seq![parents[0]], others, p);
                    assert(then.contains(parents[0]));
                }
            }
        }
    }
}

/// The drawing of a commit shows its history: there is one line for each commit that a line of
/// descent leads to, one for each of its parents, and no other line.  There is no drawing exactly
/// where a line of descent leads to something that is not a valid object.
pub proof fn theorem_graph_shows_history(objects: Seq<ObjectMap>, start: Seq<char>)
    requires
        stored_ids(objects).finite(),
    ensures
        match graph_lines(objects, start, Seq::empty()) {
            Some((lines, _)) => draws_history(objects, start, lines) && !leads_to_invalid(
                objects,
                seq![start],
            ),
            None => leads_to_invalid(objects, seq![start]),
        },
{
    let none = Seq::<Seq<char>>::empty();
    let starts = seq![start];
    assert(starts[0] == start);
    lemma_start_reachable(objects, none, starts, start);
    lemma_graph(objects, starts, start, none);
    if let Some((lines, ids)) = graph_lines(objects, start, none) {
        assert(added(none, ids) =~= ids);
        none.to_multiset_ensures();
        assert(none.to_multiset() =~= vstd::multiset::Multiset::empty());
        assert(lines.to_multiset() =~= history_lines(objects, ids).to_multiset());
        assert(is_closed(objects, none, starts, ids));
        assert forall|x: Seq<char>| #[trigger] ids.contains(x) <==> reachable(
            objects,
            none,
            starts,
            x,
        ) by {
            if reachable(objects, none, starts, x) {
                lemma_closed_reachable(objects, none, starts, ids, x);
            }
        }
        if leads_to_invalid(objects, starts) {
            let x = choose|x: Seq<char>| #[trigger]
                reachable(objects, none, starts, x) && object_at(objects, x) is Err;
            assert(ids.contains(x));
        }
    }
}

} // verus!
