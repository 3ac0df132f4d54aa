//! What holds of how the references of a server are followed.

use vstd::prelude::*;

use crate::cli::fetch::{decision, MapView};
use crate::cli::fetch_maps::{
    all_maps, map_of, mapped_path, maps_of, parse_definition, DefinitionView,
};
use crate::repo::commits::{descends_purely, lemma_contains_concat};
use crate::repo::model::{lookup, RepoView};
use crate::stores::{parse_ref, ref_text, target_text, RefView, TargetedRef, TargetedView};
use crate::text::{
    ends_with, first_index, lemma_first_index, lemma_first_index_is, lemma_push_contains,
    starts_with, trim,
};

verus! {

/// Whether a reference of a server is followed as given according to one of some definitions.
pub open spec fn is_map_of(
    t: TargetedRef,
    defs: Seq<DefinitionView>,
    m: MapView,
) -> bool {
    exists|j: int| 0 <= j < defs.len() && map_of(t@, #[trigger] defs[j]) == Some(m)
}

proof fn lemma_maps_of(t: TargetedRef, defs: Seq<DefinitionView>, m: MapView)
    ensures
        maps_of(t@, defs).contains(m) <==> is_map_of(t, defs, m),
    decreases defs.len(),
{
    if defs.len() > 0 {
        let before = defs.drop_last();
        let n = defs.len() - 1;
        lemma_maps_of(t, before, m);
        lemma_push_contains(maps_of(t@, before), map_of(t@, defs[n]), m);
        if is_map_of(t, before, m) {
            let j = choose|j: int|
                0 <= j < before.len() && map_of(t@, #[trigger] before[j]) == Some(m);
            assert(defs[j] == before[j]);
        }
        if is_map_of(t, defs, m) {
            let j = choose|j: int| 0 <= j < defs.len() && map_of(t@, #[trigger] defs[j]) == Some(m);
            if j < n {
                assert(before[j] == defs[j]);
            }
        }
    }
}

/// The references of a server are followed by all that some definition makes of one of them, and
/// by nothing else.
pub proof fn theorem_all_maps(refs: Seq<TargetedRef>, defs: Seq<DefinitionView>, m: MapView)
    ensures
        all_maps(refs, defs).contains(m) <==> exists|i: int|
            0 <= i < refs.len() && is_map_of(#[trigger] refs[i], defs, m),
    decreases refs.len(),
{
    if refs.len() > 0 {
        let before = refs.drop_last();
        let n = refs.len() - 1;
        theorem_all_maps(before, defs, m);
        lemma_maps_of(refs[n], defs, m);
        lemma_contains_concat(all_maps(before, defs), maps_of(refs[n]@, defs), m);
        if exists|i: int| 0 <= i < before.len() && is_map_of(#[trigger] before[i], defs, m) {
            let i = choose|i: int|
                0 <= i < before.len() && is_map_of(#[trigger] before[i], defs, m);
            assert(refs[i] == before[i]);
        }
        if exists|i: int| 0 <= i < refs.len() && is_map_of(#[trigger] refs[i], defs, m) {
            let i = choose|i: int| 0 <= i < refs.len() && is_map_of(#[trigger] refs[i], defs, m);
            if i < n {
                assert(before[i] == refs[i]);
            }
        }
    }
}

/// The references of a server are followed one after the other, each by the definitions in their
/// order.
pub proof fn theorem_maps_follow(
    a: Seq<TargetedRef>,
    b: Seq<TargetedRef>,
    defs: Seq<DefinitionView>,
    more: Seq<DefinitionView>,
)
    ensures
        all_maps(a + b, defs) == all_maps(a, defs) + all_maps(b, defs),
        forall|t: TargetedRef| #[trigger]
            maps_of(t@, defs + more) == maps_of(t@, defs) + maps_of(t@, more),
{
    lemma_all_maps_follow(a, b, defs);
    assert forall|t: TargetedRef| #[trigger]
        maps_of(t@, defs + more) == maps_of(t@, defs) + maps_of(t@, more) by {
        lemma_maps_of_follow(t, defs, more);
    }
}

proof fn lemma_all_maps_follow(
    a: Seq<TargetedRef>,
    b: Seq<TargetedRef>,
    defs: Seq<DefinitionView>,
)
    ensures
        all_maps(a + b, defs) == all_maps(a, defs) + all_maps(b, defs),
    decreases b.len(),
{
    if b.len() == 0 {
        assert(a + b =~= a);
        assert(all_maps(a, defs) + all_maps(b, defs) =~= all_maps(a, defs));
    } else {
        lemma_all_maps_follow(a, b.drop_last(), defs);
        assert((a + b).drop_last() =~= a + b.drop_last());
        assert(all_maps(a + b, defs) =~= all_maps(a, defs) + all_maps(b, defs));
    }
}

proof fn lemma_maps_of_follow(t: TargetedRef, a: Seq<DefinitionView>, b: Seq<DefinitionView>)
    ensures
        maps_of(t@, a + b) == maps_of(t@, a) + maps_of(t@, b),
    decreases b.len(),
{
    if b.len() == 0 {
        assert(a + b =~= a);
        assert(maps_of(t@, a) + maps_of(t@, b) =~= maps_of(t@, a));
    } else {
        lemma_maps_of_follow(t, a, b.drop_last());
        assert((a + b).drop_last() =~= a + b.drop_last());
        assert(maps_of(t@, a + b) =~= maps_of(t@, a) + maps_of(t@, b));
    }
}

proof fn lemma_star(front: Seq<char>, end: Seq<char>)
    requires
        !front.contains('*'),
    ensures
        first_index(front + seq!['*'] + end, '*', 0) == front.len(),
        (front + seq!['*'] + end).take(front.len() as int) == front,
        (front + seq!['*'] + end).skip(front.len() + 1int) == end,
{
    let s = front + seq!['*'] + end;
    assert forall|j: int| 0 <= j < front.len() implies s[j] != '*' by {
        if s[j] == '*' {
            assert(front[j] == '*');
            assert(front.contains('*'));
        }
    }
    assert(s[front.len() as int] == '*');
    lemma_first_index_is(s, '*', 0, front.len() as int);
    assert(s.take(front.len() as int) =~= front);
    assert(s.skip(front.len() + 1int) =~= end);
}

/// What the `*` of a definition stands for in a path of a server stands in place of the `*` in the
/// path that follows it, whatever comes before and behind it in both.
pub proof fn theorem_star_is_carried_over(
    force: bool,
    front: Seq<char>,
    end: Seq<char>,
    new_front: Seq<char>,
    new_end: Seq<char>,
    name: Seq<char>,
)
    requires
        !front.contains('*'),
        !new_front.contains('*'),
    ensures
        mapped_path(
            DefinitionView {
                force,
                source: front + seq!['*'] + end,
                dest: new_front + seq!['*'] + new_end,
            },
            front + name + end,
        ) == Some(new_front + name + new_end),
{
    lemma_star(front, end);
    lemma_star(new_front, new_end);
    let path = front + name + end;
    assert(path.take(front.len() as int) =~= front);
    assert(path.skip(path.len() - end.len()) =~= end);
    assert(path.subrange(front.len() as int, path.len() - end.len()) =~= name);
}

/// A path of a server that does not start or end as a definition with a `*` says is not followed
/// by it.
pub proof fn theorem_other_paths_are_not_followed(
    force: bool,
    front: Seq<char>,
    end: Seq<char>,
    dest: Seq<char>,
    path: Seq<char>,
)
    requires
        !front.contains('*'),
        forall|name: Seq<char>| path != #[trigger] (front + name) + end,
    ensures
        mapped_path(
            DefinitionView { force, source: front + seq!['*'] + end, dest },
            path,
        ) is None,
{
    lemma_star(front, end);
    if path.len() >= front.len() + end.len() && starts_with(path, front) && ends_with(path, end) {
        let name = path.subrange(front.len() as int, path.len() - end.len());
        assert forall|i: int| 0 <= i < path.len() implies path[i] == ((front + name) + end)[i] by {
            if i < front.len() {
                assert(path.take(front.len() as int)[i] == path[i]);
            } else if i >= path.len() - end.len() {
                assert(path.skip(path.len() - end.len())[i - (path.len() - end.len())] == path[i]);
            }
        }
        assert(path =~= (front + name) + end);
    }
}

/// A definition without a `*` is about one path: that one is followed by the one it names, and no
/// other path is followed.
pub proof fn theorem_definition_of_one_path(d: DefinitionView, path: Seq<char>)
    requires
        !d.source.contains('*'),
    ensures
        mapped_path(d, path) == if path == d.source {
            Some(d.dest)
        } else {
            None
        },
{
    lemma_first_index(d.source, '*', 0);
    let i = first_index(d.source, '*', 0);
    if i < d.source.len() {
        assert(d.source[i] == '*');
        assert(d.source.contains('*'));
    }
}

/// A definition is read as it is written: two paths with a `:` between them, and a `+` in front
/// where references are followed even where history was rewritten.
pub proof fn theorem_definition_is_read(text: Seq<char>, source: Seq<char>, dest: Seq<char>)
    requires
        source.len() > 0,
        dest.len() > 0,
        !source.contains(':'),
        source[0] != '+',
    ensures
        trim(text) == source + seq![':'] + dest ==> parse_definition(text) == Some(
            DefinitionView { force: false, source, dest },
        ),
        trim(text) == seq!['+'] + source + seq![':'] + dest ==> parse_definition(text) == Some(
            DefinitionView { force: true, source, dest },
        ),
{
    let body = source + seq![':'] + dest;
    let marked = seq!['+'] + source + seq![':'] + dest;
    assert(marked.skip(1) =~= body);
    assert forall|j: int| 0 <= j < source.len() implies body[j] != ':' by {
        if body[j] == ':' {
            assert(source[j] == ':');
            assert(source.contains(':'));
        }
    }
    assert(body[source.len() as int] == ':');
    lemma_first_index_is(body, ':', 0, source.len() as int);
    assert(body.take(source.len() as int) =~= source);
    assert(body.skip(source.len() + 1int) =~= dest);
    assert(body[0] == source[0]);
    assert(marked[0] == '+');
}

/// A text without a `:`, or with nothing on one of its sides, is no definition.
pub proof fn theorem_text_without_two_paths(text: Seq<char>)
    requires
        !trim(text).contains(':') || trim(text)[0] == ':' || first_index(trim(text), ':', 0)
            == trim(text).len() - 1,
    ensures
        parse_definition(text) is None,
{
    let t = trim(text);
    lemma_first_index(t, ':', 0);
    let i = first_index(t, ':', 0);
    if t.len() > 0 && t[0] == '+' {
        let body = t.skip(1);
        lemma_first_index(body, ':', 0);
        let j = first_index(body, ':', 0);
        if j < body.len() {
            assert(t[j + 1] == ':');
            assert(t.contains(':'));
        }
        if i < t.len() {
            assert forall|k: int| 0 <= k < i - 1 implies body[k] != ':' by {
                assert(t[k + 1] != ':');
            }
            if i >= 1 {
                lemma_first_index_is(body, ':', 0, i - 1);
            }
        }
    } else if i < t.len() {
        assert(t[i] == ':');
        assert(t.contains(':'));
    }
}

/// A reference is left as it is where the object that it should lead to is not here, and, unless
/// it is to be followed all the same, where it would leave commits behind; otherwise it is made or
/// moved.
pub proof fn theorem_decision(repo: RepoView, m: MapView)
    ensures
        ({
            let new = target_text(m.source.target);
            let is_here = lookup(repo.objects, new) is Some;
            let has_old = repo.refs.contains_key(m.dest);
            let old_id = target_text(repo.refs[m.dest]);
            let d = decision(repo, m);
            &&& d is NotFetched <==> !is_here
            &&& d is New <==> is_here && !has_old
            &&& d is FastForward <==> is_here && has_old && descends_purely(
                repo.objects,
                new,
                old_id,
            )
            &&& d is Forced <==> is_here && has_old && !descends_purely(repo.objects, new, old_id)
                && m.force
            &&& d is Skip <==> is_here && has_old && !descends_purely(repo.objects, new, old_id)
                && !m.force
        }),
{
}

/// A reference of a server is followed by the one that the definition makes of its path, with the
/// object that it leads to there, even where history was rewritten if the definition says so; the
/// target of a tag is not followed.
pub proof fn theorem_followed_reference(
    t: TargetedView,
    d: DefinitionView,
    path: Seq<char>,
    dest: RefView,
)
    ensures
        (t.spec matches RefView::Tag(tag) && tag.peeled) ==> map_of(t, d) is None,
        !(t.spec matches RefView::Tag(tag) && tag.peeled) && mapped_path(d, ref_text(t.spec))
            == Some(path) && parse_ref(path) == Some(dest) ==> map_of(t, d) == Some(
            MapView { source: t, dest, force: d.force },
        ),
        mapped_path(d, ref_text(t.spec)) is None ==> map_of(t, d) is None,
{
}

} // verus!
