//! Which references here follow those of a server.

use vstd::prelude::*;
use vstd::slice::slice_subrange;

use crate::cli::fetch::{map_views, FetchRefMap, MapView};
use crate::stores::{
    branch_text, parse_ref, ref_text, theorem_ref_round_trip, BranchView, LocationView, RefSpec,
    RefView, TargetedRef, TargetedView,
};
use crate::text::{
    chars_of, ends_with, find_char, first_index, lemma_first_index_is, same_text, starts_with,
    string_of, text_ends_with, text_starts_with, trim, trim_chars,
};

verus! {

broadcast use vstd::string::group_string_axioms;

/// A definition of which references of a server are followed, and by which ones here.
#[derive(Debug)]
pub struct FetchDefinition {
    /// Whether they are followed even where history was rewritten.
    pub force: bool,
    /// The path of the references of the server, where `*` stands for any text.
    pub source: String,
    /// The path of those that follow them, where `*` stands for the same text.
    pub dest: String,
}

/// What a definition is.
pub struct DefinitionView {
    /// Whether references are followed even where history was rewritten.
    pub force: bool,
    /// The path of the references of the server.
    pub source: Seq<char>,
    /// The path of those that follow them.
    pub dest: Seq<char>,
}

impl View for FetchDefinition {
    type V = DefinitionView;

    open spec fn view(&self) -> DefinitionView {
        DefinitionView { force: self.force, source: self.source@, dest: self.dest@ }
    }
}

/// What definitions are.
pub open spec fn definition_views(s: Seq<FetchDefinition>) -> Seq<DefinitionView> {
    s.map_values(|d: FetchDefinition| d@)
}

/// The definition that a text stands for: two paths with a `:` between them, and a `+` in front
/// where references are followed even where history was rewritten.
pub open spec fn parse_definition(text: Seq<char>) -> Option<DefinitionView> {
    let t = trim(text);
    let force = t.len() > 0 && t[0] == '+';
    let body = if force {
        t.skip(1)
    } else {
        t
    };
    let i = first_index(body, ':', 0);
    if 0 < i && i + 1 < body.len() {
        Some(DefinitionView { force, source: body.take(i), dest: body.skip(i + 1) })
    } else {
        None
    }
}

/// The path that follows a path of a server according to a definition: the one that is defined,
/// with the text that the `*` of the source stands for in place of the `*`.
pub open spec fn mapped_path(d: DefinitionView, path: Seq<char>) -> Option<Seq<char>> {
    let i = first_index(d.source, '*', 0);
    let j = first_index(d.dest, '*', 0);
    if i >= d.source.len() {
        if path == d.source {
            Some(d.dest)
        } else {
            None
        }
    } else {
        let front = d.source.take(i);
        let end = d.source.skip(i + 1);
        if path.len() >= front.len() + end.len() && starts_with(path, front) && ends_with(path, end)
            && j < d.dest.len() {
            Some(d.dest.take(j) + path.subrange(i, path.len() - end.len()) + d.dest.skip(j + 1))
        } else {
            None
        }
    }
}

/// Whether a reference of a server is the target of a tag, which is none of its own.
pub open spec fn is_peeled(r: RefView) -> bool {
    r matches RefView::Tag(t) && t.peeled
}

/// How a reference of a server is followed according to a definition.
pub open spec fn map_of(t: TargetedView, d: DefinitionView) -> Option<MapView> {
    if is_peeled(t.spec) {
        None
    } else {
        match mapped_path(d, ref_text(t.spec)) {
            None => None,
            Some(path) => match parse_ref(path) {
                Some(dest) => Some(MapView { source: t, dest, force: d.force }),
                None => None,
            },
        }
    }
}

/// How a reference of a server is followed according to definitions, in their order.
pub open spec fn maps_of(t: TargetedView, defs: Seq<DefinitionView>) -> Seq<MapView>
    decreases defs.len(),
{
    if defs.len() == 0 {
        Seq::empty()
    } else {
        let before = maps_of(t, defs.drop_last());
        match map_of(t, defs.last()) {
            Some(m) => before.push(m),
            None => before,
        }
    }
}

/// How the references of a server are followed according to definitions.
pub open spec fn all_maps(refs: Seq<TargetedRef>, defs: Seq<DefinitionView>) -> Seq<MapView>
    decreases refs.len(),
{
    if refs.len() == 0 {
        Seq::empty()
    } else {
        all_maps(refs.drop_last(), defs) + maps_of(refs.last()@, defs)
    }
}

impl FetchDefinition {
    /// The definition that a text stands for.
    pub fn from_str(text: &str) -> (r: Option<Self>)
        ensures
            match r {
                Some(d) => parse_definition(text@) == Some(d@),
                None => parse_definition(text@) is None,
            },
    {
        let all = chars_of(text);
        let t = trim_chars(&all);
        let force = t.len() > 0 && t[0] == '+';
        let from: usize = if force {
            1
        } else {
            0
        };
        let body = slice_subrange(t, from, t.len());
        assert(body@ =~= if force {
            t@.skip(1)
        } else {
            t@
        });
        let i: usize = find_char(body, ':', 0);
        if i == 0 || i >= body.len() || i + 1 >= body.len() {
            return None;
        }
        let source = slice_subrange(body, 0, i);
        let dest = slice_subrange(body, i + 1, body.len());
        assert(source@ =~= body@.take(i as int));
        assert(dest@ =~= body@.skip(i + 1));
        Some(FetchDefinition { force, source: string_of(source), dest: string_of(dest) })
    }

    /// The path that follows a path of a server.
    pub fn map_path(&self, path: &str) -> (r: Option<String>)
        ensures
            match r {
                Some(p) => mapped_path(self@, path@) == Some(p@),
                None => mapped_path(self@, path@) is None,
            },
    {
        let source = chars_of(self.source.as_str());
        let dest = chars_of(self.dest.as_str());
        let i: usize = find_char(&source, '*', 0);
        let j: usize = find_char(&dest, '*', 0);
        if i >= source.len() {
            return if same_text(path, self.source.as_str()) {
                Some(self.dest.clone())
            } else {
                None
            };
        }
        let front = slice_subrange(&source, 0, i);
        let end = slice_subrange(&source, i + 1, source.len());
        assert(front@ =~= source@.take(i as int));
        assert(end@ =~= source@.skip(i + 1));
        let cs = chars_of(path);
        if j >= dest.len() || cs.len() < i || cs.len() - i < end.len() || !text_starts_with(
            &cs,
            string_of(front).as_str(),
        ) || !text_ends_with(&cs, string_of(end).as_str()) {
            return None;
        }
        let middle = slice_subrange(&cs, i, cs.len() - end.len());
        let mut out = string_of(slice_subrange(&dest, 0, j));
        out.append(string_of(middle).as_str());
        out.append(string_of(slice_subrange(&dest, j + 1, dest.len())).as_str());
        assert(out@ =~= dest@.take(j as int) + middle@ + dest@.skip(j + 1));
        Some(out)
    }
}

impl TargetedRef {
    /// How a reference of a server is followed according to a definition.
    fn map_by(&self, d: &FetchDefinition) -> (r: Option<FetchRefMap>)
        ensures
            match r {
                Some(m) => map_of(self@, d@) == Some(m@),
                None => map_of(self@, d@) is None,
            },
    {
        if let RefSpec::Tag(t) = &self.spec {
            if t.peeled {
                return None;
            }
        }
        match d.map_path(self.spec.to_string().as_str()) {
            None => None,
            Some(path) => match RefSpec::from_str(path.as_str()) {
                Ok(dest) => Some(FetchRefMap { source: self.clone(), dest, force: d.force }),
                Err(_) => None,
            },
        }
    }

    /// How a reference of a server is followed according to definitions.
    pub fn map_fetch(&self, defs: &[FetchDefinition]) -> (r: Vec<FetchRefMap>)
        ensures
            map_views(r@) == maps_of(self@, definition_views(defs@)),
    {
        let ghost all = definition_views(defs@);
        let mut out: Vec<FetchRefMap> = Vec::new();
        let mut i: usize = 0;
        assert(all.take(0) =~= Seq::empty());
        assert(map_views(out@) =~= Seq::empty());
        while i < defs.len()
            invariant
                i <= defs@.len(),
                all == definition_views(defs@),
                map_views(out@) == maps_of(self@, all.take(i as int)),
            decreases defs@.len() - i,
        {
            let ghost before = map_views(out@);
            assert(all.take(i + 1).drop_last() =~= all.take(i as int));
            assert(all.take(i + 1).last() == defs@[i as int]@);
            if let Some(m) = self.map_by(&defs[i]) {
                out.push(m);
                assert(map_views(out@) =~= before.push(m@));
            }
            i = i + 1;
        }
        assert(all.take(i as int) =~= all);
        out
    }
}

/// How the references of a server are followed according to definitions.
pub fn map_refs(refs: &[TargetedRef], defs: &[FetchDefinition]) -> (r: Vec<FetchRefMap>)
    ensures
        map_views(r@) == all_maps(refs@, definition_views(defs@)),
{
    let mut out: Vec<FetchRefMap> = Vec::new();
    let mut i: usize = 0;
    assert(refs@.take(0) =~= Seq::empty());
    assert(map_views(out@) =~= Seq::empty());
    while i < refs.len()
        invariant
            i <= refs@.len(),
            map_views(out@) == all_maps(refs@.take(i as int), definition_views(defs@)),
        decreases refs@.len() - i,
    {
        let ghost before = out@;
        assert(refs@.take(i + 1).drop_last() =~= refs@.take(i as int));
        assert(refs@.take(i + 1).last() == refs@[i as int]);
        let mut more = refs[i].map_fetch(defs);
        let ghost new = more@;
        out.append(&mut more);
        assert(map_views(out@) =~= map_views(before) + map_views(new));
        i = i + 1;
    }
    assert(refs@.take(i as int) =~= refs@);
    out
}

/// The definition by which the branches of a remote follow all branches of the server.
pub open spec fn usual_definition(remote: Seq<char>) -> DefinitionView {
    DefinitionView {
        force: true,
        source: "refs/heads/*"@,
        dest: "refs/remotes/"@ + remote + "/*"@,
    }
}

/// According to the usual definition each branch of a server is followed by the branch of the
/// remote with the same name, even where history was rewritten.
pub proof fn theorem_usual_definition(remote: Seq<char>, t: TargetedView, name: Seq<char>)
    requires
        remote.len() > 0,
        !remote.contains('/'),
        !remote.contains('*'),
        name.len() > 0,
        t.spec == RefView::Branch(BranchView { location: LocationView::Local, name }),
    ensures
        map_of(t, usual_definition(remote)) == Some(
            MapView {
                source: t,
                dest: RefView::Branch(BranchView { location: LocationView::Remote(remote), name }),
                force: true,
            },
        ),
{
    reveal_strlit("refs/heads");
    reveal_strlit("refs/heads/*");
    reveal_strlit("refs/remotes/");
    reveal_strlit("/*");
    reveal_strlit("/");
    let d = usual_definition(remote);
    let b = BranchView { location: LocationView::Remote(remote), name };
    let path = ref_text(t.spec);
    lemma_first_index_is(d.source, '*', 0, 11);
    let j: int = remote.len() + 14int;
    assert forall|k: int| 0 <= k < j implies d.dest[k] != '*' by {
        if 13 <= k < 13 + remote.len() {
            assert(d.dest[k] == remote[k - 13]);
            assert(remote.contains(remote[k - 13]));
        }
    }
    assert(d.dest[j] == '*');
    lemma_first_index_is(d.dest, '*', 0, j);
    let front = d.source.take(11);
    let end = d.source.skip(12);
    assert(end =~= Seq::empty());
    assert(path.take(11) =~= front);
    assert(path.skip(path.len() as int) =~= end);
    assert(path.subrange(11, path.len() as int) =~= name);
    assert(d.dest.take(j) + name + d.dest.skip(j + 1) =~= branch_text(b));
    theorem_ref_round_trip(RefView::Branch(b));
}

} // verus!
