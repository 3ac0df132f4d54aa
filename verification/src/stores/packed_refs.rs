//! Packed references: many references in the lines of one file.

use vstd::prelude::*;
use vstd::slice::slice_subrange;

use crate::stores::{
    parse_ref, ref_text, theorem_ref_round_trip, writable_ref, RefSpec, RefTarget, RefView,
    TargetView, TargetedRef, TargetedView,
};
use crate::text::laws::theorem_trim;
use crate::text::{
    chars_of, find_char, first_index, is_white, join, join_texts, lemma_first_index_is, split_chars,
    split_on, string_of, texts, trim, trim_chars,
};

verus! {

broadcast use vstd::string::group_string_axioms;

/// The reference of a line: the ID of an object, a space, and the path of the reference.  There
/// is none in a comment, which starts with `#`, nor in the line with the target of the tag in the
/// line before, which starts with `^`.
pub open spec fn packed_ref(line: Seq<char>) -> Option<TargetedView> {
    let l = trim(line);
    let i = first_index(l, ' ', 0);
    if l.len() == 0 || l[0] == '#' || l[0] == '^' || i >= l.len() {
        None
    } else {
        match parse_ref(l.skip(i + 1)) {
            Some(spec) => Some(TargetedView { target: TargetView::Object(l.take(i)), spec }),
            None => None,
        }
    }
}

/// The references of lines.
pub open spec fn packed_refs(lines: Seq<Seq<char>>) -> Seq<TargetedView>
    decreases lines.len(),
{
    if lines.len() == 0 {
        Seq::empty()
    } else {
        match packed_ref(lines[0]) {
            Some(t) => seq![t] + packed_refs(lines.skip(1)),
            None => packed_refs(lines.skip(1)),
        }
    }
}

/// What references with their targets are.
pub open spec fn views_of(s: Seq<TargetedRef>) -> Seq<TargetedView> {
    s.map_values(|t: TargetedRef| t@)
}

/// Whether the reference of a line is the given one.
pub open spec fn is_line_of(line: Seq<char>, r: RefView) -> bool {
    packed_ref(line) matches Some(t) && t.spec == r
}

/// Whether a line has the target of the tag in the line before.
pub open spec fn is_tag_target(line: Seq<char>) -> bool {
    trim(line).len() > 0 && trim(line)[0] == '^'
}

/// The lines without those of a reference.
pub open spec fn lines_without(lines: Seq<Seq<char>>, r: RefView, in_it: bool) -> Seq<Seq<char>>
    decreases lines.len(),
{
    if lines.len() == 0 {
        Seq::empty()
    } else if is_line_of(lines[0], r) || (in_it && is_tag_target(lines[0])) {
        lines_without(lines.skip(1), r, true)
    } else {
        seq![lines[0]] + lines_without(lines.skip(1), r, false)
    }
}

/// The text without the lines of a reference.
pub open spec fn text_without(text: Seq<char>, r: RefView) -> Seq<char> {
    join(lines_without(split_on(text, '\n'), r, false), seq!['\n'])
}

/// Whether a reference is another one than that given.
pub open spec fn other_ref(r: RefView) -> spec_fn(TargetedView) -> bool {
    |t: TargetedView| t.spec != r
}

fn read_line(line: &str) -> (r: Option<TargetedRef>)
    ensures
        match r {
            Some(t) => packed_ref(line@) == Some(t@),
            None => packed_ref(line@) is None,
        },
{
    let all = chars_of(line);
    let cs = trim_chars(&all);
    if cs.len() == 0 || cs[0] == '#' || cs[0] == '^' {
        return None;
    }
    let i: usize = find_char(cs, ' ', 0);
    if i >= cs.len() {
        return None;
    }
    let id = slice_subrange(cs, 0, i);
    let path = slice_subrange(cs, i + 1, cs.len());
    assert(id@ =~= cs@.take(i as int));
    assert(path@ =~= cs@.skip(i + 1));
    match RefSpec::from_str(string_of(path).as_str()) {
        Ok(spec) => Some(TargetedRef { target: RefTarget::Object(string_of(id)), spec }),
        Err(_) => None,
    }
}

/// Reads the references of a file of packed references.
pub fn read_packed_refs(text: &str) -> (r: Vec<TargetedRef>)
    ensures
        views_of(r@) == packed_refs(split_on(text@, '\n')),
{
    let lines = split_chars(&chars_of(text), '\n');
    let ghost all = texts(lines@);
    let mut out: Vec<TargetedRef> = Vec::new();
    let mut i: usize = 0;
    assert(all.skip(0) =~= all);
    assert(views_of(out@) + packed_refs(all) =~= packed_refs(all));
    while i < lines.len()
        invariant
            i <= lines@.len(),
            all == texts(lines@),
            packed_refs(all) == views_of(out@) + packed_refs(all.skip(i as int)),
        decreases lines@.len() - i,
    {
        let ghost before = views_of(out@);
        let ghost rest = all.skip(i as int);
        assert(rest[0] == lines@[i as int]@);
        assert(rest.skip(1) =~= all.skip(i + 1));
        if let Some(t) = read_line(lines[i].as_str()) {
            out.push(t);
            assert(views_of(out@) =~= before.push(t@));
            assert(before + (seq![t@] + packed_refs(all.skip(i + 1))) =~= views_of(out@)
                + packed_refs(all.skip(i + 1)));
        }
        i = i + 1;
    }
    assert(all.skip(i as int) =~= Seq::empty());
    assert(views_of(out@) + Seq::<TargetedView>::empty() =~= views_of(out@));
    out
}

fn has_tag_target(line: &str) -> (r: bool)
    ensures
        r == is_tag_target(line@),
{
    let all = chars_of(line);
    let cs = trim_chars(&all);
    cs.len() > 0 && cs[0] == '^'
}

/// Takes a reference out of the text of a file of packed references.
pub fn remove_packed_ref(text: &str, r: &RefSpec) -> (out: String)
    ensures
        out@ == text_without(text@, r@),
{
    let lines = split_chars(&chars_of(text), '\n');
    let ghost all = texts(lines@);
    let mut kept: Vec<String> = Vec::new();
    let mut in_it = false;
    let mut i: usize = 0;
    assert(all.skip(0) =~= all);
    assert(texts(kept@) + lines_without(all, r@, false) =~= lines_without(all, r@, false));
    while i < lines.len()
        invariant
            i <= lines@.len(),
            all == texts(lines@),
            lines_without(all, r@, false) == texts(kept@) + lines_without(
                all.skip(i as int),
                r@,
                in_it,
            ),
        decreases lines@.len() - i,
    {
        let ghost before = texts(kept@);
        let ghost rest = all.skip(i as int);
        assert(rest[0] == lines@[i as int]@);
        assert(rest.skip(1) =~= all.skip(i + 1));
        let line = lines[i].as_str();
        let of_it = match read_line(line) {
            Some(t) => t.spec.same_ref(r),
            None => false,
        };
        if of_it || (in_it && has_tag_target(line)) {
            in_it = true;
        } else {
            let copy = lines[i].clone();
            kept.push(copy);
            in_it = false;
            assert(texts(kept@) =~= before.push(rest[0]));
            assert(before + (seq![rest[0]] + lines_without(rest.skip(1), r@, false)) =~= texts(
                kept@,
            ) + lines_without(rest.skip(1), r@, false));
        }
        i = i + 1;
    }
    proof {
        assert(all.skip(i as int) =~= Seq::empty());
        assert(texts(kept@) + Seq::<Seq<char>>::empty() =~= texts(kept@));
        reveal_strlit("\n");
        assert("\n"@ =~= seq!['\n']);
    }
    join_texts(kept.as_slice(), "\n")
}

/// Whether none of some texts has a line feed.
spec fn are_lines(lines: Seq<Seq<char>>) -> bool {
    forall|i: int| 0 <= i < lines.len() ==> !(#[trigger] lines[i]).contains('\n')
}

proof fn lemma_split_lines(s: Seq<char>)
    ensures
        are_lines(split_on(s, '\n')),
        split_on(s, '\n').len() > 0,
    decreases s.len(),
{
    let i = first_index(s, '\n', 0);
    crate::text::lemma_first_index(s, '\n', 0);
    let parts = split_on(s, '\n');
    if 0 <= i < s.len() {
        let rest = s.skip(i + 1);
        lemma_split_lines(rest);
        assert forall|k: int| 0 <= k < parts.len() implies !(#[trigger] parts[k]).contains('\n') by {
            if k == 0 {
                assert(parts[0] == s.take(i));
            } else {
                assert(parts[k] == split_on(rest, '\n')[k - 1]);
            }
        }
    } else {
        assert(parts[0] == s);
    }
}

proof fn lemma_join_lines(lines: Seq<Seq<char>>)
    requires
        are_lines(lines),
        lines.len() > 0,
    ensures
        split_on(join(lines, seq!['\n']), '\n') == lines,
    decreases lines.len(),
{
    let s = join(lines, seq!['\n']);
    let first = lines[0];
    if lines.len() == 1 {
        lemma_first_index_is(s, '\n', 0, s.len() as int);
        assert(split_on(s, '\n') =~= lines);
    } else {
        let rest = lines.drop_first();
        assert forall|i: int| 0 <= i < rest.len() implies !(#[trigger] rest[i]).contains('\n') by {
            assert(rest[i] == lines[i + 1]);
        }
        lemma_join_lines(rest);
        let i = first.len() as int;
        assert forall|k: int| 0 <= k < i implies s[k] != '\n' by {
            assert(s[k] == first[k]);
            assert(first.contains(first[k]));
        }
        assert(s[i] == '\n');
        lemma_first_index_is(s, '\n', 0, i);
        assert(s.take(i) =~= first);
        assert(s.skip(i + 1) =~= join(rest, seq!['\n']));
        assert(split_on(s, '\n') =~= lines);
    }
}

proof fn lemma_without(lines: Seq<Seq<char>>, r: RefView, in_it: bool)
    requires
        are_lines(lines),
    ensures
        are_lines(lines_without(lines, r, in_it)),
        packed_refs(lines_without(lines, r, in_it)) == packed_refs(lines).filter(other_ref(r)),
    decreases lines.len(),
{
    let p = other_ref(r);
    let kept = lines_without(lines, r, in_it);
    reveal(Seq::filter);
    if lines.len() > 0 {
        let rest = lines.skip(1);
        assert forall|i: int| 0 <= i < rest.len() implies !(#[trigger] rest[i]).contains('\n') by {
            assert(rest[i] == lines[i + 1]);
        }
        let dropped = is_line_of(lines[0], r) || (in_it && is_tag_target(lines[0]));
        lemma_without(rest, r, dropped);
        let later = lines_without(rest, r, dropped);
        if !dropped {
            assert(kept.skip(1) =~= later);
            assert forall|i: int| 0 <= i < kept.len() implies !(#[trigger] kept[i]).contains(
                '\n',
            ) by {
                if i > 0 {
                    assert(kept[i] == later[i - 1]);
                }
            }
        }
        if let Some(t) = packed_ref(lines[0]) {
            let refs = packed_refs(rest);
            refs.lemma_filter_prepend(t, p);
            assert(Seq::<TargetedView>::empty() + refs.filter(p) =~= refs.filter(p));
        }
    }
}

/// Once a reference is taken out of a file of packed references, the file has the other ones and
/// no longer that one.
pub proof fn theorem_removed_ref_is_gone(text: Seq<char>, r: RefView)
    ensures
        packed_refs(split_on(text_without(text, r), '\n')) == packed_refs(
            split_on(text, '\n'),
        ).filter(other_ref(r)),
{
    let lines = split_on(text, '\n');
    let kept = lines_without(lines, r, false);
    lemma_split_lines(text);
    lemma_without(lines, r, false);
    if kept.len() > 0 {
        lemma_join_lines(kept);
    } else {
        let none = Seq::<char>::empty();
        assert(join(kept, seq!['\n']) =~= none);
        assert(split_on(none, '\n') =~= seq![none]);
        assert(trim(none) =~= none);
        assert(packed_ref(none) is None);
        reveal_with_fuel(packed_refs, 2);
        assert(seq![none].skip(1) =~= Seq::empty());
    }
}

/// A reference is read from the line that is written for it: the ID, a space and its path.
pub proof fn theorem_packed_line_is_read(id: Seq<char>, r: RefView)
    requires
        id.len() > 0,
        !id.contains(' '),
        id[0] != '#',
        id[0] != '^',
        !is_white(id[0]),
        writable_ref(r),
        !is_white(ref_text(r).last()),
    ensures
        packed_ref(id + seq![' '] + ref_text(r)) == Some(
            TargetedView { target: TargetView::Object(id), spec: r },
        ),
{
    let path = ref_text(r);
    let line = id + seq![' '] + path;
    let none = Seq::<char>::empty();
    theorem_ref_round_trip(r);
    assert(path.len() > 0) by {
        if path.len() == 0 {
            reveal_strlit("HEAD");
            reveal_strlit("refs/tags/");
            reveal_strlit("refs/heads/");
            reveal_strlit("refs/remotes/");
        }
    }
    assert(line[0] == id[0]);
    assert(line.last() == path.last());
    theorem_trim(none, line, none);
    assert(none + line + none =~= line);
    assert forall|j: int| 0 <= j < id.len() implies line[j] != ' ' by {
        if line[j] == ' ' {
            assert(id[j] == ' ');
            assert(id.contains(' '));
        }
    }
    assert(line[id.len() as int] == ' ');
    lemma_first_index_is(line, ' ', 0, id.len() as int);
    assert(line.take(id.len() as int) =~= id);
    assert(line.skip(id.len() + 1int) =~= path);
}

/// The references of a file are those of its lines, in their order: those of further lines come
/// behind, and one line gives the reference that it holds, if any.
pub proof fn theorem_packed_refs_follow(a: Seq<Seq<char>>, b: Seq<Seq<char>>)
    ensures
        packed_refs(a + b) == packed_refs(a) + packed_refs(b),
        forall|line: Seq<char>| #[trigger]
            packed_refs(seq![line]) == match packed_ref(line) {
                Some(t) => seq![t],
                None => Seq::empty(),
            },
    decreases a.len(),
{
    if a.len() == 0 {
        assert(a + b =~= b);
        assert(packed_refs(a) + packed_refs(b) =~= packed_refs(b));
    } else {
        theorem_packed_refs_follow(a.skip(1), b);
        assert((a + b).skip(1) =~= a.skip(1) + b);
        assert((a + b)[0] == a[0]);
        assert(packed_refs(a + b) =~= packed_refs(a) + packed_refs(b));
    }
    assert forall|line: Seq<char>| #[trigger]
        packed_refs(seq![line]) == match packed_ref(line) {
            Some(t) => seq![t],
            None => Seq::empty(),
        } by {
        let one = seq![line];
        assert(one.skip(1) =~= Seq::empty());
        assert(packed_refs(one.skip(1)) =~= Seq::empty());
        if let Some(t) = packed_ref(line) {
            assert(seq![t] + packed_refs(one.skip(1)) =~= seq![t]);
        }
    }
}

} // verus!
