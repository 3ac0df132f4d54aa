//! What holds of the rules about files that are not to be tracked.

use vstd::prelude::*;

use crate::ignore::{
    all_say, directory_of, first_word, has_inner_slash, is_ignored, last_word,
    lemma_directory_shorter, lemma_scoped_rules_at, lemma_scoped_rules_missing, pattern_of_line,
    pattern_views, root_length, rule_of_line, rule_patterns, rules_in_files, rules_in_lines,
    scoped_rules, scoped_word, valid_patterns, without_empty_end, IgnoreInfo, IgnorePattern,
    PatternView, Rule, ScopedFile,
};
use crate::interop::{glob_match, glob_valid, text_of_bytes};
use crate::text::{lemma_after_last_is, lemma_filter_contains, lines_of, trim};

verus! {

/// A directory above a path: the one that it is in, and from there as many further up as given.
pub open spec fn above(path: Seq<char>, k: nat) -> Seq<char>
    decreases k,
{
    if k == 0 {
        directory_of(path)
    } else {
        directory_of(above(path, (k - 1) as nat))
    }
}

/// Whether the rules of a directory say a given thing of a path: of those that say anything the
/// last one does.
pub open spec fn directory_says(
    scoped: Map<Seq<char>, Seq<IgnorePattern>>,
    dir: Seq<char>,
    path: Seq<char>,
    b: bool,
) -> bool {
    scoped.contains_key(dir) && says_last(all_say(pattern_views(scoped[dir]), path), b)
}

/// Whether the last thing that is said is a given one.
pub open spec fn says_last(said: Seq<Option<bool>>, b: bool) -> bool {
    exists|i: int|
        0 <= i < said.len() && #[trigger] said[i] == Some(b) && forall|j: int|
            i < j < said.len() ==> #[trigger] said[j] is None
}

/// Whether the first thing that is said is a given one.
pub open spec fn says_first(said: Seq<Option<bool>>, b: bool) -> bool {
    exists|i: int|
        0 <= i < said.len() && #[trigger] said[i] == Some(b) && forall|j: int|
            0 <= j < i ==> #[trigger] said[j] is None
}

/// Whether the rules of a directory say nothing of a path: there are none, or none of them does.
pub open spec fn directory_is_silent(
    scoped: Map<Seq<char>, Seq<IgnorePattern>>,
    dir: Seq<char>,
    path: Seq<char>,
) -> bool {
    scoped.contains_key(dir) ==> all_silent(all_say(pattern_views(scoped[dir]), path))
}

/// Whether nothing is said.
pub open spec fn all_silent(said: Seq<Option<bool>>) -> bool {
    forall|i: int| 0 <= i < said.len() ==> #[trigger] said[i] is None
}

/// The last word is what the last one says that says anything, and there is none where all are
/// silent.
pub proof fn theorem_last_word(said: Seq<Option<bool>>)
    ensures
        forall|b: bool| (last_word(said) == Some(b)) == says_last(said, b),
        (last_word(said) is None) == all_silent(said),
    decreases said.len(),
{
    if said.len() > 0 {
        let before = said.drop_last();
        theorem_last_word(before);
        let n = said.len() - 1;
        if said.last() is Some {
            let b = said.last()->0;
            assert(said[n] == Some(b));
            assert(says_last(said, b));
            assert(!all_silent(said));
            assert forall|c: bool| says_last(said, c) implies c == b by {
                let i = choose|i: int|
                    0 <= i < said.len() && #[trigger] said[i] == Some(c) && forall|j: int|
                        i < j < said.len() ==> #[trigger] said[j] is None;
                if i < n {
                    assert(said[n] is None);
                }
            }
        } else {
            assert forall|b: bool| says_last(said, b) == says_last(before, b) by {
                if says_last(said, b) {
                    let i = choose|i: int|
                        0 <= i < said.len() && #[trigger] said[i] == Some(b) && forall|j: int|
                            i < j < said.len() ==> #[trigger] said[j] is None;
                    assert(before[i] == Some(b));
                    assert forall|j: int| i < j < before.len() implies #[trigger] before[j] is None by {
                        assert(said[j] is None);
                    }
                }
                if says_last(before, b) {
                    let i = choose|i: int|
                        0 <= i < before.len() && #[trigger] before[i] == Some(b) && forall|j: int|
                            i < j < before.len() ==> #[trigger] before[j] is None;
                    assert(said[i] == Some(b));
                    assert forall|j: int| i < j < said.len() implies #[trigger] said[j] is None by {
                        if j < n {
                            assert(before[j] is None);
                        }
                    }
                }
            }
            if all_silent(before) {
                assert forall|i: int| 0 <= i < said.len() implies #[trigger] said[i] is None by {
                    if i < n {
                        assert(before[i] is None);
                    }
                }
            }
            if all_silent(said) {
                assert forall|i: int| 0 <= i < before.len() implies #[trigger] before[i] is None by {
                    assert(said[i] is None);
                }
            }
        }
    }
}

/// The first word is what the first one says that says anything, and there is none where all are
/// silent.
pub proof fn theorem_first_word(said: Seq<Option<bool>>)
    ensures
        forall|b: bool| (first_word(said) == Some(b)) == says_first(said, b),
        (first_word(said) is None) == all_silent(said),
    decreases said.len(),
{
    if said.len() > 0 {
        let rest = said.drop_first();
        theorem_first_word(rest);
        if said[0] is Some {
            let b = said[0]->0;
            assert(says_first(said, b));
            assert(!all_silent(said));
            assert forall|c: bool| says_first(said, c) implies c == b by {
                let i = choose|i: int|
                    0 <= i < said.len() && #[trigger] said[i] == Some(c) && forall|j: int|
                        0 <= j < i ==> #[trigger] said[j] is None;
                if i > 0 {
                    assert(said[0] is None);
                }
            }
        } else {
            assert forall|b: bool| says_first(said, b) == says_first(rest, b) by {
                if says_first(said, b) {
                    let i = choose|i: int|
                        0 <= i < said.len() && #[trigger] said[i] == Some(b) && forall|j: int|
                            0 <= j < i ==> #[trigger] said[j] is None;
                    assert(rest[i - 1] == Some(b));
                    assert forall|j: int| 0 <= j < i - 1 implies #[trigger] rest[j] is None by {
                        assert(said[j + 1] is None);
                    }
                }
                if says_first(rest, b) {
                    let i = choose|i: int|
                        0 <= i < rest.len() && #[trigger] rest[i] == Some(b) && forall|j: int|
                            0 <= j < i ==> #[trigger] rest[j] is None;
                    assert(said[i + 1] == Some(b));
                    assert forall|j: int| 0 <= j < i + 1 implies #[trigger] said[j] is None by {
                        if j > 0 {
                            assert(rest[j - 1] is None);
                        }
                    }
                }
            }
            if all_silent(rest) {
                assert forall|i: int| 0 <= i < said.len() implies #[trigger] said[i] is None by {
                    if i > 0 {
                        assert(rest[i - 1] is None);
                    }
                }
            }
            if all_silent(said) {
                assert forall|i: int| 0 <= i < rest.len() implies #[trigger] rest[i] is None by {
                    assert(said[i + 1] is None);
                }
            }
        }
    }
}

proof fn lemma_scoped_from(
    scoped: Map<Seq<char>, Seq<IgnorePattern>>,
    path: Seq<char>,
    k: nat,
    i: nat,
    b: bool,
)
    requires
        i <= k,
        directory_says(scoped, above(path, k), path, b),
        forall|j: nat| j < k ==> directory_is_silent(scoped, #[trigger] above(path, j), path),
    ensures
        scoped_word(scoped, path, above(path, i)) == Some(b),
    decreases k - i,
{
    let scope = above(path, i);
    if scoped.contains_key(scope) {
        theorem_last_word(all_say(pattern_views(scoped[scope]), path));
    }
    if i < k {
        assert(directory_is_silent(scoped, scope, path));
        lemma_directory_shorter(scope);
        lemma_scoped_from(scoped, path, k, i + 1, b);
        if scope.len() == 0 {
            assert(above(path, i + 1) =~= scope);
        }
    }
}

/// What is said of a path is what the nearest directory above it says that says anything: where
/// the rules of a directory say whether the path is ignored, and those of every directory between
/// it and the path say nothing or are not there, that is so.
pub proof fn theorem_nearest_speaking_directory_counts(
    info: IgnoreInfo,
    path: Seq<char>,
    k: nat,
    b: bool,
)
    requires
        directory_says(info.scoped@, above(path, k), path, b),
        forall|j: nat| j < k ==> directory_is_silent(info.scoped@, #[trigger] above(path, j), path),
    ensures
        scoped_word(info.scoped@, path, directory_of(path)) == Some(b),
        is_ignored(info, path) == b,
{
    lemma_scoped_from(info.scoped@, path, k, 0, b);
}

proof fn lemma_scoped_silent(scoped: Map<Seq<char>, Seq<IgnorePattern>>, path: Seq<char>, i: nat)
    requires
        forall|j: nat| directory_is_silent(scoped, #[trigger] above(path, j), path),
    ensures
        scoped_word(scoped, path, above(path, i)) is None,
    decreases above(path, i).len(),
{
    let scope = above(path, i);
    assert(directory_is_silent(scoped, scope, path));
    if scoped.contains_key(scope) {
        theorem_last_word(all_say(pattern_views(scoped[scope]), path));
    }
    lemma_directory_shorter(scope);
    if scope.len() > 0 {
        lemma_scoped_silent(scoped, path, i + 1);
    }
}

/// Where no directory above a path says anything of it, the rules about all files decide: the
/// path is ignored where the first of them that says anything says so.
pub proof fn theorem_rules_about_all_files_count_last(info: IgnoreInfo, path: Seq<char>)
    requires
        forall|j: nat| directory_is_silent(info.scoped@, #[trigger] above(path, j), path),
    ensures
        scoped_word(info.scoped@, path, directory_of(path)) is None,
        is_ignored(info, path) == says_first(all_say(pattern_views(info.absolute@), path), true),
{
    lemma_scoped_silent(info.scoped@, path, 0);
    theorem_first_word(all_say(pattern_views(info.absolute@), path));
}

/// A file in a directory is in that directory: of the path of the directory, a slash and a name,
/// the first is what comes out.
pub proof fn theorem_directory_of_file(dir: Seq<char>, name: Seq<char>)
    requires
        name.len() > 0,
        !name.contains('/'),
        name != seq!['.'],
        dir.len() > 0,
        dir.last() != '/',
        dir.last() == '.' ==> dir.len() > 1 && dir[dir.len() - 2] != '/',
    ensures
        directory_of(dir + seq!['/'] + name) == dir,
{
    let path = dir + seq!['/'] + name;
    let root = root_length(path);
    let n = path.len() as int;
    lemma_name_has_no_slash(name);
    assert(path.last() == name.last());
    assert(path.last() != '/') by {
        assert(name[name.len() - 1] != '/');
    }
    assert(!(path.last() == '.' && path[n - 2] == '/')) by {
        if name.len() == 1 {
            if name[0] == '.' {
                assert(name =~= seq!['.']);
            }
        } else {
            assert(path[n - 2] == name[name.len() - 2]);
        }
    }
    assert(without_empty_end(path, root) == path);
    assert(path[dir.len() as int] == '/');
    assert forall|j: int| dir.len() + 1 <= j < path.len() implies path[j] != '/' by {
        assert(path[j] == name[j - dir.len() - 1]);
    }
    lemma_after_last_is(path, '/', dir.len() + 1int);
    let d = path.take(dir.len() + 1int);
    assert(d.drop_last() =~= dir);
    assert(d.last() == '/');
    assert(dir.len() > root) by {
        if dir.len() == 1 {
            assert(path[0] == dir[0]);
            assert(path[0] != '/');
            assert(path[0] != '.');
        }
    }
    assert(without_empty_end(d, root) == without_empty_end(dir, root));
    assert(without_empty_end(dir, root) == dir);
}

proof fn lemma_name_has_no_slash(name: Seq<char>)
    requires
        !name.contains('/'),
    ensures
        forall|j: int| 0 <= j < name.len() ==> #[trigger] name[j] != '/',
{
    assert forall|j: int| 0 <= j < name.len() implies #[trigger] name[j] != '/' by {
        if name[j] == '/' {
            assert(name.contains('/'));
        }
    }
}

/// A name alone is in the top directory.
pub proof fn theorem_directory_of_name(name: Seq<char>)
    requires
        !name.contains('/'),
    ensures
        directory_of(name) == Seq::<char>::empty(),
{
    lemma_name_has_no_slash(name);
    let root = root_length(name);
    let p = without_empty_end(name, root);
    if name.len() > 0 {
        assert(name[0] != '/');
        assert(name[name.len() - 1] != '/');
        if name.len() > 1 {
            assert(name[1] != '/');
            assert(name[name.len() - 2] != '/');
        }
        assert(p == name);
        lemma_after_last_is(p, '/', 0);
        assert(p.take(0) =~= Seq::empty());
    }
}

/// The rules of a file are those of its lines: each line with a rule gives it, and no others are
/// there.
pub proof fn theorem_rules_come_from_lines(lines: Seq<Seq<char>>)
    ensures
        forall|p: PatternView| #[trigger]
            rules_in_lines(lines).contains(p) <==> exists|i: int|
                0 <= i < lines.len() && pattern_of_line(#[trigger] lines[i]) == Some(p),
    decreases lines.len(),
{
    if lines.len() > 0 {
        let before = lines.drop_last();
        let n = lines.len() - 1;
        theorem_rules_come_from_lines(before);
        let a = rules_in_lines(before);
        let all = rules_in_lines(lines);
        assert forall|p: PatternView| #[trigger]
            rules_in_lines(lines).contains(p) <==> exists|i: int|
                0 <= i < lines.len() && pattern_of_line(#[trigger] lines[i]) == Some(p) by {
            if a.contains(p) {
                let i = choose|i: int| 0 <= i < a.len() && a[i] == p;
                assert(all[i] == p);
                let j = choose|j: int|
                    0 <= j < before.len() && pattern_of_line(#[trigger] before[j]) == Some(p);
                assert(lines[j] == before[j]);
            }
            if pattern_of_line(lines[n]) == Some(p) {
                assert(all[a.len() as int] == p);
            }
            if all.contains(p) && !a.contains(p) {
                let i = choose|i: int| 0 <= i < all.len() && all[i] == p;
                if i < a.len() {
                    assert(a[i] == p);
                }
                assert(pattern_of_line(lines[n]) == Some(p));
            }
            if exists|i: int|
                0 <= i < lines.len() && pattern_of_line(#[trigger] lines[i]) == Some(p) {
                let i = choose|i: int|
                    0 <= i < lines.len() && pattern_of_line(#[trigger] lines[i]) == Some(p);
                if i < n {
                    assert(before[i] == lines[i]);
                    assert(a.contains(p));
                }
            }
        }
    }
}

/// The rules of lines come in the order of the lines: those of further lines come behind.
pub proof fn theorem_rules_keep_order(a: Seq<Seq<char>>, b: Seq<Seq<char>>)
    ensures
        rules_in_lines(a + b) == rules_in_lines(a) + rules_in_lines(b),
    decreases b.len(),
{
    if b.len() == 0 {
        assert(a + b =~= a);
        assert(rules_in_lines(a) + rules_in_lines(b) =~= rules_in_lines(a));
    } else {
        theorem_rules_keep_order(a, b.drop_last());
        assert((a + b).drop_last() =~= a + b.drop_last());
        assert(rules_in_lines(a + b) =~= rules_in_lines(a) + rules_in_lines(b));
    }
}

/// The rules of several files are those of each, one after the other.
pub proof fn theorem_rules_of_files_follow(a: Seq<Seq<char>>, b: Seq<Seq<char>>)
    ensures
        rules_in_files(a + b) == rules_in_files(a) + rules_in_files(b),
        forall|text: Seq<char>| #[trigger]
            rules_in_files(seq![text]) == rules_in_lines(lines_of(text)),
    decreases b.len(),
{
    if b.len() == 0 {
        assert(a + b =~= a);
        assert(rules_in_files(a) + rules_in_files(b) =~= rules_in_files(a));
    } else {
        theorem_rules_of_files_follow(a, b.drop_last());
        assert((a + b).drop_last() =~= a + b.drop_last());
        assert(rules_in_files(a + b) =~= rules_in_files(a) + rules_in_files(b));
    }
    assert forall|text: Seq<char>| #[trigger]
        rules_in_files(seq![text]) == rules_in_lines(lines_of(text)) by {
        let one = seq![text];
        assert(one.drop_last() =~= Seq::empty());
        assert(rules_in_files(one.drop_last()) =~= Seq::empty());
        assert(rules_in_files(one) =~= rules_in_lines(lines_of(text)));
    }
}

/// A directory has rules where one of the ignore files is in it, and they are those of the last
/// such file.
pub proof fn theorem_last_file_of_directory_counts(files: Seq<ScopedFile>, dir: Seq<char>, i: int)
    requires
        0 <= i < files.len(),
        files[i].directory@ == dir,
        forall|j: int| i < j < files.len() ==> (#[trigger] files[j]).directory@ != dir,
    ensures
        scoped_rules(files).contains_key(dir),
        scoped_rules(files)[dir] == rules_in_lines(lines_of(text_of_bytes(files[i].data@))),
{
    lemma_scoped_rules_at(files, dir, i);
}

/// A directory without an ignore file has no rules.
pub proof fn theorem_directory_without_file_has_no_rules(files: Seq<ScopedFile>, dir: Seq<char>)
    requires
        forall|j: int| 0 <= j < files.len() ==> (#[trigger] files[j]).directory@ != dir,
    ensures
        !scoped_rules(files).contains_key(dir),
{
    lemma_scoped_rules_missing(files, dir);
}

/// Of the patterns of a rule those stay that are valid, in their order.
pub proof fn theorem_valid_patterns(texts: Seq<Seq<char>>)
    ensures
        valid_patterns(texts) == texts.filter(|p: Seq<char>| glob_valid(p)),
        forall|p: Seq<char>| #[trigger]
            valid_patterns(texts).contains(p) <==> texts.contains(p) && glob_valid(p),
    decreases texts.len(),
{
    reveal(Seq::filter);
    if texts.len() > 0 {
        theorem_valid_patterns(texts.drop_last());
    }
    assert forall|p: Seq<char>| #[trigger]
        valid_patterns(texts).contains(p) <==> texts.contains(p) && glob_valid(p) by {
        lemma_filter_contains(texts, |p: Seq<char>| glob_valid(p), p);
    }
}

/// Of a text that starts with none of the marks, `!` in front makes the rule one about files
/// that are tracked, `/` one about paths from its directory on, both together both, and `\`
/// changes nothing.
pub proof fn theorem_marks_of_a_rule(text: Seq<char>, line: Seq<char>)
    requires
        text.len() > 0,
        text[0] != '#',
        text[0] != '!',
        text[0] != '/',
        text[0] != '\\',
    ensures
        trim(line) == text ==> rule_of_line(line) == Some(
            Rule { text, exclude: true, anchored: false },
        ),
        trim(line) == seq!['!'] + text ==> rule_of_line(line) == Some(
            Rule { text, exclude: false, anchored: false },
        ),
        trim(line) == seq!['/'] + text ==> rule_of_line(line) == Some(
            Rule { text, exclude: true, anchored: true },
        ),
        trim(line) == seq!['!', '/'] + text ==> rule_of_line(line) == Some(
            Rule { text, exclude: false, anchored: true },
        ),
        trim(line) == seq!['\\'] + text ==> rule_of_line(line) == Some(
            Rule { text, exclude: true, anchored: false },
        ),
{
    assert((seq!['!'] + text).skip(1) =~= text);
    assert((seq!['/'] + text).skip(1) =~= text);
    assert((seq!['\\'] + text).skip(1) =~= text);
    assert((seq!['!', '/'] + text).skip(2) =~= text);
}

/// An empty line and a comment hold no rule; with `\` in front a rule can start with any
/// character, also with a mark.
pub proof fn theorem_lines_without_rules(text: Seq<char>, line: Seq<char>)
    ensures
        trim(line).len() == 0 ==> pattern_of_line(line) is None,
        trim(line) == seq!['#'] + text ==> pattern_of_line(line) is None,
        trim(line) == seq!['\\'] + text ==> rule_of_line(line) == Some(
            Rule { text, exclude: true, anchored: false },
        ),
{
    assert((seq!['\\'] + text).skip(1) =~= text);
}

/// The patterns of a rule are its text and everything below it, and, unless the rule is anchored or
/// has a slash before its end, the same in any directory: all of these and no others.
pub proof fn theorem_patterns_of_a_rule(rule: Rule, p: Seq<char>)
    ensures
        rule_patterns(rule).contains(p) <==> p == rule.text || p == rule.text + "/**"@ || ((
        !rule.anchored && (forall|i: int|
            0 <= i < rule.text.len() - 1 ==> #[trigger] rule.text[i] != '/')) && (p == "**/"@
            + rule.text || p == "**/"@ + rule.text + "/**"@)),
{
    let all = rule_patterns(rule);
    let t = rule.text;
    let free = !(rule.anchored || has_inner_slash(t));
    assert(all[0] == t);
    assert(all[1] == t + "/**"@);
    if free {
        assert(all[2] == "**/"@ + t);
        assert(all[3] == "**/"@ + t + "/**"@);
    }
    if all.contains(p) {
        let i = choose|i: int| 0 <= i < all.len() && all[i] == p;
        assert(i == 0 || i == 1 || i == 2 || i == 3);
    }
}

/// A rule says what it is for of the paths that one of its patterns matches, and nothing of other
/// paths; each of some rules is asked by itself.
pub proof fn theorem_what_rules_say(rules: Seq<PatternView>, path: Seq<char>, i: int, b: bool)
    requires
        0 <= i < rules.len(),
    ensures
        all_say(rules, path).len() == rules.len(),
        all_say(rules, path)[i] == Some(b) <==> rules[i].exclude == b && exists|k: int|
            0 <= k < rules[i].patterns.len() && glob_match(#[trigger] rules[i].patterns[k], path),
        all_say(rules, path)[i] is None <==> forall|k: int|
            0 <= k < rules[i].patterns.len() ==> !glob_match(#[trigger] rules[i].patterns[k], path),
{
}

/// A slash at the end of a path, and a component `.` there, do not change the directory that it is
/// in.
pub proof fn theorem_empty_components_do_not_count(path: Seq<char>)
    requires
        path.len() > 0,
    ensures
        directory_of(path + seq!['/']) == directory_of(path),
        directory_of(path + seq!['/', '.']) == directory_of(path),
{
    let a = path + seq!['/'];
    let b = path + seq!['/', '.'];
    let root = root_length(path);
    assert(a[0] == path[0] && b[0] == path[0]);
    if path.len() > 1 {
        assert(a[1] == path[1] && b[1] == path[1]);
    } else {
        assert(a[1] == '/' && b[1] == '/');
    }
    assert(root_length(a) == root && root_length(b) == root);
    assert(a.drop_last() =~= path);
    assert(b.drop_last() =~= a);
    assert(a.last() == '/');
    assert(b.last() == '.');
    assert(b[b.len() - 2] == '/');
    assert(without_empty_end(a, root) == without_empty_end(path, root));
    assert(without_empty_end(b, root) == without_empty_end(a, root));
}

} // verus!
