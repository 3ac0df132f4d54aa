//! Rules about files that are not to be tracked.

use vstd::prelude::*;
use vstd::slice::slice_subrange;

use crate::helpers::MapOfVecs;
use crate::interop::{glob_is_valid, glob_match, glob_matches, glob_valid, lossy_string, text_of_bytes};
use crate::text::{
    after_last, chars_of, concat_texts, find_after_last, lemma_after_last, lines_of, split_lines,
    string_of, texts, trim, trim_chars,
};

pub mod laws;

verus! {

broadcast use vstd::string::group_string_axioms;

/// A line of an ignore file holds no rule: it is empty or a comment.
#[derive(Debug)]
pub struct EmptyIgnorePattern {}

impl EmptyIgnorePattern {
    /// The error as a message.
    pub fn message(&self) -> (r: String)
        ensures
            r@ == "empty ignore pattern"@,
    {
        "empty ignore pattern".to_string()
    }
}

/// A rule as it is written in a line.
pub struct Rule {
    /// What follows the marks in front.
    pub text: Seq<char>,
    /// Whether matching files are ignored.
    pub exclude: bool,
    /// Whether the rule is only about paths from the directory of the file on.
    pub anchored: bool,
}

/// The rule in a line, if it holds one: `!` in front makes it one about files that are tracked,
/// `/` one about paths from the directory of the file on, and `\` lets it start with any
/// character.
pub open spec fn rule_of_line(line: Seq<char>) -> Option<Rule> {
    let t = trim(line);
    if t.len() == 0 || t[0] == '#' {
        None
    } else if t.len() > 1 && t[0] == '!' && t[1] == '/' {
        Some(Rule { text: t.skip(2), exclude: false, anchored: true })
    } else if t[0] == '!' {
        Some(Rule { text: t.skip(1), exclude: false, anchored: false })
    } else if t[0] == '/' {
        Some(Rule { text: t.skip(1), exclude: true, anchored: true })
    } else if t[0] == '\\' {
        Some(Rule { text: t.skip(1), exclude: true, anchored: false })
    } else {
        Some(Rule { text: t, exclude: true, anchored: false })
    }
}

/// Whether a text holds a `/` before its last character.
pub open spec fn has_inner_slash(text: Seq<char>) -> bool {
    exists|i: int| 0 <= i < text.len() - 1 && #[trigger] text[i] == '/'
}

/// The patterns that a rule stands for: the path itself and everything below it, and unless the
/// rule is only about paths from its directory on, the same in any directory.
pub open spec fn rule_patterns(rule: Rule) -> Seq<Seq<char>> {
    let here = seq![rule.text, rule.text + "/**"@];
    if rule.anchored || has_inner_slash(rule.text) {
        here
    } else {
        here + seq!["**/"@ + rule.text, "**/"@ + rule.text + "/**"@]
    }
}

/// Those texts that are valid patterns.
pub open spec fn valid_patterns(texts: Seq<Seq<char>>) -> Seq<Seq<char>>
    decreases texts.len(),
{
    if texts.len() == 0 {
        Seq::empty()
    } else {
        let before = valid_patterns(texts.drop_last());
        if glob_valid(texts.last()) {
            before.push(texts.last())
        } else {
            before
        }
    }
}

/// A rule from a line of an ignore file.
pub struct IgnorePattern {
    /// The patterns that the rule stands for.
    pub patterns: Vec<String>,
    /// Whether matching files are ignored.
    pub exclude: bool,
}

/// What a rule is.
pub struct PatternView {
    /// The patterns.
    pub patterns: Seq<Seq<char>>,
    /// Whether matching files are ignored.
    pub exclude: bool,
}

impl View for IgnorePattern {
    type V = PatternView;

    open spec fn view(&self) -> PatternView {
        PatternView { patterns: texts(self.patterns@), exclude: self.exclude }
    }
}

/// The rule in a line, with its patterns.
pub open spec fn pattern_of_line(line: Seq<char>) -> Option<PatternView> {
    match rule_of_line(line) {
        Some(rule) => Some(
            PatternView {
                patterns: valid_patterns(rule_patterns(rule)),
                exclude: rule.exclude,
            },
        ),
        None => None,
    }
}

/// Whether a path matches one of some patterns.
pub open spec fn some_match(patterns: Seq<Seq<char>>, path: Seq<char>) -> bool {
    exists|i: int| 0 <= i < patterns.len() && glob_match(#[trigger] patterns[i], path)
}

/// What a rule says of a path: whether it is ignored, or nothing.
pub open spec fn pattern_says(p: PatternView, path: Seq<char>) -> Option<bool> {
    if some_match(p.patterns, path) {
        Some(p.exclude)
    } else {
        None
    }
}

/// What rules are.
pub open spec fn pattern_views(s: Seq<IgnorePattern>) -> Seq<PatternView> {
    s.map_values(|p: IgnorePattern| p@)
}

/// What each of some rules says of a path.
pub open spec fn all_say(rules: Seq<PatternView>, path: Seq<char>) -> Seq<Option<bool>> {
    rules.map_values(|p: PatternView| pattern_says(p, path))
}

/// What the last rule says that says anything.
pub open spec fn last_word(said: Seq<Option<bool>>) -> Option<bool>
    decreases said.len(),
{
    if said.len() == 0 {
        None
    } else if said.last() is Some {
        said.last()
    } else {
        last_word(said.drop_last())
    }
}

/// What the first rule says that says anything.
pub open spec fn first_word(said: Seq<Option<bool>>) -> Option<bool>
    decreases said.len(),
{
    if said.len() == 0 {
        None
    } else if said[0] is Some {
        said[0]
    } else {
        first_word(said.drop_first())
    }
}

/// What the last rule says that says anything.
pub fn last_decision(said: &[Option<bool>]) -> (r: Option<bool>)
    ensures
        r == last_word(said@),
{
    let mut i: usize = said.len();
    assert(said@.take(i as int) =~= said@);
    while i > 0
        invariant
            i <= said@.len(),
            last_word(said@) == last_word(said@.take(i as int)),
        decreases i,
    {
        let ghost part = said@.take(i as int);
        assert(part.drop_last() =~= said@.take(i - 1));
        assert(part.last() == said@[i - 1]);
        if said[i - 1].is_some() {
            return said[i - 1];
        }
        i = i - 1;
    }
    None
}

/// What the first rule says that says anything.
pub fn first_decision(said: &[Option<bool>]) -> (r: Option<bool>)
    ensures
        r == first_word(said@),
{
    let mut i: usize = 0;
    assert(said@.skip(0) =~= said@);
    while i < said.len()
        invariant
            i <= said@.len(),
            first_word(said@) == first_word(said@.skip(i as int)),
        decreases said@.len() - i,
    {
        let ghost part = said@.skip(i as int);
        assert(part.drop_first() =~= said@.skip(i + 1));
        assert(part[0] == said@[i as int]);
        if said[i].is_some() {
            return said[i];
        }
        i = i + 1;
    }
    None
}

/// The patterns that a rule stands for, whether or not they are valid.
pub fn candidate_patterns(text: &str, anchored: bool) -> (r: Vec<String>)
    ensures
        forall|exclude: bool| texts(r@) == rule_patterns((Rule { text: text@, exclude, anchored })),
{
    let mut out: Vec<String> = Vec::new();
    out.push(text.to_string());
    out.push(concat_texts(text, "/**"));
    let ghost here = seq![text@, text@ + "/**"@];
    assert(texts(out@) =~= here);
    if anchored || inner_slash(text) {
        return out;
    }
    let anywhere = concat_texts("**/", text);
    out.push(anywhere.clone());
    out.push(concat_texts(anywhere.as_str(), "/**"));
    assert(texts(out@) =~= here + seq!["**/"@ + text@, "**/"@ + text@ + "/**"@]);
    out
}

fn inner_slash(text: &str) -> (r: bool)
    ensures
        r == has_inner_slash(text@),
{
    let cs = chars_of(text);
    if cs.len() == 0 {
        return false;
    }
    let end: usize = cs.len() - 1;
    let mut i: usize = 0;
    while i < end
        invariant
            cs@ == text@,
            end == cs@.len() - 1,
            i <= end,
            forall|j: int| 0 <= j < i ==> #[trigger] text@[j] != '/',
        decreases end - i,
    {
        if cs[i] == '/' {
            assert(text@[i as int] == '/');
            return true;
        }
        i = i + 1;
    }
    false
}

impl IgnorePattern {
    /// The rule in a line; an error for a line without one.
    pub fn from_str(s: &str) -> (r: Result<Self, EmptyIgnorePattern>)
        ensures
            match r {
                Ok(p) => pattern_of_line(s@) == Some(p@),
                Err(_) => pattern_of_line(s@) is None,
            },
    {
        let all = chars_of(s);
        let cs = trim_chars(&all);
        let n: usize = cs.len();
        if n == 0 || cs[0] == '#' {
            return Err(EmptyIgnorePattern {  });
        }
        let (skip, exclude, anchored): (usize, bool, bool) = if n > 1 && cs[0] == '!' && cs[1]
            == '/' {
            (2, false, true)
        } else if cs[0] == '!' {
            (1, false, false)
        } else if cs[0] == '/' {
            (1, true, true)
        } else if cs[0] == '\\' {
            (1, true, false)
        } else {
            (0, true, false)
        };
        let rest = slice_subrange(cs, skip, n);
        assert(rest@ =~= cs@.skip(skip as int));
        assert(cs@.skip(0) =~= cs@);
        let text = string_of(rest);
        let candidates = candidate_patterns(text.as_str(), anchored);
        assert(texts(candidates@) == rule_patterns((Rule { text: text@, exclude, anchored })));
        Ok(IgnorePattern { patterns: IgnorePattern::keep_valid(candidates.as_slice()), exclude })
    }

    /// Those texts that are valid patterns.
    fn keep_valid(candidates: &[String]) -> (r: Vec<String>)
        ensures
            texts(r@) == valid_patterns(texts(candidates@)),
    {
        let ghost all = texts(candidates@);
        let mut out: Vec<String> = Vec::new();
        let mut i: usize = 0;
        assert(all.take(0) =~= Seq::empty());
        assert(texts(out@) =~= Seq::empty());
        while i < candidates.len()
            invariant
                i <= candidates@.len(),
                all == texts(candidates@),
                texts(out@) == valid_patterns(all.take(i as int)),
            decreases candidates@.len() - i,
        {
            let ghost before = texts(out@);
            assert(all.take(i + 1).drop_last() =~= all.take(i as int));
            assert(all.take(i + 1).last() == candidates@[i as int]@);
            if glob_is_valid(candidates[i].as_str()) {
                out.push(candidates[i].clone());
                assert(texts(out@) =~= before.push(candidates@[i as int]@));
            }
            i = i + 1;
        }
        assert(all.take(i as int) =~= all);
        out
    }

    /// What the rule says of a path: whether it is ignored, or nothing.
    pub fn matches(&self, path: &str) -> (r: Option<bool>)
        ensures
            r == pattern_says(self@, path@),
    {
        let mut i: usize = 0;
        let ghost all = texts(self.patterns@);
        while i < self.patterns.len()
            invariant
                i <= self.patterns@.len(),
                all == texts(self.patterns@),
                forall|j: int| 0 <= j < i ==> !glob_match(#[trigger] all[j], path@),
            decreases self.patterns@.len() - i,
        {
            assert(all[i as int] == self.patterns@[i as int]@);
            if glob_matches(self.patterns[i].as_str(), path) {
                return Some(self.exclude);
            }
            i = i + 1;
        }
        None
    }

    fn what_all_say(rules: &[IgnorePattern], path: &str) -> (r: Vec<Option<bool>>)
        ensures
            r@ == all_say(pattern_views(rules@), path@),
    {
        let mut out: Vec<Option<bool>> = Vec::new();
        let mut i: usize = 0;
        while i < rules.len()
            invariant
                i <= rules@.len(),
                out@.len() == i,
                forall|j: int| 0 <= j < i ==> #[trigger] out@[j] == pattern_says(rules@[j]@, path@),
            decreases rules@.len() - i,
        {
            out.push(rules[i].matches(path));
            i = i + 1;
        }
        assert(out@ =~= all_say(pattern_views(rules@), path@));
        out
    }

    /// What the last of some rules says of a path that says anything.
    pub fn matches_set(rules: &[IgnorePattern], text: &str) -> (r: Option<bool>)
        ensures
            r == last_word(all_say(pattern_views(rules@), text@)),
    {
        let said = IgnorePattern::what_all_say(rules, text);
        last_decision(said.as_slice())
    }
}

/// The rules in the lines of a file.
pub open spec fn rules_in_lines(lines: Seq<Seq<char>>) -> Seq<PatternView>
    decreases lines.len(),
{
    if lines.len() == 0 {
        Seq::empty()
    } else {
        let before = rules_in_lines(lines.drop_last());
        match pattern_of_line(lines.last()) {
            Some(p) => before.push(p),
            None => before,
        }
    }
}

/// The rules in the contents of a file.
pub fn read_ignore_rules(contents: &str) -> (r: Vec<IgnorePattern>)
    ensures
        pattern_views(r@) == rules_in_lines(lines_of(contents@)),
{
    let cs = chars_of(contents);
    let lines = split_lines(&cs);
    let ghost all = lines_of(contents@);
    let mut out: Vec<IgnorePattern> = Vec::new();
    let mut i: usize = 0;
    assert(all.take(0) =~= Seq::empty());
    assert(pattern_views(out@) =~= Seq::empty());
    while i < lines.len()
        invariant
            i <= lines@.len(),
            all == texts(lines@),
            pattern_views(out@) == rules_in_lines(all.take(i as int)),
        decreases lines@.len() - i,
    {
        let ghost before = pattern_views(out@);
        assert(all.take(i + 1).drop_last() =~= all.take(i as int));
        assert(all.take(i + 1).last() == lines@[i as int]@);
        if let Ok(p) = IgnorePattern::from_str(lines[i].as_str()) {
            out.push(p);
            assert(pattern_views(out@) =~= before.push(p@));
        }
        i = i + 1;
    }
    assert(all.take(i as int) =~= all);
    out
}

/// The length of the part of a path that stands for itself: the `/` of an absolute path, or the
/// component `.` at the start of a relative one.
pub open spec fn root_length(s: Seq<char>) -> int {
    if s.len() > 0 && (s[0] == '/' || (s[0] == '.' && (s.len() == 1 || s[1] == '/'))) {
        1
    } else {
        0
    }
}

/// A path without the slashes and the components `.` at its end, behind a length that stays.
pub open spec fn without_empty_end(s: Seq<char>, root: int) -> Seq<char>
    decreases s.len(),
{
    if s.len() <= root || s.len() == 0 {
        s
    } else if s.last() == '/' || (s.last() == '.' && s.len() > 1 && s[s.len() - 2] == '/') {
        without_empty_end(s.drop_last(), root)
    } else {
        s
    }
}

/// The directory that a path is in: what comes before its last component, where repeated slashes
/// and components `.` do not count; nothing where there is no other component.
pub open spec fn directory_of(path: Seq<char>) -> Seq<char> {
    let root = root_length(path);
    let p = without_empty_end(path, root);
    if p.len() <= root {
        Seq::empty()
    } else {
        without_empty_end(p.take(after_last(p, '/')), root)
    }
}

proof fn lemma_without_empty_end(s: Seq<char>, root: int)
    requires
        root >= 0,
    ensures
        without_empty_end(s, root).len() <= s.len(),
        without_empty_end(s, root).len() > root ==> without_empty_end(s, root).last() != '/',
    decreases s.len(),
{
    if s.len() > root && (s.last() == '/' || (s.last() == '.' && s.len() > 1 && s[s.len() - 2]
        == '/')) {
        lemma_without_empty_end(s.drop_last(), root);
    }
}

pub(crate) proof fn lemma_directory_shorter(path: Seq<char>)
    ensures
        path.len() > 0 ==> directory_of(path).len() < path.len(),
        path.len() == 0 ==> directory_of(path).len() == 0,
{
    let root = root_length(path);
    let p = without_empty_end(path, root);
    lemma_without_empty_end(path, root);
    lemma_after_last(p, '/');
    let d = p.take(after_last(p, '/'));
    lemma_without_empty_end(d, root);
}

fn cut_empty_end<'a>(cs: &'a [char], root: usize) -> (r: &'a [char])
    ensures
        r@ == without_empty_end(cs@, root as int),
{
    let mut n: usize = cs.len();
    assert(cs@.take(n as int) =~= cs@);
    while n > root && (cs[n - 1] == '/' || (cs[n - 1] == '.' && n > 1 && cs[n - 2] == '/'))
        invariant
            n <= cs@.len(),
            without_empty_end(cs@, root as int) == without_empty_end(cs@.take(n as int), root as int),
        decreases n,
    {
        assert(cs@.take(n as int).drop_last() =~= cs@.take(n - 1));
        n = n - 1;
    }
    let r = slice_subrange(cs, 0, n);
    assert(r@ =~= cs@.take(n as int));
    r
}

/// The directory that a path is in.
pub fn directory_of_path(path: &str) -> (r: String)
    ensures
        r@ == directory_of(path@),
{
    let cs = chars_of(path);
    let root: usize = if cs.len() > 0 && (cs[0] == '/' || (cs[0] == '.' && (cs.len() == 1 || cs[1]
        == '/'))) {
        1
    } else {
        0
    };
    let p = cut_empty_end(&cs, root);
    if p.len() <= root {
        proof {
            reveal_strlit("");
            assert(""@ =~= Seq::empty());
        }
        return "".to_string();
    }
    let i: usize = find_after_last(p, '/');
    let d = slice_subrange(p, 0, i);
    assert(d@ =~= p@.take(i as int));
    string_of(cut_empty_end(d, root))
}

/// The rules of a directory about a path, and where they say nothing those of the directories
/// above it.
pub open spec fn scoped_word(
    scoped: Map<Seq<char>, Seq<IgnorePattern>>,
    path: Seq<char>,
    scope: Seq<char>,
) -> Option<bool>
    decreases scope.len(),
{
    let here = if scoped.contains_key(scope) {
        last_word(all_say(pattern_views(scoped[scope]), path))
    } else {
        None
    };
    if here is Some || directory_of(scope).len() >= scope.len() {
        here
    } else {
        scoped_word(scoped, path, directory_of(scope))
    }
}

/// The rules of a repository about files that are not to be tracked.
pub struct IgnoreInfo {
    /// The rules about all files.
    pub absolute: Vec<IgnorePattern>,
    /// The rules about the files in directories.
    pub scoped: MapOfVecs<IgnorePattern>,
}

/// Whether a path is ignored: the rules of directories decide, and where they say nothing those
/// about all files.
pub open spec fn is_ignored(info: IgnoreInfo, path: Seq<char>) -> bool {
    match scoped_word(info.scoped@, path, directory_of(path)) {
        Some(b) => b,
        None => first_word(all_say(pattern_views(info.absolute@), path)) == Some(true),
    }
}

/// An ignore file in the repository.
pub struct ScopedFile {
    /// The directory that it is in.
    pub directory: String,
    /// Its contents.
    pub data: Vec<u8>,
}

/// The rules of each directory with an ignore file; of two files in the same one the last one
/// counts.
pub open spec fn scoped_rules(files: Seq<ScopedFile>) -> Map<Seq<char>, Seq<PatternView>>
    decreases files.len(),
{
    if files.len() == 0 {
        Map::empty()
    } else {
        let file = files.last();
        scoped_rules(files.drop_last()).insert(
            file.directory@,
            rules_in_lines(lines_of(text_of_bytes(file.data@))),
        )
    }
}

impl IgnoreInfo {
    /// Each directory has its rules once.
    pub open spec fn wf(&self) -> bool {
        self.scoped.wf()
    }

    /// The given rules.
    pub fn new(absolute: Vec<IgnorePattern>, scoped: MapOfVecs<IgnorePattern>) -> (r: Self)
        ensures
            r.absolute == absolute,
            r.scoped == scoped,
    {
        IgnoreInfo { absolute, scoped }
    }

    /// What the rules of directories say of a path.
    pub fn check_scoped(&self, path: &str) -> (r: Option<bool>)
        requires
            self.wf(),
        ensures
            r == scoped_word(self.scoped@, path@, directory_of(path@)),
    {
        let mut scope = directory_of_path(path);
        loop
            invariant
                self.wf(),
                scoped_word(self.scoped@, path@, directory_of(path@)) == scoped_word(
                    self.scoped@,
                    path@,
                    scope@,
                ),
            decreases scope@.len(),
        {
            proof {
                lemma_directory_shorter(scope@);
            }
            if let Some(rules) = self.scoped.get(scope.as_str()) {
                let result = IgnorePattern::matches_set(rules.as_slice(), path);
                if result.is_some() {
                    return result;
                }
            }
            if scope.as_str().is_empty() {
                return None;
            }
            scope = directory_of_path(scope.as_str());
        }
    }

    /// What the rules about all files say of a path: it is tracked unless they say otherwise.
    pub fn check_absolute(&self, path: &str) -> (r: bool)
        ensures
            r == (first_word(all_say(pattern_views(self.absolute@), path@)) == Some(true)),
    {
        let said = IgnorePattern::what_all_say(self.absolute.as_slice(), path);
        match first_decision(said.as_slice()) {
            Some(b) => b,
            None => false,
        }
    }

    /// Whether a path is ignored: the rules of directories decide, and where they say nothing
    /// those about all files.
    pub fn check(&self, path: &str) -> (r: bool)
        requires
            self.wf(),
        ensures
            r == is_ignored(*self, path@),
    {
        match self.check_scoped(path) {
            Some(b) => b,
            None => self.check_absolute(path),
        }
    }
}

/// The rules in the contents of some files, one after the other.
pub open spec fn rules_in_files(contents: Seq<Seq<char>>) -> Seq<PatternView>
    decreases contents.len(),
{
    if contents.len() == 0 {
        Seq::empty()
    } else {
        rules_in_files(contents.drop_last()) + rules_in_lines(lines_of(contents.last()))
    }
}

pub(crate) proof fn lemma_scoped_rules_at(files: Seq<ScopedFile>, dir: Seq<char>, i: int)
    requires
        0 <= i < files.len(),
        files[i].directory@ == dir,
        forall|j: int| i < j < files.len() ==> (#[trigger] files[j]).directory@ != dir,
    ensures
        scoped_rules(files).contains_key(dir),
        scoped_rules(files)[dir] == rules_in_lines(lines_of(text_of_bytes(files[i].data@))),
    decreases files.len(),
{
    if i < files.len() - 1 {
        let before = files.drop_last();
        assert(files[files.len() - 1].directory@ != dir);
        assert forall|j: int| i < j < before.len() implies (#[trigger] before[j]).directory@
            != dir by {
            assert(files[j].directory@ != dir);
        }
        lemma_scoped_rules_at(before, dir, i);
    }
}

pub(crate) proof fn lemma_scoped_rules_missing(files: Seq<ScopedFile>, dir: Seq<char>)
    requires
        forall|j: int| 0 <= j < files.len() ==> (#[trigger] files[j]).directory@ != dir,
    ensures
        !scoped_rules(files).contains_key(dir),
    decreases files.len(),
{
    if files.len() > 0 {
        let before = files.drop_last();
        assert(files[files.len() - 1].directory@ != dir);
        assert forall|j: int| 0 <= j < before.len() implies (#[trigger] before[j]).directory@
            != dir by {
            assert(files[j].directory@ != dir);
        }
        lemma_scoped_rules_missing(before, dir);
    }
}

/// Whether a file of a list, from an index on, is the last one in a directory.
spec fn is_last_in(files: Seq<ScopedFile>, dir: Seq<char>, from: int, k: int) -> bool {
    &&& from <= k < files.len()
    &&& files[k].directory@ == dir
    &&& forall|j: int| k < j < files.len() ==> (#[trigger] files[j]).directory@ != dir
}

impl IgnoreInfo {
    /// The rules in files: those in the contents of some about all files, and those in ignore
    /// files about the files in their directories.
    pub fn from_files(absolute_rule_files: &[String], scoped_files: &[ScopedFile]) -> (r: Self)
        ensures
            r.wf(),
            pattern_views(r.absolute@) == rules_in_files(texts(absolute_rule_files@)),
            forall|dir: Seq<char>| #[trigger]
                r.scoped@.contains_key(dir) <==> scoped_rules(scoped_files@).contains_key(dir),
            forall|dir: Seq<char>| #[trigger]
                r.scoped@.contains_key(dir) ==> pattern_views(r.scoped@[dir]) == scoped_rules(
                    scoped_files@,
                )[dir],
    {
        let mut absolute: Vec<IgnorePattern> = Vec::new();
        let ghost contents = texts(absolute_rule_files@);
        let mut i: usize = 0;
        assert(contents.take(0) =~= Seq::empty());
        assert(pattern_views(absolute@) =~= Seq::empty());
        while i < absolute_rule_files.len()
            invariant
                i <= absolute_rule_files@.len(),
                contents == texts(absolute_rule_files@),
                pattern_views(absolute@) == rules_in_files(contents.take(i as int)),
            decreases absolute_rule_files@.len() - i,
        {
            let ghost before = absolute@;
            let mut rules = read_ignore_rules(absolute_rule_files[i].as_str());
            let ghost new = rules@;
            proof {
                assert(contents.take(i + 1).drop_last() =~= contents.take(i as int));
                assert(contents.take(i + 1).last() == absolute_rule_files@[i as int]@);
                assert(pattern_views(before + new) =~= pattern_views(before) + pattern_views(new));
            }
            absolute.append(&mut rules);
            i = i + 1;
        }
        assert(contents.take(i as int) =~= contents);
        let scoped = IgnoreInfo::scoped_from_files(scoped_files);
        IgnoreInfo { absolute, scoped }
    }

    fn scoped_from_files(files: &[ScopedFile]) -> (map: MapOfVecs<IgnorePattern>)
        ensures
            map.wf(),
            forall|dir: Seq<char>| #[trigger]
                map@.contains_key(dir) <==> scoped_rules(files@).contains_key(dir),
            forall|dir: Seq<char>| #[trigger]
                map@.contains_key(dir) ==> pattern_views(map@[dir]) == scoped_rules(files@)[dir],
    {
        let mut map: MapOfVecs<IgnorePattern> = MapOfVecs::new();
        let mut k: usize = files.len();
        while k > 0
            invariant
                k <= files@.len(),
                map.wf(),
                forall|dir: Seq<char>| #[trigger]
                    map@.contains_key(dir) <==> exists|j: int| is_last_in(files@, dir, k as int, j),
                forall|dir: Seq<char>| #[trigger]
                    map@.contains_key(dir) ==> scoped_rules(files@).contains_key(dir)
                        && pattern_views(map@[dir]) == scoped_rules(files@)[dir],
            decreases k,
        {
            let ghost before = map@;
            let ghost old_k = k as int;
            k = k - 1;
            let text = lossy_string(files[k].data.as_slice());
            let rules = read_ignore_rules(text.as_str());
            let ghost name = files@[k as int].directory@;
            map.insert_missing(files[k].directory.as_str(), rules);
            proof {
                if !before.contains_key(name) {
                    assert forall|j: int| k < j < files@.len() implies (
                    #[trigger] files@[j]).directory@ != name by {
                        if files@[j].directory@ == name {
                            lemma_last_exists(files@, name, old_k, j);
                        }
                    }
                    lemma_scoped_rules_at(files@, name, k as int);
                    assert(is_last_in(files@, name, k as int, k as int));
                }
                assert forall|dir: Seq<char>| #[trigger]
                    map@.contains_key(dir) <==> exists|j: int|
                        is_last_in(files@, dir, k as int, j) by {
                    if before.contains_key(dir) {
                        let j = choose|j: int| is_last_in(files@, dir, old_k, j);
                        assert(is_last_in(files@, dir, k as int, j));
                    }
                    if exists|j: int| is_last_in(files@, dir, k as int, j) {
                        let j = choose|j: int| is_last_in(files@, dir, k as int, j);
                        if j > k {
                            assert(is_last_in(files@, dir, old_k, j));
                        }
                    }
                }
            }
        }
        proof {
            assert forall|dir: Seq<char>| #[trigger]
                map@.contains_key(dir) <==> scoped_rules(files@).contains_key(dir) by {
                if !map@.contains_key(dir) {
                    assert forall|j: int| 0 <= j < files@.len() implies (
                    #[trigger] files@[j]).directory@ != dir by {
                        if files@[j].directory@ == dir {
                            lemma_last_exists(files@, dir, 0, j);
                        }
                    }
                    lemma_scoped_rules_missing(files@, dir);
                }
            }
        }
        map
    }
}

proof fn lemma_last_exists(files: Seq<ScopedFile>, dir: Seq<char>, from: int, i: int)
    requires
        0 <= from <= i < files.len(),
        files[i].directory@ == dir,
    ensures
        exists|k: int| is_last_in(files, dir, from, k),
    decreases files.len() - i,
{
    if forall|j: int| i < j < files.len() ==> (#[trigger] files[j]).directory@ != dir {
        assert(is_last_in(files, dir, from, i));
    } else {
        let j = choose|j: int| i < j < files.len() && (#[trigger] files[j]).directory@ == dir;
        lemma_last_exists(files, dir, from, j);
    }
}

/// What the rules of the directory that a path is in say of it counts, whatever those of other
/// directories and those about all files say.
pub proof fn theorem_nearest_rules_count(info: IgnoreInfo, path: Seq<char>, b: bool)
    requires
        info.scoped@.contains_key(directory_of(path)),
        last_word(all_say(pattern_views(info.scoped@[directory_of(path)]), path)) == Some(b),
    ensures
        is_ignored(info, path) == b,
{
}

/// A rule that says something of a path counts for more than those before it.
pub proof fn theorem_last_rule_counts(
    rules: Seq<PatternView>,
    more: PatternView,
    path: Seq<char>,
)
    ensures
        last_word(all_say(rules.push(more), path)) == match pattern_says(more, path) {
            Some(b) => Some(b),
            None => last_word(all_say(rules, path)),
        },
{
    let said = all_say(rules.push(more), path);
    assert(said.drop_last() =~= all_say(rules, path));
    assert(said.last() == pattern_says(more, path));
}

} // verus!
