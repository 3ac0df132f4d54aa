//! Character sequences: searching, splitting, trimming, and number formats.
//!
//! Strings are modelled by the sequence of their characters.  Functions that walk a
//! string work on a slice of characters taken from it with [`chars_of`].

use vstd::prelude::*;
use vstd::slice::slice_subrange;

pub mod laws;

verus! {

broadcast use vstd::string::group_string_axioms;

/// `std::string::String::push` appends one character to the string.
pub assume_specification[ String::push ](s: &mut String, c: char)
    ensures
        final(s)@ == old(s)@.push(c),
;

/// The characters of each string of a sequence.
pub open spec fn texts(v: Seq<String>) -> Seq<Seq<char>> {
    Seq::new(v.len(), |i: int| v[i]@)
}

/// The characters of an optional string.
pub open spec fn opt_text(o: Option<String>) -> Option<Seq<char>> {
    match o {
        Some(s) => Some(s@),
        None => None,
    }
}

/// The characters of an optional string slice.
pub open spec fn opt_str(o: Option<&str>) -> Option<Seq<char>> {
    match o {
        Some(s) => Some(s@),
        None => None,
    }
}

/// The characters of a string, as a vector.
pub fn chars_of(s: &str) -> (r: Vec<char>)
    ensures
        r@ == s@,
{
    let mut out: Vec<char> = Vec::new();
    for c in it: s.chars()
        invariant
            out@ == s@.take(it.index()),
            it.seq() == s@,
    {
        out.push(c);
        assert(s@.take(it.index() + 1) =~= s@.take(it.index()).push(c));
    }
    assert(s@.take(s@.len() as int) =~= s@);
    out
}

/// The string made of the given characters.
pub fn string_of(cs: &[char]) -> (r: String)
    ensures
        r@ == cs@,
{
    let mut out = String::new();
    let mut i: usize = 0;
    assert(cs@.take(0) =~= Seq::<char>::empty());
    while i < cs.len()
        invariant
            i <= cs@.len(),
            out@ == cs@.take(i as int),
        decreases cs@.len() - i,
    {
        out.push(cs[i]);
        assert(cs@.take(i as int + 1) =~= cs@.take(i as int).push(cs@[i as int]));
        i = i + 1;
    }
    assert(cs@.take(cs@.len() as int) =~= cs@);
    out
}

/// The index of the first `x` at or after `from`, or the length where there is none.
pub open spec fn first_index<T>(s: Seq<T>, x: T, from: int) -> int
    decreases s.len() - from,
{
    if from < 0 || from >= s.len() {
        s.len() as int
    } else if s[from] == x {
        from
    } else {
        first_index(s, x, from + 1)
    }
}

/// What [`first_index`] returns: nothing equal to `x` stands before it, and `x` stands
/// at it unless it is the length.
pub proof fn lemma_first_index<T>(s: Seq<T>, x: T, from: int)
    requires
        0 <= from <= s.len(),
    ensures
        from <= first_index(s, x, from) <= s.len(),
        first_index(s, x, from) < s.len() ==> s[first_index(s, x, from)] == x,
        forall|j: int| from <= j < first_index(s, x, from) ==> s[j] != x,
    decreases s.len() - from,
{
    if from < s.len() && s[from] != x {
        lemma_first_index(s, x, from + 1);
    }
}

/// An index with those properties is the one [`first_index`] returns.
pub proof fn lemma_first_index_is<T>(s: Seq<T>, x: T, from: int, i: int)
    requires
        0 <= from <= i <= s.len(),
        i < s.len() ==> s[i] == x,
        forall|j: int| from <= j < i ==> s[j] != x,
    ensures
        first_index(s, x, from) == i,
    decreases i - from,
{
    if from < i {
        lemma_first_index_is(s, x, from + 1, i);
    }
}

/// The index of the first `c` at or after `from`, or the length where there is none.
pub fn find_char(cs: &[char], c: char, from: usize) -> (r: usize)
    requires
        from <= cs@.len(),
    ensures
        r == first_index(cs@, c, from as int),
        from <= r <= cs@.len(),
        r < cs@.len() ==> cs@[r as int] == c,
        forall|j: int| from <= j < r ==> cs@[j] != c,
{
    let mut i: usize = from;
    while i < cs.len() && cs[i] != c
        invariant
            from <= i <= cs@.len(),
            forall|j: int| from <= j < i ==> cs@[j] != c,
        decreases cs@.len() - i,
    {
        i = i + 1;
    }
    proof {
        lemma_first_index_is(cs@, c, from as int, i as int);
    }
    i
}

/// The index of the first `b` at or after `from`, or the length where there is none.
pub fn find_byte(bytes: &[u8], b: u8, from: usize) -> (r: usize)
    requires
        from <= bytes@.len(),
    ensures
        r == first_index(bytes@, b, from as int),
        from <= r <= bytes@.len(),
        r < bytes@.len() ==> bytes@[r as int] == b,
        forall|j: int| from <= j < r ==> bytes@[j] != b,
{
    let mut i: usize = from;
    while i < bytes.len() && bytes[i] != b
        invariant
            from <= i <= bytes@.len(),
            forall|j: int| from <= j < i ==> bytes@[j] != b,
        decreases bytes@.len() - i,
    {
        i = i + 1;
    }
    proof {
        lemma_first_index_is(bytes@, b, from as int, i as int);
    }
    i
}

/// The index just past the last `x`, or 0 where there is none.
pub open spec fn after_last<T>(s: Seq<T>, x: T) -> int
    decreases s.len(),
{
    if s.len() == 0 {
        0
    } else if s.last() == x {
        s.len() as int
    } else {
        after_last(s.drop_last(), x)
    }
}

/// What [`after_last`] returns: `x` stands just before it unless it is 0, and nowhere
/// from it on.
pub proof fn lemma_after_last<T>(s: Seq<T>, x: T)
    ensures
        0 <= after_last(s, x) <= s.len(),
        after_last(s, x) > 0 ==> s[after_last(s, x) - 1] == x,
        forall|j: int| after_last(s, x) <= j < s.len() ==> s[j] != x,
    decreases s.len(),
{
    if s.len() > 0 && s.last() != x {
        let t = s.drop_last();
        lemma_after_last(t, x);
        assert forall|j: int| after_last(s, x) <= j < s.len() implies s[j] != x by {
            if j < t.len() {
                assert(t[j] == s[j]);
            }
        }
    }
}

/// An index with those properties is the one [`after_last`] returns.
pub proof fn lemma_after_last_is<T>(s: Seq<T>, x: T, i: int)
    requires
        0 <= i <= s.len(),
        i > 0 ==> s[i - 1] == x,
        forall|j: int| i <= j < s.len() ==> s[j] != x,
    ensures
        after_last(s, x) == i,
    decreases s.len(),
{
    if s.len() > 0 && s.last() != x {
        assert(i < s.len());
        lemma_after_last_is(s.drop_last(), x, i);
    } else if s.len() > 0 {
        assert(i == s.len()) by {
            if i < s.len() {
                assert(s[s.len() - 1] != x);
            }
        }
    }
}

/// The index just past the last `c`, or 0 where there is none.
pub fn find_after_last(cs: &[char], c: char) -> (r: usize)
    ensures
        r == after_last(cs@, c),
        r <= cs@.len(),
        r > 0 ==> cs@[r - 1] == c,
        forall|j: int| r <= j < cs@.len() ==> cs@[j] != c,
{
    let mut i: usize = cs.len();
    while i > 0 && cs[i - 1] != c
        invariant
            i <= cs@.len(),
            forall|j: int| i <= j < cs@.len() ==> cs@[j] != c,
        decreases i,
    {
        i = i - 1;
    }
    proof {
        lemma_after_last_is(cs@, c, i as int);
    }
    i
}

/// Whether `p` is the start of `s`.
pub open spec fn starts_with<T>(s: Seq<T>, p: Seq<T>) -> bool {
    p.len() <= s.len() && s.take(p.len() as int) == p
}

/// Whether `p` is the end of `s`.
pub open spec fn ends_with<T>(s: Seq<T>, p: Seq<T>) -> bool {
    p.len() <= s.len() && s.skip(s.len() - p.len()) == p
}

/// Whether `p` stands at index `i` of `s`.
pub open spec fn occurs_at<T>(s: Seq<T>, p: Seq<T>, i: int) -> bool {
    0 <= i && i + p.len() <= s.len() && s.subrange(i, i + p.len()) == p
}

/// Whether `p` stands anywhere in `s`.
pub open spec fn contains_text<T>(s: Seq<T>, p: Seq<T>) -> bool {
    exists|i: int| #[trigger] occurs_at(s, p, i)
}

/// Whether `p` stands at index `at` of `cs`.
pub fn text_occurs_at(cs: &[char], p: &[char], at: usize) -> (r: bool)
    requires
        at <= cs@.len(),
    ensures
        r == occurs_at(cs@, p@, at as int),
{
    let n: usize = cs.len();
    if p.len() > n - at {
        return false;
    }
    let mut k: usize = 0;
    while k < p.len()
        invariant
            k <= p@.len(),
            n == cs@.len(),
            at + p@.len() <= n,
            forall|j: int| 0 <= j < k ==> cs@[at + j] == p@[j],
        decreases p@.len() - k,
    {
        if cs[at + k] != p[k] {
            assert(cs@.subrange(at as int, at + p@.len())[k as int] != p@[k as int]);
            return false;
        }
        k = k + 1;
    }
    assert(cs@.subrange(at as int, at + p@.len()) =~= p@);
    true
}

/// Whether `cs` begins with `p`.
pub fn text_starts_with(cs: &[char], p: &str) -> (r: bool)
    ensures
        r == starts_with(cs@, p@),
{
    let ps = chars_of(p);
    proof {
        if p@.len() <= cs@.len() {
            assert(cs@.subrange(0, p@.len() as int) =~= cs@.take(p@.len() as int));
        }
    }
    text_occurs_at(cs, &ps, 0)
}

/// What follows `p` at the start of `cs`, if `cs` begins with it.
pub fn strip_prefix(cs: &[char], p: &str) -> (r: Option<String>)
    ensures
        match r {
            Some(rest) => starts_with(cs@, p@) && rest@ == cs@.skip(p@.len() as int),
            None => !starts_with(cs@, p@),
        },
{
    if !text_starts_with(cs, p) {
        return None;
    }
    let n: usize = chars_of(p).len();
    let rest = slice_subrange(cs, n, cs.len());
    assert(rest@ =~= cs@.skip(p@.len() as int));
    Some(string_of(rest))
}

/// Whether `cs` ends with `p`.
pub fn text_ends_with(cs: &[char], p: &str) -> (r: bool)
    ensures
        r == ends_with(cs@, p@),
{
    let ps = chars_of(p);
    if ps.len() > cs.len() {
        return false;
    }
    let at: usize = cs.len() - ps.len();
    assert(cs@.subrange(at as int, at + p@.len()) =~= cs@.skip(at as int));
    text_occurs_at(cs, &ps, at)
}

/// Whether `p` stands anywhere in `cs`.
pub fn text_contains(cs: &[char], p: &str) -> (r: bool)
    ensures
        r == contains_text(cs@, p@),
{
    let ps = chars_of(p);
    let mut i: usize = 0;
    while i < cs.len()
        invariant
            i <= cs@.len(),
            ps@ == p@,
            forall|j: int| 0 <= j < i ==> !occurs_at(cs@, p@, j),
        decreases cs@.len() - i,
    {
        if text_occurs_at(cs, &ps, i) {
            return true;
        }
        i = i + 1;
    }
    let last = text_occurs_at(cs, &ps, i);
    assert(last == contains_text(cs@, p@)) by {
        if contains_text(cs@, p@) {
            let k = choose|k: int| occurs_at(cs@, p@, k);
            assert(k == cs@.len());
        }
    }
    last
}

/// Whether two strings hold the same characters.
pub fn same_text(a: &str, b: &str) -> (r: bool)
    ensures
        r == (a@ == b@),
{
    let x = chars_of(a);
    let y = chars_of(b);
    if x.len() != y.len() {
        return false;
    }
    let r = text_occurs_at(&x, &y, 0);
    assert(x@.subrange(0, y@.len() as int) =~= x@);
    r
}

/// Whether a string is one of those listed.
pub fn is_listed(list: &[String], s: &str) -> (r: bool)
    ensures
        r == texts(list@).contains(s@),
{
    let mut i: usize = 0;
    while i < list.len()
        invariant
            i <= list@.len(),
            forall|j: int| 0 <= j < i ==> list@[j]@ != s@,
        decreases list@.len() - i,
    {
        if same_text(&list[i], s) {
            assert(texts(list@)[i as int] == s@);
            return true;
        }
        i = i + 1;
    }
    assert(!texts(list@).contains(s@)) by {
        if texts(list@).contains(s@) {
            let k = choose|k: int| 0 <= k < texts(list@).len() && texts(list@)[k] == s@;
            assert(list@[k]@ == s@);
        }
    }
    false
}

/// Whether a character is white space: it has the Unicode property `White_Space`.
pub open spec fn is_white(c: char) -> bool {
    ||| '\u{9}' <= c <= '\u{d}'
    ||| c == '\u{20}'
    ||| c == '\u{85}'
    ||| c == '\u{a0}'
    ||| c == '\u{1680}'
    ||| '\u{2000}' <= c <= '\u{200a}'
    ||| c == '\u{2028}'
    ||| c == '\u{2029}'
    ||| c == '\u{202f}'
    ||| c == '\u{205f}'
    ||| c == '\u{3000}'
}

/// Whether a character is white space.
pub fn char_is_white(c: char) -> (r: bool)
    ensures
        r == is_white(c),
{
    ('\u{9}' <= c && c <= '\u{d}') || c == '\u{20}' || c == '\u{85}' || c == '\u{a0}' || c
        == '\u{1680}' || ('\u{2000}' <= c && c <= '\u{200a}') || c == '\u{2028}' || c == '\u{2029}'
        || c == '\u{202f}' || c == '\u{205f}' || c == '\u{3000}'
}

/// `s` without the white space at its start.
pub open spec fn trim_start(s: Seq<char>) -> Seq<char>
    decreases s.len(),
{
    if s.len() > 0 && is_white(s[0]) {
        trim_start(s.drop_first())
    } else {
        s
    }
}

/// `s` without the white space at its end.
pub open spec fn trim_end(s: Seq<char>) -> Seq<char>
    decreases s.len(),
{
    if s.len() > 0 && is_white(s.last()) {
        trim_end(s.drop_last())
    } else {
        s
    }
}

/// `s` without the white space at either end.
pub open spec fn trim(s: Seq<char>) -> Seq<char> {
    trim_end(trim_start(s))
}

/// The characters without the white space at their start.
pub fn trim_start_chars<'a>(cs: &'a [char]) -> (r: &'a [char])
    ensures
        r@ == trim_start(cs@),
{
    let mut i: usize = 0;
    assert(cs@.subrange(0, cs@.len() as int) =~= cs@);
    while i < cs.len() && char_is_white(cs[i])
        invariant
            i <= cs@.len(),
            trim_start(cs@) == trim_start(cs@.subrange(i as int, cs@.len() as int)),
        decreases cs@.len() - i,
    {
        assert(cs@.subrange(i as int, cs@.len() as int).drop_first() =~= cs@.subrange(
            i + 1,
            cs@.len() as int,
        ));
        i = i + 1;
    }
    slice_subrange(cs, i, cs.len())
}

/// The characters without the white space at their end.
pub fn trim_end_chars<'a>(cs: &'a [char]) -> (r: &'a [char])
    ensures
        r@ == trim_end(cs@),
{
    let mut i: usize = cs.len();
    assert(cs@.subrange(0, cs@.len() as int) =~= cs@);
    while i > 0 && char_is_white(cs[i - 1])
        invariant
            i <= cs@.len(),
            trim_end(cs@) == trim_end(cs@.subrange(0, i as int)),
        decreases i,
    {
        assert(cs@.subrange(0, i as int).drop_last() =~= cs@.subrange(0, i - 1));
        i = i - 1;
    }
    slice_subrange(cs, 0, i)
}

/// The characters without the white space at either end.
pub fn trim_chars<'a>(cs: &'a [char]) -> (r: &'a [char])
    ensures
        r@ == trim(cs@),
{
    trim_end_chars(trim_start_chars(cs))
}

/// The string without the white space at either end.
pub fn trim_text(s: &str) -> (r: String)
    ensures
        r@ == trim(s@),
{
    let cs = chars_of(s);
    string_of(trim_chars(&cs))
}

/// The pieces of `s` between occurrences of `sep`: one more than there are occurrences.
pub open spec fn split_on(s: Seq<char>, sep: char) -> Seq<Seq<char>>
    decreases s.len(),
{
    let i = first_index(s, sep, 0);
    if 0 <= i < s.len() {
        seq![s.take(i)] + split_on(s.skip(i + 1), sep)
    } else {
        seq![s]
    }
}

/// The pieces of the characters between occurrences of `sep`.
pub fn split_chars(cs: &[char], sep: char) -> (r: Vec<String>)
    ensures
        texts(r@) == split_on(cs@, sep),
        r@.len() > 0,
{
    let mut out: Vec<String> = Vec::new();
    let mut start: usize = 0;
    assert(cs@.skip(0) =~= cs@);
    assert(texts(out@) + split_on(cs@, sep) =~= split_on(cs@, sep));
    loop
        invariant
            start <= cs@.len(),
            split_on(cs@, sep) == texts(out@) + split_on(cs@.skip(start as int), sep),
        decreases cs@.len() - start,
    {
        let i: usize = find_char(cs, sep, start);
        let ghost rest = cs@.skip(start as int);
        let ghost before = out@;
        proof {
            lemma_first_index_is(rest, sep, 0, i - start);
        }
        let piece = string_of(slice_subrange(cs, start, i));
        assert(piece@ =~= rest.take(i - start));
        out.push(piece);
        assert(texts(out@) =~= texts(before).push(piece@));
        if i == cs.len() {
            assert(rest.take(i - start) =~= rest);
            assert(split_on(rest, sep) == seq![rest]);
            assert(texts(out@) =~= texts(before) + seq![rest]);
            return out;
        }
        assert(rest.skip(i - start + 1) =~= cs@.skip(i + 1));
        assert(texts(before) + (seq![piece@] + split_on(cs@.skip(i + 1), sep)) =~= texts(out@)
            + split_on(cs@.skip(i + 1), sep));
        start = i + 1;
    }
}

/// `s` up to its first `c`, or the whole of it.
pub open spec fn until(s: Seq<char>, c: char) -> Seq<char> {
    s.take(first_index(s, c, 0))
}

/// The lines of `s`: the pieces that end at a line feed, each without that line feed and
/// without one carriage return before it, and what is left after the last one if anything.
pub open spec fn lines_of(s: Seq<char>) -> Seq<Seq<char>>
    decreases s.len(),
{
    let i = first_index(s, '\n', 0);
    if s.len() == 0 {
        Seq::empty()
    } else if 0 <= i < s.len() {
        let line = s.take(i);
        let bare = if line.len() > 0 && line.last() == '\r' {
            line.drop_last()
        } else {
            line
        };
        seq![bare] + lines_of(s.skip(i + 1))
    } else {
        seq![s]
    }
}

/// The lines of a text.
pub fn split_lines(cs: &[char]) -> (r: Vec<String>)
    ensures
        texts(r@) == lines_of(cs@),
{
    let mut out: Vec<String> = Vec::new();
    let mut start: usize = 0;
    assert(cs@.skip(0) =~= cs@);
    assert(texts(out@) + lines_of(cs@) =~= lines_of(cs@));
    while start < cs.len()
        invariant
            start <= cs@.len(),
            lines_of(cs@) == texts(out@) + lines_of(cs@.skip(start as int)),
        decreases cs@.len() - start,
    {
        let i: usize = find_char(cs, '\n', start);
        let ghost rest = cs@.skip(start as int);
        let ghost before = out@;
        proof {
            lemma_first_index_is(rest, '\n', 0, i - start);
        }
        if i == cs.len() {
            let piece = string_of(slice_subrange(cs, start, i));
            out.push(piece);
            assert(piece@ =~= rest);
            assert(texts(out@) =~= texts(before) + seq![rest]);
            return out;
        }
        let end: usize = if i > start && cs[i - 1] == '\r' {
            i - 1
        } else {
            i
        };
        let piece = string_of(slice_subrange(cs, start, end));
        let ghost line = rest.take(i - start);
        assert(line.len() > 0 ==> line.last() == cs@[i - 1]);
        assert(piece@ =~= if line.len() > 0 && line.last() == '\r' {
            line.drop_last()
        } else {
            line
        });
        out.push(piece);
        assert(rest.skip(i - start + 1) =~= cs@.skip(i + 1));
        assert(texts(out@) =~= texts(before).push(piece@));
        assert(texts(before) + (seq![piece@] + lines_of(cs@.skip(i + 1))) =~= texts(out@)
            + lines_of(cs@.skip(i + 1)));
        start = i + 1;
    }
    assert(cs@.skip(start as int) =~= Seq::<char>::empty());
    assert(texts(out@) + Seq::<Seq<char>>::empty() =~= texts(out@));
    out
}

/// The parts one after the other with `sep` between each two.
pub open spec fn join(parts: Seq<Seq<char>>, sep: Seq<char>) -> Seq<char>
    decreases parts.len(),
{
    if parts.len() == 0 {
        Seq::empty()
    } else if parts.len() == 1 {
        parts[0]
    } else {
        parts[0] + sep + join(parts.drop_first(), sep)
    }
}

/// The strings one after the other with `sep` between each two.
pub fn join_texts(parts: &[String], sep: &str) -> (r: String)
    ensures
        r@ == join(texts(parts@), sep@),
{
    if parts.len() == 0 {
        return String::new();
    }
    let ghost all = texts(parts@);
    let mut out = parts[0].clone();
    let mut i: usize = 1;
    proof {
        if all.len() > 1 {
            assert(all.drop_first() =~= all.skip(1));
            assert(all[0] + sep@ + join(all.skip(1), sep@) =~= all[0] + (sep@ + join(
                all.skip(1),
                sep@,
            )));
        }
    }
    while i < parts.len()
        invariant
            1 <= i <= parts@.len(),
            all == texts(parts@),
            i == parts@.len() ==> join(all, sep@) == out@,
            i < parts@.len() ==> join(all, sep@) == out@ + (sep@ + join(all.skip(i as int), sep@)),
        decreases parts@.len() - i,
    {
        let ghost before = out@;
        out.append(sep);
        out.append(parts[i].as_str());
        proof {
            let rest = all.skip(i as int);
            assert(rest[0] == parts@[i as int]@);
            assert(rest.drop_first() =~= all.skip(i + 1));
            if i + 1 < parts@.len() {
                assert(before + (sep@ + (rest[0] + sep@ + join(all.skip(i + 1), sep@))) =~= (before
                    + sep@ + rest[0]) + (sep@ + join(all.skip(i + 1), sep@)));
            } else {
                assert(before + (sep@ + rest[0]) =~= before + sep@ + rest[0]);
            }
        }
        i = i + 1;
    }
    out
}

/// Splitting on a character and joining with it gives the text back.
pub proof fn theorem_join_split(s: Seq<char>, sep: char)
    ensures
        join(split_on(s, sep), seq![sep]) == s,
    decreases s.len(),
{
    let i = first_index(s, sep, 0);
    lemma_first_index(s, sep, 0);
    if i < s.len() {
        let rest = s.skip(i + 1);
        theorem_join_split(rest, sep);
        let parts = split_on(s, sep);
        assert(parts.drop_first() =~= split_on(rest, sep));
        assert(split_on(rest, sep).len() > 0);
        assert(s.take(i) + seq![sep] + rest =~= s);
    }
}

/// The two strings one after the other.
pub fn concat_texts(a: &str, b: &str) -> (r: String)
    ensures
        r@ == a@ + b@,
{
    let mut out = String::new();
    out.append(a);
    out.append(b);
    assert(out@ =~= a@ + b@);
    out
}

/// `s` with every `c` replaced by the given characters.
pub open spec fn replace_char(s: Seq<char>, c: char, with: Seq<char>) -> Seq<char>
    decreases s.len(),
{
    if s.len() == 0 {
        Seq::empty()
    } else {
        replace_char(s.drop_last(), c, with) + if s.last() == c {
            with
        } else {
            seq![s.last()]
        }
    }
}

/// The text with every `c` replaced by `with`.
pub fn replace_in_text(cs: &[char], c: char, with: &str) -> (r: String)
    ensures
        r@ == replace_char(cs@, c, with@),
{
    let mut out = String::new();
    let mut i: usize = 0;
    assert(cs@.take(0) =~= Seq::<char>::empty());
    while i < cs.len()
        invariant
            i <= cs@.len(),
            out@ == replace_char(cs@.take(i as int), c, with@),
        decreases cs@.len() - i,
    {
        let ghost next = cs@.take(i + 1);
        assert(next.drop_last() =~= cs@.take(i as int));
        assert(next.last() == cs@[i as int]);
        if cs[i] == c {
            out.append(with);
        } else {
            out.push(cs[i]);
        }
        assert(out@ =~= replace_char(next, c, with@));
        i = i + 1;
    }
    assert(cs@.take(cs@.len() as int) =~= cs@);
    out
}

/// An item is among those that a filter keeps where it is among the items and is kept.
pub(crate) proof fn lemma_filter_contains<A>(s: Seq<A>, keep: spec_fn(A) -> bool, x: A)
    ensures
        s.filter(keep).contains(x) <==> s.contains(x) && keep(x),
    decreases s.len(),
{
    reveal(Seq::filter);
    if s.len() > 0 {
        let before = s.drop_last();
        let last = s.last();
        lemma_filter_contains(before, keep, x);
        assert(s =~= before.push(last));
        if before.contains(x) {
            let i = choose|i: int| 0 <= i < before.len() && before[i] == x;
            assert(s[i] == x);
        }
        if s.contains(x) && x != last {
            let i = choose|i: int| 0 <= i < s.len() && s[i] == x;
            assert(before[i] == x);
        }
        assert(s[s.len() - 1] == last);
        let kept = before.filter(keep);
        if keep(last) {
            assert(s.filter(keep) =~= kept.push(last));
            assert(kept.push(last)[kept.len() as int] == last);
            if kept.contains(x) {
                let i = choose|i: int| 0 <= i < kept.len() && kept[i] == x;
                assert(kept.push(last)[i] == x);
            }
            if kept.push(last).contains(x) && x != last {
                let i = choose|i: int| 0 <= i < kept.push(last).len() && kept.push(last)[i] == x;
                assert(kept[i] == x);
            }
        }
    }
}

/// What a list contains with or without one more item.
pub(crate) proof fn lemma_push_contains<A>(s: Seq<A>, more: Option<A>, x: A)
    ensures
        (match more {
            Some(m) => s.push(m),
            None => s,
        }).contains(x) <==> s.contains(x) || more == Some(x),
{
    if let Some(m) = more {
        let t = s.push(m);
        if s.contains(x) {
            let i = choose|i: int| 0 <= i < s.len() && s[i] == x;
            assert(t[i] == x);
        }
        if t.contains(x) {
            let i = choose|i: int| 0 <= i < t.len() && t[i] == x;
            if i < s.len() {
                assert(s[i] == x);
            }
        }
        assert(t[s.len() as int] == m);
    }
}

} // verus!
