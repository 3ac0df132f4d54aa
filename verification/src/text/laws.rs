//! What holds of texts.

use vstd::prelude::*;

use crate::text::{
    is_white, join, lemma_first_index_is, lines_of, replace_char, split_on, trim, trim_end,
    trim_start,
};

verus! {

/// Whether all characters are white space.
pub open spec fn all_white(s: Seq<char>) -> bool {
    forall|i: int| 0 <= i < s.len() ==> is_white(#[trigger] s[i])
}

/// Whether a text neither starts nor ends with white space.
pub open spec fn has_bare_ends(s: Seq<char>) -> bool {
    s.len() > 0 ==> !is_white(s[0]) && !is_white(s.last())
}

proof fn lemma_trim_start(white: Seq<char>, text: Seq<char>)
    requires
        all_white(white),
        text.len() > 0 ==> !is_white(text[0]),
    ensures
        trim_start(white + text) == text,
    decreases white.len(),
{
    if white.len() == 0 {
        assert(white + text =~= text);
    } else {
        let rest = white.drop_first();
        assert forall|i: int| 0 <= i < rest.len() implies is_white(#[trigger] rest[i]) by {
            assert(is_white(white[i + 1]));
        }
        lemma_trim_start(rest, text);
        assert((white + text).drop_first() =~= rest + text);
        assert(is_white(white[0]));
        assert((white + text)[0] == white[0]);
    }
}

proof fn lemma_trim_end(text: Seq<char>, white: Seq<char>)
    requires
        all_white(white),
        text.len() > 0 ==> !is_white(text.last()),
    ensures
        trim_end(text + white) == text,
    decreases white.len(),
{
    if white.len() == 0 {
        assert(text + white =~= text);
    } else {
        let rest = white.drop_last();
        assert forall|i: int| 0 <= i < rest.len() implies is_white(#[trigger] rest[i]) by {
            assert(is_white(white[i]));
        }
        lemma_trim_end(text, rest);
        assert((text + white).drop_last() =~= text + rest);
        assert(is_white(white[white.len() - 1]));
        assert((text + white).last() == white[white.len() - 1]);
    }
}

/// The white space at both ends is what is taken away, and nothing else.
pub proof fn theorem_trim(before: Seq<char>, text: Seq<char>, after: Seq<char>)
    requires
        all_white(before),
        all_white(after),
        has_bare_ends(text),
    ensures
        trim(before + text + after) == text,
{
    if text.len() == 0 {
        let all = before + after;
        let none = Seq::<char>::empty();
        assert(text =~= none);
        assert(before + text + after =~= all + none);
        assert forall|i: int| 0 <= i < all.len() implies is_white(#[trigger] all[i]) by {
            if i < before.len() {
                assert(is_white(before[i]));
            } else {
                assert(is_white(after[i - before.len()]));
            }
        }
        lemma_trim_start(all, none);
        lemma_trim_end(none, none);
        assert(none + none =~= none);
    } else {
        assert(before + text + after =~= before + (text + after));
        assert((text + after)[0] == text[0]);
        lemma_trim_start(before, text + after);
        lemma_trim_end(text, after);
    }
}

/// A line that ends with a line feed is the first of the lines, without the line feed and a
/// carriage return before it, and the lines behind it follow.
pub proof fn theorem_first_line(line: Seq<char>, rest: Seq<char>)
    requires
        !line.contains('\n'),
        line.len() > 0 ==> line.last() != '\r',
    ensures
        lines_of(line + seq!['\n'] + rest) == seq![line] + lines_of(rest),
        lines_of(line + seq!['\r', '\n'] + rest) == seq![line] + lines_of(rest),
{
    let s = line + seq!['\n'] + rest;
    let n = line.len() as int;
    lemma_line_feed(line);
    assert(s[n] == '\n');
    assert forall|j: int| 0 <= j < n implies s[j] != '\n' by {
        assert(s[j] == line[j]);
    }
    lemma_first_index_is(s, '\n', 0, n);
    assert(s.take(n) =~= line);
    assert(s.skip(n + 1) =~= rest);
    let t = line + seq!['\r', '\n'] + rest;
    assert(t[n + 1] == '\n');
    assert(t[n] == '\r');
    assert forall|j: int| 0 <= j < n + 1 implies t[j] != '\n' by {
        if j < n {
            assert(t[j] == line[j]);
        }
    }
    lemma_first_index_is(t, '\n', 0, n + 1);
    assert(t.take(n + 1).last() == '\r');
    assert(t.take(n + 1).drop_last() =~= line);
    assert(t.skip(n + 2) =~= rest);
}

proof fn lemma_line_feed(line: Seq<char>)
    requires
        !line.contains('\n'),
    ensures
        forall|j: int| 0 <= j < line.len() ==> #[trigger] line[j] != '\n',
{
    assert forall|j: int| 0 <= j < line.len() implies #[trigger] line[j] != '\n' by {
        if line[j] == '\n' {
            assert(line.contains('\n'));
        }
    }
}

/// A text without a line feed is one line, and an empty one has no lines.
pub proof fn theorem_only_line(line: Seq<char>)
    requires
        !line.contains('\n'),
    ensures
        line.len() > 0 ==> lines_of(line) == seq![line],
        line.len() == 0 ==> lines_of(line) == Seq::<Seq<char>>::empty(),
{
    lemma_line_feed(line);
    crate::text::lemma_first_index(line, '\n', 0);
}

/// The first piece of a text is what comes before the first separator, and the pieces of what is
/// behind it follow; a text without a separator is one piece.
pub proof fn theorem_first_piece(piece: Seq<char>, rest: Seq<char>, sep: char)
    requires
        !piece.contains(sep),
    ensures
        split_on(piece + seq![sep] + rest, sep) == seq![piece] + split_on(rest, sep),
        split_on(piece, sep) == seq![piece],
{
    let s = piece + seq![sep] + rest;
    let n = piece.len() as int;
    assert forall|j: int| 0 <= j < n implies s[j] != sep && piece[j] != sep by {
        if piece[j] == sep {
            assert(piece.contains(sep));
        }
    }
    assert(s[n] == sep);
    lemma_first_index_is(s, sep, 0, n);
    lemma_first_index_is(piece, sep, 0, n);
    assert(s.take(n) =~= piece);
    assert(s.skip(n + 1) =~= rest);
}

/// Pieces that are put together with a separator that none of them holds come apart again.
pub proof fn theorem_split_join(pieces: Seq<Seq<char>>, sep: char)
    requires
        pieces.len() > 0,
        forall|i: int| 0 <= i < pieces.len() ==> !(#[trigger] pieces[i]).contains(sep),
    ensures
        split_on(join(pieces, seq![sep]), sep) == pieces,
    decreases pieces.len(),
{
    let first = pieces[0];
    if pieces.len() == 1 {
        theorem_first_piece(first, Seq::empty(), sep);
        assert(seq![first] =~= pieces);
    } else {
        let rest = pieces.drop_first();
        assert forall|i: int| 0 <= i < rest.len() implies !(#[trigger] rest[i]).contains(sep) by {
            assert(!pieces[i + 1].contains(sep));
        }
        theorem_split_join(rest, sep);
        theorem_first_piece(first, join(rest, seq![sep]), sep);
        assert(seq![first] + rest =~= pieces);
    }
}

/// Replacing a character goes character by character: that one becomes the text for it, any other
/// one stays, and the text that is made of two texts is what is made of each.
pub proof fn theorem_replace_char(a: Seq<char>, b: Seq<char>, c: char, with: Seq<char>)
    ensures
        replace_char(a + b, c, with) == replace_char(a, c, with) + replace_char(b, c, with),
        replace_char(seq![c], c, with) == with,
        !a.contains(c) ==> replace_char(a, c, with) == a,
    decreases a.len() + b.len(),
{
    let none = Seq::<char>::empty();
    let one = seq![c];
    assert(one.drop_last() =~= none);
    assert(replace_char(one.drop_last(), c, with) =~= none);
    assert(none + with =~= with);
    if b.len() == 0 {
        assert(a + b =~= a);
        assert(replace_char(a, c, with) + replace_char(b, c, with) =~= replace_char(a, c, with));
    } else {
        theorem_replace_char(a, b.drop_last(), c, with);
        assert((a + b).drop_last() =~= a + b.drop_last());
        assert((a + b).last() == b.last());
        let last = if b.last() == c {
            with
        } else {
            seq![b.last()]
        };
        assert(replace_char(a + b, c, with) =~= replace_char(a, c, with) + (replace_char(
            b.drop_last(),
            c,
            with,
        ) + last));
    }
    if !a.contains(c) {
        lemma_nothing_replaced(a, c, with);
    }
}

proof fn lemma_nothing_replaced(s: Seq<char>, c: char, with: Seq<char>)
    requires
        !s.contains(c),
    ensures
        replace_char(s, c, with) == s,
    decreases s.len(),
{
    if s.len() > 0 {
        let before = s.drop_last();
        assert(!before.contains(c)) by {
            if before.contains(c) {
                let i = choose|i: int| 0 <= i < before.len() && before[i] == c;
                assert(s[i] == c);
            }
        }
        lemma_nothing_replaced(before, c, with);
        assert(s[s.len() - 1] == s.last());
        assert(before + seq![s.last()] =~= s);
    } else {
        assert(replace_char(s, c, with) =~= s);
    }
}

} // verus!
