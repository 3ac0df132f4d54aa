//! What holds of names, first lines and escaped bytes.

use vstd::prelude::*;

use crate::helpers::{escaped, first_line, legal_ref_name};
use crate::numerals::numeral;
use crate::text::laws::{theorem_first_line, theorem_only_line};
use crate::text::{contains_text, ends_with, occurs_at};

verus! {

/// Whether a character cannot be part of the name of a reference.
pub open spec fn is_illegal(c: char) -> bool {
    c == ' ' || c == ':' || c == '~' || c == '^' || c == '?' || c == '*' || c == '[' || c == '\\'
}

proof fn lemma_contains_char(s: Seq<char>, p: Seq<char>, c: char)
    requires
        p == seq![c],
    ensures
        contains_text(s, p) <==> s.contains(c),
{
    if contains_text(s, p) {
        let i = choose|i: int| #[trigger] occurs_at(s, p, i);
        assert(s.subrange(i, i + p.len())[0] == s[i]);
        assert(s[i] == c);
    }
    if s.contains(c) {
        let i = choose|i: int| 0 <= i < s.len() && s[i] == c;
        assert(s.subrange(i, i + 1) =~= p);
        assert(occurs_at(s, p, i));
    }
}

proof fn lemma_contains_pair(s: Seq<char>, p: Seq<char>, a: char, b: char)
    requires
        p == seq![a, b],
    ensures
        contains_text(s, p) <==> exists|i: int|
            0 <= i < s.len() - 1 && #[trigger] s[i] == a && s[i + 1] == b,
{
    if contains_text(s, p) {
        let i = choose|i: int| #[trigger] occurs_at(s, p, i);
        assert(s.subrange(i, i + p.len())[0] == s[i]);
        assert(s.subrange(i, i + p.len())[1] == s[i + 1]);
        assert(s[i] == a && s[i + 1] == b);
    }
    if exists|i: int| 0 <= i < s.len() - 1 && #[trigger] s[i] == a && s[i + 1] == b {
        let i = choose|i: int| 0 <= i < s.len() - 1 && #[trigger] s[i] == a && s[i + 1] == b;
        assert(s.subrange(i, i + 2) =~= p);
        assert(occurs_at(s, p, i));
    }
}

/// A name is one that a reference can have where it has none of the characters with a meaning of
/// their own, no component of it starts with a dot behind a slash, no two dots follow each other,
/// and it ends neither in a slash, nor in a dot, nor as the name of a lock file does.
pub proof fn theorem_legal_names(name: Seq<char>)
    ensures
        legal_ref_name(name) <==> {
            &&& forall|i: int| 0 <= i < name.len() ==> !is_illegal(#[trigger] name[i])
            &&& forall|i: int|
                0 <= i < name.len() - 1 ==> !(#[trigger] name[i] == '/' && name[i + 1] == '.')
            &&& forall|i: int|
                0 <= i < name.len() - 1 ==> !(#[trigger] name[i] == '.' && name[i + 1] == '.')
            &&& name.len() > 0 ==> name.last() != '/' && name.last() != '.'
            &&& !ends_with(name, seq!['.', 'l', 'o', 'c', 'k'])
        },
{
    reveal_strlit("/.");
    reveal_strlit("..");
    reveal_strlit(" ");
    reveal_strlit(":");
    reveal_strlit("~");
    reveal_strlit("^");
    reveal_strlit("?");
    reveal_strlit("*");
    reveal_strlit("[");
    reveal_strlit("\\");
    reveal_strlit(".lock");
    reveal_strlit("/");
    reveal_strlit(".");
    assert("/."@ =~= seq!['/', '.']);
    assert(".."@ =~= seq!['.', '.']);
    assert(" "@ =~= seq![' ']);
    assert(":"@ =~= seq![':']);
    assert("~"@ =~= seq!['~']);
    assert("^"@ =~= seq!['^']);
    assert("?"@ =~= seq!['?']);
    assert("*"@ =~= seq!['*']);
    assert("["@ =~= seq!['[']);
    assert("\\"@ =~= seq!['\\']);
    assert(".lock"@ =~= seq!['.', 'l', 'o', 'c', 'k']);
    assert("/"@ =~= seq!['/']);
    assert("."@ =~= seq!['.']);
    lemma_contains_pair(name, "/."@, '/', '.');
    lemma_contains_pair(name, ".."@, '.', '.');
    lemma_contains_char(name, " "@, ' ');
    lemma_contains_char(name, ":"@, ':');
    lemma_contains_char(name, "~"@, '~');
    lemma_contains_char(name, "^"@, '^');
    lemma_contains_char(name, "?"@, '?');
    lemma_contains_char(name, "*"@, '*');
    lemma_contains_char(name, "["@, '[');
    lemma_contains_char(name, "\\"@, '\\');
    lemma_last_char(name, "/"@, '/');
    lemma_last_char(name, "."@, '.');
    if forall|i: int| 0 <= i < name.len() ==> !is_illegal(#[trigger] name[i]) {
        assert forall|c: char| is_illegal(c) implies !#[trigger] name.contains(c) by {
            if name.contains(c) {
                let i = choose|i: int| 0 <= i < name.len() && name[i] == c;
                assert(!is_illegal(name[i]));
            }
        }
    } else {
        let i = choose|i: int| 0 <= i < name.len() && is_illegal(#[trigger] name[i]);
        assert(name.contains(name[i]));
    }
}

proof fn lemma_last_char(s: Seq<char>, p: Seq<char>, c: char)
    requires
        p == seq![c],
    ensures
        ends_with(s, p) <==> s.len() > 0 && s.last() == c,
{
    if s.len() > 0 {
        assert(s.skip(s.len() - 1)[0] == s.last());
        if s.last() == c {
            assert(s.skip(s.len() - 1) =~= p);
        }
    }
}

/// The first line of a text is what comes before the first line feed, without a carriage return
/// before it; of a text without one it is the text.
pub proof fn theorem_first_line_of_text(line: Seq<char>, rest: Seq<char>)
    requires
        !line.contains('\n'),
        line.len() > 0 ==> line.last() != '\r',
    ensures
        first_line(line + seq!['\n'] + rest) == line,
        first_line(line + seq!['\r', '\n'] + rest) == line,
        first_line(line) == line,
{
    theorem_first_line(line, rest);
    theorem_only_line(line);
    if line.len() == 0 {
        assert(first_line(line) =~= line);
    }
}

/// Bytes are escaped one by one: a printable one stays the character that it is, any other one
/// becomes a backslash and its number in hexadecimal digits.
pub proof fn theorem_escaped(a: Seq<u8>, b: Seq<u8>, byte: u8)
    ensures
        escaped(a + b) == escaped(a) + escaped(b),
        escaped(seq![byte]) == if 32 <= byte < 127 {
            seq![byte as char]
        } else {
            seq!['\\'] + numeral(byte as nat, 16)
        },
    decreases b.len(),
{
    let one = seq![byte];
    assert(one.drop_last() =~= Seq::empty());
    assert(escaped(one.drop_last()) =~= Seq::empty());
    assert(escaped(one) =~= crate::helpers::escaped_byte(byte));
    if b.len() == 0 {
        assert(a + b =~= a);
        assert(escaped(a) + escaped(b) =~= escaped(a));
    } else {
        theorem_escaped(a, b.drop_last(), byte);
        assert((a + b).drop_last() =~= a + b.drop_last());
        assert(escaped(a + b) =~= escaped(a) + escaped(b));
    }
}

} // verus!
