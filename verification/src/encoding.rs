//! Facts about the UTF-8 encoding of texts.

use vstd::prelude::*;
use vstd::utf8::{
    decode_utf8, encode_scalar, encode_utf8, encode_utf8_decode_utf8, encode_utf8_valid_utf8,
    has_width_1_encoding, has_width_2_encoding, has_width_3_encoding, has_width_4_encoding,
    valid_utf8,
};

verus! {

/// The encoding of one text after another is the encoding of the first and that of the second.
pub proof fn lemma_encode_concat(a: Seq<char>, b: Seq<char>)
    ensures
        encode_utf8(a + b) == encode_utf8(a) + encode_utf8(b),
    decreases a.len(),
{
    if a.len() == 0 {
        assert(a + b =~= b);
        assert(encode_utf8(a) + encode_utf8(b) =~= encode_utf8(b));
    } else {
        assert((a + b)[0] == a[0]);
        assert((a + b).drop_first() =~= a.drop_first() + b);
        lemma_encode_concat(a.drop_first(), b);
        let x = encode_scalar(a[0] as u32);
        assert(x + (encode_utf8(a.drop_first()) + encode_utf8(b)) =~= x + encode_utf8(
            a.drop_first(),
        ) + encode_utf8(b));
    }
}

/// The encoding of a single ASCII character is that one byte.
pub proof fn lemma_encode_ascii_char(c: char)
    requires
        (c as u32) < 128,
    ensures
        encode_utf8(seq![c]) == seq![c as u8],
{
    let u = c as u32;
    assert((u & 0x7F) as u8 == u as u8) by (bit_vector)
        requires
            u < 128,
    ;
    let s = seq![c];
    assert(s.drop_first() =~= Seq::<char>::empty());
    assert(encode_utf8(s.drop_first()) == Seq::<u8>::empty());
    assert(encode_utf8(s) =~= seq![c as u8]);
}

/// A byte below 128 in the encoding of a character is that character.
proof fn lemma_scalar_bytes(u: u32, i: int)
    requires
        has_width_1_encoding(u) || has_width_2_encoding(u) || has_width_3_encoding(u)
            || has_width_4_encoding(u),
        0 <= i < encode_scalar(u).len(),
        encode_scalar(u)[i] < 128,
    ensures
        u < 128,
        encode_scalar(u)[i] == u,
        encode_scalar(u).len() == 1,
{
    assert(0xC0u8 | ((u >> 6) & 0x1F) as u8 >= 128) by (bit_vector);
    assert(0xE0u8 | ((u >> 12) & 0x0F) as u8 >= 128) by (bit_vector);
    assert(0xF0u8 | ((u >> 18) & 0x7) as u8 >= 128) by (bit_vector);
    assert(0x80u8 | (u & 0x3F) as u8 >= 128) by (bit_vector);
    assert(0x80u8 | ((u >> 6) & 0x3F) as u8 >= 128) by (bit_vector);
    assert(0x80u8 | ((u >> 12) & 0x3F) as u8 >= 128) by (bit_vector);
    if has_width_1_encoding(u) {
        assert((u & 0x7F) as u8 == u as u8) by (bit_vector)
            requires
                u < 128,
        ;
    }
}

/// A byte below 128 stands in an encoding only where the text holds that ASCII character.
pub proof fn lemma_encode_contains_ascii(s: Seq<char>, b: u8)
    requires
        b < 128,
        encode_utf8(s).contains(b),
    ensures
        s.contains(b as char),
    decreases s.len(),
{
    vstd::utf8::char_is_scalar(s[0]);
    let x = encode_scalar(s[0] as u32);
    let rest = encode_utf8(s.drop_first());
    let i = choose|i: int| 0 <= i < encode_utf8(s).len() && encode_utf8(s)[i] == b;
    assert(s.len() > 0);
    if i < x.len() {
        assert(x[i] == b);
        lemma_scalar_bytes(s[0] as u32, i);
        vstd::utf8::char_u32_cast(s[0], s[0] as u32);
        assert(s[0] == b as char);
    } else {
        assert(rest[i - x.len()] == b);
        lemma_encode_contains_ascii(s.drop_first(), b);
        let k = choose|k: int| 0 <= k < s.drop_first().len() && s.drop_first()[k] == b as char;
        assert(s[k + 1] == b as char);
    }
}

/// Reading an encoding gives the text back.
pub proof fn lemma_decode_encode(s: Seq<char>)
    ensures
        valid_utf8(encode_utf8(s)),
        decode_utf8(encode_utf8(s)) == s,
{
    encode_utf8_valid_utf8(s);
    encode_utf8_decode_utf8(s);
}

/// The encoding of a text of ASCII characters has one byte for each.
pub proof fn lemma_encode_ascii(s: Seq<char>)
    requires
        forall|i: int| 0 <= i < s.len() ==> (#[trigger] s[i] as u32) < 128,
    ensures
        encode_utf8(s).len() == s.len(),
        forall|i: int| 0 <= i < s.len() ==> #[trigger] encode_utf8(s)[i] == s[i] as u8,
    decreases s.len(),
{
    if s.len() > 0 {
        let t = s.drop_first();
        assert forall|i: int| 0 <= i < t.len() implies (#[trigger] t[i] as u32) < 128 by {
            assert(t[i] == s[i + 1]);
        }
        lemma_encode_ascii(t);
        assert(s =~= seq![s[0]] + t);
        lemma_encode_concat(seq![s[0]], t);
        lemma_encode_ascii_char(s[0]);
        assert forall|i: int| 0 <= i < s.len() implies #[trigger] encode_utf8(s)[i] == s[i] as u8 by {
            if i > 0 {
                assert(encode_utf8(s)[i] == encode_utf8(t)[i - 1]);
            }
        }
    }
}

} // verus!
