//! Numbers written as text, and big-endian numbers in byte sequences.

use vstd::prelude::*;

use crate::text::string_of;

verus! {

broadcast use vstd::string::group_string_axioms;

/// The digit that stands for `d`, with lower-case letters from ten on.
pub open spec fn digit_char(d: int) -> char {
    if d < 10 {
        (48 + d) as char
    } else {
        (87 + d) as char
    }
}

/// What a digit stands for, in either case; 36 for a character that is no digit.
pub open spec fn digit_value(c: char) -> int {
    if '0' <= c <= '9' {
        c as int - 48
    } else if 'a' <= c <= 'z' {
        c as int - 87
    } else if 'A' <= c <= 'Z' {
        c as int - 55
    } else {
        36
    }
}

/// Each digit stands for the value it was written for.
pub proof fn lemma_digit(d: int)
    requires
        0 <= d < 36,
    ensures
        digit_value(digit_char(d)) == d,
        digit_char(d) != '+',
        digit_char(d) != '-',
        (digit_char(d) as u32) < 128,
{
}

/// The digit for a value below 36.
pub fn digit_of(d: u8) -> (c: char)
    requires
        d < 36,
    ensures
        c == digit_char(d as int),
{
    if d < 10 {
        (48 + d) as char
    } else {
        (87 + d) as char
    }
}

/// What a digit stands for; 36 for a character that is no digit.
pub fn value_of_digit(c: char) -> (v: u8)
    ensures
        v == digit_value(c),
        v <= 36,
{
    if '0' <= c && c <= '9' {
        (c as u32 - 48) as u8
    } else if 'a' <= c && c <= 'z' {
        (c as u32 - 87) as u8
    } else if 'A' <= c && c <= 'Z' {
        (c as u32 - 55) as u8
    } else {
        36
    }
}

/// The numeral for `n` in the given base, without leading zeros.
pub open spec fn numeral(n: nat, base: nat) -> Seq<char>
    decreases n,
{
    if base < 2 || n < base {
        seq![digit_char(n as int)]
    } else {
        proof {
            assert(n / base < n) by (nonlinear_arith)
                requires
                    n >= base,
                    base >= 2,
            ;
        }
        numeral(n / base, base).push(digit_char((n % base) as int))
    }
}

/// `s` with zeros in front of it up to the given width.
pub open spec fn zero_padded(s: Seq<char>, width: nat) -> Seq<char> {
    if s.len() >= width {
        s
    } else {
        Seq::new((width - s.len()) as nat, |i: int| '0') + s
    }
}

/// The numeral for a number.
pub fn numeral_of(n: u64, base: u64) -> (r: Vec<char>)
    requires
        2 <= base <= 36,
    ensures
        r@ == numeral(n as nat, base as nat),
    decreases n,
{
    if n < base {
        let mut out: Vec<char> = Vec::new();
        out.push(digit_of(n as u8));
        assert(out@ =~= seq![digit_char(n as int)]);
        out
    } else {
        assert(n / base < n) by (nonlinear_arith)
            requires
                n >= base,
                base >= 2,
        ;
        let mut out = numeral_of(n / base, base);
        out.push(digit_of((n % base) as u8));
        out
    }
}

/// The numeral for a number, padded with zeros.
pub fn padded_numeral_of(n: u64, base: u64, width: usize) -> (r: Vec<char>)
    requires
        2 <= base <= 36,
    ensures
        r@ == zero_padded(numeral(n as nat, base as nat), width as nat),
{
    let plain = numeral_of(n, base);
    let mut out: Vec<char> = Vec::new();
    if plain.len() >= width {
        return plain;
    }
    let zeros: usize = width - plain.len();
    while out.len() < zeros
        invariant
            out@.len() <= zeros,
            forall|i: int| 0 <= i < out@.len() ==> out@[i] == '0',
        decreases zeros - out@.len(),
    {
        out.push('0');
    }
    let ghost front = out@;
    let mut rest = plain;
    out.append(&mut rest);
    assert(out@ =~= zero_padded(plain@, width as nat));
    out
}

/// The decimal numeral for a number.
pub fn decimal(n: u64) -> (r: String)
    ensures
        r@ == numeral(n as nat, 10),
{
    let cs = numeral_of(n, 10);
    string_of(&cs)
}

/// Whether every character is a digit of the given base.
pub open spec fn all_digits(s: Seq<char>, base: nat) -> bool {
    forall|i: int| 0 <= i < s.len() ==> digit_value(#[trigger] s[i]) < base
}

/// The number that a sequence of digits stands for.
pub open spec fn digits_value(s: Seq<char>, base: nat) -> nat
    decreases s.len(),
{
    if s.len() == 0 {
        0
    } else {
        (digits_value(s.drop_last(), base) * base + digit_value(s.last())) as nat
    }
}

/// The digits of an unsigned numeral: the text without one plus sign in front.
pub open spec fn unsigned_part(s: Seq<char>) -> Seq<char> {
    if s.len() > 0 && s[0] == '+' {
        s.drop_first()
    } else {
        s
    }
}

/// The number that a text stands for, if it is an unsigned numeral in the given base: at
/// least one digit, and nothing else but one plus sign in front.
pub open spec fn parsed_number(s: Seq<char>, base: nat) -> Option<nat> {
    let t = unsigned_part(s);
    if t.len() > 0 && all_digits(t, base) {
        Some(digits_value(t, base))
    } else {
        None
    }
}

proof fn lemma_digits_value_grows(s: Seq<char>, base: nat, k: int)
    requires
        0 <= k <= s.len(),
        base >= 1,
        all_digits(s, base),
    ensures
        digits_value(s.take(k), base) <= digits_value(s, base),
    decreases s.len() - k,
{
    if k < s.len() {
        lemma_digits_value_grows(s, base, k + 1);
        let t = s.take(k + 1);
        assert(t.drop_last() =~= s.take(k));
        let v = digits_value(s.take(k), base);
        assert(digit_value(t.last()) >= 0);
        assert(v * base >= v) by (nonlinear_arith)
            requires
                base >= 1,
                v >= 0,
        ;
    } else {
        assert(s.take(k) =~= s);
    }
}

/// The number that a text stands for, where it is a numeral and fits in 64 bits.
pub fn parse_number(cs: &[char], base: u64) -> (r: Option<u64>)
    requires
        2 <= base <= 36,
    ensures
        match r {
            Some(n) => parsed_number(cs@, base as nat) == Some(n as nat),
            None => match parsed_number(cs@, base as nat) {
                Some(m) => m > u64::MAX,
                None => true,
            },
        },
{
    let start: usize = if cs.len() > 0 && cs[0] == '+' {
        1
    } else {
        0
    };
    let ghost t = unsigned_part(cs@);
    assert(t =~= cs@.skip(start as int));
    if cs.len() == start {
        return None;
    }
    let mut i: usize = start;
    while i < cs.len()
        invariant_except_break
            all_digits(t.take(i - start), base as nat),
            i == cs@.len() ==> all_digits(t, base as nat),
        invariant
            start <= i <= cs@.len(),
            start < cs@.len(),
            t == cs@.skip(start as int),
        ensures
            i < cs@.len() ==> digit_value(cs@[i as int]) >= base,
            i == cs@.len() ==> all_digits(t, base as nat),
        decreases cs@.len() - i,
    {
        if value_of_digit(cs[i]) as u64 >= base {
            break;
        }
        assert(t[i - start] == cs@[i as int]);
        assert(t.take(i - start + 1) =~= t.take(i - start).push(t[i - start]));
        i = i + 1;
        assert(i == cs@.len() ==> t.take(i - start) =~= t);
    }
    if i < cs.len() {
        assert(t[i - start] == cs@[i as int]);
        return None;
    }
    let mut n: u64 = 0;
    let mut k: usize = start;
    assert(t.take(0) =~= Seq::<char>::empty());
    while k < cs.len()
        invariant
            start <= k <= cs@.len(),
            t == cs@.skip(start as int),
            2 <= base <= 36,
            all_digits(t, base as nat),
            n == digits_value(t.take(k - start), base as nat),
            parsed_number(cs@, base as nat) == Some(digits_value(t, base as nat)),
        decreases cs@.len() - k,
    {
        let d: u64 = value_of_digit(cs[k]) as u64;
        let ghost next = t.take(k - start + 1);
        proof {
            assert(t[k - start] == cs@[k as int]);
            assert(next.drop_last() =~= t.take(k - start));
            assert(next.last() == cs@[k as int]);
            lemma_digits_value_grows(t, base as nat, k - start + 1);
        }
        match n.checked_mul(base) {
            None => {
                return None;
            },
            Some(m) => match m.checked_add(d) {
                None => {
                    return None;
                },
                Some(v) => {
                    n = v;
                },
            },
        }
        k = k + 1;
    }
    assert(t.take(k - start) =~= t);
    Some(n)
}

/// A numeral is made of digits and stands for the number it was written for.
pub proof fn lemma_numeral(n: nat, base: nat)
    requires
        2 <= base <= 36,
    ensures
        numeral(n, base).len() > 0,
        all_digits(numeral(n, base), base),
        digits_value(numeral(n, base), base) == n,
        forall|i: int| 0 <= i < numeral(n, base).len() ==> #[trigger] numeral(n, base)[i] != '+',
        forall|i: int|
            0 <= i < numeral(n, base).len() ==> (#[trigger] numeral(n, base)[i] as u32) < 128,
    decreases n,
{
    if n < base {
        lemma_digit(n as int);
        let s = numeral(n, base);
        assert(s.drop_last() =~= Seq::<char>::empty());
        assert(digits_value(s.drop_last(), base) == 0);
        assert(0 * base == 0) by (nonlinear_arith);
        assert(s.last() == digit_char(n as int));
    } else {
        assert(n / base < n) by (nonlinear_arith)
            requires
                n >= base,
                base >= 2,
        ;
        lemma_numeral(n / base, base);
        let d = (n % base) as int;
        assert(0 <= d < base) by (nonlinear_arith)
            requires
                d == n % base,
                base >= 2,
        ;
        lemma_digit(d);
        let s = numeral(n, base);
        assert(s.drop_last() =~= numeral(n / base, base));
        assert((n / base) * base + n % base == n) by (nonlinear_arith)
            requires
                base >= 2,
        ;
    }
}

/// Reading a numeral gives back the number that was written.
pub proof fn theorem_parse_numeral(n: nat, base: nat)
    requires
        2 <= base <= 36,
    ensures
        parsed_number(numeral(n, base), base) == Some(n),
{
    lemma_numeral(n, base);
}

/// Zeros in front of a numeral do not change what it stands for.
pub proof fn theorem_parse_padded_numeral(n: nat, base: nat, width: nat)
    requires
        2 <= base <= 36,
    ensures
        parsed_number(zero_padded(numeral(n, base), width), base) == Some(n),
{
    lemma_numeral(n, base);
    let s = numeral(n, base);
    let p = zero_padded(s, width);
    assert(p[0] != '+');
    assert(all_digits(p, base)) by {
        assert forall|i: int| 0 <= i < p.len() implies digit_value(#[trigger] p[i]) < base by {
            if s.len() < width && i >= width - s.len() {
                assert(p[i] == s[i - (width - s.len())]);
            } else if s.len() >= width {
                assert(p[i] == s[i]);
            }
        }
    }
    if s.len() < width {
        lemma_leading_zeros((width - s.len()) as nat, s, base);
    }
}

proof fn lemma_leading_zeros(k: nat, s: Seq<char>, base: nat)
    requires
        base >= 2,
    ensures
        digits_value(Seq::new(k, |i: int| '0') + s, base) == digits_value(s, base),
    decreases s.len(), k,
{
    let z = Seq::new(k, |i: int| '0');
    let p = z + s;
    if s.len() > 0 {
        assert(p.drop_last() =~= z + s.drop_last());
        lemma_leading_zeros(k, s.drop_last(), base);
    } else if k > 0 {
        assert(p.drop_last() =~= Seq::new((k - 1) as nat, |i: int| '0') + s);
        lemma_leading_zeros((k - 1) as nat, s, base);
        assert(p.last() == '0');
        assert(0 * base == 0) by (nonlinear_arith);
    } else {
        assert(p =~= s);
    }
}

/// The big-endian number in two bytes.
pub open spec fn be16(b0: u8, b1: u8) -> int {
    b0 * 0x100 + b1
}

/// The big-endian number in four bytes.
pub open spec fn be32(b0: u8, b1: u8, b2: u8, b3: u8) -> int {
    b0 * 0x100_0000 + b1 * 0x1_0000 + b2 * 0x100 + b3
}

/// The two bytes of a number, the higher first.
pub open spec fn be16_bytes(n: int) -> Seq<u8> {
    seq![(n / 0x100) as u8, (n % 0x100) as u8]
}

/// The four bytes of a number, the highest first.
pub open spec fn be32_bytes(n: int) -> Seq<u8> {
    seq![
        (n / 0x100_0000) as u8,
        (n / 0x1_0000 % 0x100) as u8,
        (n / 0x100 % 0x100) as u8,
        (n % 0x100) as u8,
    ]
}

/// Writes the two bytes of a number.
pub fn put_be16(buf: &mut Vec<u8>, n: u16)
    ensures
        final(buf)@ == old(buf)@ + be16_bytes(n as int),
{
    buf.push((n / 0x100) as u8);
    buf.push((n % 0x100) as u8);
    assert(buf@ =~= old(buf)@ + be16_bytes(n as int));
}

/// Writes the four bytes of a number.
pub fn put_be32(buf: &mut Vec<u8>, n: u32)
    ensures
        final(buf)@ == old(buf)@ + be32_bytes(n as int),
{
    buf.push((n / 0x100_0000) as u8);
    buf.push((n / 0x1_0000 % 0x100) as u8);
    buf.push((n / 0x100 % 0x100) as u8);
    buf.push((n % 0x100) as u8);
    assert(buf@ =~= old(buf)@ + be32_bytes(n as int));
}

/// Reading four big-endian bytes gives back the number that was written.
pub proof fn theorem_be32_round_trip(n: int)
    requires
        0 <= n <= u32::MAX,
    ensures
        be32_bytes(n).len() == 4,
        be32(be32_bytes(n)[0], be32_bytes(n)[1], be32_bytes(n)[2], be32_bytes(n)[3]) == n,
{
}

/// Reading two big-endian bytes gives back the number that was written.
pub proof fn theorem_be16_round_trip(n: int)
    requires
        0 <= n <= u16::MAX,
    ensures
        be16_bytes(n).len() == 2,
        be16(be16_bytes(n)[0], be16_bytes(n)[1]) == n,
{
}

} // verus!
