//! The lines that are exchanged with a server.

use vstd::prelude::*;
use vstd::slice::{slice_subrange, slice_to_vec};
use vstd::utf8::{decode_utf8, encode_utf8, valid_utf8};

use crate::encoding::{lemma_decode_encode, lemma_encode_ascii};
use crate::helpers::{escaped, escaped_byte_string};
use crate::index::push_bytes;
use crate::interop::utf8_string;
use crate::numerals::{
    lemma_numeral, numeral, padded_numeral_of, parse_number, parsed_number, zero_padded,
};
use crate::text::{chars_of, string_of};

pub mod answers;
pub mod client;
pub mod common;
pub mod laws;
pub mod negotiation;
pub mod sideband;

verus! {

broadcast use vstd::string::group_string_axioms;

/// A line that is sent or received over the network.
#[derive(Debug, PartialEq)]
pub enum PktLine {
    /// A flush packet, sent and received as "0000".
    Flush,
    /// A delimiter packet, sent and received as "0001".
    Delimiter,
    /// A response-end packet, sent and received as "0002".
    ResponseEnd,
    /// A line, without its length header.
    Line(Vec<u8>),
}

/// What a line is.
pub enum PktView {
    /// A flush packet.
    Flush,
    /// A delimiter packet.
    Delimiter,
    /// A response-end packet.
    ResponseEnd,
    /// A line with its contents.
    Line(Seq<u8>),
}

impl View for PktLine {
    type V = PktView;

    open spec fn view(&self) -> PktView {
        match self {
            PktLine::Flush => PktView::Flush,
            PktLine::Delimiter => PktView::Delimiter,
            PktLine::ResponseEnd => PktView::ResponseEnd,
            PktLine::Line(v) => PktView::Line(v@),
        }
    }
}

/// The length of a line with its header, in at least four hexadecimal digits.
pub open spec fn length_header(n: nat) -> Seq<char> {
    zero_padded(numeral(n + 4, 16), 4)
}

/// The characters of the header of a line.
pub open spec fn line_header(line: PktView) -> Seq<char> {
    match line {
        PktView::Flush => "0000"@,
        PktView::Delimiter => "0001"@,
        PktView::ResponseEnd => "0002"@,
        PktView::Line(d) => length_header(d.len()),
    }
}

/// The contents of a line.
pub open spec fn line_contents(line: PktView) -> Seq<u8> {
    match line {
        PktView::Line(d) => d,
        _ => Seq::empty(),
    }
}

/// The bytes that a line is sent as.
pub open spec fn line_bytes(line: PktView) -> Seq<u8> {
    encode_utf8(line_header(line)) + line_contents(line)
}

/// Whether the length of a line can be counted.
pub open spec fn countable(line: PktView) -> bool {
    line_contents(line).len() <= usize::MAX - 4
}

/// The lines of a sequence.
pub open spec fn line_views(s: Seq<PktLine>) -> Seq<PktView> {
    s.map_values(|l: PktLine| l@)
}

impl PktLine {
    /// The line with the contents of a text.
    pub fn from_text(value: &str) -> (r: Self)
        ensures
            r@ == PktView::Line(encode_utf8(value@)),
    {
        PktLine::Line(slice_to_vec(value.as_bytes()))
    }

    /// The line with the given contents.
    pub fn from_bytes(value: &[u8]) -> (r: Self)
        ensures
            r@ == PktView::Line(value@),
    {
        PktLine::Line(slice_to_vec(value))
    }

    fn header(&self) -> (r: String)
        requires
            countable(self@),
        ensures
            r@ == line_header(self@),
    {
        match self {
            PktLine::Flush => "0000".to_string(),
            PktLine::Delimiter => "0001".to_string(),
            PktLine::ResponseEnd => "0002".to_string(),
            PktLine::Line(v) => {
                let n: usize = v.len() + 4;
                let digits = padded_numeral_of(n as u64, 16, 4);
                string_of(&digits)
            },
        }
    }

    /// The bytes that the line is sent as.
    pub fn bytes(&self) -> (r: Vec<u8>)
        requires
            countable(self@),
        ensures
            r@ == line_bytes(self@),
    {
        let header = self.header();
        let mut out = slice_to_vec(header.as_str().as_bytes());
        match self {
            PktLine::Line(v) => {
                push_bytes(&mut out, v.as_slice());
            },
            _ => {},
        }
        assert(out@ =~= line_bytes(self@));
        out
    }

    /// The line as text, with what is not printable ASCII escaped.
    pub fn to_string(&self) -> (r: String)
        requires
            countable(self@),
        ensures
            r@ == line_header(self@) + escaped(line_contents(self@)),
    {
        let mut out = self.header();
        match self {
            PktLine::Line(v) => {
                let text = escaped_byte_string(v.as_slice());
                out.append(text.as_str());
            },
            _ => {
                assert(out@ =~= line_header(self@) + escaped(line_contents(self@)));
            },
        }
        out
    }

    /// Whether two lines are the same.
    pub fn same_line(&self, other: &PktLine) -> (r: bool)
        ensures
            r == (self@ == other@),
    {
        match (self, other) {
            (PktLine::Flush, PktLine::Flush) => true,
            (PktLine::Delimiter, PktLine::Delimiter) => true,
            (PktLine::ResponseEnd, PktLine::ResponseEnd) => true,
            (PktLine::Line(a), PktLine::Line(b)) => crate::objects::same_bytes(
                a.as_slice(),
                b.as_slice(),
            ),
            _ => false,
        }
    }
}

/// Why bytes are not a valid line.
#[derive(Clone, Copy, Debug, PartialEq, Eq, Structural)]
pub enum PktLineError {
    /// The bytes end in the middle of the length header.
    HeaderCutOff,
    /// The length header is not valid UTF-8.
    HeaderNotUtf8,
    /// The length header is not a hexadecimal number.
    HeaderNotHex,
    /// The length is less than that of the header.
    LengthTooSmall,
    /// The bytes end in the middle of the line.
    LineCutOff,
}

/// What comes at the start of bytes that are received.
pub enum NextLine {
    /// Nothing.
    End,
    /// Something that is no valid line.
    Invalid(PktLineError),
    /// A line, and its length with the header.
    Found(PktView, int),
}

/// What comes at the start of bytes that are received.
pub open spec fn parse_line(d: Seq<u8>) -> NextLine {
    if d.len() == 0 {
        NextLine::End
    } else if d.len() < 4 {
        NextLine::Invalid(PktLineError::HeaderCutOff)
    } else if !valid_utf8(d.take(4)) {
        NextLine::Invalid(PktLineError::HeaderNotUtf8)
    } else {
        match parsed_number(decode_utf8(d.take(4)), 16) {
            None => NextLine::Invalid(PktLineError::HeaderNotHex),
            Some(n) => if n == 0 {
                NextLine::Found(PktView::Flush, 4)
            } else if n == 1 {
                NextLine::Found(PktView::Delimiter, 4)
            } else if n == 2 {
                NextLine::Found(PktView::ResponseEnd, 4)
            } else if n < 4 {
                NextLine::Invalid(PktLineError::LengthTooSmall)
            } else if n > d.len() {
                NextLine::Invalid(PktLineError::LineCutOff)
            } else {
                NextLine::Found(PktView::Line(d.subrange(4, n as int)), n as int)
            },
        }
    }
}

/// Lines that are received, and why nothing follows them if that is not the end.
pub type Stream = (Seq<PktView>, Option<PktLineError>);

/// The lines in bytes that are received.
pub open spec fn decode_lines(d: Seq<u8>) -> Stream
    decreases d.len(),
{
    match parse_line(d) {
        NextLine::End => (Seq::empty(), None),
        NextLine::Invalid(e) => (Seq::empty(), Some(e)),
        NextLine::Found(line, n) => if 0 < n <= d.len() {
            let rest = decode_lines(d.skip(n));
            (seq![line] + rest.0, rest.1)
        } else {
            (Seq::empty(), None)
        },
    }
}

/// A stream without its first line.
pub open spec fn after_first(s: Stream) -> Stream {
    (s.0.skip(1), s.1)
}

/// The lines in bytes that are received, one after the other.
pub struct PktLineIterator {
    data: Vec<u8>,
    pos: usize,
    has_ended: bool,
}

/// What the next step in a stream gives.
pub open spec fn stream_next(s: Stream) -> Option<Result<PktView, PktLineError>> {
    if s.0.len() > 0 {
        Some(Ok(s.0[0]))
    } else {
        match s.1 {
            Some(e) => Some(Err(e)),
            None => None,
        }
    }
}

/// What is left of a stream after the next step.
pub open spec fn stream_rest(s: Stream) -> Stream {
    if s.0.len() > 0 {
        after_first(s)
    } else {
        (Seq::empty(), None)
    }
}

impl PktLineIterator {
    /// The lines that are still to come.
    pub closed spec fn stream(&self) -> Stream {
        if self.has_ended {
            (Seq::empty(), None)
        } else {
            decode_lines(self.data@.skip(self.pos as int))
        }
    }

    /// The position is one in the data.
    pub closed spec fn wf(&self) -> bool {
        self.pos <= self.data@.len()
    }

    /// The number of bytes that are still to come.
    pub closed spec fn remaining(&self) -> nat {
        (self.data@.len() - self.pos) as nat
    }

    /// The lines in the given bytes.
    pub fn from(value: &[u8]) -> (r: Self)
        ensures
            r.wf(),
            r.stream() == decode_lines(value@),
    {
        let r = PktLineIterator { data: slice_to_vec(value), pos: 0, has_ended: false };
        assert(r.data@.skip(0) =~= value@);
        r
    }

    /// The next line.
    pub fn next(&mut self) -> (r: Option<Result<PktLine, PktLineError>>)
        requires
            old(self).wf(),
        ensures
            final(self).wf(),
            final(self).stream() == stream_rest(old(self).stream()),
            final(self).remaining() <= old(self).remaining(),
            match r {
                None => stream_next(old(self).stream()) is None,
                Some(Ok(line)) => stream_next(old(self).stream()) == Some(
                    Ok::<PktView, PktLineError>(line@),
                ) && final(self).remaining() < old(self).remaining(),
                Some(Err(e)) => stream_next(old(self).stream()) == Some(
                    Err::<PktView, PktLineError>(e),
                ),
            },
    {
        if self.has_ended {
            return None;
        }
        let ghost d = self.data@.skip(self.pos as int);
        let available: usize = self.data.len() - self.pos;
        if available == 0 {
            self.has_ended = true;
            return None;
        }
        if available < 4 {
            self.pos = self.data.len();
            assert(self.data@.skip(self.pos as int) =~= Seq::empty());
            return Some(Err(PktLineError::HeaderCutOff));
        }
        let head = slice_subrange(self.data.as_slice(), self.pos, self.pos + 4);
        assert(head@ =~= d.take(4));
        let text = match utf8_string(head) {
            Some(text) => text,
            None => {
                self.has_ended = true;
                return Some(Err(PktLineError::HeaderNotUtf8));
            },
        };
        let digits = chars_of(text.as_str());
        let n: u64 = match parse_number(&digits, 16) {
            Some(n) => n,
            None => {
                proof {
                    lemma_four_digits(text@, head@);
                }
                self.has_ended = true;
                return Some(Err(PktLineError::HeaderNotHex));
            },
        };
        if n == 3 {
            self.has_ended = true;
            return Some(Err(PktLineError::LengthTooSmall));
        }
        if n <= 2 {
            let ghost before = self.data@.skip(self.pos as int);
            self.pos = self.pos + 4;
            assert(self.data@.skip(self.pos as int) =~= d.skip(4));
            proof {
                lemma_stream_step(d);
            }
            return Some(
                Ok(
                    if n == 0 {
                        PktLine::Flush
                    } else if n == 1 {
                        PktLine::Delimiter
                    } else {
                        PktLine::ResponseEnd
                    },
                ),
            );
        }
        if n > available as u64 {
            self.has_ended = true;
            return Some(Err(PktLineError::LineCutOff));
        }
        let len: usize = n as usize;
        let line = slice_subrange(self.data.as_slice(), self.pos + 4, self.pos + len);
        assert(line@ =~= d.subrange(4, len as int));
        let line = slice_to_vec(line);
        self.pos = self.pos + len;
        assert(self.data@.skip(self.pos as int) =~= d.skip(len as int));
        proof {
            lemma_stream_step(d);
        }
        Some(Ok(PktLine::Line(line)))
    }

    /// Goes past the end of the section: past the next line that is not an ordinary one.
    pub fn skip_section(&mut self) -> (r: Result<(), PktLineError>)
        requires
            old(self).wf(),
        ensures
            final(self).wf(),
            final(self).remaining() <= old(self).remaining(),
            match r {
                Ok(_) => skipped(old(self).stream()) == Ok::<Stream, PktLineError>(
                    final(self).stream(),
                ),
                Err(e) => skipped(old(self).stream()) == Err::<Stream, PktLineError>(e),
            },
    {
        loop
            invariant
                self.wf(),
                self.remaining() <= old(self).remaining(),
                skipped(self.stream()) == skipped(old(self).stream()),
            decreases self.remaining(),
        {
            let ghost before = self.stream();
            match self.next() {
                None => {
                    assert(before.0 =~= Seq::empty());
                    return Ok(());
                },
                Some(Err(e)) => {
                    return Err(e);
                },
                Some(Ok(PktLine::Line(_))) => {},
                Some(Ok(_)) => {
                    return Ok(());
                },
            }
        }
    }
}

/// What is left of a stream behind the next line that is not an ordinary one.
pub open spec fn skipped(s: Stream) -> Result<Stream, PktLineError>
    decreases s.0.len(),
{
    if s.0.len() == 0 {
        match s.1 {
            Some(e) => Err(e),
            None => Ok((Seq::empty(), None)),
        }
    } else if s.0[0] is Line {
        skipped(after_first(s))
    } else {
        Ok(after_first(s))
    }
}

proof fn lemma_stream_step(d: Seq<u8>)
    requires
        parse_line(d) is Found,
    ensures
        ({
            let n = parse_line(d)->Found_1;
            &&& 0 < n <= d.len()
            &&& decode_lines(d).0.len() > 0
            &&& decode_lines(d).0[0] == parse_line(d)->Found_0
            &&& after_first(decode_lines(d)) == decode_lines(d.skip(n))
        }),
{
    let n = parse_line(d)->Found_1;
    let rest = decode_lines(d.skip(n));
    assert((seq![parse_line(d)->Found_0] + rest.0).skip(1) =~= rest.0);
}

/// Four characters cannot stand for a number that is too large.
proof fn lemma_four_digits(text: Seq<char>, bytes: Seq<u8>)
    requires
        encode_utf8(text) == bytes,
        bytes.len() == 4,
    ensures
        parsed_number(text, 16) matches Some(n) ==> n <= u64::MAX,
{
    if let Some(n) = parsed_number(text, 16) {
        let t = crate::numerals::unsigned_part(text);
        assert forall|i: int| 0 <= i < text.len() implies (#[trigger] text[i] as u32) < 128 by {
            if text[0] == '+' {
                if i > 0 {
                    assert(t[i - 1] == text[i]);
                }
            } else {
                assert(t[i] == text[i]);
            }
        }
        lemma_encode_ascii(text);
        assert(text.len() == 4);
        assert(t.len() <= 4);
        assert(n < 16 * 16 * 16 * 16) by {
            lemma_digits_below(t);
        }
    }
}

proof fn lemma_digits_below(t: Seq<char>)
    requires
        t.len() <= 4,
        crate::numerals::all_digits(t, 16),
    ensures
        crate::numerals::digits_value(t, 16) < 65536,
        t.len() == 3 ==> crate::numerals::digits_value(t, 16) < 4096,
        t.len() == 2 ==> crate::numerals::digits_value(t, 16) < 256,
        t.len() == 1 ==> crate::numerals::digits_value(t, 16) < 16,
        t.len() == 0 ==> crate::numerals::digits_value(t, 16) == 0,
    decreases t.len(),
{
    if t.len() > 0 {
        let s = t.drop_last();
        assert forall|i: int| 0 <= i < s.len() implies crate::numerals::digit_value(
            #[trigger] s[i],
        ) < 16 by {
            assert(s[i] == t[i]);
        }
        lemma_digits_below(s);
        assert(t.last() == t[t.len() - 1]);
        assert(crate::numerals::digit_value(t.last()) < 16);
    }
}

/// The bytes that lines are sent as, one after the other.
pub open spec fn lines_bytes(lines: Seq<PktView>) -> Seq<u8>
    decreases lines.len(),
{
    if lines.len() == 0 {
        Seq::empty()
    } else {
        line_bytes(lines[0]) + lines_bytes(lines.drop_first())
    }
}

/// The bytes that lines are sent as.
pub fn body_of_lines(lines: &[PktLine]) -> (r: Vec<u8>)
    requires
        forall|i: int| 0 <= i < lines@.len() ==> countable((#[trigger] lines@[i])@),
    ensures
        r@ == lines_bytes(line_views(lines@)),
{
    let mut out: Vec<u8> = Vec::new();
    let mut i: usize = 0;
    let ghost all = line_views(lines@);
    assert(all.skip(0) =~= all);
    assert(out@ + lines_bytes(all) =~= lines_bytes(all));
    while i < lines.len()
        invariant
            i <= lines@.len(),
            all == line_views(lines@),
            forall|i: int| 0 <= i < lines@.len() ==> countable((#[trigger] lines@[i])@),
            out@ + lines_bytes(all.skip(i as int)) == lines_bytes(all),
        decreases lines@.len() - i,
    {
        let ghost before = out@;
        let bytes = lines[i].bytes();
        push_bytes(&mut out, bytes.as_slice());
        proof {
            let rest = all.skip(i as int);
            assert(rest[0] == lines@[i as int]@);
            assert(rest.drop_first() =~= all.skip(i + 1));
            assert(out@ + lines_bytes(all.skip(i + 1)) =~= before + lines_bytes(rest));
        }
        i = i + 1;
    }
    assert(all.skip(i as int) =~= Seq::empty());
    assert(out@ + lines_bytes(all.skip(i as int)) =~= out@);
    out
}

/// Whether a line is short enough for its length to have four digits.
pub open spec fn sendable(line: PktView) -> bool {
    line_contents(line).len() <= 65531
}

proof fn lemma_short_numeral(n: nat)
    requires
        n < 65536,
    ensures
        numeral(n, 16).len() <= 4,
{
    reveal_with_fuel(numeral, 4);
    assert(n / 16 < 4096);
    assert(n / 16 / 16 < 256);
    assert(n / 16 / 16 / 16 < 16);
}

/// What is sent as a line is received as that line.
pub proof fn theorem_line_round_trip(line: PktView, rest: Seq<u8>)
    requires
        sendable(line),
    ensures
        parse_line(line_bytes(line) + rest) == NextLine::Found(
            line,
            line_bytes(line).len() as int,
        ),
{
    let header = line_header(line);
    let bytes = encode_utf8(header);
    let d = line_bytes(line) + rest;
    reveal_strlit("0000");
    reveal_strlit("0001");
    reveal_strlit("0002");
    assert(header.len() == 4 && parsed_number(header, 16) == Some(
        match line {
            PktView::Flush => 0nat,
            PktView::Delimiter => 1,
            PktView::ResponseEnd => 2,
            PktView::Line(c) => c.len() + 4,
        },
    ) && forall|i: int| 0 <= i < header.len() ==> (#[trigger] header[i] as u32) < 128) by {
        match line {
            PktView::Line(c) => {
                lemma_short_numeral(c.len() + 4);
                lemma_numeral(c.len() + 4, 16);
                crate::numerals::theorem_parse_padded_numeral(c.len() + 4, 16, 4);
                assert forall|i: int| 0 <= i < header.len() implies (#[trigger] header[i] as u32)
                    < 128 by {
                    let digits = numeral(c.len() + 4, 16);
                    if i >= 4 - digits.len() {
                        assert(header[i] == digits[i - (4 - digits.len())]);
                    } else {
                        assert(header[i] == '0');
                    }
                }
            },
            _ => {
                reveal_with_fuel(crate::numerals::digits_value, 5);
                assert(crate::numerals::unsigned_part(header) == header);
                assert(crate::numerals::digit_value(header[0]) == 0);
            },
        }
    }
    lemma_encode_ascii(header);
    lemma_decode_encode(header);
    assert(d.take(4) =~= bytes);
    match line {
        PktView::Line(c) => {
            assert(d.subrange(4, c.len() as int + 4) =~= c);
        },
        _ => {},
    }
}

/// What is sent as lines is received as those lines, and nothing else.
pub proof fn theorem_lines_round_trip(lines: Seq<PktView>)
    requires
        forall|i: int| 0 <= i < lines.len() ==> sendable(#[trigger] lines[i]),
    ensures
        decode_lines(lines_bytes(lines)) == (lines, None::<PktLineError>),
    decreases lines.len(),
{
    if lines.len() == 0 {
        assert(lines =~= Seq::empty());
    } else {
        let rest = lines.drop_first();
        assert forall|i: int| 0 <= i < rest.len() implies sendable(#[trigger] rest[i]) by {
            assert(rest[i] == lines[i + 1]);
        }
        theorem_lines_round_trip(rest);
        theorem_line_round_trip(lines[0], lines_bytes(rest));
        let d = lines_bytes(lines);
        let n = line_bytes(lines[0]).len() as int;
        lemma_stream_step(d);
        assert(d.skip(n) =~= lines_bytes(rest));
        assert(decode_lines(d).0 =~= lines);
    }
}

} // verus!
