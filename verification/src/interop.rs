//! Calls into other crates, each behind one function whose contract says what is relied on.

use sha1::Digest;
use std::io::Read;
use vstd::prelude::*;
use vstd::utf8::{decode_utf8, encode_utf8, valid_utf8};

use crate::numerals::{digit_char, digit_value, numeral, zero_padded};

verus! {

/// Two lower-case hexadecimal digits for each byte, the higher half first.
pub open spec fn hex_text(bytes: Seq<u8>) -> Seq<char> {
    Seq::new(
        2 * bytes.len(),
        |i: int|
            digit_char(
                if i % 2 == 0 {
                    (bytes[i / 2] / 16) as int
                } else {
                    (bytes[i / 2] % 16) as int
                },
            ),
    )
}

/// Whether a text is an even number of hexadecimal digits.
pub open spec fn is_hex_text(s: Seq<char>) -> bool {
    &&& s.len() % 2 == 0
    &&& forall|i: int| 0 <= i < s.len() ==> digit_value(#[trigger] s[i]) < 16
}

/// The bytes that pairs of hexadecimal digits stand for.
pub open spec fn hex_bytes(s: Seq<char>) -> Seq<u8> {
    Seq::new(
        s.len() / 2,
        |i: int| (digit_value(s[2 * i]) * 16 + digit_value(s[2 * i + 1])) as u8,
    )
}

/// `hex::encode` writes each byte as two lower-case digits, the higher half first.
#[verifier::external_body]
pub(crate) fn hex_encode(bytes: &[u8]) -> (r: String)
    ensures
        r@ == hex_text(bytes@),
{
    hex::encode(bytes)
}

/// `hex::decode` accepts an even number of digits of either case and nothing else, and
/// gives one byte for each pair.
#[verifier::external_body]
pub(crate) fn hex_decode(s: &str) -> (r: Option<Vec<u8>>)
    ensures
        r is Some <==> is_hex_text(s@),
        r matches Some(b) ==> b@ == hex_bytes(s@),
{
    hex::decode(s).ok()
}

/// Decoding what was encoded gives the bytes back.
pub proof fn theorem_hex_round_trip(bytes: Seq<u8>)
    ensures
        is_hex_text(hex_text(bytes)),
        hex_bytes(hex_text(bytes)) == bytes,
{
    let t = hex_text(bytes);
    assert forall|i: int| 0 <= i < t.len() implies digit_value(#[trigger] t[i]) < 16 by {
        let b = bytes[i / 2];
        assert(b / 16 < 16 && b % 16 < 16);
    }
    assert forall|i: int| 0 <= i < bytes.len() implies #[trigger] hex_bytes(t)[i] == bytes[i] by {
        let b = bytes[i];
        assert((2 * i) / 2 == i && (2 * i + 1) / 2 == i);
        assert(b / 16 < 16 && b % 16 < 16);
        assert(t[2 * i] == digit_char((b / 16) as int));
        assert(t[2 * i + 1] == digit_char((b % 16) as int));
        assert((b / 16) * 16 + b % 16 == b);
    }
    assert(hex_bytes(t) =~= bytes);
}

/// Encoding what was decoded from lower-case digits gives the digits back.
pub proof fn theorem_hex_round_trip_text(s: Seq<char>)
    requires
        is_hex_text(s),
        forall|i: int| 0 <= i < s.len() ==> !('A' <= #[trigger] s[i] <= 'Z'),
    ensures
        hex_text(hex_bytes(s)) == s,
{
    let b = hex_bytes(s);
    assert forall|i: int| 0 <= i < s.len() implies #[trigger] hex_text(b)[i] == s[i] by {
        let k = i / 2;
        assert(0 <= digit_value(s[2 * k]) < 16);
        assert(0 <= digit_value(s[2 * k + 1]) < 16);
        assert(b[k] == digit_value(s[2 * k]) * 16 + digit_value(s[2 * k + 1]));
        assert(i == 2 * k || i == 2 * k + 1);
    }
    assert(hex_text(b) =~= s);
}

/// The SHA-1 digest of a byte sequence.
pub uninterp spec fn sha1_digest(data: Seq<u8>) -> Seq<u8>;

/// `sha1::Sha1::digest` gives the SHA-1 digest of its argument, which is twenty bytes long.
#[verifier::external_body]
pub(crate) fn sha1_of(data: &[u8]) -> (r: Vec<u8>)
    ensures
        r@ == sha1_digest(data@),
        r@.len() == 20,
{
    sha1::Sha1::digest(data).to_vec()
}

/// `String::from_utf8` accepts valid UTF-8 and nothing else, and keeps the bytes.
#[verifier::external_body]
pub(crate) fn utf8_string(bytes: &[u8]) -> (r: Option<String>)
    ensures
        r is Some <==> valid_utf8(bytes@),
        r matches Some(s) ==> s@ == decode_utf8(bytes@) && encode_utf8(s@) == bytes@,
{
    String::from_utf8(bytes.to_vec()).ok()
}

/// The characters that a byte sequence is read as where what is not valid UTF-8 is replaced.
pub uninterp spec fn lossy_utf8(bytes: Seq<u8>) -> Seq<char>;

/// The characters that a byte sequence is read as: those it encodes where it is valid UTF-8,
/// and otherwise those with what is not valid replaced.
pub open spec fn text_of_bytes(bytes: Seq<u8>) -> Seq<char> {
    if valid_utf8(bytes) {
        decode_utf8(bytes)
    } else {
        lossy_utf8(bytes)
    }
}

/// `String::from_utf8_lossy` reads valid UTF-8 as it stands, and otherwise puts U+FFFD in
/// place of what is not valid.
#[verifier::external_body]
pub(crate) fn lossy_string(bytes: &[u8]) -> (r: String)
    ensures
        r@ == if valid_utf8(bytes@) {
            decode_utf8(bytes@)
        } else {
            lossy_utf8(bytes@)
        },
{
    String::from_utf8_lossy(bytes).to_string()
}

/// Whether a number of nanoseconds can stand beside a number of seconds: less than one
/// second, or less than two within the last second of a minute, where a leap second may be.
pub open spec fn valid_nanos(secs: int, nanos: int) -> bool {
    0 <= nanos < 1_000_000_000 || (nanos < 2_000_000_000 && secs % 60 == 59 && nanos >= 0)
}

/// The seconds since 1970 of the dates that are supported: those of the years -262143 to
/// 262142.
pub open spec fn supported_secs(secs: int) -> bool {
    -8_334_601_228_800 <= secs <= 8_210_266_876_799
}

/// `chrono::DateTime::from_timestamp` makes a moment of a supported number of seconds and a
/// valid number of nanoseconds and of nothing else; `timestamp` and `timestamp_subsec_nanos`
/// give the two numbers back.
#[verifier::external_body]
pub(crate) fn moment_parts(secs: i64, nanos: u32) -> (r: Option<(i64, u32)>)
    ensures
        r == (if supported_secs(secs as int) && valid_nanos(secs as int, nanos as int) {
            Some((secs, nanos))
        } else {
            None
        }),
{
    chrono::DateTime::from_timestamp(secs, nanos)
        .map(|t| (t.timestamp(), t.timestamp_subsec_nanos()))
}

/// A whole number of seconds in decimal, with a minus sign where it is negative.
pub open spec fn signed_numeral(n: int) -> Seq<char> {
    if n < 0 {
        seq!['-'] + numeral((-n) as nat, 10)
    } else {
        numeral(n as nat, 10)
    }
}

/// A moment as the seconds since 1970, a space, and the offset of its zone from UTC as a
/// sign, two digits of hours and two of minutes, rounded to the nearest minute.
pub open spec fn moment_text(secs: int, offset: int) -> Seq<char> {
    let size = if offset < 0 {
        -offset
    } else {
        offset
    };
    let minutes = (size + 30) / 60;
    signed_numeral(secs) + seq![' ', if offset < 0 {
        '-'
    } else {
        '+'
    }] + zero_padded(numeral((minutes / 60) as nat, 10), 2) + zero_padded(
        numeral((minutes % 60) as nat, 10),
        2,
    )
}

/// Whether an offset from UTC, in seconds, is less than a day.
pub open spec fn valid_offset(offset: int) -> bool {
    -86_400 < offset < 86_400
}

/// `chrono::DateTime::format` with `%s %z` writes the seconds since 1970 and the offset.
#[verifier::external_body]
pub(crate) fn format_moment(secs: i64, offset: i32) -> (r: String)
    requires
        supported_secs(secs as int),
        valid_offset(offset as int),
    ensures
        r@ == moment_text(secs as int, offset as int),
{
    let zone = chrono::FixedOffset::east_opt(offset).unwrap();
    let moment = chrono::DateTime::from_timestamp(secs, 0).unwrap().with_timezone(&zone);
    moment.format("%s %z").to_string()
}

/// The seconds since 1970 and the offset from UTC that a text is read as by the format
/// ` %s %z`, if it is.
pub uninterp spec fn parsed_moment(s: Seq<char>) -> Option<(i64, i32)>;

/// `chrono::DateTime::parse_from_str` with ` %s %z` reads back what the same format wrote
/// for a moment since 1970 whose offset is a whole number of minutes.
#[verifier::external_body]
pub(crate) fn parse_moment(s: &str) -> (r: Option<(i64, i32)>)
    ensures
        r == parsed_moment(s@),
        forall|secs: i64, offset: i32|
            0 <= secs && supported_secs(secs as int) && supported_secs(secs + offset)
                && valid_offset(offset as int) && offset % 60 == 0 && s@ == seq![' ']
                + #[trigger] moment_text(secs as int, offset as int) ==> r == Some((secs, offset)),
{
    chrono::DateTime::parse_from_str(s, " %s %z")
        .ok()
        .map(|t| (t.timestamp(), t.offset().local_minus_utc()))
}

/// `chrono::Local::now` gives a supported moment, with the offset of the local zone from UTC.
/// Which moment and which zone depends on the machine; it does not return where the clock of the
/// machine is set to a time before 1970, which no argument can rule out.
#[verifier::external_body]
pub(crate) fn local_moment() -> (r: (i64, u32, i32))
    ensures
        supported_secs(r.0 as int),
        valid_nanos(r.0 as int, r.1 as int),
        valid_offset(r.2 as int),
{
    let t = chrono::Local::now();
    (t.timestamp(), t.timestamp_subsec_nanos(), t.offset().local_minus_utc())
}

/// The bytes that the zlib stream at the start of others decompresses to; nothing where there is
/// no valid stream.
pub uninterp spec fn zlib_inflated(stream: Seq<u8>) -> Option<Seq<u8>>;

/// How many bytes the zlib stream at the start of others takes.
pub uninterp spec fn zlib_length(stream: Seq<u8>) -> int;

/// `flate2::read::ZlibDecoder` decompresses the zlib stream at the start of bytes, or fails where
/// there is no valid one; its `total_in` is the number of those bytes that the stream takes.
#[verifier::external_body]
pub(crate) fn zlib_decompress(stream: &[u8]) -> (r: Option<(Vec<u8>, u64)>)
    ensures
        match r {
            Some((data, used)) => zlib_inflated(stream@) == Some(data@) && zlib_length(stream@)
                == used && used <= stream@.len(),
            None => zlib_inflated(stream@) is None,
        },
{
    let mut data: Vec<u8> = Vec::new();
    let mut decoder = flate2::read::ZlibDecoder::new(stream);
    match decoder.read_to_end(&mut data) {
        Ok(_) => Some((data, decoder.total_in())),
        Err(_) => None,
    }
}

/// `flate2::bufread::ZlibEncoder` compresses bytes to a zlib stream that decompresses to them.
/// Which of the streams that do so it is depends on the compressor and is left unsaid.
#[verifier::external_body]
pub(crate) fn zlib_compress(data: &[u8]) -> (r: Vec<u8>)
    ensures
        zlib_inflated(r@) == Some(data@),
{
    let mut stream: Vec<u8> = Vec::new();
    flate2::bufread::ZlibEncoder::new(data, flate2::Compression::best())
        .read_to_end(&mut stream)
        .expect("compression in memory");
    stream
}

/// The normal form of an address, if a text is one.
pub uninterp spec fn parsed_url(text: Seq<char>) -> Option<Seq<char>>;

/// `url::Url::parse` reads an absolute address; the result is its normal form.
#[verifier::external_body]
pub(crate) fn url_parse(text: &str) -> (r: Option<String>)
    ensures
        match r {
            Some(url) => parsed_url(text@) == Some(url@),
            None => parsed_url(text@) is None,
        },
{
    url::Url::parse(text).ok().map(|u| u.to_string())
}

/// The normal form of the address that a reference stands for at a base address, if both are
/// valid.
pub uninterp spec fn joined_url(base: Seq<char>, reference: Seq<char>) -> Option<Seq<char>>;

/// `url::Url::join` reads an address relative to another one; the result is its normal form.
#[verifier::external_body]
pub(crate) fn url_join(base: &str, reference: &str) -> (r: Option<String>)
    ensures
        match r {
            Some(url) => joined_url(base@, reference@) == Some(url@),
            None => joined_url(base@, reference@) is None,
        },
{
    url::Url::parse(base).ok().and_then(|u| u.join(reference).ok()).map(|u| u.to_string())
}

/// Whether a text is a valid pattern.
pub uninterp spec fn glob_valid(pattern: Seq<char>) -> bool;

/// `glob::Pattern::new` accepts valid patterns only.
#[verifier::external_body]
pub(crate) fn glob_is_valid(pattern: &str) -> (r: bool)
    ensures
        r == glob_valid(pattern@),
{
    glob::Pattern::new(pattern).is_ok()
}

/// Whether a text matches a valid pattern.
pub uninterp spec fn glob_match(pattern: Seq<char>, text: Seq<char>) -> bool;

/// `glob::Pattern::matches` tells whether a text matches a pattern; nothing matches one that is
/// not valid.
#[verifier::external_body]
pub(crate) fn glob_matches(pattern: &str, text: &str) -> (r: bool)
    ensures
        r == glob_match(pattern@, text@),
{
    glob::Pattern::new(pattern).map_or(false, |p| p.matches(text))
}

/// A moment in UTC as text.
pub uninterp spec fn shown_moment(secs: int, nanos: int) -> Seq<char>;

/// `chrono::DateTime::<Utc>::to_string` writes a moment in UTC as text.
#[verifier::external_body]
pub(crate) fn show_moment(secs: i64, nanos: u32) -> (r: String)
    requires
        supported_secs(secs as int),
        valid_nanos(secs as int, nanos as int),
    ensures
        r@ == shown_moment(secs as int, nanos as int),
{
    chrono::DateTime::from_timestamp(secs, nanos).map(|d| d.to_string()).unwrap_or_default()
}

} // verus!
