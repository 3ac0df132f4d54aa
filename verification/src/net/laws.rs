//! What holds of what is read from the answers of a server.

use vstd::prelude::*;
use vstd::utf8::encode_utf8;

use crate::encoding::{lemma_decode_encode, lemma_encode_contains_ascii};
use crate::interop::text_of_bytes;
use crate::net::answers::{
    acknowledged, load_v1, load_v2, load_v2_capabilities, object_ref, parse_capabilities,
    parse_v1_line, parse_v2_line, read_acks, read_header, read_response, with_ref, with_refs,
    ResponseView,
};
use crate::net::client::{
    capability_index, capability_text, capability_values, command_lines, fetch_lines, ls_refs_lines,
    parse_capability, text_line, CapabilityView, FetchError, ProtocolVersion,
};
use crate::net::negotiation::{appended, next_level, read_discovery, DiscoveryView};
use crate::net::sideband::{transfer, Transfer, TransferEnd};
use crate::net::{after_first, skipped, PktLineError, PktView, Stream};
use crate::repo::{is_lower_hex, partial_id};
use crate::stores::{parse_ref, RefView, TagView, TargetView, TargetedView};
use crate::text::laws::{has_bare_ends, theorem_split_join, theorem_trim};
use crate::text::{is_white, join, lemma_first_index_is, lemma_push_contains, starts_with};

verus! {

/// References and more of them are all those of both, each once, with the first ones in front.
pub proof fn theorem_with_refs(refs: Seq<TargetedView>, more: Seq<TargetedView>)
    ensures
        forall|r: TargetedView| #[trigger]
            with_refs(refs, more).contains(r) <==> refs.contains(r) || more.contains(r),
        refs.no_duplicates() ==> with_refs(refs, more).no_duplicates(),
        with_refs(refs, more).len() >= refs.len(),
        with_refs(refs, more).take(refs.len() as int) == refs,
    decreases more.len(),
{
    if more.len() == 0 {
        assert(refs.take(refs.len() as int) =~= refs);
    } else {
        let less = more.drop_last();
        let last = more.last();
        theorem_with_refs(refs, less);
        let before = with_refs(refs, less);
        let all = with_refs(refs, more);
        assert(all.take(refs.len() as int) =~= before.take(refs.len() as int));
        assert forall|r: TargetedView| #[trigger] all.contains(r) <==> refs.contains(r)
            || more.contains(r) by {
            lemma_push_contains(less, Some(last), r);
            assert(less.push(last) =~= more);
            lemma_push_contains(before, Some(last), r);
        }
    }
}

/// Objects with others appended are all of both, each once, with the first ones in front.
pub proof fn theorem_appended(items: Seq<Seq<char>>, more: Seq<Seq<char>>)
    ensures
        forall|id: Seq<char>| #[trigger]
            appended(items, more).contains(id) <==> items.contains(id) || more.contains(id),
        items.no_duplicates() ==> appended(items, more).no_duplicates(),
        appended(items, more).len() >= items.len(),
        appended(items, more).take(items.len() as int) == items,
        items.len() == 0 && more.no_duplicates() ==> appended(items, more) == more,
    decreases more.len(),
{
    if more.len() == 0 {
        assert(items.take(items.len() as int) =~= items);
        if items.len() == 0 {
            assert(items =~= more);
        }
    } else {
        let less = more.drop_last();
        let last = more.last();
        theorem_appended(items, less);
        let before = appended(items, less);
        let all = appended(items, more);
        assert(all.take(items.len() as int) =~= before.take(items.len() as int));
        assert forall|r: Seq<char>| #[trigger] all.contains(r) <==> items.contains(r)
            || more.contains(r) by {
            lemma_push_contains(less, Some(last), r);
            assert(less.push(last) =~= more);
            lemma_push_contains(before, Some(last), r);
        }
        if items.len() == 0 && more.no_duplicates() {
            assert(less.no_duplicates());
            assert(!less.contains(last)) by {
                if less.contains(last) {
                    let i = choose|i: int| 0 <= i < less.len() && less[i] == last;
                    assert(more[i] == more[more.len() - 1]);
                }
            }
            assert(all =~= more);
        }
    }
}

proof fn lemma_no_byte(s: Seq<char>, c: char)
    requires
        (c as u32) < 128,
        !s.contains(c),
    ensures
        forall|j: int| 0 <= j < encode_utf8(s).len() ==> #[trigger] encode_utf8(s)[j] != c as u8,
{
    assert forall|j: int| 0 <= j < encode_utf8(s).len() implies #[trigger] encode_utf8(s)[j]
        != c as u8 by {
        if encode_utf8(s)[j] == c as u8 {
            assert(encode_utf8(s).contains(c as u8));
            lemma_encode_contains_ascii(s, c as u8);
            assert((c as u8) as char == c);
        }
    }
}

proof fn lemma_hex_has_no(id: Seq<char>, c: char)
    requires
        partial_id(id),
        c == ' ' || c == '\0',
    ensures
        !id.contains(c),
{
    if id.contains(c) {
        let i = choose|i: int| 0 <= i < id.len() && id[i] == c;
        assert(is_lower_hex(id[i]));
    }
}

/// A line of the first version of the protocol with an ID, a space, the path of a reference, and
/// behind a NUL byte capabilities with spaces between them, is read as that reference with that
/// object, and as these capabilities.
pub proof fn theorem_line_with_capabilities_is_read(
    id: Seq<char>,
    path: Seq<char>,
    caps: Seq<Seq<char>>,
)
    requires
        partial_id(id),
        !path.contains('\0'),
        caps.len() > 0,
        forall|i: int| 0 <= i < caps.len() ==> !(#[trigger] caps[i]).contains(' '),
    ensures
        parse_v1_line(
            encode_utf8(id) + seq![32u8] + encode_utf8(path) + seq![0u8] + encode_utf8(
                join(caps, seq![' ']),
            ) + seq![10u8],
        ) == Ok::<(Option<TargetedView>, Seq<CapabilityView>), FetchError>(
            (
                match parse_ref(path) {
                    Some(spec) => Some(object_ref(id, spec)),
                    None => None,
                },
                caps.map_values(|c: Seq<char>| parse_capability(c)),
            ),
        ),
{
    let list = join(caps, seq![' ']);
    let a = encode_utf8(id);
    let b = encode_utf8(path);
    let c = encode_utf8(list);
    let d = a + seq![32u8] + b + seq![0u8] + c + seq![10u8];
    lemma_hex_has_no(id, ' ');
    lemma_hex_has_no(id, '\0');
    lemma_no_byte(id, ' ');
    lemma_no_byte(id, '\0');
    lemma_no_byte(path, '\0');
    lemma_decode_encode(id);
    lemma_decode_encode(path);
    lemma_decode_encode(list);
    let space = a.len() as int;
    let nul: int = a.len() + 1int + b.len();
    assert(d[space] == 32u8);
    assert forall|j: int| 0 <= j < space implies d[j] != 32u8 by {
        assert(d[j] == a[j]);
    }
    lemma_first_index_is(d, 32u8, 0, space);
    assert(d[nul] == 0u8);
    assert forall|j: int| 0 <= j < nul implies d[j] != 0u8 by {
        if j < space {
            assert(d[j] == a[j]);
        } else if j > space {
            assert(d[j] == b[j - space - 1]);
        }
    }
    lemma_first_index_is(d, 0u8, 0, nul);
    assert(d.last() == 10u8);
    assert(d.take(space) =~= a);
    assert(d.subrange(space + 1, nul) =~= b);
    assert(d.subrange(nul + 1, d.len() - 1) =~= c);
    theorem_split_join(caps, ' ');
    assert(parse_capabilities(caps) =~= caps.map_values(|c: Seq<char>| parse_capability(c)));
}

/// A line of the first version of the protocol with an ID, a space and the path of a reference,
/// with or without a line feed behind it, is read as that reference with that object.
pub proof fn theorem_line_with_reference_is_read(id: Seq<char>, path: Seq<char>)
    requires
        partial_id(id),
        path.len() > 0,
        !path.contains('\0'),
        !path.contains('\n'),
    ensures
        ({
            let r = match parse_ref(path) {
                Some(spec) => Some(object_ref(id, spec)),
                None => None,
            };
            let none = Seq::<CapabilityView>::empty();
            let d = encode_utf8(id) + seq![32u8] + encode_utf8(path);
            &&& parse_v1_line(d) == Ok::<
                (Option<TargetedView>, Seq<CapabilityView>),
                FetchError,
            >((r, none))
            &&& parse_v1_line(d.push(10u8)) == Ok::<
                (Option<TargetedView>, Seq<CapabilityView>),
                FetchError,
            >((r, none))
        }),
{
    let a = encode_utf8(id);
    let b = encode_utf8(path);
    let d = a + seq![32u8] + b;
    let e = d.push(10u8);
    lemma_hex_has_no(id, ' ');
    lemma_hex_has_no(id, '\0');
    lemma_no_byte(id, ' ');
    lemma_no_byte(id, '\0');
    lemma_no_byte(path, '\0');
    lemma_no_byte(path, '\n');
    lemma_decode_encode(id);
    lemma_decode_encode(path);
    let space = a.len() as int;
    assert forall|j: int| 0 <= j < space implies d[j] != 32u8 && e[j] != 32u8 by {
        assert(d[j] == a[j]);
    }
    assert forall|j: int| 0 <= j < d.len() implies d[j] != 0u8 by {
        if j < space {
            assert(d[j] == a[j]);
        } else if j > space {
            assert(d[j] == b[j - space - 1]);
        }
    }
    assert forall|j: int| 0 <= j < e.len() implies e[j] != 0u8 by {
        if j < d.len() {
            assert(e[j] == d[j]);
        }
    }
    lemma_first_index_is(d, 32u8, 0, space);
    lemma_first_index_is(e, 32u8, 0, space);
    lemma_first_index_is(d, 0u8, 0, d.len() as int);
    lemma_first_index_is(e, 0u8, 0, e.len() as int);
    assert(d.last() != 10u8) by {
        if b.len() > 0 {
            assert(d.last() == b[b.len() - 1]);
        }
    }
    assert(d.take(space) =~= a);
    assert(e.take(space) =~= a);
    assert(d.subrange(space + 1, d.len() as int) =~= b);
    assert(e.subrange(space + 1, e.len() - 1) =~= b);
}

/// Lines of the first version of the protocol are read one after the other: reading some and then
/// more is reading all of them.
pub proof fn theorem_v1_lines_follow(
    a: Seq<PktView>,
    b: Stream,
    refs: Seq<TargetedView>,
    caps: Seq<CapabilityView>,
)
    ensures
        load_v1((a + b.0, b.1), refs, caps) == match load_v1((a, None), refs, caps) {
            Ok((r, c)) => load_v1(b, r, c),
            Err(e) => Err(e),
        },
    decreases a.len(),
{
    let none = None::<PktLineError>;
    if a.len() == 0 {
        assert(a + b.0 =~= b.0);
    } else {
        assert((a + b.0).skip(1) =~= a.skip(1) + b.0);
        assert((a + b.0)[0] == a[0]);
        match a[0] {
            PktView::Line(d) => {
                if let Ok((target, more)) = parse_v1_line(d) {
                    let r = match target {
                        Some(t) => with_ref(refs, t),
                        None => refs,
                    };
                    theorem_v1_lines_follow(a.skip(1), b, r, caps + more);
                    assert(after_first((a, none)) == (a.skip(1), none));
                }
            },
            _ => {
                theorem_v1_lines_follow(a.skip(1), b, refs, caps);
                assert(after_first((a, none)) == (a.skip(1), none));
            },
        }
    }
}

/// A line of the first version of the protocol adds its reference, unless it is there, and its
/// capabilities; other lines add nothing.
pub proof fn theorem_v1_line_adds(
    d: Seq<u8>,
    refs: Seq<TargetedView>,
    caps: Seq<CapabilityView>,
    r: TargetedView,
    more: Seq<CapabilityView>,
)
    ensures
        parse_v1_line(d) == Ok::<(Option<TargetedView>, Seq<CapabilityView>), FetchError>(
            (Some(r), more),
        ) && !refs.contains(r) ==> load_v1((seq![PktView::Line(d)], None), refs, caps) == Ok::<
            (Seq<TargetedView>, Seq<CapabilityView>),
            FetchError,
        >((refs.push(r), caps + more)),
        parse_v1_line(d) == Ok::<(Option<TargetedView>, Seq<CapabilityView>), FetchError>(
            (None, more),
        ) ==> load_v1((seq![PktView::Line(d)], None), refs, caps) == Ok::<
            (Seq<TargetedView>, Seq<CapabilityView>),
            FetchError,
        >((refs, caps + more)),
        load_v1((seq![PktView::Flush], None), refs, caps) == Ok::<
            (Seq<TargetedView>, Seq<CapabilityView>),
            FetchError,
        >((refs, caps)),
{
    reveal_with_fuel(load_v1, 2);
    assert(seq![PktView::Line(d)].skip(1) =~= Seq::empty());
    assert(seq![PktView::Flush].skip(1) =~= Seq::empty());
}

/// The capabilities in lines.
pub open spec fn capabilities_in(lines: Seq<PktView>) -> Seq<CapabilityView> {
    lines.filter(|l: PktView| l is Line).map_values(
        |l: PktView| parse_capability(text_of_bytes(l->Line_0)),
    )
}

/// Lines of the second version of the protocol give a capability each, in their order.
pub proof fn theorem_v2_capabilities(lines: Seq<PktView>, caps: Seq<CapabilityView>)
    ensures
        load_v2_capabilities((lines, None), caps) == Ok::<Seq<CapabilityView>, FetchError>(
            caps + capabilities_in(lines),
        ),
    decreases lines.len(),
{
    let none = None::<PktLineError>;
    let keep = |l: PktView| l is Line;
    reveal(Seq::filter);
    if lines.len() == 0 {
        assert(caps + capabilities_in(lines) =~= caps);
    } else {
        let rest = lines.skip(1);
        let first = lines[0];
        assert(lines =~= seq![first] + rest);
        Seq::filter_distributes_over_add(seq![first], rest, keep);
        let one = seq![first];
        assert(one.drop_last() =~= Seq::empty());
        assert(one.last() == first);
        assert(one.drop_last().filter(keep) =~= Seq::empty());
        assert(after_first((lines, none)) == (rest, none));
        match first {
            PktView::Line(d) => {
                let c = parse_capability(text_of_bytes(d));
                theorem_v2_capabilities(rest, caps.push(c));
                assert(one.filter(keep) =~= one);
                assert(capabilities_in(lines) =~= seq![c] + capabilities_in(rest));
                assert(caps.push(c) + capabilities_in(rest) =~= caps + capabilities_in(lines));
            },
            _ => {
                theorem_v2_capabilities(rest, caps);
                assert(!keep(first));
                assert(one.filter(keep) =~= Seq::empty());
                assert(capabilities_in(lines) =~= capabilities_in(rest));
            },
        }
    }
}

/// Lines of the second version of the protocol are read one after the other: reading some and then
/// more is reading all of them, and one line adds all its references.
pub proof fn theorem_v2_lines_follow(a: Seq<PktView>, b: Stream, refs: Seq<TargetedView>)
    ensures
        load_v2((a + b.0, b.1), refs) == match load_v2((a, None), refs) {
            Ok(r) => load_v2(b, r),
            Err(e) => Err(e),
        },
        forall|d: Seq<u8>| #[trigger]
            load_v2((seq![PktView::Line(d)], None), refs) == match parse_v2_line(d) {
                Ok(more) => Ok(with_refs(refs, more)),
                Err(e) => Err(e),
            },
    decreases a.len(),
{
    let none = None::<PktLineError>;
    if a.len() == 0 {
        assert(a + b.0 =~= b.0);
    } else {
        assert((a + b.0).skip(1) =~= a.skip(1) + b.0);
        assert((a + b.0)[0] == a[0]);
        assert(after_first((a, none)) == (a.skip(1), none));
        match a[0] {
            PktView::Line(d) => {
                if let Ok(more) = parse_v2_line(d) {
                    theorem_v2_lines_follow(a.skip(1), b, with_refs(refs, more));
                }
            },
            _ => {
                theorem_v2_lines_follow(a.skip(1), b, refs);
            },
        }
    }
    assert forall|d: Seq<u8>| #[trigger]
        load_v2((seq![PktView::Line(d)], None), refs) == match parse_v2_line(d) {
            Ok(more) => Ok(with_refs(refs, more)),
            Err(e) => Err(e),
        } by {
        let one = seq![PktView::Line(d)];
        assert(one.skip(1) =~= Seq::empty());
        if let Ok(more) = parse_v2_line(d) {
            assert(load_v2((one.skip(1), none), with_refs(refs, more)) == Ok::<
                Seq<TargetedView>,
                FetchError,
            >(with_refs(refs, more)));
        }
    }
}

proof fn lemma_v2_words(id: Seq<char>, words: Seq<Seq<char>>)
    requires
        !id.contains(' '),
        words.len() > 0,
        forall|i: int| 0 <= i < words.len() ==> !(#[trigger] words[i]).contains(' '),
        has_bare_ends(join(words, seq![' '])),
    ensures
        ({
            let d = encode_utf8(id) + encode_utf8(
                seq![' '] + join(words, seq![' ']) + seq!['\n'],
            );
            parse_v2_line(d) == crate::net::answers::refs_of_words(id, words)
        }),
{
    let line = join(words, seq![' ']);
    let text = seq![' '] + line + seq!['\n'];
    let a = encode_utf8(id);
    let b = encode_utf8(text);
    let d = a + b;
    lemma_no_byte(id, ' ');
    lemma_decode_encode(id);
    lemma_decode_encode(text);
    crate::encoding::lemma_encode_concat(seq![' '], line + seq!['\n']);
    crate::encoding::lemma_encode_ascii_char(' ');
    assert(seq![' '] + (line + seq!['\n']) =~= text);
    let space = a.len() as int;
    assert(d[space] == b[0]);
    assert forall|j: int| 0 <= j < space implies d[j] != 32u8 by {
        assert(d[j] == a[j]);
    }
    lemma_first_index_is(d, 32u8, 0, space);
    assert(d.take(space) =~= a);
    assert(d.skip(space) =~= b);
    assert(is_white(' ') && is_white('\n'));
    theorem_trim(seq![' '], line, seq!['\n']);
    theorem_split_join(words, ' ');
}

/// A line of the second version of the protocol with an ID and the path of a reference is read as
/// that reference with that object; with the target of a tag behind it, as the tag and its target;
/// with the reference that it leads to behind it, as a symbolic one and that reference with that
/// object.
pub proof fn theorem_v2_line_is_read(id: Seq<char>, path: Seq<char>, value: Seq<char>, r: RefView)
    requires
        !id.contains(' '),
        !path.contains(' '),
        !value.contains(' '),
        path.len() > 0,
        has_bare_ends(path),
        value.len() > 0,
        has_bare_ends(value),
        parse_ref(path) == Some(r),
    ensures
        parse_v2_line(encode_utf8(id) + encode_utf8(seq![' '] + path + seq!['\n'])) == Ok::<
            Seq<TargetedView>,
            FetchError,
        >(seq![object_ref(id, r)]),
        r matches RefView::Tag(t) ==> parse_v2_line(
            encode_utf8(id) + encode_utf8(
                seq![' '] + (path + seq![' '] + ("peeled:"@ + value)) + seq!['\n'],
            ),
        ) == Ok::<Seq<TargetedView>, FetchError>(
            seq![
                object_ref(value, RefView::Tag(TagView { name: t.name, peeled: true })),
                object_ref(id, r),
            ],
        ),
        parse_ref(value) matches Some(to) ==> parse_v2_line(
            encode_utf8(id) + encode_utf8(
                seq![' '] + (path + seq![' '] + ("symref-target:"@ + value)) + seq!['\n'],
            ),
        ) == Ok::<Seq<TargetedView>, FetchError>(
            seq![
                TargetedView { target: TargetView::SymbolicRef(to), spec: r },
                object_ref(id, to),
            ],
        ),
{
    lemma_v2_words(id, seq![path]);
    lemma_v2_pair(id, path, "peeled:"@, value);
    lemma_v2_pair(id, path, "symref-target:"@, value);
    reveal_strlit("peeled:");
    reveal_strlit("symref-target:");
    let p = "peeled:"@ + value;
    let s = "symref-target:"@ + value;
    assert(p.take(7) =~= "peeled:"@);
    assert(p.skip(7) =~= value);
    assert(s.take(14) =~= "symref-target:"@);
    assert(s.skip(14) =~= value);
    assert(!starts_with(s, "peeled:"@)) by {
        assert(s[0] == 's');
        if starts_with(s, "peeled:"@) {
            assert(s.take(7)[0] == s[0]);
        }
    }
}

proof fn lemma_v2_pair(id: Seq<char>, path: Seq<char>, word: Seq<char>, value: Seq<char>)
    requires
        !id.contains(' '),
        !path.contains(' '),
        !value.contains(' '),
        path.len() > 0,
        has_bare_ends(path),
        value.len() > 0,
        has_bare_ends(value),
        word == "peeled:"@ || word == "symref-target:"@,
    ensures
        parse_v2_line(
            encode_utf8(id) + encode_utf8(
                seq![' '] + (path + seq![' '] + (word + value)) + seq!['\n'],
            ),
        ) == crate::net::answers::refs_of_words(id, seq![path, word + value]),
{
    let second = word + value;
    let words = seq![path, second];
    reveal_strlit("peeled:");
    reveal_strlit("symref-target:");
    assert(!second.contains(' ')) by {
        if second.contains(' ') {
            let i = choose|i: int| 0 <= i < second.len() && second[i] == ' ';
            if i >= word.len() {
                assert(value[i - word.len()] == ' ');
                assert(value.contains(' '));
            }
        }
    }
    let line = join(words, seq![' ']);
    assert(words.drop_first() =~= seq![second]);
    assert(join(seq![second], seq![' ']) == second);
    assert(line =~= path + seq![' '] + second);
    assert(line[0] == path[0]);
    assert(line.last() == value.last());
    lemma_v2_words(id, words);
}

/// The line that acknowledges an object.
pub open spec fn ack_line(id: Seq<char>) -> PktView {
    text_line("ACK "@ + id + "\n"@)
}

proof fn lemma_ack_line(id: Seq<char>)
    requires
        id.len() > 0,
        has_bare_ends(id),
    ensures
        acknowledged(text_of_bytes(ack_line(id)->Line_0)) == Some(id),
        ack_line(id)->Line_0 != encode_utf8("NAK\n"@),
{
    let text = "ACK "@ + id + "\n"@;
    let bare = "ACK "@ + id;
    reveal_strlit("ACK ");
    reveal_strlit("\n");
    reveal_strlit("NAK\n");
    lemma_decode_encode(text);
    lemma_decode_encode("NAK\n"@);
    assert(text[0] == 'A');
    assert("NAK\n"@[0] == 'N');
    assert(bare.last() == id.last());
    assert(is_white('\n'));
    assert("\n"@ =~= seq!['\n']);
    theorem_trim(Seq::empty(), bare, seq!['\n']);
    assert(Seq::<char>::empty() + bare + seq!['\n'] =~= text);
    assert(bare.take(4) =~= "ACK "@);
    assert(bare.skip(4) =~= id);
}

/// The objects that a server acknowledges are all those in its lines, in their order, up to the
/// line that ends them; what follows is left.
pub proof fn theorem_acknowledged_objects_are_read(
    ids: Seq<Seq<char>>,
    acked: Seq<Seq<char>>,
    end: PktView,
    rest: Stream,
)
    requires
        !(end is Line),
        forall|i: int|
            0 <= i < ids.len() ==> (#[trigger] ids[i]).len() > 0 && has_bare_ends(ids[i]),
    ensures
        read_acks(
            (ids.map_values(|id: Seq<char>| ack_line(id)) + seq![end] + rest.0, rest.1),
            acked,
        ) == Ok::<(Seq<Seq<char>>, Stream), FetchError>((acked + ids, rest)),
    decreases ids.len(),
{
    let lines = ids.map_values(|id: Seq<char>| ack_line(id)) + seq![end] + rest.0;
    let s = (lines, rest.1);
    if ids.len() == 0 {
        assert(lines[0] == end);
        assert(lines.skip(1) =~= rest.0);
        assert(acked + ids =~= acked);
    } else {
        let more = ids.skip(1);
        assert forall|i: int| 0 <= i < more.len() implies (#[trigger] more[i]).len() > 0
            && has_bare_ends(more[i]) by {
            assert(ids[i + 1].len() > 0 && has_bare_ends(ids[i + 1]));
        }
        assert(ids[0].len() > 0 && has_bare_ends(ids[0]));
        lemma_ack_line(ids[0]);
        theorem_acknowledged_objects_are_read(more, acked.push(ids[0]), end, rest);
        assert(lines[0] == ack_line(ids[0]));
        assert(lines.skip(1) =~= more.map_values(|id: Seq<char>| ack_line(id)) + seq![end]
            + rest.0);
        assert(acked.push(ids[0]) + more =~= acked + ids);
    }
}

/// A line that says that nothing is acknowledged acknowledges nothing.
pub proof fn theorem_nothing_acknowledged(acked: Seq<Seq<char>>, rest: Stream)
    ensures
        read_acks((seq![text_line("NAK\n"@)] + rest.0, rest.1), acked) == read_acks(rest, acked),
{
    let lines = seq![text_line("NAK\n"@)] + rest.0;
    assert(lines.skip(1) =~= rest.0);
    assert(lines[0] == text_line("NAK\n"@));
}

proof fn lemma_section_words()
    ensures
        encode_utf8("acknowledgements\n"@) != encode_utf8("packfile\n"@),
        encode_utf8("acknowledgements\n"@) != encode_utf8("ready\n"@),
        encode_utf8("packfile\n"@) != encode_utf8("ready\n"@),
{
    reveal_strlit("acknowledgements\n");
    reveal_strlit("packfile\n");
    reveal_strlit("ready\n");
    lemma_decode_encode("acknowledgements\n"@);
    lemma_decode_encode("packfile\n"@);
    lemma_decode_encode("ready\n"@);
    assert("acknowledgements\n"@[0] == 'a');
    assert("packfile\n"@[0] == 'p');
    assert("ready\n"@[0] == 'r');
}

/// The pack is what follows the line that announces it, whatever was acknowledged before.
pub proof fn theorem_pack_is_what_follows(
    rest: Stream,
    acked: Seq<Seq<char>>,
    found: bool,
    ready: bool,
)
    ensures
        read_response(
            (seq![text_line("packfile\n"@)] + rest.0, rest.1),
            acked,
            found,
            ready,
        ) == Ok::<ResponseView, FetchError>(ResponseView::Pack(rest)),
{
    let lines = seq![text_line("packfile\n"@)] + rest.0;
    lemma_section_words();
    assert(lines.skip(1) =~= rest.0);
    assert(lines[0] == text_line("packfile\n"@));
}

/// An answer with acknowledgements and nothing else gives the acknowledged objects, and says
/// whether the server is ready.
pub proof fn theorem_acknowledgements_are_read(ids: Seq<Seq<char>>, end: PktView)
    requires
        !(end is Line),
        forall|i: int|
            0 <= i < ids.len() ==> (#[trigger] ids[i]).len() > 0 && has_bare_ends(ids[i]),
    ensures
        ({
            let none = Seq::<Seq<char>>::empty();
            let acks = ids.map_values(|id: Seq<char>| ack_line(id)) + seq![end];
            let start = seq![text_line("acknowledgements\n"@)];
            let ready = seq![text_line("ready\n"@)];
            &&& read_response((start + acks, None), none, false, false) == Ok::<
                ResponseView,
                FetchError,
            >(ResponseView::InfoNeeded(ids))
            &&& read_response((start + acks + ready, None), none, false, false) == Ok::<
                ResponseView,
                FetchError,
            >(ResponseView::Ready(ids))
        }),
{
    let none = Seq::<Seq<char>>::empty();
    let no_error = None::<PktLineError>;
    let acks = ids.map_values(|id: Seq<char>| ack_line(id)) + seq![end];
    let start = seq![text_line("acknowledgements\n"@)];
    let ready = seq![text_line("ready\n"@)];
    let nothing = Seq::<PktView>::empty();
    lemma_section_words();
    assert(none + ids =~= ids);
    theorem_acknowledged_objects_are_read(ids, none, end, (nothing, no_error));
    assert(acks + nothing =~= acks);
    assert((start + acks).skip(1) =~= acks);
    assert((start + acks)[0] == start[0]);
    assert(read_response((nothing, no_error), ids, true, false) == Ok::<ResponseView, FetchError>(
        ResponseView::InfoNeeded(ids),
    ));
    theorem_acknowledged_objects_are_read(ids, none, end, (ready, no_error));
    assert((start + acks + ready).skip(1) =~= acks + ready);
    assert((start + acks + ready)[0] == start[0]);
    assert(ready.skip(1) =~= nothing);
    assert(read_response((nothing, no_error), ids, true, true) == Ok::<ResponseView, FetchError>(
        ResponseView::Ready(ids),
    ));
    assert(read_response((ready, no_error), ids, true, false) == Ok::<ResponseView, FetchError>(
        ResponseView::Ready(ids),
    ));
}

/// What is passed over is all that comes up to the next line that is not an ordinary one, and that
/// line.
pub proof fn theorem_ordinary_lines_are_passed_over(
    lines: Seq<PktView>,
    end: PktView,
    rest: Stream,
)
    requires
        forall|i: int| 0 <= i < lines.len() ==> #[trigger] lines[i] is Line,
        !(end is Line),
    ensures
        skipped((lines + seq![end] + rest.0, rest.1)) == Ok::<Stream, PktLineError>(rest),
    decreases lines.len(),
{
    let all = lines + seq![end] + rest.0;
    if lines.len() == 0 {
        assert(all[0] == end);
        assert(all.skip(1) =~= rest.0);
    } else {
        let more = lines.skip(1);
        assert forall|i: int| 0 <= i < more.len() implies #[trigger] more[i] is Line by {
            assert(lines[i + 1] is Line);
        }
        theorem_ordinary_lines_are_passed_over(more, end, rest);
        assert(lines[0] is Line);
        assert(all[0] == lines[0]);
        assert(all.skip(1) =~= more + seq![end] + rest.0);
    }
}

/// The values of a capability are those of the first one with its key, and there are none where no
/// capability has it.
pub proof fn theorem_capability_values(s: Seq<CapabilityView>, key: Seq<char>, i: int)
    ensures
        0 <= i < s.len() && s[i].key == key && (forall|j: int|
            0 <= j < i ==> (#[trigger] s[j]).key != key) ==> capability_values(s, key) == Some(
            s[i].values,
        ),
        (forall|j: int| 0 <= j < s.len() ==> (#[trigger] s[j]).key != key) ==> capability_values(
            s,
            key,
        ) is None,
{
    if 0 <= i < s.len() && s[i].key == key && (forall|j: int|
        0 <= j < i ==> (#[trigger] s[j]).key != key) {
        lemma_capability_index(s, key, i);
    }
    if forall|j: int| 0 <= j < s.len() ==> (#[trigger] s[j]).key != key {
        lemma_capability_index(s, key, s.len() as int);
    }
}

proof fn lemma_capability_index(s: Seq<CapabilityView>, key: Seq<char>, i: int)
    requires
        0 <= i <= s.len(),
        i < s.len() ==> s[i].key == key,
        forall|j: int| 0 <= j < i ==> (#[trigger] s[j]).key != key,
    ensures
        capability_index(s, key) == i,
    decreases s.len(),
{
    if i > 0 {
        let rest = s.drop_first();
        assert(s[0].key != key);
        assert forall|j: int| 0 <= j < i - 1 implies (#[trigger] rest[j]).key != key by {
            assert(s[j + 1].key != key);
        }
        lemma_capability_index(rest, key, i - 1);
    }
}

/// A capability is read as it is written.
pub proof fn theorem_capability_is_read(c: CapabilityView)
    requires
        c.key.len() > 0,
        !c.key.contains('='),
        has_bare_ends(c.key),
        forall|i: int| 0 <= i < c.values.len() ==> !(#[trigger] c.values[i]).contains(' '),
        c.values.len() > 0 ==> join(c.values, seq![' ']).len() > 0 && has_bare_ends(
            join(c.values, seq![' ']),
        ),
    ensures
        parse_capability(capability_text(c)) == c,
{
    let text = capability_text(c);
    let none = Seq::<char>::empty();
    let n = c.key.len() as int;
    reveal_strlit("=");
    reveal_strlit(" ");
    assert("="@ =~= seq!['=']);
    assert(" "@ =~= seq![' ']);
    assert forall|j: int| 0 <= j < n implies c.key[j] != '=' by {
        if c.key[j] == '=' {
            assert(c.key.contains('='));
        }
    }
    assert(none + text + none =~= text);
    if c.values.len() == 0 {
        theorem_trim(none, text, none);
        lemma_first_index_is(text, '=', 0, n);
        assert(c.values =~= Seq::empty());
    } else {
        let list = join(c.values, seq![' ']);
        assert(text[0] == c.key[0]);
        assert(text.last() == list.last());
        theorem_trim(none, text, none);
        assert(text[n] == '=');
        assert forall|j: int| 0 <= j < n implies text[j] != '=' by {
            assert(text[j] == c.key[j]);
        }
        lemma_first_index_is(text, '=', 0, n);
        assert(text.take(n) =~= c.key);
        assert(text.skip(n + 1) =~= list);
        assert(none + list + none =~= list);
        theorem_trim(none, list, none);
        theorem_split_join(c.values, ' ');
    }
}

/// A line on the first channel adds what follows the number of the channel to the data, one on the
/// second to the messages, and one on the third is the error that ends the transfer.
pub proof fn theorem_channels(contents: Seq<u8>, rest: Stream)
    ensures
        transfer((seq![PktView::Line(seq![1u8] + contents)] + rest.0, rest.1)) == (Transfer {
            data: contents + transfer(rest).data,
            messages: transfer(rest).messages,
            end: transfer(rest).end,
        }),
        transfer((seq![PktView::Line(seq![2u8] + contents)] + rest.0, rest.1)) == (Transfer {
            data: transfer(rest).data,
            messages: seq![contents] + transfer(rest).messages,
            end: transfer(rest).end,
        }),
        transfer((seq![PktView::Line(seq![3u8] + contents)] + rest.0, rest.1)) == (Transfer {
            data: Seq::empty(),
            messages: seq![contents],
            end: TransferEnd::Remote(text_of_bytes(contents)),
        }),
        transfer((seq![PktView::Flush] + rest.0, rest.1)) == (Transfer {
            data: Seq::empty(),
            messages: Seq::empty(),
            end: TransferEnd::Finished,
        }),
{
    let a = seq![1u8] + contents;
    let b = seq![2u8] + contents;
    let c = seq![3u8] + contents;
    assert(a.skip(1) =~= contents);
    assert(b.skip(1) =~= contents);
    assert(c.skip(1) =~= contents);
    assert((seq![PktView::Line(a)] + rest.0).skip(1) =~= rest.0);
    assert((seq![PktView::Line(b)] + rest.0).skip(1) =~= rest.0);
}

/// The answer with which a server offers its references.
pub open spec fn offer(first: PktView, rest: Seq<PktView>) -> Seq<PktView> {
    seq![text_line("# service=git-upload-pack\n"@), PktView::Flush, first] + rest
}

proof fn lemma_offer(first: PktView, rest: Stream)
    ensures
        read_header((offer(first, rest.0), rest.1)) == Ok::<
            (ProtocolVersion, PktView, Stream),
            FetchError,
        >(
            (
                if first == text_line("version 2\n"@) {
                    ProtocolVersion::V2
                } else {
                    ProtocolVersion::V1
                },
                first,
                rest,
            ),
        ),
{
    let all = offer(first, rest.0);
    let s = (all, rest.1);
    assert(all[0] == text_line("# service=git-upload-pack\n"@));
    assert(all.skip(1)[0] == PktView::Flush);
    assert(all.skip(1).skip(1)[0] == first);
    assert(all.skip(1).skip(1).skip(1) =~= rest.0);
}

/// A server that answers in the second version of the protocol is asked for its references later:
/// what it offers is a capability for each line behind the version.
pub proof fn theorem_second_version_is_read(lines: Seq<PktView>, asked: Option<ProtocolVersion>)
    requires
        asked is None || asked == Some(ProtocolVersion::V2),
    ensures
        read_discovery((offer(text_line("version 2\n"@), lines), None), asked) == Ok::<
            DiscoveryView,
            FetchError,
        >(DiscoveryView::Second(capabilities_in(lines))),
{
    lemma_offer(text_line("version 2\n"@), (lines, None));
    theorem_v2_capabilities(lines, Seq::empty());
    assert(Seq::<CapabilityView>::empty() + capabilities_in(lines) =~= capabilities_in(lines));
}

/// A server that answers otherwise offers its references at once: what it offers is read from the
/// line behind the header and from those that follow.
pub proof fn theorem_first_version_is_read(
    first: PktView,
    rest: Stream,
    asked: Option<ProtocolVersion>,
)
    requires
        asked is None || asked == Some(ProtocolVersion::V1),
        first != text_line("version 2\n"@),
    ensures
        read_discovery((offer(first, rest.0), rest.1), asked) == match load_v1(
            (seq![first] + rest.0, rest.1),
            Seq::empty(),
            Seq::empty(),
        ) {
            Ok((refs, caps)) => Ok(DiscoveryView::First(refs, caps)),
            Err(e) => Err(e),
        },
{
    lemma_offer(first, rest);
}

/// An answer in another version than was asked for is refused.
pub proof fn theorem_other_version_is_refused(first: PktView, rest: Stream)
    ensures
        read_discovery(
            (offer(text_line("version 2\n"@), rest.0), rest.1),
            Some(ProtocolVersion::V1),
        ) == Err::<DiscoveryView, FetchError>(FetchError::WrongVersion),
        first != text_line("version 2\n"@) ==> read_discovery(
            (offer(first, rest.0), rest.1),
            Some(ProtocolVersion::V2),
        ) == Err::<DiscoveryView, FetchError>(FetchError::WrongVersion),
{
    lemma_offer(text_line("version 2\n"@), rest);
    lemma_offer(first, rest);
}

/// A request for a pack starts with its command, has a line for each object that is wanted and for
/// each one that is here, says that there is nothing more to say where that is so, and ends with a
/// flush.
pub proof fn theorem_fetch_request(
    capabilities: Seq<CapabilityView>,
    version: Seq<char>,
    wants: Seq<Seq<char>>,
    haves: Seq<Seq<char>>,
    done: bool,
    id: Seq<char>,
)
    ensures
        ({
            let lines = fetch_lines(capabilities, version, wants, haves, done);
            &&& lines[0] == text_line("command=fetch\n"@)
            &&& wants.contains(id) ==> lines.contains(text_line("want "@ + id + "\n"@))
            &&& haves.contains(id) ==> lines.contains(text_line("have "@ + id + "\n"@))
            &&& done ==> lines.contains(text_line("done\n"@))
            &&& lines.last() == PktView::Flush
            &&& lines.len() == wants.len() + haves.len() + (if done {
                1int
            } else {
                0
            }) + (if capability_values(capabilities, "agent"@) is Some {
                1int
            } else {
                0
            }) + 5
        }),
{
    let lines = fetch_lines(capabilities, version, wants, haves, done);
    let head = command_lines(capabilities, "command=fetch\n"@, version);
    let a: int = head.len() + 2int;
    if wants.contains(id) {
        let i = choose|i: int| 0 <= i < wants.len() && wants[i] == id;
        assert(lines[a + i] == text_line("want "@ + id + "\n"@));
    }
    if haves.contains(id) {
        let i = choose|i: int| 0 <= i < haves.len() && haves[i] == id;
        assert(lines[a + wants.len() + i] == text_line("have "@ + id + "\n"@));
    }
    if done {
        assert(lines[a + wants.len() + haves.len()] == text_line("done\n"@));
    }
    assert(lines[0] == head[0]);
}

/// A section of an answer that is not known is passed over as a whole; an answer that ends without
/// a pack and without acknowledgements is refused.
pub proof fn theorem_unknown_sections_are_passed_over(
    name: Seq<u8>,
    lines: Seq<PktView>,
    end: PktView,
    rest: Stream,
    acked: Seq<Seq<char>>,
    found: bool,
    ready: bool,
)
    requires
        name != encode_utf8("acknowledgements\n"@),
        name != encode_utf8("packfile\n"@),
        name != encode_utf8("ready\n"@),
        forall|i: int| 0 <= i < lines.len() ==> #[trigger] lines[i] is Line,
        !(end is Line),
    ensures
        read_response(
            (seq![PktView::Line(name)] + (lines + seq![end] + rest.0), rest.1),
            acked,
            found,
            ready,
        ) == read_response(rest, acked, found, ready),
        read_response((Seq::empty(), None), acked, false, ready) == Err::<ResponseView, FetchError>(
            FetchError::NoPackNoAcknowledgements,
        ),
{
    let more = lines + seq![end] + rest.0;
    let all = seq![PktView::Line(name)] + more;
    assert(all[0] == PktView::Line(name));
    assert(all.skip(1) =~= more);
    theorem_ordinary_lines_are_passed_over(lines, end, rest);
}

/// A line without a channel of its own is data as a whole.
pub proof fn theorem_line_without_channel(contents: Seq<u8>, rest: Stream)
    requires
        contents.len() > 0 ==> contents[0] == 0 || contents[0] > 3,
    ensures
        transfer((seq![PktView::Line(contents)] + rest.0, rest.1)) == (Transfer {
            data: contents + transfer(rest).data,
            messages: transfer(rest).messages,
            end: transfer(rest).end,
        }),
{
    let all = seq![PktView::Line(contents)] + rest.0;
    assert(all.skip(1) =~= rest.0);
    assert(all[0] == PktView::Line(contents));
}

/// A line without a space, or with something else than an ID before it, is refused.
pub proof fn theorem_lines_without_id_are_refused(text: Seq<char>, path: Seq<u8>)
    requires
        !text.contains(' '),
    ensures
        parse_v1_line(encode_utf8(text)) == Err::<
            (Option<TargetedView>, Seq<CapabilityView>),
            FetchError,
        >(FetchError::NoSpace),
        parse_v2_line(encode_utf8(text)) == Err::<Seq<TargetedView>, FetchError>(
            FetchError::NoSpace,
        ),
        !partial_id(text) ==> parse_v1_line(encode_utf8(text) + seq![32u8] + path) == Err::<
            (Option<TargetedView>, Seq<CapabilityView>),
            FetchError,
        >(FetchError::InvalidTargetId),
{
    let a = encode_utf8(text);
    let d = a + seq![32u8] + path;
    lemma_no_byte(text, ' ');
    lemma_decode_encode(text);
    lemma_first_index_is(a, 32u8, 0, a.len() as int);
    assert(d[a.len() as int] == 32u8);
    assert forall|j: int| 0 <= j < a.len() implies d[j] != 32u8 by {
        assert(d[j] == a[j]);
    }
    lemma_first_index_is(d, 32u8, 0, a.len() as int);
    assert(d.take(a.len() as int) =~= a);
}

/// Where the objects that were sent are not enough, twice as many are sent while they are few, and
/// four hundred more once they are many; there are always more until no more can be counted.
pub proof fn theorem_more_objects_are_sent(n: int)
    requires
        0 < n <= usize::MAX,
    ensures
        n < 400 ==> next_level(n) == 2 * n,
        400 <= n <= usize::MAX - 400 ==> next_level(n) == n + 400,
        n < usize::MAX ==> n < next_level(n) <= usize::MAX,
{
}

/// A request for the references starts with its command, asks for what symbolic ones and tags lead
/// to, and ends with a flush.
pub proof fn theorem_references_request(
    capabilities: Seq<CapabilityView>,
    version: Seq<char>,
    unborn: bool,
)
    ensures
        ({
            let lines = ls_refs_lines(capabilities, version, unborn);
            &&& lines[0] == text_line("command=ls-refs\n"@)
            &&& lines.contains(text_line("symrefs\n"@))
            &&& lines.contains(text_line("peel\n"@))
            &&& unborn ==> lines.contains(text_line("unborn\n"@))
            &&& lines.last() == PktView::Flush
        }),
{
    let lines = ls_refs_lines(capabilities, version, unborn);
    let head = command_lines(capabilities, "command=ls-refs\n"@, version);
    let n = head.len() as int;
    assert(lines[0] == head[0]);
    assert(lines[n] == text_line("symrefs\n"@));
    assert(lines[n + 1] == text_line("peel\n"@));
    if unborn {
        assert(lines[n + 2] == text_line("unborn\n"@));
    }
}

} // verus!
