//! What a client reads from the answers of a server.

use vstd::prelude::*;
use vstd::slice::slice_subrange;
use vstd::utf8::{decode_utf8, encode_utf8, valid_utf8};

use crate::interop::{lossy_string, text_of_bytes, utf8_string};
use crate::net::client::{
    capability_views, parse_capability, text_line, CapabilityView, FetchError, ProtocolVersion,
    RemoteCapability,
};
use crate::net::{
    after_first, skipped, stream_next, stream_rest, PktLine, PktLineIterator, PktView, Stream,
};
use crate::objects::same_bytes;
use crate::repo::{is_partial_object_id, partial_id};
use crate::stores::{
    parse_ref, RefSpec, RefTarget, RefView, TagView, TargetView, TargetedRef, TargetedView,
};
use crate::text::{
    chars_of, find_byte, first_index, split_chars, split_on, starts_with, strip_prefix, texts, trim,
    trim_chars,
};

verus! {

broadcast use vstd::string::group_string_axioms;

/// What a server has: its references, each once.
pub struct RemoteServerInfo {
    /// The references and what they lead to.
    pub refs: Vec<TargetedRef>,
}

/// What references and their targets are.
pub open spec fn targeted_views(s: Seq<TargetedRef>) -> Seq<TargetedView> {
    s.map_values(|t: TargetedRef| t@)
}

/// References and one more, unless it is among them.
pub open spec fn with_ref(refs: Seq<TargetedView>, r: TargetedView) -> Seq<TargetedView> {
    if refs.contains(r) {
        refs
    } else {
        refs.push(r)
    }
}

/// References and those of a list that are not among them.
pub open spec fn with_refs(refs: Seq<TargetedView>, more: Seq<TargetedView>) -> Seq<TargetedView>
    decreases more.len(),
{
    if more.len() == 0 {
        refs
    } else {
        with_ref(with_refs(refs, more.drop_last()), more.last())
    }
}

fn add_ref(refs: &mut Vec<TargetedRef>, r: TargetedRef)
    ensures
        targeted_views(final(refs)@) == with_ref(targeted_views(old(refs)@), r@),
{
    let ghost before = targeted_views(refs@);
    let mut i: usize = 0;
    while i < refs.len()
        invariant
            i <= refs@.len(),
            before == targeted_views(refs@),
            *refs == *old(refs),
            forall|j: int| 0 <= j < i ==> (#[trigger] before[j]) != r@,
        decreases refs@.len() - i,
    {
        if refs[i].same(&r) {
            assert(before[i as int] == r@);
            return;
        }
        assert(before[i as int] == refs@[i as int]@);
        i = i + 1;
    }
    refs.push(r);
    assert(targeted_views(refs@) =~= before.push(r@));
}

fn add_refs(refs: &mut Vec<TargetedRef>, more: Vec<TargetedRef>)
    ensures
        targeted_views(final(refs)@) == with_refs(
            targeted_views(old(refs)@),
            targeted_views(more@),
        ),
{
    let ghost before = targeted_views(refs@);
    let ghost all = targeted_views(more@);
    let mut i: usize = 0;
    assert(all.take(0) =~= Seq::empty());
    while i < more.len()
        invariant
            i <= more@.len(),
            all == targeted_views(more@),
            targeted_views(refs@) == with_refs(before, all.take(i as int)),
        decreases more@.len() - i,
    {
        assert(all.take(i + 1).drop_last() =~= all.take(i as int));
        assert(all.take(i + 1).last() == more@[i as int]@);
        add_ref(refs, more[i].clone());
        i = i + 1;
    }
    assert(all.take(i as int) =~= all);
}

/// Where the text of a line ends: before a line feed, if there is one at the end.
pub open spec fn text_end(d: Seq<u8>) -> int {
    if d.len() > 0 && d.last() == 0xa {
        d.len() - 1
    } else {
        d.len() as int
    }
}

/// The reference and the capabilities in a line of the first version of the protocol: an object
/// ID, a space, the path of the reference, and behind a NUL byte the capabilities.
pub open spec fn parse_v1_line(d: Seq<u8>) -> Result<
    (Option<TargetedView>, Seq<CapabilityView>),
    FetchError,
> {
    let space = first_index(d, 32u8, 0);
    let nul = first_index(d, 0u8, 0);
    let end = if nul < d.len() {
        nul
    } else {
        text_end(d)
    };
    let caps = d.subrange(nul + 1, text_end(d));
    let path = d.subrange(space + 1, end);
    if space >= d.len() {
        Err(FetchError::NoSpace)
    } else if !valid_utf8(d.take(space)) || !partial_id(decode_utf8(d.take(space))) {
        Err(FetchError::InvalidTargetId)
    } else if nul < d.len() && !valid_utf8(caps) {
        Err(FetchError::NotUtf8)
    } else if !valid_utf8(path) {
        Err(FetchError::NotUtf8)
    } else {
        Ok(
            (
                match parse_ref(decode_utf8(path)) {
                    Some(spec) => Some(
                        TargetedView {
                            target: TargetView::Object(decode_utf8(d.take(space))),
                            spec,
                        },
                    ),
                    None => None,
                },
                if nul < d.len() {
                    parse_capabilities(split_on(decode_utf8(caps), ' '))
                } else {
                    Seq::empty()
                },
            ),
        )
    }
}

/// The capabilities that texts stand for.
pub open spec fn parse_capabilities(list: Seq<Seq<char>>) -> Seq<CapabilityView> {
    list.map_values(|s: Seq<char>| parse_capability(s))
}

fn capabilities_of(list: &[String]) -> (r: Vec<RemoteCapability>)
    ensures
        capability_views(r@) == parse_capabilities(texts(list@)),
{
    let mut out: Vec<RemoteCapability> = Vec::new();
    let mut i: usize = 0;
    while i < list.len()
        invariant
            i <= list@.len(),
            out@.len() == i,
            forall|j: int| 0 <= j < i ==> (#[trigger] out@[j])@ == parse_capability(list@[j]@),
        decreases list@.len() - i,
    {
        out.push(RemoteCapability::from_str(list[i].as_str()));
        i = i + 1;
    }
    assert(capability_views(out@) =~= parse_capabilities(texts(list@)));
    out
}

proof fn lemma_hex_bytes_have_no_nul(d: Seq<u8>)
    requires
        valid_utf8(d),
        partial_id(decode_utf8(d)),
    ensures
        forall|i: int| 0 <= i < d.len() ==> #[trigger] d[i] != 0,
{
    let text = decode_utf8(d);
    assert forall|i: int| 0 <= i < text.len() implies (#[trigger] text[i] as u32) < 128 by {
        assert(crate::repo::is_lower_hex(text[i]));
    }
    crate::encoding::lemma_encode_ascii(text);
    vstd::utf8::decode_utf8_encode_utf8(d);
    assert forall|i: int| 0 <= i < d.len() implies #[trigger] d[i] != 0 by {
        assert(crate::repo::is_lower_hex(text[i]));
        assert(d[i] == text[i] as u8);
    }
}

/// The reference and the capabilities in a line of the first version of the protocol.
pub fn load_single_v1_refs_capabilities_line(line: &[u8]) -> (r: Result<
    (Option<TargetedRef>, Vec<RemoteCapability>),
    FetchError,
>)
    ensures
        match r {
            Ok((target, caps)) => parse_v1_line(line@) == Ok::<
                (Option<TargetedView>, Seq<CapabilityView>),
                FetchError,
            >(
                (
                    match target {
                        Some(t) => Some(t@),
                        None => None,
                    },
                    capability_views(caps@),
                ),
            ),
            Err(e) => parse_v1_line(line@) == Err::<
                (Option<TargetedView>, Seq<CapabilityView>),
                FetchError,
            >(e),
        },
{
    let n: usize = line.len();
    let space: usize = find_byte(line, 32, 0);
    if space >= n {
        return Err(FetchError::NoSpace);
    }
    let id_bytes = slice_subrange(line, 0, space);
    assert(id_bytes@ =~= line@.take(space as int));
    let target_id = match utf8_string(id_bytes) {
        Some(id) => id,
        None => {
            return Err(FetchError::InvalidTargetId);
        },
    };
    if !is_partial_object_id(target_id.as_str()) {
        return Err(FetchError::InvalidTargetId);
    }
    proof {
        lemma_hex_bytes_have_no_nul(id_bytes@);
        crate::text::lemma_first_index(line@, 32u8, 0);
        crate::text::lemma_first_index(line@, 0u8, 0);
    }
    let end: usize = if line[n - 1] == 0xa {
        n - 1
    } else {
        n
    };
    let nul: usize = find_byte(line, 0, 0);
    proof {
        if nul < space {
            assert(id_bytes@[nul as int] == line@[nul as int]);
        }
    }
    let mut caps: Vec<RemoteCapability> = Vec::new();
    assert(capability_views(caps@) =~= Seq::empty());
    let mut path_end: usize = end;
    if nul < n {
        let cap_list = match utf8_string(slice_subrange(line, nul + 1, end)) {
            Some(text) => text,
            None => {
                return Err(FetchError::NotUtf8);
            },
        };
        let cs = chars_of(cap_list.as_str());
        let parts = split_chars(&cs, ' ');
        caps = capabilities_of(parts.as_slice());
        path_end = nul;
    }
    let path = match utf8_string(slice_subrange(line, space + 1, path_end)) {
        Some(text) => text,
        None => {
            return Err(FetchError::NotUtf8);
        },
    };
    match RefSpec::from_str(path.as_str()) {
        Ok(spec) => Ok(
            (Some(TargetedRef { target: RefTarget::Object(target_id), spec }), caps),
        ),
        Err(_) => Ok((None, caps)),
    }
}

/// What a list of references and capabilities is after some lines of the first version of the
/// protocol.
pub open spec fn load_v1(s: Stream, refs: Seq<TargetedView>, caps: Seq<CapabilityView>) -> Result<
    (Seq<TargetedView>, Seq<CapabilityView>),
    FetchError,
>
    decreases s.0.len(),
{
    if s.0.len() == 0 {
        match s.1 {
            Some(e) => Err(FetchError::Line(e)),
            None => Ok((refs, caps)),
        }
    } else {
        match s.0[0] {
            PktView::Line(d) => match parse_v1_line(d) {
                Err(e) => Err(e),
                Ok((target, more)) => load_v1(
                    after_first(s),
                    match target {
                        Some(t) => with_ref(refs, t),
                        None => refs,
                    },
                    caps + more,
                ),
            },
            _ => load_v1(after_first(s), refs, caps),
        }
    }
}

proof fn lemma_caps_append(a: Seq<RemoteCapability>, b: Seq<RemoteCapability>)
    ensures
        capability_views(a + b) == capability_views(a) + capability_views(b),
{
    assert(capability_views(a + b) =~= capability_views(a) + capability_views(b));
}

/// The references and capabilities in an answer of the first version of the protocol, whose
/// first line has been read already.
pub fn load_refs_capabilities_body_v1(first_line: PktLine, lines: PktLineIterator) -> (r: Result<
    (RemoteServerInfo, Vec<RemoteCapability>),
    FetchError,
>)
    requires
        lines.wf(),
    ensures
        ({
            let all = (seq![first_line@] + lines.stream().0, lines.stream().1);
            match r {
                Ok((info, caps)) => load_v1(all, Seq::empty(), Seq::empty()) == Ok::<
                    (Seq<TargetedView>, Seq<CapabilityView>),
                    FetchError,
                >((targeted_views(info.refs@), capability_views(caps@))),
                Err(e) => load_v1(all, Seq::empty(), Seq::empty()) == Err::<
                    (Seq<TargetedView>, Seq<CapabilityView>),
                    FetchError,
                >(e),
            }
        }),
{
    let mut left = lines;
    let mut refs: Vec<TargetedRef> = Vec::new();
    let mut caps: Vec<RemoteCapability> = Vec::new();
    let mut next = first_line;
    assert(targeted_views(refs@) =~= Seq::empty());
    assert(capability_views(caps@) =~= Seq::empty());
    loop
        invariant
            left.wf(),
            load_v1(
                (seq![first_line@] + lines.stream().0, lines.stream().1),
                Seq::empty(),
                Seq::empty(),
            ) == load_v1(
                (seq![next@] + left.stream().0, left.stream().1),
                targeted_views(refs@),
                capability_views(caps@),
            ),
        decreases left.remaining(),
    {
        let ghost s = (seq![next@] + left.stream().0, left.stream().1);
        let ghost before = (targeted_views(refs@), capability_views(caps@));
        assert(after_first(s).0 =~= left.stream().0);
        if let PktLine::Line(content) = &next {
            match load_single_v1_refs_capabilities_line(content.as_slice()) {
                Err(e) => {
                    return Err(e);
                },
                Ok((target, mut more)) => {
                    proof {
                        lemma_caps_append(caps@, more@);
                    }
                    if let Some(t) = target {
                        add_ref(&mut refs, t);
                    }
                    caps.append(&mut more);
                },
            }
        }
        let ghost rest = left.stream();
        assert(after_first(s) == rest);
        assert(load_v1(s, before.0, before.1) == load_v1(
            rest,
            targeted_views(refs@),
            capability_views(caps@),
        ));
        match left.next() {
            None => {
                return Ok((RemoteServerInfo { refs }, caps));
            },
            Some(Err(e)) => {
                return Err(FetchError::Line(e));
            },
            Some(Ok(line)) => {
                assert(seq![line@] + left.stream().0 =~= rest.0);
                next = line;
            },
        }
    }
}

/// The capabilities in an answer of the second version of the protocol.
pub open spec fn load_v2_capabilities(s: Stream, caps: Seq<CapabilityView>) -> Result<
    Seq<CapabilityView>,
    FetchError,
>
    decreases s.0.len(),
{
    if s.0.len() == 0 {
        match s.1 {
            Some(e) => Err(FetchError::Line(e)),
            None => Ok(caps),
        }
    } else {
        match s.0[0] {
            PktView::Line(d) => load_v2_capabilities(
                after_first(s),
                caps.push(parse_capability(text_of_bytes(d))),
            ),
            _ => load_v2_capabilities(after_first(s), caps),
        }
    }
}

/// The capabilities in an answer of the second version of the protocol.
pub fn load_capabilities_body_v2(lines: PktLineIterator) -> (r: Result<
    Vec<RemoteCapability>,
    FetchError,
>)
    requires
        lines.wf(),
    ensures
        match r {
            Ok(caps) => load_v2_capabilities(lines.stream(), Seq::empty()) == Ok::<
                Seq<CapabilityView>,
                FetchError,
            >(capability_views(caps@)),
            Err(e) => load_v2_capabilities(lines.stream(), Seq::empty()) == Err::<
                Seq<CapabilityView>,
                FetchError,
            >(e),
        },
{
    let mut left = lines;
    let mut caps: Vec<RemoteCapability> = Vec::new();
    assert(capability_views(caps@) =~= Seq::empty());
    loop
        invariant
            left.wf(),
            load_v2_capabilities(lines.stream(), Seq::empty()) == load_v2_capabilities(
                left.stream(),
                capability_views(caps@),
            ),
        decreases left.remaining(),
    {
        let ghost before = capability_views(caps@);
        match left.next() {
            None => {
                return Ok(caps);
            },
            Some(Err(e)) => {
                return Err(FetchError::Line(e));
            },
            Some(Ok(PktLine::Line(content))) => {
                let text = lossy_string(content.as_slice());
                let cap = RemoteCapability::from_str(text.as_str());
                caps.push(cap);
                assert(capability_views(caps@) =~= before.push(cap@));
            },
            Some(Ok(_)) => {},
        }
    }
}

/// A reference that leads to an object.
pub open spec fn object_ref(id: Seq<char>, spec: RefView) -> TargetedView {
    TargetedView { target: TargetView::Object(id), spec }
}

/// The references that the words of a line of the second version of the protocol stand for: the
/// path of a reference, and possibly the object that a tag leads to in the end, or what a
/// symbolic reference leads to.
pub open spec fn refs_of_words(id: Seq<char>, words: Seq<Seq<char>>) -> Result<
    Seq<TargetedView>,
    FetchError,
> {
    match parse_ref(words[0]) {
        None => Ok(Seq::empty()),
        Some(spec) => if words.len() < 2 {
            Ok(seq![object_ref(id, spec)])
        } else if starts_with(words[1], "peeled:"@) {
            match spec {
                RefView::Tag(t) => Ok(
                    seq![
                        object_ref(
                            words[1].skip(7),
                            RefView::Tag(TagView { name: t.name, peeled: true }),
                        ),
                        object_ref(id, spec),
                    ],
                ),
                _ => Ok(seq![object_ref(id, spec)]),
            }
        } else if starts_with(words[1], "symref-target:"@) {
            match parse_ref(words[1].skip(14)) {
                Some(to) => Ok(
                    seq![
                        TargetedView { target: TargetView::SymbolicRef(to), spec },
                        object_ref(id, to),
                    ],
                ),
                None => Err(FetchError::InvalidRef),
            }
        } else {
            Ok(seq![object_ref(id, spec)])
        },
    }
}

/// The references in a line of the second version of the protocol.
pub open spec fn parse_v2_line(d: Seq<u8>) -> Result<Seq<TargetedView>, FetchError> {
    let space = first_index(d, 32u8, 0);
    if space >= d.len() {
        Err(FetchError::NoSpace)
    } else if !valid_utf8(d.take(space)) {
        Err(FetchError::InvalidTargetId)
    } else if !valid_utf8(d.skip(space)) {
        Err(FetchError::NotUtf8)
    } else {
        refs_of_words(
            decode_utf8(d.take(space)),
            split_on(trim(decode_utf8(d.skip(space))), ' '),
        )
    }
}

fn one_ref(id: &str, spec: RefSpec) -> (r: Vec<TargetedRef>)
    ensures
        targeted_views(r@) == seq![object_ref(id@, spec@)],
{
    let mut out: Vec<TargetedRef> = Vec::new();
    out.push(TargetedRef { target: RefTarget::Object(id.to_string()), spec });
    assert(targeted_views(out@) =~= seq![object_ref(id@, spec@)]);
    out
}

fn two_refs(first: TargetedRef, second: TargetedRef) -> (r: Vec<TargetedRef>)
    ensures
        targeted_views(r@) == seq![first@, second@],
{
    let mut out: Vec<TargetedRef> = Vec::new();
    out.push(first);
    out.push(second);
    assert(targeted_views(out@) =~= seq![first@, second@]);
    out
}

fn refs_in_words(id: &str, words: &[String]) -> (r: Result<Vec<TargetedRef>, FetchError>)
    requires
        words@.len() > 0,
    ensures
        match r {
            Ok(refs) => refs_of_words(id@, texts(words@)) == Ok::<Seq<TargetedView>, FetchError>(
                targeted_views(refs@),
            ),
            Err(e) => refs_of_words(id@, texts(words@)) == Err::<Seq<TargetedView>, FetchError>(e),
        },
{
    let ghost all = texts(words@);
    assert(all.len() == words@.len());
    assert(all[0] == words@[0]@);
    let spec = match RefSpec::from_str(words[0].as_str()) {
        Ok(spec) => spec,
        Err(_) => {
            let none: Vec<TargetedRef> = Vec::new();
            assert(targeted_views(none@) =~= Seq::empty());
            return Ok(none);
        },
    };
    if words.len() < 2 {
        return Ok(one_ref(id, spec));
    }
    assert(all[1] == words@[1]@);
    proof {
        reveal_strlit("peeled:");
        reveal_strlit("symref-target:");
    }
    let second = chars_of(words[1].as_str());
    if let Some(target) = strip_prefix(&second, "peeled:") {
        return match spec.peel_tag() {
            Some(peeled) => Ok(
                two_refs(
                    TargetedRef { target: RefTarget::Object(target), spec: peeled },
                    TargetedRef { target: RefTarget::Object(id.to_string()), spec },
                ),
            ),
            None => Ok(one_ref(id, spec)),
        };
    }
    if let Some(target) = strip_prefix(&second, "symref-target:") {
        return match RefSpec::from_str(target.as_str()) {
            Ok(to) => Ok(
                two_refs(
                    TargetedRef { target: RefTarget::SymbolicRef(to.clone()), spec },
                    TargetedRef { target: RefTarget::Object(id.to_string()), spec: to },
                ),
            ),
            Err(_) => Err(FetchError::InvalidRef),
        };
    }
    Ok(one_ref(id, spec))
}

/// The references in a line of the second version of the protocol.
pub fn load_v2_ref_line(line: &[u8]) -> (r: Result<Vec<TargetedRef>, FetchError>)
    ensures
        match r {
            Ok(refs) => parse_v2_line(line@) == Ok::<Seq<TargetedView>, FetchError>(
                targeted_views(refs@),
            ),
            Err(e) => parse_v2_line(line@) == Err::<Seq<TargetedView>, FetchError>(e),
        },
{
    let n: usize = line.len();
    let space: usize = find_byte(line, 32, 0);
    if space >= n {
        return Err(FetchError::NoSpace);
    }
    let id_bytes = slice_subrange(line, 0, space);
    assert(id_bytes@ =~= line@.take(space as int));
    let id = match utf8_string(id_bytes) {
        Some(id) => id,
        None => {
            return Err(FetchError::InvalidTargetId);
        },
    };
    let rest = slice_subrange(line, space, n);
    assert(rest@ =~= line@.skip(space as int));
    let text = match utf8_string(rest) {
        Some(text) => text,
        None => {
            return Err(FetchError::NotUtf8);
        },
    };
    let cs = chars_of(text.as_str());
    let words = split_chars(trim_chars(&cs), ' ');
    refs_in_words(id.as_str(), words.as_slice())
}

/// The references in an answer of the second version of the protocol.
pub open spec fn load_v2(s: Stream, refs: Seq<TargetedView>) -> Result<
    Seq<TargetedView>,
    FetchError,
>
    decreases s.0.len(),
{
    if s.0.len() == 0 {
        match s.1 {
            Some(e) => Err(FetchError::Line(e)),
            None => Ok(refs),
        }
    } else {
        match s.0[0] {
            PktView::Line(d) => match parse_v2_line(d) {
                Err(e) => Err(e),
                Ok(more) => load_v2(after_first(s), with_refs(refs, more)),
            },
            _ => load_v2(after_first(s), refs),
        }
    }
}

/// The references in an answer of the second version of the protocol.
pub fn load_refs_v2(lines: PktLineIterator) -> (r: Result<RemoteServerInfo, FetchError>)
    requires
        lines.wf(),
    ensures
        match r {
            Ok(info) => load_v2(lines.stream(), Seq::empty()) == Ok::<
                Seq<TargetedView>,
                FetchError,
            >(targeted_views(info.refs@)),
            Err(e) => load_v2(lines.stream(), Seq::empty()) == Err::<
                Seq<TargetedView>,
                FetchError,
            >(e),
        },
{
    let mut left = lines;
    let mut refs: Vec<TargetedRef> = Vec::new();
    assert(targeted_views(refs@) =~= Seq::empty());
    loop
        invariant
            left.wf(),
            load_v2(lines.stream(), Seq::empty()) == load_v2(left.stream(), targeted_views(refs@)),
        decreases left.remaining(),
    {
        match left.next() {
            None => {
                return Ok(RemoteServerInfo { refs });
            },
            Some(Err(e)) => {
                return Err(FetchError::Line(e));
            },
            Some(Ok(PktLine::Line(content))) => match load_v2_ref_line(content.as_slice()) {
                Err(e) => {
                    return Err(e);
                },
                Ok(more) => {
                    add_refs(&mut refs, more);
                },
            },
            Some(Ok(_)) => {},
        }
    }
}

/// Why the next line of an answer is not the one that is expected, if it is not.
pub open spec fn unexpected(s: Stream, line: PktView, otherwise: FetchError) -> Option<FetchError> {
    match stream_next(s) {
        None => Some(FetchError::UnexpectedEnd),
        Some(Err(e)) => Some(FetchError::Line(e)),
        Some(Ok(l)) => if l == line {
            None
        } else {
            Some(otherwise)
        },
    }
}

/// The version and the first line of the first answer, which starts with a header.
pub open spec fn read_header(s: Stream) -> Result<(ProtocolVersion, PktView, Stream), FetchError> {
    let second = stream_rest(s);
    let third = stream_rest(second);
    match unexpected(s, text_line("# service=git-upload-pack\n"@), FetchError::NoHeader) {
        Some(e) => Err(e),
        None => match unexpected(second, PktView::Flush, FetchError::NoHeaderEnd) {
            Some(e) => Err(e),
            None => match stream_next(third) {
                None => Err(FetchError::UnexpectedEnd),
                Some(Err(e)) => Err(FetchError::Line(e)),
                Some(Ok(line)) => Ok(
                    (
                        if line == text_line("version 2\n"@) {
                            ProtocolVersion::V2
                        } else {
                            ProtocolVersion::V1
                        },
                        line,
                        stream_rest(third),
                    ),
                ),
            },
        },
    }
}

fn expect_line(lines: &mut PktLineIterator, line: &PktLine, otherwise: FetchError) -> (r: Result<
    (),
    FetchError,
>)
    requires
        old(lines).wf(),
    ensures
        final(lines).wf(),
        final(lines).stream() == stream_rest(old(lines).stream()),
        match r {
            Ok(_) => unexpected(old(lines).stream(), line@, otherwise) is None,
            Err(e) => unexpected(old(lines).stream(), line@, otherwise) == Some(e),
        },
{
    match lines.next() {
        None => Err(FetchError::UnexpectedEnd),
        Some(Err(e)) => Err(FetchError::Line(e)),
        Some(Ok(l)) => if l.same_line(line) {
            Ok(())
        } else {
            Err(otherwise)
        },
    }
}

/// The version and the first line of the first answer; the lines that follow are left.
pub fn read_discovery_header(lines: &mut PktLineIterator) -> (r: Result<
    (ProtocolVersion, PktLine),
    FetchError,
>)
    requires
        old(lines).wf(),
    ensures
        final(lines).wf(),
        match r {
            Ok((version, line)) => read_header(old(lines).stream()) == Ok::<
                (ProtocolVersion, PktView, Stream),
                FetchError,
            >((version, line@, final(lines).stream())),
            Err(e) => read_header(old(lines).stream()) == Err::<
                (ProtocolVersion, PktView, Stream),
                FetchError,
            >(e),
        },
{
    let first = PktLine::from_text("# service=git-upload-pack\n");
    match expect_line(lines, &first, FetchError::NoHeader) {
        Err(e) => {
            return Err(e);
        },
        Ok(_) => {},
    }
    match expect_line(lines, &PktLine::Flush, FetchError::NoHeaderEnd) {
        Err(e) => {
            return Err(e);
        },
        Ok(_) => {},
    }
    match lines.next() {
        None => Err(FetchError::UnexpectedEnd),
        Some(Err(e)) => Err(FetchError::Line(e)),
        Some(Ok(line)) => {
            let version = if line.same_line(&PktLine::from_text("version 2\n")) {
                ProtocolVersion::V2
            } else {
                ProtocolVersion::V1
            };
            Ok((version, line))
        },
    }
}

/// The object that a line acknowledges.
pub open spec fn acknowledged(text: Seq<char>) -> Option<Seq<char>> {
    if starts_with(trim(text), "ACK "@) {
        Some(trim(text).skip(4))
    } else {
        None
    }
}

/// The object that a line acknowledges.
pub fn acknowledged_object(text: &str) -> (r: Option<String>)
    ensures
        match r {
            Some(id) => acknowledged(text@) == Some(id@),
            None => acknowledged(text@) is None,
        },
{
    proof {
        reveal_strlit("ACK ");
    }
    let cs = chars_of(text);
    strip_prefix(trim_chars(&cs), "ACK ")
}

/// The acknowledged objects in a section of an answer, and what follows it.
pub open spec fn read_acks(s: Stream, acked: Seq<Seq<char>>) -> Result<
    (Seq<Seq<char>>, Stream),
    FetchError,
>
    decreases s.0.len(),
{
    if s.0.len() == 0 {
        match s.1 {
            Some(e) => Err(FetchError::Line(e)),
            None => Ok((acked, (Seq::empty(), None))),
        }
    } else {
        match s.0[0] {
            PktView::Line(d) => if d == encode_utf8("NAK\n"@) {
                read_acks(after_first(s), acked)
            } else {
                match acknowledged(text_of_bytes(d)) {
                    None => Err(FetchError::UnexpectedAcknowledgement),
                    Some(id) => read_acks(after_first(s), acked.push(id)),
                }
            },
            _ => Ok((acked, after_first(s))),
        }
    }
}

/// Adds the acknowledged objects in a section of an answer to a list.
pub fn load_acked_objects(lines: &mut PktLineIterator, acked: &mut Vec<String>) -> (r: Result<
    (),
    FetchError,
>)
    requires
        old(lines).wf(),
    ensures
        final(lines).wf(),
        final(lines).remaining() <= old(lines).remaining(),
        match r {
            Ok(_) => read_acks(old(lines).stream(), texts(old(acked)@)) == Ok::<
                (Seq<Seq<char>>, Stream),
                FetchError,
            >((texts(final(acked)@), final(lines).stream())),
            Err(e) => read_acks(old(lines).stream(), texts(old(acked)@)) == Err::<
                (Seq<Seq<char>>, Stream),
                FetchError,
            >(e),
        },
{
    loop
        invariant
            lines.wf(),
            lines.remaining() <= old(lines).remaining(),
            read_acks(old(lines).stream(), texts(old(acked)@)) == read_acks(
                lines.stream(),
                texts(acked@),
            ),
        decreases lines.remaining(),
    {
        let ghost before = texts(acked@);
        let ghost stream = lines.stream();
        match lines.next() {
            None => {
                assert(stream.0 =~= Seq::empty());
                return Ok(());
            },
            Some(Err(e)) => {
                return Err(FetchError::Line(e));
            },
            Some(Ok(PktLine::Line(content))) => {
                if !same_bytes(content.as_slice(), "NAK\n".as_bytes()) {
                    let text = lossy_string(content.as_slice());
                    match acknowledged_object(text.as_str()) {
                        None => {
                            return Err(FetchError::UnexpectedAcknowledgement);
                        },
                        Some(id) => {
                            acked.push(id);
                            assert(texts(acked@) =~= before.push(id@));
                        },
                    }
                }
            },
            Some(Ok(_)) => {
                return Ok(());
            },
        }
    }
}

/// What an answer to the request for a pack says.
pub enum ResponseView {
    /// More information is needed; some objects are acknowledged.
    InfoNeeded(Seq<Seq<char>>),
    /// The server is ready; some objects are acknowledged.
    Ready(Seq<Seq<char>>),
    /// A pack follows.
    Pack(Stream),
}

/// What an answer to the request for a pack says, from where some of it has been read.
pub open spec fn read_response(
    s: Stream,
    acked: Seq<Seq<char>>,
    acks_found: bool,
    ready: bool,
) -> Result<ResponseView, FetchError>
    decreases s.0.len(),
{
    if s.0.len() == 0 {
        match s.1 {
            Some(e) => Err(FetchError::Line(e)),
            None => if !acks_found {
                Err(FetchError::NoPackNoAcknowledgements)
            } else if ready {
                Ok(ResponseView::Ready(acked))
            } else {
                Ok(ResponseView::InfoNeeded(acked))
            },
        }
    } else {
        let rest = after_first(s);
        match s.0[0] {
            PktView::Line(d) => if d == encode_utf8("acknowledgements\n"@) {
                match read_acks(rest, acked) {
                    Err(e) => Err(e),
                    Ok((more, after)) => if after.0.len() < s.0.len() {
                        read_response(after, more, true, ready)
                    } else {
                        Err(FetchError::UnexpectedEnd)
                    },
                }
            } else if d == encode_utf8("packfile\n"@) {
                Ok(ResponseView::Pack(rest))
            } else if d == encode_utf8("ready\n"@) {
                read_response(rest, acked, acks_found, true)
            } else {
                match skipped(rest) {
                    Err(e) => Err(FetchError::Line(e)),
                    Ok(after) => if after.0.len() < s.0.len() {
                        read_response(after, acked, acks_found, ready)
                    } else {
                        Err(FetchError::UnexpectedEnd)
                    },
                }
            },
            _ => read_response(rest, acked, acks_found, ready),
        }
    }
}

proof fn lemma_skipped_shorter(s: Stream)
    ensures
        skipped(s) matches Ok(after) ==> after.0.len() <= s.0.len(),
    decreases s.0.len(),
{
    if s.0.len() > 0 && s.0[0] is Line {
        lemma_skipped_shorter(after_first(s));
    }
}

proof fn lemma_acks_shorter(s: Stream, acked: Seq<Seq<char>>)
    ensures
        read_acks(s, acked) matches Ok((_, after)) ==> after.0.len() <= s.0.len(),
    decreases s.0.len(),
{
    if s.0.len() > 0 {
        if let PktView::Line(d) = s.0[0] {
            if d == encode_utf8("NAK\n"@) {
                lemma_acks_shorter(after_first(s), acked);
            } else if let Some(id) = acknowledged(text_of_bytes(d)) {
                lemma_acks_shorter(after_first(s), acked.push(id));
            }
        }
    }
}

/// An answer to the request for a pack.
pub enum PackFetchResponse {
    /// More information is needed; some objects are acknowledged.
    InfoNeeded(Vec<String>),
    /// The server is ready; some objects are acknowledged.
    Ready(Vec<String>),
    /// A pack follows.
    Pack(PktLineIterator),
}

impl View for PackFetchResponse {
    type V = ResponseView;

    open spec fn view(&self) -> ResponseView {
        match self {
            PackFetchResponse::InfoNeeded(ids) => ResponseView::InfoNeeded(texts(ids@)),
            PackFetchResponse::Ready(ids) => ResponseView::Ready(texts(ids@)),
            PackFetchResponse::Pack(lines) => ResponseView::Pack(lines.stream()),
        }
    }
}

/// What an answer to the request for a pack says.
pub fn read_fetch_response(lines: PktLineIterator) -> (r: Result<PackFetchResponse, FetchError>)
    requires
        lines.wf(),
    ensures
        match r {
            Ok(response) => read_response(lines.stream(), Seq::empty(), false, false) == Ok::<
                ResponseView,
                FetchError,
            >(response@) && (response matches PackFetchResponse::Pack(rest) ==> rest.wf()),
            Err(e) => read_response(lines.stream(), Seq::empty(), false, false) == Err::<
                ResponseView,
                FetchError,
            >(e),
        },
{
    let mut left = lines;
    let mut acked: Vec<String> = Vec::new();
    let mut acks_found = false;
    let mut is_ready = false;
    assert(texts(acked@) =~= Seq::empty());
    loop
        invariant
            left.wf(),
            read_response(lines.stream(), Seq::empty(), false, false) == read_response(
                left.stream(),
                texts(acked@),
                acks_found,
                is_ready,
            ),
        decreases left.remaining(),
    {
        match left.next() {
            None => {
                return if !acks_found {
                    Err(FetchError::NoPackNoAcknowledgements)
                } else if is_ready {
                    Ok(PackFetchResponse::Ready(acked))
                } else {
                    Ok(PackFetchResponse::InfoNeeded(acked))
                };
            },
            Some(Err(e)) => {
                return Err(FetchError::Line(e));
            },
            Some(Ok(PktLine::Line(content))) => {
                proof {
                    lemma_acks_shorter(left.stream(), texts(acked@));
                    lemma_skipped_shorter(left.stream());
                }
                if same_bytes(content.as_slice(), "acknowledgements\n".as_bytes()) {
                    match load_acked_objects(&mut left, &mut acked) {
                        Err(e) => {
                            return Err(e);
                        },
                        Ok(_) => {},
                    }
                    acks_found = true;
                } else if same_bytes(content.as_slice(), "packfile\n".as_bytes()) {
                    return Ok(PackFetchResponse::Pack(left));
                } else if same_bytes(content.as_slice(), "ready\n".as_bytes()) {
                    is_ready = true;
                } else {
                    match left.skip_section() {
                        Err(e) => {
                            return Err(FetchError::Line(e));
                        },
                        Ok(_) => {},
                    }
                }
            },
            Some(Ok(_)) => {},
        }
    }
}

} // verus!
