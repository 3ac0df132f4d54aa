use cvvc::net::answers::{
    acknowledged_object, load_refs_v2, load_single_v1_refs_capabilities_line, load_v2_ref_line,
    read_fetch_response, PackFetchResponse,
};
use cvvc::net::client::{FetchError, HttpFetchClient, ProtocolVersion, RemoteCapability};
use cvvc::net::negotiation::{Discovery, Negotiation, NegotiationError, NegotiationStep};
use cvvc::net::sideband::{PktLineSidebandReader, SidebandError, SidebandRead};
use cvvc::net::{body_of_lines, PktLine, PktLineError, PktLineIterator};
use cvvc::objects::Commit;
use cvvc::repo::Repository;
use cvvc::stores::tables::{ObjectTable, RefTable};
use cvvc::stores::{BranchSpec, RefSpec, RefTarget, TagSpec};

const ID: &str = "1234123412341234123412341234123412341234";
const OTHER: &str = "abcdabcdabcdabcdabcdabcdabcdabcdabcdabcd";

fn line(text: &str) -> PktLine {
    PktLine::from_text(text)
}

fn lines(list: Vec<PktLine>) -> PktLineIterator {
    PktLineIterator::from(&body_of_lines(&list))
}

fn client(capabilities: &[&str]) -> HttpFetchClient {
    let mut c = HttpFetchClient::new("https://example.com/repo.git", None).unwrap();
    c.capabilities = capabilities
        .iter()
        .map(|c| RemoteCapability::from_str(c))
        .collect();
    c
}

fn texts(list: &[PktLine]) -> Vec<String> {
    list.iter().map(|l| l.to_string()).collect()
}

#[test]
fn lines_are_received_as_they_were_sent() {
    let sent = vec![
        line("hello\n"),
        PktLine::Delimiter,
        PktLine::Line(vec![]),
        PktLine::ResponseEnd,
        PktLine::from_bytes(&[0, 255]),
        PktLine::Flush,
    ];
    let body = body_of_lines(&sent);
    assert_eq!(&body[..10], b"000ahello\n");
    let mut received = PktLineIterator::from(&body);
    for expected in &sent {
        let got = received.next().unwrap().unwrap();
        assert_eq!(&got, expected);
        assert!(got.same_line(expected));
    }
    assert!(received.next().is_none());
}

#[test]
fn long_lines_have_four_digits() {
    let long = PktLine::Line(vec![7; 65531]);
    let body = long.bytes();
    assert_eq!(&body[..4], b"ffff");
    let mut received = PktLineIterator::from(&body);
    assert_eq!(received.next().unwrap().unwrap(), long);
}

#[test]
fn lines_that_are_not_valid() {
    for (body, error) in [
        (&b"00"[..], PktLineError::HeaderCutOff),
        (&b"\xff\xff\xff\xff"[..], PktLineError::HeaderNotUtf8),
        (&b"00g0"[..], PktLineError::HeaderNotHex),
        (&b"0003"[..], PktLineError::LengthTooSmall),
        (&b"0009abc"[..], PktLineError::LineCutOff),
    ] {
        let mut received = PktLineIterator::from(body);
        assert_eq!(received.next().unwrap().unwrap_err(), error);
        assert!(received.next().is_none());
    }
}

#[test]
fn line_as_text_is_escaped() {
    assert_eq!(PktLine::from_bytes(b"a\n").to_string(), "0006a\\a");
    assert_eq!(PktLine::Flush.to_string(), "0000");
}

#[test]
fn section_is_skipped() {
    let mut received = lines(vec![line("a"), line("b"), PktLine::Delimiter, line("c")]);
    received.skip_section().unwrap();
    assert_eq!(received.next().unwrap().unwrap(), line("c"));
    received.skip_section().unwrap();
    let mut cut = PktLineIterator::from(&b"0005x00"[..]);
    assert_eq!(cut.skip_section().unwrap_err(), PktLineError::HeaderCutOff);
}

#[test]
fn data_come_on_the_first_channel() {
    let all = lines(vec![
        PktLine::from_bytes(b"\x02working\n"),
        PktLine::from_bytes(b"\x01PACK"),
        PktLine::from_bytes(b"\x01"),
        PktLine::from_bytes(b"\x02done\n"),
        PktLine::from_bytes(b"\x01data"),
        PktLine::from_bytes(b"other"),
        PktLine::Flush,
        line("behind"),
    ]);
    let mut reader = PktLineSidebandReader::new(all);
    let (first, messages) = reader.read(3);
    assert!(matches!(first, SidebandRead::Data(d) if d == b"PAC"));
    assert_eq!(messages, vec![b"working\n".to_vec()]);
    let (none, messages) = reader.read(0);
    assert!(matches!(none, SidebandRead::Data(d) if d.is_empty()));
    assert!(messages.is_empty());
    let (second, messages) = reader.read(100);
    assert!(matches!(second, SidebandRead::Data(d) if d == b"K"));
    assert!(messages.is_empty());
    let (third, messages) = reader.read(2);
    assert!(matches!(third, SidebandRead::Data(d) if d == b"da"));
    assert_eq!(messages, vec![b"done\n".to_vec()]);
    let (rest, messages, error) = reader.read_to_end();
    assert_eq!(rest, b"taother");
    assert!(messages.is_empty());
    assert!(error.is_none());
}

#[test]
fn transfers_that_fail() {
    let mut reader = PktLineSidebandReader::new(lines(vec![
        PktLine::from_bytes(b"\x01PACK"),
        PktLine::from_bytes(b"\x03no space left"),
    ]));
    let (data, messages, error) = reader.read_to_end();
    assert_eq!(data, b"PACK");
    assert_eq!(messages, vec![b"no space left".to_vec()]);
    assert!(matches!(error, Some(SidebandError::Remote(m)) if m == "no space left"));
    let mut reader = PktLineSidebandReader::new(lines(vec![PktLine::from_bytes(b"\x01PACK")]));
    assert!(matches!(reader.read_to_end().2, Some(SidebandError::CutOff)));
    let mut reader = PktLineSidebandReader::new(PktLineIterator::from(&b"zzzz"[..]));
    assert!(matches!(
        reader.read_to_end().2,
        Some(SidebandError::Invalid(PktLineError::HeaderNotHex))
    ));
    let mut reader = PktLineSidebandReader::new(lines(vec![PktLine::from_bytes(b"\x03\xff")]));
    assert!(matches!(
        reader.read_to_end().2,
        Some(SidebandError::Remote(m)) if m == "\u{fffd}"
    ));
}

#[test]
fn capabilities_are_keys_and_values() {
    let c = RemoteCapability::from_str(" ls-refs=unborn other\n");
    assert_eq!(c.key, "ls-refs");
    assert_eq!(c.values, vec!["unborn", "other"]);
    assert_eq!(c.to_string(), "ls-refs=unborn other");
    let c = RemoteCapability::from_str("ofs-delta");
    assert!(c.values.is_empty());
    assert_eq!(c.to_string(), "ofs-delta");
}

#[test]
fn versions_have_numbers() {
    assert_eq!(ProtocolVersion::try_from(1), Ok(ProtocolVersion::V1));
    assert_eq!(ProtocolVersion::try_from(2), Ok(ProtocolVersion::V2));
    assert_eq!(ProtocolVersion::try_from(3), Err(3));
    assert_eq!(ProtocolVersion::V2.number(), 2);
    assert_eq!(ProtocolVersion::V1.to_string(), "1");
}

#[test]
fn addresses_end_in_a_slash() {
    let c = client(&[]);
    assert_eq!(c.base_url, "https://example.com/repo.git/");
    assert_eq!(c.protocol_version(), ProtocolVersion::V2);
    assert_eq!(
        c.discovery_url().unwrap(),
        "https://example.com/repo.git/info/refs?service=git-upload-pack"
    );
    assert_eq!(
        c.upload_pack_url().unwrap(),
        "https://example.com/repo.git/git-upload-pack"
    );
    let c = HttpFetchClient::new("HTTPS://Example.com/x/", None).unwrap();
    assert_eq!(c.base_url, "https://example.com/x/");
    assert!(matches!(
        HttpFetchClient::new("not an address", None),
        Err(FetchError::InvalidUrl)
    ));
}

#[test]
fn capability_is_looked_up() {
    let c = client(&["fetch=shallow filter", "agent=x"]);
    assert_eq!(c.capability("fetch").unwrap(), vec!["shallow", "filter"]);
    assert_eq!(c.capability("agent").unwrap(), vec!["x"]);
    assert!(c.capability("ls-refs").is_none());
    assert_eq!(c.capabilities().len(), 2);
}

fn commit_repo() -> (Repository<ObjectTable, ObjectTable, RefTable>, String, String) {
    let mut repo = Repository {
        loose_object_store: ObjectTable::new(),
        packs: Vec::<ObjectTable>::new(),
        ref_store: RefTable::new(),
        head: None,
    };
    let moment = cvvc::moments::Timestamp::unix_epoch();
    let first = repo
        .write_object(&Commit::new(ID, None, "A <a@x>", "A <a@x>", &moment, "first"))
        .unwrap();
    let second = repo
        .write_object(&Commit::new(ID, Some(&first), "A <a@x>", "A <a@x>", &moment, "second"))
        .unwrap();
    repo.update_local_branch("main", &second).unwrap();
    (repo, first, second)
}

#[test]
fn request_for_a_pack() {
    let (repo, _, second) = commit_repo();
    let n = Negotiation::start(&repo).ok().unwrap();
    let request = client(&["fetch", "agent=git"])
        .fetch_request(&[ID.to_string()], &n.common_objects, true, "1.2")
        .unwrap();
    assert_eq!(
        texts(&request),
        vec![
            "0012command=fetch\\a".to_string(),
            "0013agent=cvvc/1.2\\a".to_string(),
            "0001".to_string(),
            "0010include-tag\\a".to_string(),
            "000eofs-delta\\a".to_string(),
            format!("0032want {ID}\\a"),
            format!("0032have {second}\\a"),
            "0009done\\a".to_string(),
            "0000".to_string(),
        ]
    );
    assert!(matches!(
        client(&[]).fetch_request(&[], &n.common_objects, false, "1.2"),
        Err(FetchError::NoFetchCommand)
    ));
}

#[test]
fn request_for_references() {
    let request = client(&["ls-refs=unborn"]).ls_refs_request("1.2").unwrap();
    assert_eq!(
        texts(&request),
        vec![
            "0014command=ls-refs\\a",
            "0001",
            "000csymrefs\\a",
            "0009peel\\a",
            "000bunborn\\a",
            "0000"
        ]
    );
    assert_eq!(client(&["ls-refs"]).ls_refs_request("1.2").unwrap().len(), 5);
    assert!(matches!(
        client(&["fetch"]).ls_refs_request("1.2"),
        Err(FetchError::NoLsRefsCommand)
    ));
}

#[test]
fn versions_that_a_pack_can_be_asked_for_in() {
    let mut c = client(&[]);
    assert_eq!(c.check_fetch(), Err(FetchError::UnknownVersion));
    c.protocol_version = Some(ProtocolVersion::V1);
    assert_eq!(c.check_fetch(), Err(FetchError::UnsupportedVersion));
    c.protocol_version = Some(ProtocolVersion::V2);
    assert_eq!(c.check_fetch(), Ok(()));
}

#[test]
fn first_answer_in_the_first_version() {
    let mut first = format!("{ID} HEAD\0multi_ack agent=git/2\n").into_bytes();
    let body = body_of_lines(&[
        line("# service=git-upload-pack\n"),
        PktLine::Flush,
        PktLine::Line(std::mem::take(&mut first)),
        line(&format!("{ID} refs/heads/main\n")),
        line(&format!("{ID} refs/heads/main\n")),
        line(&format!("{OTHER} refs/changes/1\n")),
        PktLine::Flush,
    ]);
    let mut c = client(&[]);
    let Discovery::Refs(info) = c.read_discovery_response(&body).ok().unwrap() else {
        panic!()
    };
    assert_eq!(info.refs.len(), 2);
    assert_eq!(info.refs[0].spec, RefSpec::Head);
    assert_eq!(info.refs[1].spec, BranchSpec::local("main").into_ref_spec());
    assert_eq!(info.refs[1].target, RefTarget::Object(ID.to_string()));
    assert_eq!(c.protocol_version, Some(ProtocolVersion::V1));
    assert_eq!(c.capability("agent").unwrap(), vec!["git/2"]);
    let mut c = client(&[]);
    c.protocol_version = Some(ProtocolVersion::V2);
    assert!(matches!(
        c.read_discovery_response(&body),
        Err(FetchError::WrongVersion)
    ));
}

#[test]
fn first_answer_in_the_second_version() {
    let body = body_of_lines(&[
        line("# service=git-upload-pack\n"),
        PktLine::Flush,
        line("version 2\n"),
        line("agent=git/2\n"),
        line("ls-refs=unborn\n"),
        PktLine::Flush,
    ]);
    let mut c = client(&["old"]);
    assert!(matches!(
        c.read_discovery_response(&body),
        Ok(Discovery::AskForRefs)
    ));
    assert_eq!(c.protocol_version, Some(ProtocolVersion::V2));
    assert!(c.capability("old").is_none());
    assert_eq!(c.capability("ls-refs").unwrap(), vec!["unborn"]);
}

#[test]
fn first_answers_that_are_not_valid() {
    for (list, error) in [
        (vec![], FetchError::UnexpectedEnd),
        (vec![line("hello")], FetchError::NoHeader),
        (
            vec![line("# service=git-upload-pack\n"), line("x")],
            FetchError::NoHeaderEnd,
        ),
        (
            vec![line("# service=git-upload-pack\n"), PktLine::Flush],
            FetchError::UnexpectedEnd,
        ),
    ] {
        let mut c = client(&[]);
        assert_eq!(
            c.read_discovery_response(&body_of_lines(&list)).err(),
            Some(error)
        );
    }
    let mut c = client(&[]);
    assert_eq!(
        c.read_discovery_response(b"zzzz").err(),
        Some(FetchError::Line(PktLineError::HeaderNotHex))
    );
}

#[test]
fn lines_of_the_first_version_that_are_not_valid() {
    for (text, error) in [
        (&b"nospace"[..], FetchError::NoSpace),
        (&b"nohex refs/heads/x"[..], FetchError::InvalidTargetId),
        (&b"\xff\xff refs/heads/x"[..], FetchError::InvalidTargetId),
        (&b"12341234 \xff"[..], FetchError::NotUtf8),
        (&b"12341234 HEAD\0\xff"[..], FetchError::NotUtf8),
    ] {
        assert_eq!(
            load_single_v1_refs_capabilities_line(text).err(),
            Some(error)
        );
    }
}

#[test]
fn references_in_the_second_version() {
    let info = load_refs_v2(lines(vec![
        line(&format!("{ID} HEAD symref-target:refs/heads/main\n")),
        line(&format!("{ID} refs/heads/main\n")),
        line(&format!("{ID} refs/tags/v1 peeled:{OTHER}\n")),
        line(&format!("{OTHER} refs/notes/x\n")),
        line(&format!("{OTHER} refs/heads/side more\n")),
        PktLine::Flush,
    ]))
    .ok()
    .unwrap();
    let list: Vec<(RefSpec, RefTarget)> = info
        .refs
        .into_iter()
        .map(|r| (r.spec, r.target))
        .collect();
    let main = BranchSpec::local("main").into_ref_spec();
    assert_eq!(
        list,
        vec![
            (
                RefSpec::Head,
                RefTarget::SymbolicRef(BranchSpec::local("main").into_ref_spec())
            ),
            (main, RefTarget::Object(ID.to_string())),
            (
                RefSpec::Tag(TagSpec::new("v1", true)),
                RefTarget::Object(OTHER.to_string())
            ),
            (
                RefSpec::Tag(TagSpec::new("v1", false)),
                RefTarget::Object(ID.to_string())
            ),
            (
                BranchSpec::local("side").into_ref_spec(),
                RefTarget::Object(OTHER.to_string())
            ),
        ]
    );
}

#[test]
fn lines_of_the_second_version_that_are_not_valid() {
    assert_eq!(load_v2_ref_line(b"nospace").err(), Some(FetchError::NoSpace));
    assert_eq!(
        load_v2_ref_line(b"\xff HEAD").err(),
        Some(FetchError::InvalidTargetId)
    );
    assert_eq!(load_v2_ref_line(b"1 \xff").err(), Some(FetchError::NotUtf8));
    assert_eq!(
        load_v2_ref_line(b"1 HEAD symref-target:nonsense").err(),
        Some(FetchError::InvalidRef)
    );
}

#[test]
fn acknowledged_objects() {
    assert_eq!(acknowledged_object(" ACK abc\n").unwrap(), "abc");
    assert!(acknowledged_object("NAK\n").is_none());
}

#[test]
fn answers_to_the_request_for_a_pack() {
    let r = read_fetch_response(lines(vec![
        line("acknowledgements\n"),
        line("NAK\n"),
        line("ACK abc\n"),
        PktLine::Flush,
    ]));
    assert!(matches!(r, Ok(PackFetchResponse::InfoNeeded(ids)) if ids == vec!["abc"]));
    let r = read_fetch_response(lines(vec![
        line("acknowledgements\n"),
        line("ACK abc\n"),
        PktLine::Delimiter,
        line("ready\n"),
    ]));
    assert!(matches!(r, Ok(PackFetchResponse::Ready(ids)) if ids == vec!["abc"]));
    let r = read_fetch_response(lines(vec![
        line("shallow-info\n"),
        line("x"),
        PktLine::Delimiter,
        line("packfile\n"),
        PktLine::from_bytes(b"\x01PACK"),
        PktLine::Flush,
    ]));
    let Ok(PackFetchResponse::Pack(rest)) = r else { panic!() };
    let (data, _, error) = PktLineSidebandReader::new(rest).read_to_end();
    assert_eq!(data, b"PACK");
    assert!(error.is_none());
    assert_eq!(
        read_fetch_response(lines(vec![PktLine::Flush])).err(),
        Some(FetchError::NoPackNoAcknowledgements)
    );
    assert_eq!(
        read_fetch_response(lines(vec![line("acknowledgements\n"), line("hello\n")])).err(),
        Some(FetchError::UnexpectedAcknowledgement)
    );
    assert_eq!(
        read_fetch_response(PktLineIterator::from(&b"00"[..])).err(),
        Some(FetchError::Line(PktLineError::HeaderCutOff))
    );
}

#[test]
fn negotiation_sends_more_until_nothing_is_left() {
    let (repo, first, second) = commit_repo();
    let mut n = Negotiation::start(&repo).ok().unwrap();
    assert_eq!(n.common_objects.iter().collect::<Vec<_>>(), vec![&second]);
    assert!(n.more && !n.provide_done);
    assert_eq!(n.topup_size, 1);
    let step = n.answer(&PackFetchResponse::InfoNeeded(vec![second.clone()]));
    assert!(matches!(step, Ok(NegotiationStep::Ask)));
    assert_eq!(n.topup_size, 2);
    assert_eq!(
        n.common_objects.iter().collect::<Vec<_>>(),
        vec![&second, &first]
    );
    let step = n.answer(&PackFetchResponse::InfoNeeded(vec![first.clone()]));
    assert!(matches!(step, Ok(NegotiationStep::Ask)));
    assert_eq!(n.common_objects.iter().collect::<Vec<_>>(), vec![&first]);
    assert!(!n.more && !n.provide_done);
    let step = n.answer(&PackFetchResponse::InfoNeeded(vec![]));
    assert!(matches!(step, Ok(NegotiationStep::Ask)));
    assert!(n.common_objects.is_empty());
    assert!(n.provide_done);
    assert!(matches!(
        n.answer(&PackFetchResponse::InfoNeeded(vec![])),
        Err(NegotiationError::NothingMoreToSend)
    ));
    assert!(matches!(
        n.answer(&PackFetchResponse::Pack(lines(vec![]))),
        Ok(NegotiationStep::ReadPack)
    ));
}

#[test]
fn negotiation_ends_once_the_server_is_ready() {
    let (repo, _, second) = commit_repo();
    let mut n = Negotiation::start(&repo).ok().unwrap();
    let step = n.answer(&PackFetchResponse::Ready(vec![second]));
    assert!(matches!(step, Ok(NegotiationStep::Ask)));
    assert!(n.provide_done);
}
