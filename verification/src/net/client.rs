//! What a client asks a server, and what it reads from the answers.

use vstd::prelude::*;
use vstd::slice::slice_subrange;
use vstd::utf8::encode_utf8;

use crate::interop::{joined_url, parsed_url, url_join, url_parse};
use crate::net::common::{list_common, set_items, CommonObjects};
use crate::net::{line_views, PktLine, PktLineError, PktView};
use crate::text::{
    chars_of, concat_texts, find_char, first_index, is_listed, join, join_texts, same_text,
    split_chars, split_on, string_of, texts, trim, trim_chars,
};

verus! {

broadcast use vstd::string::group_string_axioms;

/// A capability of a server: a key, and any number of values.
pub struct RemoteCapability {
    /// The key.
    pub key: String,
    /// The values.
    pub values: Vec<String>,
}

/// What a capability is.
#[verifier::ext_equal]
pub struct CapabilityView {
    /// The key.
    pub key: Seq<char>,
    /// The values.
    pub values: Seq<Seq<char>>,
}

impl View for RemoteCapability {
    type V = CapabilityView;

    open spec fn view(&self) -> CapabilityView {
        CapabilityView { key: self.key@, values: texts(self.values@) }
    }
}

/// A capability as text.
pub open spec fn capability_text(c: CapabilityView) -> Seq<char> {
    if c.values.len() == 0 {
        c.key
    } else {
        c.key + "="@ + join(c.values, " "@)
    }
}

/// The capability that a text stands for: a key, and what follows a `=` split at spaces.
pub open spec fn parse_capability(s: Seq<char>) -> CapabilityView {
    let t = trim(s);
    let i = first_index(t, '=', 0);
    if i >= t.len() {
        CapabilityView { key: t, values: Seq::empty() }
    } else {
        CapabilityView { key: t.take(i), values: split_on(trim(t.skip(i + 1)), ' ') }
    }
}

impl RemoteCapability {
    /// The capability that a text stands for.
    pub fn from_str(s: &str) -> (r: Self)
        ensures
            r@ == parse_capability(s@),
    {
        let all = chars_of(s);
        let cs = trim_chars(&all);
        let i: usize = find_char(cs, '=', 0);
        if i >= cs.len() {
            let values: Vec<String> = Vec::new();
            assert(texts(values@) =~= Seq::empty());
            return RemoteCapability { key: string_of(cs), values };
        }
        let key = slice_subrange(cs, 0, i);
        assert(key@ =~= cs@.take(i as int));
        let rest = slice_subrange(cs, i + 1, cs.len());
        assert(rest@ =~= cs@.skip(i + 1));
        RemoteCapability { key: string_of(key), values: split_chars(trim_chars(rest), ' ') }
    }

    /// The capability as text.
    pub fn to_string(&self) -> (r: String)
        ensures
            r@ == capability_text(self@),
    {
        assert(texts(self.values@).len() == self.values@.len());
        let mut out = self.key.clone();
        if self.values.len() > 0 {
            out.append("=");
            let values = join_texts(self.values.as_slice(), " ");
            out.append(values.as_str());
        }
        out
    }
}

/// The version of the protocol in use.
#[derive(Clone, Copy, Debug, PartialEq, Eq, Structural)]
pub enum ProtocolVersion {
    /// Protocol version 1.
    V1,
    /// Protocol version 2.
    V2,
}

impl ProtocolVersion {
    /// The version with a number; the number where there is none.
    pub fn try_from(value: u32) -> (r: Result<ProtocolVersion, u32>)
        ensures
            r == if value == 1 {
                Ok::<ProtocolVersion, u32>(ProtocolVersion::V1)
            } else if value == 2 {
                Ok::<ProtocolVersion, u32>(ProtocolVersion::V2)
            } else {
                Err::<ProtocolVersion, u32>(value)
            },
    {
        match value {
            1 => Ok(ProtocolVersion::V1),
            2 => Ok(ProtocolVersion::V2),
            x => Err(x),
        }
    }

    /// The number of the version.
    pub fn number(&self) -> (r: u32)
        ensures
            r == match self {
                ProtocolVersion::V1 => 1u32,
                ProtocolVersion::V2 => 2u32,
            },
    {
        match self {
            ProtocolVersion::V1 => 1,
            ProtocolVersion::V2 => 2,
        }
    }

    /// The number of the version as text.
    pub fn to_string(&self) -> (r: String)
        ensures
            r@ == match self {
                ProtocolVersion::V1 => "1"@,
                ProtocolVersion::V2 => "2"@,
            },
    {
        match self {
            ProtocolVersion::V1 => "1".to_string(),
            ProtocolVersion::V2 => "2".to_string(),
        }
    }
}

/// What is wrong with an address or an answer.
#[derive(Clone, Copy, Debug, PartialEq, Eq, Structural)]
pub enum FetchError {
    /// The address of the server is not valid.
    InvalidUrl,
    /// A line is not valid.
    Line(PktLineError),
    /// The answer ends too early.
    UnexpectedEnd,
    /// The answer does not start as it should.
    NoHeader,
    /// The start of the answer does not end as it should.
    NoHeaderEnd,
    /// The answer is in another version of the protocol.
    WrongVersion,
    /// The version of the protocol is not supported.
    UnsupportedVersion,
    /// The version of the protocol is not known yet.
    UnknownVersion,
    /// The server does not have the command `fetch`.
    NoFetchCommand,
    /// The server does not have the command `ls-refs`.
    NoLsRefsCommand,
    /// A line with a reference holds no space.
    NoSpace,
    /// A line with a reference does not start with an object ID.
    InvalidTargetId,
    /// A text is not valid UTF-8.
    NotUtf8,
    /// The target of a symbolic reference is not the path of a reference.
    InvalidRef,
    /// The answer holds neither a pack nor acknowledgements.
    NoPackNoAcknowledgements,
    /// A line among the acknowledgements is not one.
    UnexpectedAcknowledgement,
    /// The server needs more information, and there is none.
    NothingMoreToSend,
}

/// A client that fetches references and packs over HTTP.
pub struct HttpFetchClient {
    /// The address of the server, which ends in a `/`.
    pub base_url: String,
    /// The version of the protocol, if it is known.
    pub protocol_version: Option<ProtocolVersion>,
    /// The capabilities of the server.
    pub capabilities: Vec<RemoteCapability>,
}

/// What capabilities are.
pub open spec fn capability_views(s: Seq<RemoteCapability>) -> Seq<CapabilityView> {
    s.map_values(|c: RemoteCapability| c@)
}

/// The first capability with a key, or the number of capabilities where there is none.
pub open spec fn capability_index(s: Seq<CapabilityView>, key: Seq<char>) -> int
    decreases s.len(),
{
    if s.len() == 0 {
        0
    } else if s[0].key == key {
        0
    } else {
        1 + capability_index(s.drop_first(), key)
    }
}

/// The values of a capability, if the server has it.
pub open spec fn capability_values(s: Seq<CapabilityView>, key: Seq<char>) -> Option<
    Seq<Seq<char>>,
> {
    let i = capability_index(s, key);
    if 0 <= i < s.len() {
        Some(s[i].values)
    } else {
        None
    }
}

/// An address that ends in a `/`.
pub open spec fn with_slash(s: Seq<char>) -> Seq<char> {
    if s.len() > 0 && s.last() == '/' {
        s
    } else {
        s + "/"@
    }
}

/// The line that names the program to the server.
pub open spec fn agent_line(version: Seq<char>) -> Seq<char> {
    "agent=cvvc/"@ + version + "\n"@
}

/// A line with a text.
pub open spec fn text_line(s: Seq<char>) -> PktView {
    PktView::Line(encode_utf8(s))
}

/// The lines that name a command and the program, and separate them from what follows.
pub open spec fn command_lines(
    capabilities: Seq<CapabilityView>,
    command: Seq<char>,
    version: Seq<char>,
) -> Seq<PktView> {
    let agent = if capability_values(capabilities, "agent"@) is Some {
        seq![text_line(agent_line(version))]
    } else {
        Seq::empty()
    };
    seq![text_line(command)] + agent + seq![PktView::Delimiter]
}

/// A line for each of some IDs: a word, a space, and the ID.
pub open spec fn id_lines(word: Seq<char>, ids: Seq<Seq<char>>) -> Seq<PktView> {
    ids.map_values(|id: Seq<char>| text_line(word + id + "\n"@))
}

/// A command about an object, sent to ask for a pack.
pub enum PackFetchCommand {
    /// The object is wanted.
    Want(String),
    /// The object is here already.
    Have(String),
}

impl PackFetchCommand {
    /// The line that the command is sent as.
    pub fn to_line(&self) -> (r: PktLine)
        ensures
            r@ == match self {
                PackFetchCommand::Want(id) => text_line("want "@ + id@ + "\n"@),
                PackFetchCommand::Have(id) => text_line("have "@ + id@ + "\n"@),
            },
    {
        let mut text = match self {
            PackFetchCommand::Want(id) => concat_texts("want ", id.as_str()),
            PackFetchCommand::Have(id) => concat_texts("have ", id.as_str()),
        };
        text.append("\n");
        PktLine::from_text(text.as_str())
    }
}

/// The lines that ask for a pack: what is wanted, what is here already, and whether that is all.
pub open spec fn fetch_lines(
    capabilities: Seq<CapabilityView>,
    version: Seq<char>,
    wants: Seq<Seq<char>>,
    haves: Seq<Seq<char>>,
    done: bool,
) -> Seq<PktView> {
    command_lines(capabilities, "command=fetch\n"@, version) + seq![
        text_line("include-tag\n"@),
        text_line("ofs-delta\n"@),
    ] + id_lines("want "@, wants) + id_lines("have "@, haves) + (if done {
        seq![text_line("done\n"@)]
    } else {
        Seq::empty()
    }) + seq![PktView::Flush]
}

/// The lines that ask for the references.
pub open spec fn ls_refs_lines(
    capabilities: Seq<CapabilityView>,
    version: Seq<char>,
    unborn: bool,
) -> Seq<PktView> {
    command_lines(capabilities, "command=ls-refs\n"@, version) + seq![
        text_line("symrefs\n"@),
        text_line("peel\n"@),
    ] + (if unborn {
        seq![text_line("unborn\n"@)]
    } else {
        Seq::empty()
    }) + seq![PktView::Flush]
}

proof fn lemma_pushed(lines: Seq<PktLine>, line: PktLine)
    ensures
        line_views(lines.push(line)) == line_views(lines).push(line@),
{
    assert(line_views(lines.push(line)) =~= line_views(lines).push(line@));
}

fn push_text_line(lines: &mut Vec<PktLine>, text: &str)
    ensures
        line_views(final(lines)@) == line_views(old(lines)@).push(text_line(text@)),
{
    let line = PktLine::from_text(text);
    proof {
        lemma_pushed(lines@, line);
    }
    lines.push(line);
}

fn push_id_lines(lines: &mut Vec<PktLine>, ids: &[String], want: bool)
    ensures
        line_views(final(lines)@) == line_views(old(lines)@) + id_lines(
            if want {
                "want "@
            } else {
                "have "@
            },
            texts(ids@),
        ),
{
    let ghost before = line_views(lines@);
    let ghost word = if want {
        "want "@
    } else {
        "have "@
    };
    let ghost all = id_lines(word, texts(ids@));
    let mut i: usize = 0;
    assert(before + all.take(0) =~= before);
    while i < ids.len()
        invariant
            i <= ids@.len(),
            word == if want {
                "want "@
            } else {
                "have "@
            },
            all == id_lines(word, texts(ids@)),
            line_views(lines@) == before + all.take(i as int),
        decreases ids@.len() - i,
    {
        let command = if want {
            PackFetchCommand::Want(ids[i].clone())
        } else {
            PackFetchCommand::Have(ids[i].clone())
        };
        let line = command.to_line();
        proof {
            assert(texts(ids@)[i as int] == ids@[i as int]@);
            assert(all[i as int] == line@);
            lemma_pushed(lines@, line);
            assert((before + all.take(i as int)).push(line@) =~= before + all.take(i + 1));
        }
        lines.push(line);
        i = i + 1;
    }
    assert(all.take(i as int) =~= all);
}

impl HttpFetchClient {
    /// A client for the server with an address.
    pub fn new(base_url: &str, protocol_version: Option<ProtocolVersion>) -> (r: Result<
        Self,
        FetchError,
    >)
        ensures
            match r {
                Ok(c) => parsed_url(with_slash(base_url@)) == Some(c.base_url@)
                    && c.protocol_version == protocol_version && c.capabilities@.len() == 0,
                Err(e) => parsed_url(with_slash(base_url@)) is None && e == FetchError::InvalidUrl,
            },
    {
        let cs = chars_of(base_url);
        let url = if cs.len() > 0 && cs[cs.len() - 1] == '/' {
            base_url.to_string()
        } else {
            concat_texts(base_url, "/")
        };
        HttpFetchClient::with_base(url_parse(url.as_str()), protocol_version)
    }

    /// A client for the server with a parsed address, if there is one.
    pub fn with_base(base_url: Option<String>, protocol_version: Option<ProtocolVersion>) -> (r:
        Result<Self, FetchError>)
        ensures
            match r {
                Ok(c) => base_url is Some && c.base_url == base_url->0 && c.protocol_version
                    == protocol_version && c.capabilities@.len() == 0,
                Err(e) => base_url is None && e == FetchError::InvalidUrl,
            },
    {
        match base_url {
            Some(base_url) => Ok(
                HttpFetchClient { base_url, protocol_version, capabilities: Vec::new() },
            ),
            None => Err(FetchError::InvalidUrl),
        }
    }

    /// The version of the protocol that the next request uses.
    pub fn protocol_version(&self) -> (r: ProtocolVersion)
        ensures
            r == match self.protocol_version {
                Some(v) => v,
                None => ProtocolVersion::V2,
            },
    {
        match self.protocol_version {
            Some(v) => v,
            None => ProtocolVersion::V2,
        }
    }

    /// The capabilities of the server.
    pub fn capabilities(&self) -> (r: &[RemoteCapability])
        ensures
            r@ == self.capabilities@,
    {
        self.capabilities.as_slice()
    }

    /// The values of a capability, if the server has it.
    pub fn capability(&self, key: &str) -> (r: Option<Vec<String>>)
        ensures
            match r {
                Some(values) => capability_values(capability_views(self.capabilities@), key@)
                    == Some(texts(values@)),
                None => capability_values(capability_views(self.capabilities@), key@) is None,
            },
    {
        let ghost all = capability_views(self.capabilities@);
        let mut i: usize = 0;
        assert(all.skip(0) =~= all);
        while i < self.capabilities.len()
            invariant
                i <= self.capabilities@.len(),
                all == capability_views(self.capabilities@),
                capability_index(all, key@) == i + capability_index(all.skip(i as int), key@),
            decreases self.capabilities@.len() - i,
        {
            let ghost rest = all.skip(i as int);
            assert(rest[0] == self.capabilities@[i as int]@);
            assert(rest.drop_first() =~= all.skip(i + 1));
            if same_text(self.capabilities[i].key.as_str(), key) {
                return Some(crate::repo::commits::copy_texts(
                    self.capabilities[i].values.as_slice(),
                ));
            }
            i = i + 1;
        }
        None
    }

    /// The address that the references and capabilities are asked for at.
    pub fn discovery_url(&self) -> (r: Option<String>)
        ensures
            match r {
                Some(url) => joined_url(self.base_url@, "info/refs?service=git-upload-pack"@)
                    == Some(url@),
                None => joined_url(self.base_url@, "info/refs?service=git-upload-pack"@) is None,
            },
    {
        url_join(self.base_url.as_str(), "info/refs?service=git-upload-pack")
    }

    /// The address that packs and references are asked for at.
    pub fn upload_pack_url(&self) -> (r: Option<String>)
        ensures
            match r {
                Some(url) => joined_url(self.base_url@, "git-upload-pack"@) == Some(url@),
                None => joined_url(self.base_url@, "git-upload-pack"@) is None,
            },
    {
        url_join(self.base_url.as_str(), "git-upload-pack")
    }

    fn push_command(&self, lines: &mut Vec<PktLine>, command: &str, version: &str)
        requires
            old(lines)@.len() == 0,
        ensures
            line_views(final(lines)@) == command_lines(
                capability_views(self.capabilities@),
                command@,
                version@,
            ),
    {
        push_text_line(lines, command);
        if self.capability("agent").is_some() {
            let mut text = concat_texts("agent=cvvc/", version);
            text.append("\n");
            push_text_line(lines, text.as_str());
        }
        proof {
            lemma_pushed(lines@, PktLine::Delimiter);
        }
        lines.push(PktLine::Delimiter);
        assert(line_views(lines@) =~= command_lines(
            capability_views(self.capabilities@),
            command@,
            version@,
        ));
    }

    /// The lines that ask for a pack with the wanted objects, given those that are here already;
    /// `version` is that of the program.
    pub fn fetch_request(
        &self,
        wants: &[String],
        common_objects: &CommonObjects,
        provide_done: bool,
        version: &str,
    ) -> (r: Result<Vec<PktLine>, FetchError>)
        ensures
            ({
                let capabilities = capability_views(self.capabilities@);
                match r {
                    Ok(lines) => capability_values(capabilities, "fetch"@) is Some && line_views(
                        lines@,
                    ) == fetch_lines(
                        capabilities,
                        version@,
                        texts(wants@),
                        set_items(*common_objects),
                        provide_done,
                    ),
                    Err(e) => capability_values(capabilities, "fetch"@) is None && e
                        == FetchError::NoFetchCommand,
                }
            }),
    {
        if self.capability("fetch").is_none() {
            return Err(FetchError::NoFetchCommand);
        }
        let haves = list_common(common_objects);
        let mut lines: Vec<PktLine> = Vec::new();
        self.push_command(&mut lines, "command=fetch\n", version);
        push_text_line(&mut lines, "include-tag\n");
        push_text_line(&mut lines, "ofs-delta\n");
        push_id_lines(&mut lines, wants, true);
        push_id_lines(&mut lines, haves.as_slice(), false);
        if provide_done {
            push_text_line(&mut lines, "done\n");
        }
        proof {
            lemma_pushed(lines@, PktLine::Flush);
        }
        lines.push(PktLine::Flush);
        assert(line_views(lines@) =~= fetch_lines(
            capability_views(self.capabilities@),
            version@,
            texts(wants@),
            set_items(*common_objects),
            provide_done,
        ));
        Ok(lines)
    }

    /// The lines that ask for the references; `version` is that of the program.
    pub fn ls_refs_request(&self, version: &str) -> (r: Result<Vec<PktLine>, FetchError>)
        ensures
            ({
                let capabilities = capability_views(self.capabilities@);
                match capability_values(capabilities, "ls-refs"@) {
                    Some(args) => r matches Ok(lines) && line_views(lines@) == ls_refs_lines(
                        capabilities,
                        version@,
                        args.contains("unborn"@),
                    ),
                    None => r == Err::<Vec<PktLine>, FetchError>(FetchError::NoLsRefsCommand),
                }
            }),
    {
        let args = match self.capability("ls-refs") {
            None => {
                return Err(FetchError::NoLsRefsCommand);
            },
            Some(args) => args,
        };
        let mut lines: Vec<PktLine> = Vec::new();
        self.push_command(&mut lines, "command=ls-refs\n", version);
        push_text_line(&mut lines, "symrefs\n");
        push_text_line(&mut lines, "peel\n");
        let unborn = is_listed(args.as_slice(), "unborn");
        if unborn {
            push_text_line(&mut lines, "unborn\n");
        }
        proof {
            lemma_pushed(lines@, PktLine::Flush);
        }
        lines.push(PktLine::Flush);
        assert(line_views(lines@) =~= ls_refs_lines(
            capability_views(self.capabilities@),
            version@,
            unborn,
        ));
        Ok(lines)
    }

    /// Whether a pack can be asked for.
    pub fn check_fetch(&self) -> (r: Result<(), FetchError>)
        ensures
            r == match self.protocol_version {
                Some(ProtocolVersion::V1) => Err::<(), FetchError>(FetchError::UnsupportedVersion),
                Some(ProtocolVersion::V2) => Ok::<(), FetchError>(()),
                None => Err::<(), FetchError>(FetchError::UnknownVersion),
            },
    {
        match self.protocol_version {
            Some(ProtocolVersion::V1) => Err(FetchError::UnsupportedVersion),
            Some(ProtocolVersion::V2) => Ok(()),
            None => Err(FetchError::UnknownVersion),
        }
    }
}

} // verus!
