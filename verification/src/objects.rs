//! The objects of a repository: blobs, commits, trees and tags.

use vstd::prelude::*;

use crate::helpers::{timestamped, timestamped_name};
use crate::moments::Timestamp;
use crate::objects::errors::{InvalidObjectIdError, ObjectError};
use crate::objects::kvlm::{
    field_values, fields_of, first_value, get_field, kvlm_bytes, kvlm_can_read, kvlm_parse,
    kvlm_read, kvlm_readable, kvlm_serialise, new_fields, set_field, Fields, FieldsView,
};
use crate::objects::raw::RawObject;
use crate::objects::tree::{node_key, node_views, parse_nodes, NodeView, Tree};
use crate::sorting::sorted_by;
use crate::text::{opt_str, texts, trim, trim_text};

pub mod commit_laws;
pub mod delta;
pub mod delta_laws;
pub mod errors;
pub mod kvlm;
pub mod kvlm_laws;
pub mod raw;
pub mod tree;

verus! {

broadcast use vstd::string::group_string_axioms;

/// The kind of an object.
#[derive(Debug, PartialEq)]
pub enum ObjectKind {
    /// The contents of a file.
    Blob,
    /// A commit.
    Commit,
    /// A directory.
    Tree,
    /// A tag with a message.
    Tag,
    /// Changes to another object, which is given by its ID.
    Delta(String),
}

/// What kind an object is.
pub enum KindView {
    /// The contents of a file.
    Blob,
    /// A commit.
    Commit,
    /// A directory.
    Tree,
    /// A tag with a message.
    Tag,
    /// Changes to another object.
    Delta(Seq<char>),
}

impl View for ObjectKind {
    type V = KindView;

    open spec fn view(&self) -> KindView {
        match self {
            ObjectKind::Blob => KindView::Blob,
            ObjectKind::Commit => KindView::Commit,
            ObjectKind::Tree => KindView::Tree,
            ObjectKind::Tag => KindView::Tag,
            ObjectKind::Delta(base) => KindView::Delta(base@),
        }
    }
}

impl Clone for ObjectKind {
    fn clone(&self) -> (r: Self)
        ensures
            r@ == self@,
    {
        match self {
            ObjectKind::Blob => ObjectKind::Blob,
            ObjectKind::Commit => ObjectKind::Commit,
            ObjectKind::Tree => ObjectKind::Tree,
            ObjectKind::Tag => ObjectKind::Tag,
            ObjectKind::Delta(base) => ObjectKind::Delta(base.clone()),
        }
    }
}

/// The name of a kind in an object header, empty for changes to another object.
pub open spec fn kind_bytes(kind: KindView) -> Seq<u8> {
    match kind {
        KindView::Blob => seq![98u8, 108, 111, 98],
        KindView::Commit => seq![99u8, 111, 109, 109, 105, 116],
        KindView::Tree => seq![116u8, 114, 101, 101],
        KindView::Tag => seq![116u8, 97, 103],
        KindView::Delta(_) => Seq::empty(),
    }
}

/// The kind that a name in an object header stands for.
pub open spec fn kind_named(name: Seq<u8>) -> Option<KindView> {
    if name == kind_bytes(KindView::Blob) {
        Some(KindView::Blob)
    } else if name == kind_bytes(KindView::Commit) {
        Some(KindView::Commit)
    } else if name == kind_bytes(KindView::Tree) {
        Some(KindView::Tree)
    } else if name == kind_bytes(KindView::Tag) {
        Some(KindView::Tag)
    } else {
        None
    }
}

pub(crate) fn same_bytes(a: &[u8], b: &[u8]) -> (r: bool)
    ensures
        r == (a@ == b@),
{
    if a.len() != b.len() {
        return false;
    }
    let mut i: usize = 0;
    while i < a.len()
        invariant
            i <= a@.len(),
            a@.len() == b@.len(),
            forall|j: int| 0 <= j < i ==> a@[j] == b@[j],
        decreases a@.len() - i,
    {
        if a[i] != b[i] {
            return false;
        }
        i = i + 1;
    }
    assert(a@ =~= b@);
    true
}

impl ObjectKind {
    /// The name of the kind in an object header.
    pub fn bytes(&self) -> (r: &[u8])
        ensures
            r@ == kind_bytes(self@),
    {
        match self {
            ObjectKind::Blob => {
                let r: &[u8] = &[98, 108, 111, 98];
                assert(r@ =~= kind_bytes(self@));
                r
            },
            ObjectKind::Commit => {
                let r: &[u8] = &[99, 111, 109, 109, 105, 116];
                assert(r@ =~= kind_bytes(self@));
                r
            },
            ObjectKind::Tree => {
                let r: &[u8] = &[116, 114, 101, 101];
                assert(r@ =~= kind_bytes(self@));
                r
            },
            ObjectKind::Tag => {
                let r: &[u8] = &[116, 97, 103];
                assert(r@ =~= kind_bytes(self@));
                r
            },
            ObjectKind::Delta(_) => {
                let r: &[u8] = &[];
                assert(r@ =~= kind_bytes(self@));
                r
            },
        }
    }

    /// The kind that a name in an object header stands for.
    pub fn try_from(value: &[u8]) -> (r: Result<ObjectKind, ObjectError>)
        ensures
            match r {
                Ok(kind) => kind_named(value@) == Some(kind@),
                Err(e) => kind_named(value@) is None && e == ObjectError::UnknownType,
            },
    {
        if same_bytes(value, ObjectKind::Blob.bytes()) {
            Ok(ObjectKind::Blob)
        } else if same_bytes(value, ObjectKind::Commit.bytes()) {
            Ok(ObjectKind::Commit)
        } else if same_bytes(value, ObjectKind::Tree.bytes()) {
            Ok(ObjectKind::Tree)
        } else if same_bytes(value, ObjectKind::Tag.bytes()) {
            Ok(ObjectKind::Tag)
        } else {
            Err(ObjectError::UnknownType)
        }
    }

    /// Whether two kinds are the same.
    pub fn same_kind(&self, other: &ObjectKind) -> (r: bool)
        ensures
            r == (self@ == other@),
    {
        match (self, other) {
            (ObjectKind::Blob, ObjectKind::Blob) => true,
            (ObjectKind::Commit, ObjectKind::Commit) => true,
            (ObjectKind::Tree, ObjectKind::Tree) => true,
            (ObjectKind::Tag, ObjectKind::Tag) => true,
            (ObjectKind::Delta(a), ObjectKind::Delta(b)) => crate::text::same_text(
                a.as_str(),
                b.as_str(),
            ),
            _ => false,
        }
    }
}

/// Reading the name of a kind gives the kind back.
pub proof fn theorem_kind_round_trip(kind: KindView)
    ensures
        !(kind is Delta) ==> kind_named(kind_bytes(kind)) == Some(kind),
        kind is Delta ==> kind_named(kind_bytes(kind)) is None,
{
    let blob = kind_bytes(KindView::Blob);
    let commit = kind_bytes(KindView::Commit);
    let tree = kind_bytes(KindView::Tree);
    let tag = kind_bytes(KindView::Tag);
    assert(blob.len() == 4 && commit.len() == 6 && tree.len() == 4 && tag.len() == 3);
    assert(blob[0] != tree[0]);
}

/// An object that can be stored in a repository.
pub trait GitObject: Sized {
    /// The kind of the object.
    spec fn spec_kind(&self) -> KindView;

    /// The bytes that the object is stored as.
    spec fn content(&self) -> Seq<u8>;

    /// Whether bytes are ones that [`GitObject::deserialise`] takes.
    spec fn readable(data: Seq<u8>) -> bool;

    /// Whether a result is the one that bytes are read as.
    spec fn reads_as(data: Seq<u8>, r: Result<Self, ObjectError>) -> bool;

    /// The kind of the object.
    fn kind(&self) -> (r: ObjectKind)
        ensures
            r@ == self.spec_kind(),
    ;

    /// Writes the bytes that the object is stored as to an empty buffer.
    fn serialise(&self, buf: &mut Vec<u8>)
        ensures
            old(buf)@.len() == 0 ==> final(buf)@ == self.content(),
    ;

    /// Whether bytes are ones that [`GitObject::deserialise`] takes.
    fn can_read(data: &[u8]) -> (r: bool)
        ensures
            r == Self::readable(data@),
    ;

    /// Reads an object from the bytes that it is stored as.
    fn deserialise(data: &[u8]) -> (r: Result<Self, ObjectError>)
        requires
            Self::readable(data@),
        ensures
            Self::reads_as(data@, r),
    ;
}

/// The contents of a file.
#[derive(Debug)]
pub struct Blob {
    /// The contents.
    pub data: Vec<u8>,
}

impl Blob {
    /// The blob with the given contents.
    pub fn new_from_read(source: Vec<u8>) -> (r: Self)
        ensures
            r.data@ == source@,
    {
        Blob { data: source }
    }

    /// The contents.
    pub fn data(&self) -> (r: &[u8])
        ensures
            r@ == self.data@,
    {
        self.data.as_slice()
    }
}

impl GitObject for Blob {
    open spec fn spec_kind(&self) -> KindView {
        KindView::Blob
    }

    open spec fn content(&self) -> Seq<u8> {
        self.data@
    }

    open spec fn readable(data: Seq<u8>) -> bool {
        true
    }

    open spec fn reads_as(data: Seq<u8>, r: Result<Self, ObjectError>) -> bool {
        r matches Ok(blob) && blob.data@ == data
    }

    fn kind(&self) -> (r: ObjectKind) {
        ObjectKind::Blob
    }

    fn serialise(&self, buf: &mut Vec<u8>)
        ensures
            final(buf)@ == self.content(),
    {
        buf.clear();
        crate::index::push_bytes(buf, self.data.as_slice());
        assert(buf@ =~= self.data@);
    }

    fn can_read(data: &[u8]) -> (r: bool) {
        true
    }

    fn deserialise(data: &[u8]) -> (r: Result<Self, ObjectError>) {
        Ok(Blob { data: vstd::slice::slice_to_vec(data) })
    }
}

/// Reading a stored blob gives back the contents that were stored.
pub proof fn theorem_blob_round_trip(blob: Blob, r: Result<Blob, ObjectError>)
    requires
        Blob::reads_as(blob.content(), r),
    ensures
        r matches Ok(b) && b.data@ == blob.data@,
{
}

/// A commit.
#[derive(Debug)]
pub struct Commit {
    /// The fields.
    pub map: Fields,
    /// The message.
    pub message: String,
}

/// The value of a field that holds only that one.
pub open spec fn single(name: Seq<char>, value: Seq<char>) -> (Seq<char>, Seq<Seq<char>>) {
    (name, seq![value])
}

/// The fields of a new commit.
pub open spec fn commit_fields(
    tree_id: Seq<char>,
    parent_id: Option<Seq<char>>,
    author: Seq<char>,
    committer: Seq<char>,
) -> FieldsView {
    let first = seq![single("tree"@, tree_id)];
    let with_parent = match parent_id {
        Some(id) => first.push(single("parent"@, id)),
        None => first,
    };
    with_parent.push(single("author"@, author)).push(single("committer"@, committer))
}

fn one_value(value: String) -> (r: Vec<String>)
    ensures
        texts(r@) == seq![value@],
{
    let mut v: Vec<String> = Vec::new();
    v.push(value);
    assert(texts(v@) =~= seq![value@]);
    v
}

/// Adds a field that is not there yet, with one value.
fn add_new_field(map: &mut Fields, name: &str, value: String)
    requires
        forall|i: int|
            0 <= i < fields_of(*old(map)).len() ==> (#[trigger] fields_of(*old(map))[i]).0 != name@,
    ensures
        fields_of(*final(map)) == fields_of(*old(map)).push(single(name@, value@)),
{
    proof {
        crate::objects::kvlm::lemma_field_index(fields_of(*map), name@);
    }
    set_field(map, name.to_string(), one_value(value));
}

proof fn lemma_commit_names()
    ensures
        "tree"@ != "parent"@,
        "tree"@ != "author"@,
        "tree"@ != "committer"@,
        "parent"@ != "author"@,
        "parent"@ != "committer"@,
        "author"@ != "committer"@,
{
    reveal_strlit("tree");
    reveal_strlit("parent");
    reveal_strlit("author");
    reveal_strlit("committer");
    assert("tree"@.len() == 4 && "parent"@.len() == 6 && "author"@.len() == 6
        && "committer"@.len() == 9);
    assert("parent"@[0] == 'p' && "author"@[0] == 'a');
}

impl Commit {
    /// The ID of the tree that the commit is of.
    pub fn tree(&self) -> (r: Result<String, InvalidObjectIdError>)
        ensures
            match r {
                Ok(id) => field_values(fields_of(self.map), "tree"@).len() > 0 && id@
                    == field_values(fields_of(self.map), "tree"@)[0],
                Err(_) => field_values(fields_of(self.map), "tree"@).len() == 0,
            },
    {
        match first_value(&self.map, "tree") {
            Some(id) => Ok(id),
            None => Err(InvalidObjectIdError {  }),
        }
    }

    /// The IDs of the commits that this one follows.
    pub fn parents(&self) -> (r: Vec<String>)
        ensures
            texts(r@) == field_values(fields_of(self.map), "parent"@),
    {
        match get_field(&self.map, "parent") {
            Some(v) => v,
            None => {
                let v: Vec<String> = Vec::new();
                assert(texts(v@) =~= Seq::<Seq<char>>::empty());
                v
            },
        }
    }

    /// A new commit.
    pub fn new(
        tree_id: &str,
        parent_id: Option<&str>,
        author: &str,
        committer: &str,
        timestamp: &Timestamp,
        message: &str,
    ) -> (r: Self)
        ensures
            fields_of(r.map) == commit_fields(
                tree_id@,
                opt_str(parent_id),
                timestamped(author@, timestamp.spec_secs(), timestamp.spec_offset()),
                timestamped(committer@, timestamp.spec_secs(), timestamp.spec_offset()),
            ),
            r.message@ == trim(message@).push('\n'),
    {
        proof {
            lemma_commit_names();
        }
        let mut map = new_fields();
        add_new_field(&mut map, "tree", tree_id.to_string());
        assert(fields_of(map) =~= seq![single("tree"@, tree_id@)]);
        if let Some(id) = parent_id {
            add_new_field(&mut map, "parent", id.to_string());
        }
        add_new_field(&mut map, "author", timestamped_name(author, timestamp));
        add_new_field(&mut map, "committer", timestamped_name(committer, timestamp));
        let mut text = trim_text(message);
        text.push('\n');
        Commit { map, message: text }
    }
}

impl GitObject for Commit {
    open spec fn spec_kind(&self) -> KindView {
        KindView::Commit
    }

    open spec fn content(&self) -> Seq<u8> {
        kvlm_bytes(fields_of(self.map), self.message@)
    }

    open spec fn readable(data: Seq<u8>) -> bool {
        kvlm_readable(data)
    }

    open spec fn reads_as(data: Seq<u8>, r: Result<Self, ObjectError>) -> bool {
        match kvlm_read(data, Seq::empty()) {
            Ok((fields, message)) => r matches Ok(c) && fields_of(c.map) == fields && c.message@
                == message,
            Err(e) => r == Err::<Commit, ObjectError>(e),
        }
    }

    fn kind(&self) -> (r: ObjectKind) {
        ObjectKind::Commit
    }

    fn serialise(&self, buf: &mut Vec<u8>)
        ensures
            final(buf)@ == self.content(),
    {
        kvlm_serialise(&self.map, self.message.as_str(), buf)
    }

    fn can_read(data: &[u8]) -> (r: bool) {
        kvlm_can_read(data)
    }

    fn deserialise(data: &[u8]) -> (r: Result<Self, ObjectError>) {
        let mut map = new_fields();
        match kvlm_parse(data, &mut map) {
            Ok(message) => Ok(Commit { map, message }),
            Err(e) => Err(e),
        }
    }
}

/// A tag with a message.
#[derive(Debug)]
pub struct Tag {
    /// The fields.
    pub map: Fields,
    /// The message.
    pub message: String,
}

proof fn lemma_tag_names()
    ensures
        "object"@ != "type"@,
        "object"@ != "tag"@,
        "object"@ != "tagger"@,
        "type"@ != "tag"@,
        "type"@ != "tagger"@,
        "tag"@ != "tagger"@,
{
    reveal_strlit("object");
    reveal_strlit("type");
    reveal_strlit("tag");
    reveal_strlit("tagger");
    assert("object"@.len() == 6 && "type"@.len() == 4 && "tag"@.len() == 3 && "tagger"@.len()
        == 6);
    assert("object"@[0] == 'o' && "tagger"@[0] == 't');
}

impl Tag {
    /// A new tag for a commit.
    pub fn new(
        target: &str,
        name: &str,
        message: Option<&str>,
        committer: &str,
        timestamp: &Timestamp,
    ) -> (r: Self)
        ensures
            fields_of(r.map) == seq![
                single("object"@, target@),
                single("type"@, "commit"@),
                single("tag"@, name@),
                single(
                    "tagger"@,
                    timestamped(committer@, timestamp.spec_secs(), timestamp.spec_offset()),
                ),
            ],
            r.message@ == match message {
                Some(m) => m@,
                None => "CV: The user forgot to enter the message"@,
            },
    {
        proof {
            lemma_tag_names();
        }
        let text = match message {
            Some(m) => m.to_string(),
            None => "CV: The user forgot to enter the message".to_string(),
        };
        let mut map = new_fields();
        add_new_field(&mut map, "object", target.to_string());
        add_new_field(&mut map, "type", "commit".to_string());
        add_new_field(&mut map, "tag", name.to_string());
        let ghost before = fields_of(map);
        add_new_field(&mut map, "tagger", timestamped_name(committer, timestamp));
        assert(fields_of(map) =~= seq![
            single("object"@, target@),
            single("type"@, "commit"@),
            single("tag"@, name@),
            single(
                "tagger"@,
                timestamped(committer@, timestamp.spec_secs(), timestamp.spec_offset()),
            ),
        ]);
        Tag { map, message: text }
    }

    /// The ID of the object that the tag is for.
    pub fn target(&self) -> (r: Result<String, InvalidObjectIdError>)
        ensures
            match r {
                Ok(id) => field_values(fields_of(self.map), "object"@).len() > 0 && id@
                    == field_values(fields_of(self.map), "object"@)[0],
                Err(_) => field_values(fields_of(self.map), "object"@).len() == 0,
            },
    {
        match first_value(&self.map, "object") {
            Some(id) => Ok(id),
            None => Err(InvalidObjectIdError {  }),
        }
    }
}

impl GitObject for Tag {
    open spec fn spec_kind(&self) -> KindView {
        KindView::Tag
    }

    open spec fn content(&self) -> Seq<u8> {
        kvlm_bytes(fields_of(self.map), self.message@)
    }

    open spec fn readable(data: Seq<u8>) -> bool {
        kvlm_readable(data)
    }

    open spec fn reads_as(data: Seq<u8>, r: Result<Self, ObjectError>) -> bool {
        match kvlm_read(data, Seq::empty()) {
            Ok((fields, message)) => r matches Ok(t) && fields_of(t.map) == fields && t.message@
                == message,
            Err(e) => r == Err::<Tag, ObjectError>(e),
        }
    }

    fn kind(&self) -> (r: ObjectKind) {
        ObjectKind::Tag
    }

    fn serialise(&self, buf: &mut Vec<u8>)
        ensures
            final(buf)@ == self.content(),
    {
        kvlm_serialise(&self.map, self.message.as_str(), buf)
    }

    fn can_read(data: &[u8]) -> (r: bool) {
        kvlm_can_read(data)
    }

    fn deserialise(data: &[u8]) -> (r: Result<Self, ObjectError>) {
        let mut map = new_fields();
        match kvlm_parse(data, &mut map) {
            Ok(message) => Ok(Tag { map, message }),
            Err(e) => Err(e),
        }
    }
}

/// An object whose contents have been read.
#[derive(Debug)]
pub enum StoredObject {
    /// The contents of a file.
    Blob(Blob),
    /// A commit.
    Commit(Commit),
    /// A directory.
    Tree(Tree),
    /// A tag with a message.
    Tag(Tag),
}

/// What an object holds.
pub enum StoredView {
    /// The contents of a file.
    Blob(Seq<u8>),
    /// The fields and message of a commit.
    Commit(FieldsView, Seq<char>),
    /// The entries of a directory.
    Tree(Seq<NodeView>),
    /// The fields and message of a tag.
    Tag(FieldsView, Seq<char>),
}

impl View for StoredObject {
    type V = StoredView;

    open spec fn view(&self) -> StoredView {
        match self {
            StoredObject::Blob(x) => StoredView::Blob(x.data@),
            StoredObject::Commit(x) => StoredView::Commit(fields_of(x.map), x.message@),
            StoredObject::Tree(x) => StoredView::Tree(node_views(x.entries@)),
            StoredObject::Tag(x) => StoredView::Tag(fields_of(x.map), x.message@),
        }
    }
}

impl StoredObject {
    /// Writes the bytes that the object is stored as: those of a tree at the end of the buffer,
    /// those of another object in place of what the buffer holds.
    pub fn serialise(&self, buf: &mut Vec<u8>)
        ensures
            final(buf)@ == match self {
                StoredObject::Blob(x) => x.content(),
                StoredObject::Commit(x) => x.content(),
                StoredObject::Tree(x) => old(buf)@ + x.content(),
                StoredObject::Tag(x) => x.content(),
            },
    {
        match self {
            StoredObject::Blob(x) => x.serialise(buf),
            StoredObject::Commit(x) => x.serialise(buf),
            StoredObject::Tree(x) => x.serialise(buf),
            StoredObject::Tag(x) => x.serialise(buf),
        }
    }
}

/// Whether the contents of an object are ones that can be read as its kind.
pub open spec fn raw_readable(kind: KindView, data: Seq<u8>) -> bool {
    match kind {
        KindView::Commit => Commit::readable(data),
        KindView::Tag => Tag::readable(data),
        _ => true,
    }
}

/// What the contents of an object are read as, or why they are not valid.
pub open spec fn read_contents(kind: KindView, data: Seq<u8>) -> Result<StoredView, ObjectError> {
    match kind {
        KindView::Blob => Ok(StoredView::Blob(data)),
        KindView::Commit => match kvlm_read(data, Seq::empty()) {
            Ok((fields, message)) => Ok(StoredView::Commit(fields, message)),
            Err(e) => Err(e),
        },
        KindView::Tree => match parse_nodes(data) {
            Ok(nodes) => Ok(StoredView::Tree(sorted_by(nodes, node_key()))),
            Err(e) => Err(ObjectError::Tree(e)),
        },
        KindView::Tag => match kvlm_read(data, Seq::empty()) {
            Ok((fields, message)) => Ok(StoredView::Tag(fields, message)),
            Err(e) => Err(e),
        },
        KindView::Delta(_) => Err(ObjectError::IsDelta),
    }
}

impl RawObject {
    /// Whether the contents of the object can be read as its kind.
    pub fn can_read(&self) -> (r: bool)
        ensures
            r == raw_readable(self.content.metadata.kind@, self.content.data@),
    {
        match self.content.metadata.kind {
            ObjectKind::Commit => Commit::can_read(self.content_headerless()),
            ObjectKind::Tag => Tag::can_read(self.content_headerless()),
            _ => true,
        }
    }

    /// Reads the contents of the object as its kind; an error for changes to another object.
    pub fn to_stored_object(&self) -> (r: Result<StoredObject, ObjectError>)
        requires
            raw_readable(self.content.metadata.kind@, self.content.data@),
        ensures
            match r {
                Ok(o) => read_contents(self.content.metadata.kind@, self.content.data@) == Ok::<
                    StoredView,
                    ObjectError,
                >(o@),
                Err(e) => read_contents(self.content.metadata.kind@, self.content.data@) == Err::<
                    StoredView,
                    ObjectError,
                >(e),
            },
    {
        match self.content.metadata.kind {
            ObjectKind::Blob => match Blob::deserialise(self.content_headerless()) {
                Ok(x) => Ok(StoredObject::Blob(x)),
                Err(e) => Err(e),
            },
            ObjectKind::Commit => match Commit::deserialise(self.content_headerless()) {
                Ok(x) => Ok(StoredObject::Commit(x)),
                Err(e) => Err(e),
            },
            ObjectKind::Tree => match Tree::deserialise(self.content_headerless()) {
                Ok(x) => Ok(StoredObject::Tree(x)),
                Err(e) => Err(e),
            },
            ObjectKind::Tag => match Tag::deserialise(self.content_headerless()) {
                Ok(x) => Ok(StoredObject::Tag(x)),
                Err(e) => Err(e),
            },
            ObjectKind::Delta(_) => Err(ObjectError::IsDelta),
        }
    }
}

/// Whether an object is of a kind.
pub fn stored_object_matches_kind(kind: &ObjectKind, obj: &StoredObject) -> (r: bool)
    ensures
        r == match obj@ {
            StoredView::Blob(_) => kind@ is Blob,
            StoredView::Commit(_, _) => kind@ is Commit,
            StoredView::Tree(_) => kind@ is Tree,
            StoredView::Tag(_, _) => kind@ is Tag,
        },
{
    match (kind, obj) {
        (ObjectKind::Blob, StoredObject::Blob(_)) => true,
        (ObjectKind::Commit, StoredObject::Commit(_)) => true,
        (ObjectKind::Tree, StoredObject::Tree(_)) => true,
        (ObjectKind::Tag, StoredObject::Tag(_)) => true,
        _ => false,
    }
}

} // verus!
