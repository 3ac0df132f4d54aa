//! Objects as they are stored, before their contents are read.

use vstd::prelude::*;
use vstd::slice::{slice_subrange, slice_to_vec};
use vstd::utf8::{decode_utf8, encode_utf8, valid_utf8};

use crate::encoding::{lemma_decode_encode, lemma_encode_ascii};
use crate::index::push_bytes;
use crate::interop::{hex_encode, hex_text, sha1_digest, sha1_of, utf8_string};
use crate::numerals::{decimal, lemma_numeral, numeral, parse_number, parsed_number};
use crate::objects::delta::{combine_object_delta_data, delta_applies, delta_result};
use crate::objects::errors::ObjectError;
use crate::objects::{kind_bytes, kind_named, GitObject, KindView, ObjectKind};
use crate::text::{chars_of, find_byte, first_index, lemma_first_index_is};

verus! {

broadcast use vstd::string::group_string_axioms;

/// The kind of an object and the length of its contents.
#[derive(Debug, PartialEq)]
pub struct ObjectMetadata {
    /// The type of object.
    pub kind: ObjectKind,
    /// The length of the object's serialised data.
    pub size: usize,
}

/// The kind that an object header names and where the contents start, or why it is not valid.
pub open spec fn parse_header(d: Seq<u8>) -> Result<(KindView, int), ObjectError> {
    let type_end = first_index(d, 0x20u8, 0);
    let len_end = first_index(d, 0u8, type_end + 1);
    let length = d.subrange(type_end + 1, len_end);
    if type_end >= d.len() {
        Err(ObjectError::NoTypeEnd)
    } else if len_end >= d.len() {
        Err(ObjectError::NoLengthEnd)
    } else if kind_named(d.take(type_end)) is None {
        Err(ObjectError::UnknownType)
    } else if !valid_utf8(length) {
        Err(ObjectError::BadLength)
    } else {
        match parsed_number(decode_utf8(length), 10) {
            Some(n) => if n > usize::MAX {
                Err(ObjectError::BadLength)
            } else if n != d.len() - (len_end + 1) {
                Err(ObjectError::LengthMismatch)
            } else {
                Ok((kind_named(d.take(type_end))->0, len_end + 1))
            },
            None => Err(ObjectError::BadLength),
        }
    }
}

/// The header of an object: its kind, a space, the length of its contents, and a NUL byte.
pub open spec fn header_bytes(kind: KindView, size: int) -> Seq<u8> {
    kind_bytes(kind) + seq![0x20u8] + encode_utf8(numeral(size as nat, 10)) + seq![0u8]
}

/// The ID of an object: the SHA-1 digest of its header and contents, in hexadecimal.
pub open spec fn object_name(kind: KindView, size: int, data: Seq<u8>) -> Seq<char> {
    hex_text(sha1_digest(header_bytes(kind, size) + data))
}

impl ObjectMetadata {
    /// The given kind and length.
    pub fn new(kind: ObjectKind, size: usize) -> (r: Self)
        ensures
            r.kind@ == kind@,
            r.size == size,
    {
        ObjectMetadata { kind, size }
    }

    /// This length with the kind of a base object.
    pub fn combine(self, base: &ObjectMetadata) -> (r: Self)
        ensures
            r.kind@ == base.kind@,
            r.size == self.size,
    {
        ObjectMetadata { kind: base.kind.clone(), size: self.size }
    }

    /// Reads the header of an object from the header and contents together.
    pub fn try_from(data: &[u8]) -> (r: Result<Self, ObjectError>)
        ensures
            match r {
                Ok(m) => parse_header(data@) == Ok::<(KindView, int), ObjectError>(
                    (m.kind@, data@.len() - m.size),
                ) && m.size <= data@.len(),
                Err(e) => parse_header(data@) == Err::<(KindView, int), ObjectError>(e),
            },
    {
        let n: usize = data.len();
        let type_end: usize = find_byte(data, 0x20, 0);
        if type_end >= n {
            return Err(ObjectError::NoTypeEnd);
        }
        let len_end: usize = find_byte(data, 0, type_end + 1);
        if len_end >= n {
            return Err(ObjectError::NoLengthEnd);
        }
        let name = slice_subrange(data, 0, type_end);
        assert(name@ =~= data@.take(type_end as int));
        let kind = match ObjectKind::try_from(name) {
            Ok(kind) => kind,
            Err(e) => {
                return Err(e);
            },
        };
        let length = match utf8_string(slice_subrange(data, type_end + 1, len_end)) {
            Some(s) => s,
            None => {
                return Err(ObjectError::BadLength);
            },
        };
        let digits = chars_of(length.as_str());
        let size: u64 = match parse_number(&digits, 10) {
            Some(v) => v,
            None => {
                return Err(ObjectError::BadLength);
            },
        };
        if size > usize::MAX as u64 {
            return Err(ObjectError::BadLength);
        }
        let actual: usize = n - (len_end + 1);
        if size as usize != actual {
            return Err(ObjectError::LengthMismatch);
        }
        Ok(ObjectMetadata { kind, size: actual })
    }
}

/// An object without its ID: its metadata, and its contents or the changes to another object
/// that make them.
#[derive(Debug)]
pub struct RawObjectData {
    /// The contents or changes.
    pub data: Vec<u8>,
    /// The kind and length.
    pub metadata: ObjectMetadata,
}

/// What an object without its ID holds.
#[verifier::ext_equal]
pub struct DataView {
    /// The kind.
    pub kind: KindView,
    /// The length that the metadata gives.
    pub size: int,
    /// The contents or changes.
    pub data: Seq<u8>,
}

impl View for RawObjectData {
    type V = DataView;

    open spec fn view(&self) -> DataView {
        DataView {
            kind: self.metadata.kind@,
            size: self.metadata.size as int,
            data: self.data@,
        }
    }
}

impl Clone for RawObjectData {
    fn clone(&self) -> (r: Self)
        ensures
            r@ == self@,
    {
        RawObjectData {
            data: slice_to_vec(self.data.as_slice()),
            metadata: ObjectMetadata {
                kind: self.metadata.kind.clone(),
                size: self.metadata.size,
            },
        }
    }
}

impl RawObjectData {
    /// The object with the given contents and metadata.
    pub fn new(data: &[u8], metadata: ObjectMetadata) -> (r: Self)
        ensures
            r.data@ == data@,
            r.metadata == metadata,
    {
        RawObjectData { data: slice_to_vec(data), metadata }
    }

    /// Reads an object from its header and contents.
    pub fn from_data_with_header(data: &[u8]) -> (r: Result<Self, ObjectError>)
        ensures
            match r {
                Ok(o) => parse_header(data@) matches Ok((kind, start)) && o.metadata.kind@ == kind
                    && o.data@ == data@.skip(start) && o.metadata.size == o.data@.len(),
                Err(e) => parse_header(data@) == Err::<(KindView, int), ObjectError>(e),
            },
    {
        match ObjectMetadata::try_from(data) {
            Err(e) => Err(e),
            Ok(metadata) => {
                let start: usize = data.len() - metadata.size;
                let contents = slice_subrange(data, start, data.len());
                assert(contents@ =~= data@.skip(start as int));
                Ok(RawObjectData { data: slice_to_vec(contents), metadata })
            },
        }
    }

    /// The metadata.
    pub fn metadata(&self) -> (r: &ObjectMetadata)
        ensures
            *r == self.metadata,
    {
        &self.metadata
    }

    /// Applies the changes that this object holds to its base object.
    pub fn combine(self, base_object: &RawObject) -> (r: Self)
        requires
            delta_applies(base_object.content.data@, self.data@),
        ensures
            r.data@ == delta_result(base_object.content.data@, self.data@),
            r.metadata.kind@ == base_object.content.metadata.kind@,
            r.metadata.size == self.metadata.size,
    {
        let combined = combine_object_delta_data(
            base_object.content.data.as_slice(),
            self.data.as_slice(),
        );
        RawObjectData {
            data: combined,
            metadata: self.metadata.combine(&base_object.content.metadata),
        }
    }
}

/// An object with its ID, whose contents have not been read yet.
#[derive(Debug)]
pub struct RawObject {
    /// The metadata and contents.
    pub content: RawObjectData,
    /// The ID.
    pub object_id: String,
}

impl RawObject {
    /// Reads an object from its header and contents.  The ID is not verified.
    pub fn from_data_with_header(data: &[u8], object_id: &str) -> (r: Result<Self, ObjectError>)
        ensures
            match r {
                Ok(o) => parse_header(data@) matches Ok((kind, start))
                    && o.content.metadata.kind@ == kind && o.content.data@ == data@.skip(start)
                    && o.content.metadata.size == o.content.data@.len() && o.object_id@
                    == object_id@,
                Err(e) => parse_header(data@) == Err::<(KindView, int), ObjectError>(e),
            },
    {
        match RawObjectData::from_data_with_header(data) {
            Err(e) => Err(e),
            Ok(content) => Ok(RawObject { content, object_id: object_id.to_string() }),
        }
    }

    /// The object with the given contents, ID and metadata.  The ID is not verified.
    pub fn from_headerless_data(data: &[u8], object_id: &str, metadata: ObjectMetadata) -> (r: Self)
        ensures
            r.content.data@ == data@,
            r.content.metadata == metadata,
            r.object_id@ == object_id@,
    {
        RawObject {
            content: RawObjectData::new(data, metadata),
            object_id: object_id.to_string(),
        }
    }

    fn construct_header(kind: &ObjectKind, size: usize) -> (r: Vec<u8>)
        ensures
            r@ == header_bytes(kind@, size as int),
    {
        let mut header = slice_to_vec(kind.bytes());
        header.push(0x20);
        let length = decimal(size as u64);
        push_bytes(&mut header, length.as_str().as_bytes());
        header.push(0);
        assert(header@ =~= header_bytes(kind@, size as int));
        header
    }

    fn compute_id(content: &RawObjectData) -> (r: String)
        ensures
            r@ == object_name(
                content.metadata.kind@,
                content.metadata.size as int,
                content.data@,
            ),
    {
        let mut whole = RawObject::construct_header(
            &content.metadata.kind,
            content.metadata.size,
        );
        push_bytes(&mut whole, content.data.as_slice());
        let digest = sha1_of(whole.as_slice());
        hex_encode(digest.as_slice())
    }

    /// The stored form of an object, with the ID that its contents give it.
    pub fn from_git_object<T: GitObject>(obj: &T) -> (r: Self)
        ensures
            r.content.data@ == obj.content(),
            r.content.metadata.kind@ == obj.spec_kind(),
            r.content.metadata.size == r.content.data@.len(),
            r.object_id@ == object_name(
                obj.spec_kind(),
                obj.content().len() as int,
                obj.content(),
            ),
    {
        let mut data: Vec<u8> = Vec::new();
        obj.serialise(&mut data);
        let size: usize = data.len();
        let content = RawObjectData { data, metadata: ObjectMetadata::new(obj.kind(), size) };
        let object_id = RawObject::compute_id(&content);
        RawObject { content, object_id }
    }

    /// The contents.
    pub fn content_headerless(&self) -> (r: &[u8])
        ensures
            r@ == self.content.data@,
    {
        self.content.data.as_slice()
    }

    /// The header and contents.
    pub fn content_with_header(&self) -> (r: Vec<u8>)
        ensures
            r@ == header_bytes(
                self.content.metadata.kind@,
                self.content.metadata.size as int,
            ) + self.content.data@,
    {
        let mut content = RawObject::construct_header(
            &self.content.metadata.kind,
            self.content.metadata.size,
        );
        push_bytes(&mut content, self.content.data.as_slice());
        content
    }

    /// The ID.
    pub fn object_id(&self) -> (r: &str)
        ensures
            r@ == self.object_id@,
    {
        self.object_id.as_str()
    }

    /// The metadata.
    pub fn metadata(&self) -> (r: &ObjectMetadata)
        ensures
            *r == self.content.metadata,
    {
        &self.content.metadata
    }

    /// The object with the ID that its contents give it.
    pub(crate) fn of_content(content: RawObjectData) -> (r: Self)
        ensures
            r.content == content,
            r.object_id@ == object_name(
                content.metadata.kind@,
                content.metadata.size as int,
                content.data@,
            ),
    {
        let object_id = RawObject::compute_id(&content);
        RawObject { content, object_id }
    }

    /// The object with the ID that its contents give it; an error for changes to another
    /// object, which must be applied first.
    pub fn try_from(value: RawObjectData) -> (r: Result<Self, ObjectError>)
        ensures
            match r {
                Ok(o) => !(value.metadata.kind@ is Delta) && o.content == value && o.object_id@
                    == object_name(
                    value.metadata.kind@,
                    value.metadata.size as int,
                    value.data@,
                ),
                Err(e) => value.metadata.kind@ is Delta && e == ObjectError::IsDelta,
            },
    {
        match value.metadata.kind {
            ObjectKind::Delta(_) => Err(ObjectError::IsDelta),
            _ => {
                Ok(RawObject::of_content(value))
            },
        }
    }
}

/// Reading the header of an object gives back the kind and the contents that it was made for.
pub proof fn theorem_header_round_trip(kind: KindView, data: Seq<u8>)
    requires
        !(kind is Delta),
        data.len() <= usize::MAX,
    ensures
        ({
            let d = header_bytes(kind, data.len() as int) + data;
            parse_header(d) matches Ok((k, start)) && k == kind && d.skip(start) == data
        }),
{
    lemma_header_parts(kind, data.len(), data);
}

/// An object whose header gives another length than its contents have is refused.
pub proof fn theorem_wrong_length_is_refused(kind: KindView, size: nat, data: Seq<u8>)
    requires
        !(kind is Delta),
        size <= usize::MAX,
        size != data.len(),
    ensures
        parse_header(header_bytes(kind, size as int) + data) == Err::<(KindView, int), ObjectError>(
            ObjectError::LengthMismatch,
        ),
{
    lemma_header_parts(kind, size, data);
}

/// The parts of a header are found again.
proof fn lemma_header_parts(kind: KindView, size: nat, data: Seq<u8>)
    requires
        !(kind is Delta),
    ensures
        ({
            let d = header_bytes(kind, size as int) + data;
            let te = first_index(d, 0x20u8, 0);
            let le = first_index(d, 0u8, te + 1);
            &&& 0 <= te < d.len()
            &&& te < le < d.len()
            &&& d.take(te) == kind_bytes(kind)
            &&& kind_named(kind_bytes(kind)) == Some(kind)
            &&& valid_utf8(d.subrange(te + 1, le))
            &&& parsed_number(decode_utf8(d.subrange(te + 1, le)), 10) == Some(size)
            &&& d.skip(le + 1) == data
            &&& d.len() - (le + 1) == data.len()
        }),
{
    let name = kind_bytes(kind);
    let digits = numeral(size, 10);
    let length = encode_utf8(digits);
    let d = header_bytes(kind, size as int) + data;
    crate::objects::theorem_kind_round_trip(kind);
    lemma_numeral(size, 10);
    lemma_encode_ascii(digits);
    lemma_decode_encode(digits);
    assert(d =~= name + seq![0x20u8] + length + seq![0u8] + data);
    let te = name.len() as int;
    let le = te + 1 + length.len();
    assert forall|j: int| 0 <= j < te implies d[j] != 0x20 by {
        assert(d[j] == name[j]);
    }
    assert(d[te] == 0x20);
    lemma_first_index_is(d, 0x20u8, 0, te);
    assert forall|j: int| te + 1 <= j < le implies d[j] != 0 by {
        assert(d[j] == length[j - te - 1]);
        assert(length[j - te - 1] == digits[j - te - 1] as u8);
        assert(crate::numerals::digit_value(digits[j - te - 1]) < 10);
    }
    assert(d[le] == 0);
    lemma_first_index_is(d, 0u8, te + 1, le);
    assert(d.take(te) =~= name);
    assert(d.subrange(te + 1, le) =~= length);
    crate::numerals::theorem_parse_numeral(size, 10);
    assert(d.skip(le + 1) =~= data);
}

/// The ID of an object is the digest of the name of its kind, a space, the length of its contents
/// in decimal digits, a NUL byte, and its contents.
pub proof fn theorem_names_of_objects(data: Seq<u8>)
    ensures
        ({
            let rest = encode_utf8(numeral(data.len(), 10)) + seq![0u8] + data;
            let n = data.len() as int;
            &&& object_name(KindView::Blob, n, data) == hex_text(
                sha1_digest(seq![0x62u8, 0x6c, 0x6f, 0x62, 0x20] + rest),
            )
            &&& object_name(KindView::Tree, n, data) == hex_text(
                sha1_digest(seq![0x74u8, 0x72, 0x65, 0x65, 0x20] + rest),
            )
            &&& object_name(KindView::Commit, n, data) == hex_text(
                sha1_digest(seq![0x63u8, 0x6f, 0x6d, 0x6d, 0x69, 0x74, 0x20] + rest),
            )
            &&& object_name(KindView::Tag, n, data) == hex_text(
                sha1_digest(seq![0x74u8, 0x61, 0x67, 0x20] + rest),
            )
        }),
{
    let n = data.len() as int;
    let rest = encode_utf8(numeral(data.len(), 10)) + seq![0u8] + data;
    assert(header_bytes(KindView::Blob, n) + data =~= seq![0x62u8, 0x6c, 0x6f, 0x62, 0x20] + rest);
    assert(header_bytes(KindView::Tree, n) + data =~= seq![0x74u8, 0x72, 0x65, 0x65, 0x20] + rest);
    assert(header_bytes(KindView::Commit, n) + data =~= seq![
        0x63u8,
        0x6f,
        0x6d,
        0x6d,
        0x69,
        0x74,
        0x20,
    ] + rest);
    assert(header_bytes(KindView::Tag, n) + data =~= seq![0x74u8, 0x61, 0x67, 0x20] + rest);
}

} // verus!
