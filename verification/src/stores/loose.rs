//! Loose objects: each compressed in a file of its own.

use vstd::prelude::*;
use vstd::utf8::{encode_utf8, is_char_boundary};

use crate::interop::{zlib_compress, zlib_decompress, zlib_inflated};
use crate::objects::errors::ObjectError;
use crate::objects::raw::{
    header_bytes, parse_header, theorem_header_round_trip, RawObject, RawObjectData,
};
use crate::objects::KindView;

verus! {

broadcast use vstd::string::group_string_axioms;

/// Why a loose object cannot be read.
#[derive(Clone, Copy, Debug, PartialEq, Eq, Structural)]
pub enum LooseObjectError {
    /// The file is not a valid compressed stream.
    Corrupt,
    /// What the file holds is not a valid object.
    Invalid(ObjectError),
}

/// The path of a loose object below the repository directory: the first two characters of its
/// ID name a directory, the rest the file.
pub fn loose_object_path(object_id: &str) -> (r: Vec<String>)
    requires
        is_char_boundary(encode_utf8(object_id@), 2),
        encode_utf8(object_id@).len() >= 2,
    ensures
        r@.len() == 3,
        r@[0]@ == "objects"@,
        encode_utf8(r@[1]@) == encode_utf8(object_id@).take(2),
        encode_utf8(r@[2]@) == encode_utf8(object_id@).skip(2),
{
    let (directory, file) = object_id.split_at(2);
    let mut path: Vec<String> = Vec::new();
    path.push("objects".to_string());
    path.push(directory.to_string());
    path.push(file.to_string());
    proof {
        let bytes = encode_utf8(object_id@);
        assert(bytes.subrange(0, 2) =~= bytes.take(2));
        assert(bytes.subrange(2, bytes.len() as int) =~= bytes.skip(2));
    }
    path
}

/// Whether a result is the one that the file of a loose object is read as.
pub open spec fn loose_reads_as(
    stored: Seq<u8>,
    r: Result<RawObjectData, LooseObjectError>,
) -> bool {
    match zlib_inflated(stored) {
        None => r == Err::<RawObjectData, LooseObjectError>(LooseObjectError::Corrupt),
        Some(d) => match parse_header(d) {
            Err(e) => r == Err::<RawObjectData, LooseObjectError>(LooseObjectError::Invalid(e)),
            Ok((kind, start)) => r matches Ok(o) && o.metadata.kind@ == kind && o.data@ == d.skip(
                start,
            ) && o.metadata.size == o.data@.len(),
        },
    }
}

/// Reads the file of a loose object.
pub fn read_loose_object(stored: &[u8]) -> (r: Result<RawObjectData, LooseObjectError>)
    ensures
        loose_reads_as(stored@, r),
{
    match zlib_decompress(stored) {
        None => Err(LooseObjectError::Corrupt),
        Some((data, _)) => match RawObjectData::from_data_with_header(data.as_slice()) {
            Ok(o) => Ok(o),
            Err(e) => Err(LooseObjectError::Invalid(e)),
        },
    }
}

/// The file of a loose object.
pub fn write_loose_object(obj: &RawObject) -> (r: Vec<u8>)
    ensures
        zlib_inflated(r@) == Some(
            header_bytes(obj.content.metadata.kind@, obj.content.metadata.size as int)
                + obj.content.data@,
        ),
{
    let content = obj.content_with_header();
    zlib_compress(content.as_slice())
}

/// Reading the file that was written for an object gives back its kind and its contents.
pub proof fn theorem_loose_round_trip(
    kind: KindView,
    data: Seq<u8>,
    stored: Seq<u8>,
    r: Result<RawObjectData, LooseObjectError>,
)
    requires
        !(kind is Delta),
        data.len() <= usize::MAX,
        zlib_inflated(stored) == Some(header_bytes(kind, data.len() as int) + data),
        loose_reads_as(stored, r),
    ensures
        r matches Ok(o) && o.metadata.kind@ == kind && o.data@ == data && o.metadata.size
            == data.len(),
{
    theorem_header_round_trip(kind, data);
}

} // verus!
