//! Packed objects: one object of a pack, with its header and its compressed data.

use crate::errors::{GitError, PackEncodeReason};
use crate::format::{encode_object_header, encode_offset, object_header, offset_bytes};
use crate::object::{Entry, ObjectType};
use flate2::write::ZlibEncoder;
use std::io::Write;
use vstd::prelude::*;

verus! {

/// What `flate2` makes of data at its best compression level, in the zlib format.
pub uninterp spec fn zlib_best(data: Seq<u8>) -> Seq<u8>;

/// What `flate2::read::ZlibDecoder` makes of bytes, if they are in the zlib format.
pub uninterp spec fn zlib_data(bytes: Seq<u8>) -> Option<Seq<u8>>;

/// Compressed data can be decompressed again.
pub open spec fn inflates(data: Seq<u8>) -> bool {
    zlib_data(zlib_best(data)) == Some(data)
}

/// Compresses with `flate2::write::ZlibEncoder` at `Compression::best()` into a
/// vector. The result is taken to be a function of the data alone, from which the
/// decoder of the same crate gets the data back. Nothing else is claimed of it, not
/// even that it is shorter than the data.
#[verifier::external_body]
fn zlib_compress(data: &[u8]) -> (r: Vec<u8>)
    ensures
        r@ == zlib_best(data@),
        zlib_data(r@) == Some(data@),
{
    let mut deflate = ZlibEncoder::new(Vec::new(), flate2::Compression::best());
    deflate.write_all(data).expect("zlib compress should never failed");
    deflate.finish().expect("zlib compress should never failed")
}

/// The bytes of an object in a pack: header, for a delta the distance back to its
/// base, compressed data.
pub open spec fn packed_object(obj_type: ObjectType, data: Seq<u8>, offset: Option<usize>) -> Seq<
    u8,
> {
    object_header(obj_type.pack_number()->0, data.len()) + (if obj_type
        == ObjectType::OffsetDelta || obj_type == ObjectType::OffsetZstdelta {
        offset_bytes(offset->0 as nat)
    } else {
        seq![]
    }) + zlib_best(data)
}

/// Encodes one object. A delta needs the distance back to its base in `offset`;
/// for other objects `offset` is not looked at. Deltas that name their base by its
/// hash are not encoded.
pub fn encode_one_object(entry: &Entry, offset: Option<usize>) -> (r: Result<Vec<u8>, GitError>)
    requires
        entry.obj_type != ObjectType::HashDelta,
        entry.obj_type.is_delta() ==> offset is Some && offset->0 != 0,
    ensures
        match r {
            Ok(bytes) => {
                &&& entry.obj_type.pack_number() is Some
                &&& bytes@ == packed_object(entry.obj_type, entry.data@, offset)
                &&& inflates(entry.data@)
            },
            Err(e) => {
                &&& entry.obj_type.pack_number() is None
                &&& e == GitError::PackEncodeError(PackEncodeReason::NoPackType(entry.obj_type))
            },
        },
{
    encode_parts(entry.obj_type, entry.data.as_slice(), offset)
}

/// Encodes one object from its parts; see [`encode_one_object`].
pub fn encode_parts(obj_type: ObjectType, data: &[u8], offset: Option<usize>) -> (r: Result<
    Vec<u8>,
    GitError,
>)
    requires
        obj_type != ObjectType::HashDelta,
        obj_type.is_delta() ==> offset is Some && offset->0 != 0,
    ensures
        match r {
            Ok(bytes) => {
                &&& obj_type.pack_number() is Some
                &&& bytes@ == packed_object(obj_type, data@, offset)
                &&& inflates(data@)
            },
            Err(e) => {
                &&& obj_type.pack_number() is None
                &&& e == GitError::PackEncodeError(PackEncodeReason::NoPackType(obj_type))
            },
        },
{
    let number: u8 = match obj_type.to_pack_type_u8() {
        Ok(number) => number,
        Err(e) => {
            return Err(e);
        },
    };
    let mut encoded = encode_object_header(number, data.len());
    if obj_type == ObjectType::OffsetDelta || obj_type == ObjectType::OffsetZstdelta {
        if let Some(distance) = offset {
            let mut offset_data = encode_offset(distance);
            encoded.append(&mut offset_data);
        }
    }
    let mut compressed = zlib_compress(data);
    encoded.append(&mut compressed);
    assert(encoded@ =~= packed_object(obj_type, data@, offset));
    Ok(encoded)
}

} // verus!
