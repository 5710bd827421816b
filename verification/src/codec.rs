//! The binary encodings of stored values: postcard for records, zstd for
//! manifest bodies.
use vstd::prelude::*;
use crate::error::SummError;
use crate::types::{LayerModel, LayerRecord, LayerWire, ManifestModel, ManifestRecord, ManifestWire,
    layer_wire_model, manifest_wire_model};

verus! {

#[verifier::external_type_specification]
#[verifier::external_body]
pub struct ExPostcardError(postcard::Error);

/// The bytes that postcard writes for a manifest record with these fields.
pub uninterp spec fn postcard_manifest_bytes(m: ManifestModel) -> Seq<u8>;

/// The manifest record that postcard reads from these bytes, if it reads one.
pub uninterp spec fn postcard_manifest_read(b: Seq<u8>) -> Option<ManifestModel>;

/// The bytes that postcard writes for a layer record with these fields.
pub uninterp spec fn postcard_layer_bytes(m: LayerModel) -> Seq<u8>;

/// The layer record that postcard reads from these bytes, if it reads one.
pub uninterp spec fn postcard_layer_read(b: Seq<u8>) -> Option<LayerModel>;

/// The zstd frame that `zstd::encode_all` produces for `data` at `level`.
pub uninterp spec fn zstd_frame(data: Seq<u8>, level: i32) -> Seq<u8>;

/// `postcard::to_allocvec` on a manifest record's fields. Postcard writes a
/// struct as its fields in order, so the tuple is written exactly as the
/// record would be. Claimed: on success the bytes are a function of the
/// fields alone, and `postcard::from_bytes` reads the same fields back from
/// them (the round trip the crate's documentation shows). It also claims
/// success: the `Vec` output never refuses a byte, and the fields are
/// integers, strings, fixed arrays, options and vectors, whose serializers
/// report no error (postcard errs only on a full buffer, a sequence of
/// unknown length or a failing `collect_str`).
#[verifier::external_body]
pub(crate) fn encode_manifest_wire(w: &ManifestWire) -> (r: Result<Vec<u8>, postcard::Error>)
    ensures
        r is Ok,
        r matches Ok(b) ==> b@ == postcard_manifest_bytes(manifest_wire_model(*w)),
        r matches Ok(b) ==> postcard_manifest_read(b@) == Some(manifest_wire_model(*w)),
{
    postcard::to_allocvec(w)
}

/// `postcard::from_bytes` for a manifest record's fields. Claimed: whether it
/// succeeds, and what it reads, are functions of the bytes alone.
#[verifier::external_body]
pub(crate) fn decode_manifest_wire(b: &[u8]) -> (r: Result<ManifestWire, postcard::Error>)
    ensures
        r is Ok <==> postcard_manifest_read(b@) is Some,
        r matches Ok(w) ==> postcard_manifest_read(b@) == Some(manifest_wire_model(w)),
{
    postcard::from_bytes::<ManifestWire>(b)
}

/// `postcard::to_allocvec` on a layer record's fields (see `encode_manifest_wire`).
#[verifier::external_body]
pub(crate) fn encode_layer_wire(w: &LayerWire) -> (r: Result<Vec<u8>, postcard::Error>)
    ensures
        r is Ok,
        r matches Ok(b) ==> b@ == postcard_layer_bytes(layer_wire_model(*w)),
        r matches Ok(b) ==> postcard_layer_read(b@) == Some(layer_wire_model(*w)),
{
    postcard::to_allocvec(w)
}

/// `postcard::from_bytes` for a layer record's fields (see `decode_manifest_wire`).
#[verifier::external_body]
pub(crate) fn decode_layer_wire(b: &[u8]) -> (r: Result<LayerWire, postcard::Error>)
    ensures
        r is Ok <==> postcard_layer_read(b@) is Some,
        r matches Ok(w) ==> postcard_layer_read(b@) == Some(layer_wire_model(w)),
{
    postcard::from_bytes::<LayerWire>(b)
}

/// The text of a postcard error (its `Display`). Nothing is claimed of it.
#[verifier::external_body]
pub(crate) fn postcard_error_text(e: &postcard::Error) -> String {
    e.to_string()
}

/// `zstd::encode_all` over the bytes. Claimed: on success the frame is a
/// function of the data and the level. On failure the I/O error's text is
/// returned, of which nothing is claimed. Success is not claimed: the level
/// is clamped and the output `Vec` takes every byte, but the compressor's
/// streaming call reports an error when its own workspace allocation fails,
/// which depends on the machine, not on the arguments.
#[verifier::external_body]
pub(crate) fn zstd_encode_all(data: &[u8], level: i32) -> (r: Result<Vec<u8>, String>)
    ensures
        r matches Ok(c) ==> c@ == zstd_frame(data@, level),
{
    match zstd::encode_all(data, level) {
        Ok(c) => Ok(c),
        Err(e) => Err(e.to_string()),
    }
}

/// Reads a stored manifest record.
pub fn decode_manifest(b: &[u8]) -> (r: Result<ManifestRecord, SummError>)
    ensures
        r is Ok <==> postcard_manifest_read(b@) is Some,
        r matches Ok(rec) ==> postcard_manifest_read(b@) == Some(rec.model()),
        r matches Err(e) ==> e is InvalidData,
{
    match decode_manifest_wire(b) {
        Ok(w) => Ok(ManifestRecord::from_wire(&w)),
        Err(e) => Err(SummError::InvalidData(postcard_error_text(&e))),
    }
}

/// The stored form of a manifest record.
pub fn encode_manifest(rec: &ManifestRecord) -> (r: Result<Vec<u8>, SummError>)
    ensures
        r is Ok,
        r matches Ok(b) ==> b@ == postcard_manifest_bytes(rec.model()),
        r matches Ok(b) ==> postcard_manifest_read(b@) == Some(rec.model()),
        r matches Err(e) ==> e is InvalidData,
{
    match encode_manifest_wire(&rec.to_wire()) {
        Ok(b) => Ok(b),
        Err(e) => Err(SummError::InvalidData(postcard_error_text(&e))),
    }
}

/// Reads a stored layer record.
pub fn decode_layer(b: &[u8]) -> (r: Result<LayerRecord, SummError>)
    ensures
        r is Ok <==> postcard_layer_read(b@) is Some,
        r matches Ok(rec) ==> postcard_layer_read(b@) == Some(rec.model()),
        r matches Err(e) ==> e is InvalidData,
{
    match decode_layer_wire(b) {
        Ok(w) => Ok(LayerRecord::from_wire(&w)),
        Err(e) => Err(SummError::InvalidData(postcard_error_text(&e))),
    }
}

/// The stored form of a layer record.
pub fn encode_layer(rec: &LayerRecord) -> (r: Result<Vec<u8>, SummError>)
    ensures
        r is Ok,
        r matches Ok(b) ==> b@ == postcard_layer_bytes(rec.model()),
        r matches Ok(b) ==> postcard_layer_read(b@) == Some(rec.model()),
        r matches Err(e) ==> e is InvalidData,
{
    match encode_layer_wire(&rec.to_wire()) {
        Ok(b) => Ok(b),
        Err(e) => Err(SummError::InvalidData(postcard_error_text(&e))),
    }
}

} // verus!
