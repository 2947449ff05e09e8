//! Persisting objects under their content hash.
//!
//! An object's file holds its canonical encoding, compressed as one snappy
//! frame stream.  The digest is taken over the canonical bytes before
//! compression, so hashes do not depend on the compressor.

use vstd::prelude::*;

use std::io::{Read, Write};

use crate::codec::{dec_object, decode_object, enc_object, encode_object, lemma_dec_object_enc};
use crate::error::GitError;
use crate::hash::{sha1_of, Sha1Hash};
use crate::object::{obj_wf, GitObject, ObjectView};

verus! {

/// What snap's frame encoder produces for given input bytes: a pure
/// function of the input, named but not defined here.
pub uninterp spec fn snap_frame_of(data: Seq<u8>) -> Seq<u8>;

/// What snap's frame decoder yields for given input bytes: the decoded
/// data, or nothing when the bytes are not a valid frame stream.
pub uninterp spec fn snap_unframe_of(data: Seq<u8>) -> Option<Seq<u8>>;

/// Relies on `snap::write::FrameEncoder` over an in-memory buffer: the
/// output depends on the input bytes alone, writing to a `Vec` cannot fail,
/// and the format is lossless, so decoding what was encoded yields the
/// input back.
#[verifier::external_body]
fn snap_compress(data: &[u8]) -> (r: Vec<u8>)
    ensures
        r@ == snap_frame_of(data@),
        snap_unframe_of(r@) == Some(data@),
{
    let mut enc = snap::write::FrameEncoder::new(Vec::new());
    enc.write_all(data).expect("writing to a Vec cannot fail");
    enc.into_inner().expect("flushing into a Vec cannot fail")
}

/// Relies on `snap::read::FrameDecoder` over an in-memory buffer: the
/// result depends on the input bytes alone; bytes that are not a valid
/// frame stream are an error.
#[verifier::external_body]
fn snap_decompress(data: &[u8]) -> (r: Result<Vec<u8>, GitError>)
    ensures
        r is Ok <==> snap_unframe_of(data@) is Some,
        r matches Ok(d) ==> Some(d@) == snap_unframe_of(data@),
        r matches Err(e) ==> e is CorruptObject,
{
    let mut out = Vec::new();
    match snap::read::FrameDecoder::new(data).read_to_end(&mut out) {
        Ok(_) => Ok(out),
        Err(_) => Err(GitError::CorruptObject),
    }
}

/// What a store file's bytes denote: decompress the frame stream, then
/// decode the canonical encoding.
pub open spec fn store_decode(b: Seq<u8>) -> Option<ObjectView> {
    match snap_unframe_of(b) {
        None => None,
        Some(p) => dec_object(p),
    }
}

impl GitObject {
    /// Serializes, hashes and compresses this object: the digest it is
    /// stored under, and the bytes its store file holds.  Both depend on
    /// the object's value alone, so storing the same object twice yields
    /// the same digest, the same path and the same file contents; and
    /// reading the bytes back yields this object again.
    pub fn store_bytes(&self) -> (r: (Sha1Hash, Vec<u8>))
        requires
            self.wf(),
        ensures
            r.0@ == sha1_of(enc_object(self@)),
            r.0.wf(),
            r.1@ == snap_frame_of(enc_object(self@)),
            store_decode(r.1@) == Some(self@),
    {
        let bytes = encode_object(self);
        let sha1 = Sha1Hash::digest(bytes.as_slice());
        let compressed = snap_compress(bytes.as_slice());
        proof {
            lemma_dec_object_enc(self@);
        }
        (sha1, compressed)
    }

    /// Recovers an object from the bytes of a store file.  Exactly the
    /// byte sequences that decompress and decode to a well-formed object
    /// succeed; everything else is a `CorruptObject`.
    pub fn from_store_bytes(data: &[u8]) -> (r: Result<GitObject, GitError>)
        ensures
            r is Ok <==> store_decode(data@) is Some,
            r matches Ok(o) ==> (store_decode(data@) == Some(o@) && o.wf()),
            r matches Err(e) ==> e is CorruptObject,
    {
        match snap_decompress(data) {
            Err(e) => Err(e),
            Ok(p) => decode_object(p.as_slice()),
        }
    }
}

} // verus!
