//! File contents: a blob's body is its bytes, unchanged.
use vstd::prelude::*;
use vstd::utf8::{decode_utf8, encode_utf8_decode_utf8, valid_utf8};

use crate::error::ObjectError;

verus! {

/// The verbatim contents of one file. Any bytes are allowed; text is not required.
#[derive(Debug)]
pub struct Blob {
    pub data: Vec<u8>,
}

impl View for Blob {
    type V = Seq<u8>;

    open spec fn view(&self) -> Seq<u8> {
        self.data@
    }
}

/// The encoded body of a blob with contents `data`: the bytes themselves.
pub open spec fn blob_body(data: Seq<u8>) -> Seq<u8> {
    data
}

/// The contents of the blob that a body decodes to: the body itself.
pub open spec fn blob_of_body(body: Seq<u8>) -> Seq<u8> {
    body
}

/// Decoding a blob's encoding gives back its bytes exactly, for every byte
/// sequence.
pub proof fn lemma_blob_round_trip(data: Seq<u8>)
    ensures
        blob_of_body(blob_body(data)) == data,
{
}

impl Blob {
    pub fn new(data: Vec<u8>) -> (r: Blob)
        ensures
            r@ == data@,
    {
        Blob { data }
    }

    /// The contents as text; `Decode` where they are not valid UTF-8.
    pub fn as_str(&self) -> (r: Result<String, ObjectError>)
        ensures
            r is Ok <==> valid_utf8(self@),
            r matches Ok(s) ==> s@ == decode_utf8(self@),
            r matches Err(e) ==> e == ObjectError::Decode,
    {
        match String::from_utf8(self.data.clone()) {
            Ok(s) => {
                proof { encode_utf8_decode_utf8(s@); }
                Ok(s)
            },
            Err(_) => Err(ObjectError::Decode),
        }
    }

    /// The encoded body of this blob: its bytes, unchanged.
    pub fn as_bytes(&self) -> (r: Vec<u8>)
        ensures
            r@ == blob_body(self@),
    {
        self.data.clone()
    }

    /// Decodes a blob from the body read out of its object file: every byte
    /// sequence is a blob body.
    pub fn from_file(body: &[u8]) -> (r: Blob)
        ensures
            r@ == blob_of_body(body@),
    {
        Blob { data: vstd::slice::slice_to_vec(body) }
    }
}

} // verus!
