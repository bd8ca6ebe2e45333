//! Embedded records: a raw data item, its embedding vector, and a hex
//! fingerprint of the embedding.
//!
//! The embedding itself comes from an outside model and is consumed
//! here as a ready-made fixed-point vector; this module only shapes the
//! record around it and fingerprints the embedding's bytes.

use vstd::prelude::*;
use vstd::string::StringExecFns;

use crate::codec::{encode_vector, vector_bytes};
use crate::digest::{hex_bytes, hex_encode, sha256_digest, sha256_of};

verus! {

/// A raw data item: a name and a prose description.
#[derive(Clone, Debug)]
pub struct Data {
    /// The item's name.
    pub name: String,
    /// The item's description.
    pub description: String,
}

impl Data {
    /// The one-line text form handed to an embedding model:
    /// the name, a separating colon, and the description.
    pub fn to_text(&self) -> (r: String)
        ensures
            r@ == self.name@ + ": "@ + self.description@,
    {
        let mut s = String::from_str(self.name.as_str());
        s.append(": ");
        s.append(self.description.as_str());
        s
    }
}

/// A data item together with its embedding and the embedding's
/// fingerprint: the lowercase hex image of the digest of its bytes.
#[derive(Clone, Debug)]
pub struct EmbeddedData<T> {
    /// The raw data object.
    pub data: T,
    /// The embedding vector, in fixed-point components.
    pub embeddings: Vec<i32>,
    /// The hex image of the digest of the embedding's bytes.
    pub hash: String,
}

/// Builds one embedded record: the raw data, its embedding, and the
/// hex fingerprint of the embedding's byte image.
pub fn embed_record<T>(data: T, embeddings: Vec<i32>) -> (r: EmbeddedData<T>)
    ensures
        r.data == data,
        r.embeddings@ == embeddings@,
        r.hash@ == hex_bytes(sha256_of(vector_bytes(embeddings@))),
{
    let bytes = encode_vector(&embeddings);
    let digest = sha256_digest(bytes.as_slice());
    let hash = hex_encode(digest.as_slice());
    EmbeddedData { data, embeddings, hash }
}

} // verus!
