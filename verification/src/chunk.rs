//! One proving chunk's public output.
//!
//! A chunk's public output binds its whole computation: the winning
//! index as a big-endian word, then the digest of the query's bytes,
//! of the flattened chunk bytes, and of the winning vector's bytes, in
//! that fixed order.  A proof over a chunk is trusted only if the
//! public output it declares byte-exactly equals the one recomputed
//! from the declared inputs and output.

use vstd::prelude::*;

use crate::codec::{
    bytes_eq,
    copy_range,
    push_bytes,
    push_u32_be,
    encode_vector,
    read_u32_be,
    u32_be_bytes,
    u32_from_be,
    vector_bytes,
    lemma_u32_be_roundtrip,
};
use crate::digest::{sha256_digest, sha256_of};
use crate::scorer::{best_index, views, Metric};
use crate::SearchError;

verus! {

/// The flattened byte image of a chunk: every vector's bytes, in order.
pub open spec fn chunk_bytes(vs: Seq<Seq<i32>>) -> Seq<u8>
    decreases vs.len(),
{
    if vs.len() == 0 {
        Seq::empty()
    } else {
        chunk_bytes(vs.drop_last()) + vector_bytes(vs.last())
    }
}

/// The fixed public-output layout: big-endian winner index, then the
/// query, samples and output digests.
pub open spec fn public_output_bytes(idx: u32, qd: Seq<u8>, sd: Seq<u8>, od: Seq<u8>) -> Seq<u8> {
    u32_be_bytes(idx) + qd + sd + od
}

/// What a well-formed chunk's public output is: the digests are of the
/// query bytes, the flattened chunk bytes and the winner's bytes, and
/// the index is the chunk's best match.
pub open spec fn chunk_public_spec(m: Metric, vs: Seq<Seq<i32>>, q: Seq<i32>) -> Seq<u8> {
    public_output_bytes(
        best_index(m, vs, q) as u32,
        sha256_of(vector_bytes(q)),
        sha256_of(chunk_bytes(vs)),
        sha256_of(vector_bytes(vs[best_index(m, vs, q)])),
    )
}

/// Encodes a chunk as the concatenation of its vectors' bytes.
pub fn encode_chunk(samples: &Vec<Vec<i32>>) -> (r: Vec<u8>)
    ensures
        r@ == chunk_bytes(views(samples@)),
{
    let ghost vs = views(samples@);
    let mut out: Vec<u8> = Vec::new();
    let mut k: usize = 0;
    while k < samples.len()
        invariant
            k <= samples@.len(),
            vs == views(samples@),
            out@ == chunk_bytes(vs.take(k as int)),
        decreases samples@.len() - k,
    {
        let piece = encode_vector(&samples[k]);
        push_bytes(&mut out, piece.as_slice());
        proof {
            assert(vs.take(k + 1).drop_last() =~= vs.take(k as int));
            assert(vs.take(k + 1).last() == samples@[k as int]@);
        }
        k = k + 1;
    }
    proof {
        assert(vs.take(vs.len() as int) =~= vs);
    }
    out
}

/// One chunk's public output.  The winning index is found first; the
/// three digests then bind the query, the chunk and the winner.  Fails
/// exactly as `compute_best_sample` does.
pub fn chunk_public_output(chunk: &Vec<Vec<i32>>, query: &Vec<i32>, metric: Metric) -> (r: Result<
    Vec<u8>,
    SearchError,
>)
    requires
        chunk@.len() <= 0xffff_ffff,
    ensures
        match r {
            Ok(b) => {
                &&& chunk@.len() > 0
                &&& forall|k: int|
                    0 <= k < chunk@.len() ==> (#[trigger] chunk@[k])@.len() == query@.len()
                &&& b@ == chunk_public_spec(metric, views(chunk@), query@)
            },
            Err(SearchError::EmptyInput) => chunk@.len() == 0,
            Err(SearchError::DimensionMismatch { index }) => {
                &&& chunk@.len() > 0
                &&& index < chunk@.len()
                &&& chunk@[index as int]@.len() != query@.len()
                &&& forall|k: int|
                    0 <= k < index ==> (#[trigger] chunk@[k])@.len() == query@.len()
            },
        },
{
    let idx = match crate::scorer::compute_best_sample(chunk, query, metric) {
        Ok(i) => i,
        Err(e) => {
            return Err(e);
        },
    };
    let mut out: Vec<u8> = Vec::new();
    push_u32_be(&mut out, idx as u32);
    let qb = encode_vector(query);
    let qd = sha256_digest(qb.as_slice());
    push_bytes(&mut out, qd.as_slice());
    let sb = encode_chunk(chunk);
    let sd = sha256_digest(sb.as_slice());
    push_bytes(&mut out, sd.as_slice());
    let ob = encode_vector(&chunk[idx]);
    let od = sha256_digest(ob.as_slice());
    push_bytes(&mut out, od.as_slice());
    proof {
        assert(out@ =~= chunk_public_spec(metric, views(chunk@), query@));
    }
    Ok(out)
}

/// Checks a declared public output against the one recomputed from the
/// chunk's declared inputs: true exactly on a byte-exact match.
pub fn verify_chunk_output(chunk: &Vec<Vec<i32>>, query: &Vec<i32>, metric: Metric, declared:
    &Vec<u8>) -> (r: Result<bool, SearchError>)
    requires
        chunk@.len() <= 0xffff_ffff,
    ensures
        match r {
            Ok(ok) => ok <==> declared@ == chunk_public_spec(metric, views(chunk@), query@),
            Err(e) => crate::chunk::chunk_public_output_failure(chunk@, query@, e),
        },
{
    match chunk_public_output(chunk, query, metric) {
        Ok(bytes) => Ok(bytes_eq(declared, &bytes)),
        Err(e) => Err(e),
    }
}

/// When building a chunk's public output fails, and with which error.
pub open spec fn chunk_public_output_failure(chunk: Seq<Vec<i32>>, q: Seq<i32>, e: SearchError)
    -> bool {
    match e {
        SearchError::EmptyInput => chunk.len() == 0,
        SearchError::DimensionMismatch { index } => {
            &&& chunk.len() > 0
            &&& index < chunk.len()
            &&& chunk[index as int]@.len() != q.len()
            &&& forall|k: int| 0 <= k < index ==> (#[trigger] chunk[k])@.len() == q.len()
        },
    }
}

/// A decoded public output.
#[derive(Debug)]
pub struct PublicOutput {
    /// The winning index the chunk's proof reports.
    pub index: u32,
    /// The digest of the query's bytes.
    pub query_digest: Vec<u8>,
    /// The digest of the flattened chunk bytes.
    pub samples_digest: Vec<u8>,
    /// The digest of the winning vector's bytes.
    pub output_digest: Vec<u8>,
}

/// Splits a public output into its fields.  Succeeds exactly on the
/// fixed 100-byte layout: a four-byte index and three 32-byte digests.
pub fn decode_public_values(b: &Vec<u8>) -> (r: Option<PublicOutput>)
    ensures
        match r {
            Some(p) => {
                &&& b@.len() == 100
                &&& p.index == u32_from_be(b@.subrange(0, 4))
                &&& p.query_digest@ == b@.subrange(4, 36)
                &&& p.samples_digest@ == b@.subrange(36, 68)
                &&& p.output_digest@ == b@.subrange(68, 100)
            },
            None => b@.len() != 100,
        },
{
    if b.len() != 100 {
        return None;
    }
    let index = read_u32_be(b, 0);
    let query_digest = copy_range(b, 4, 36);
    let samples_digest = copy_range(b, 36, 68);
    let output_digest = copy_range(b, 68, 100);
    Some(PublicOutput { index, query_digest, samples_digest, output_digest })
}

/// Decoding a well-formed public output recovers the index and the
/// three digests exactly.
pub proof fn lemma_public_output_roundtrip(idx: u32, qd: Seq<u8>, sd: Seq<u8>, od: Seq<u8>)
    requires
        qd.len() == 32,
        sd.len() == 32,
        od.len() == 32,
    ensures
        ({
            let bytes = public_output_bytes(idx, qd, sd, od);
            &&& bytes.len() == 100
            &&& u32_from_be(bytes.subrange(0, 4)) == idx
            &&& bytes.subrange(4, 36) == qd
            &&& bytes.subrange(36, 68) == sd
            &&& bytes.subrange(68, 100) == od
        }),
{
    let bytes = public_output_bytes(idx, qd, sd, od);
    assert(bytes.subrange(0, 4) =~= u32_be_bytes(idx));
    lemma_u32_be_roundtrip(idx);
    assert(bytes.subrange(4, 36) =~= qd);
    assert(bytes.subrange(36, 68) =~= sd);
    assert(bytes.subrange(68, 100) =~= od);
}

} // verus!
