use sha2::Digest;
use vnns::aggregate::{
    commit_proof_pairs, decode_commit_pairs, pack_aggregation, verify_aggregation,
    words_to_bytes_le,
};
use vnns::chunk::{chunk_public_output, decode_public_values, verify_chunk_output};
use vnns::codec::{decode_vector, encode_vector};
use vnns::embed::{embed_record, Data};
use vnns::scorer::Metric;
use vnns::{AggregationError, SearchError};

fn key_a() -> [u32; 8] {
    [1, 0, 0, 0, 0, 0, 0, 0]
}

fn key_b() -> [u32; 8] {
    [0, 0, 0, 0, 0, 0, 0, 2]
}

#[test]
fn words_to_bytes_is_little_endian() {
    let words: [u32; 8] = [1, 2, 3, 4, 5, 6, 7, 0x0a0b0c0d];
    let bytes = words_to_bytes_le(&words);
    let mut expected = [0u8; 32];
    for (i, w) in words.iter().enumerate() {
        expected[i * 4..(i + 1) * 4].copy_from_slice(&w.to_le_bytes());
    }
    assert_eq!(bytes, expected);
}

#[test]
fn commit_layout_is_exact() {
    let vkeys = vec![key_a(), key_b()];
    let values = vec![vec![0xAA, 0xBB, 0xCC], vec![1, 2, 3, 4, 5]];
    let packed = commit_proof_pairs(&vkeys, &values);
    let mut expected: Vec<u8> = Vec::new();
    expected.extend_from_slice(&2u32.to_be_bytes());
    expected.extend_from_slice(&words_to_bytes_le(&key_a()));
    expected.extend_from_slice(&words_to_bytes_le(&key_b()));
    expected.extend_from_slice(&3u32.to_be_bytes());
    expected.extend_from_slice(&[0xAA, 0xBB, 0xCC]);
    expected.extend_from_slice(&5u32.to_be_bytes());
    expected.extend_from_slice(&[1, 2, 3, 4, 5]);
    assert_eq!(packed, expected);
}

#[test]
fn reordering_pairs_changes_the_commitment() {
    let values = vec![vec![1, 2, 3], vec![4, 5, 6]];
    let forward = commit_proof_pairs(&[key_a(), key_b()], &values);
    let swapped_values = vec![vec![4, 5, 6], vec![1, 2, 3]];
    let backward = commit_proof_pairs(&[key_b(), key_a()], &swapped_values);
    assert_ne!(forward, backward);
}

#[test]
fn scenario_two_proofs_pack_and_decode_in_order() {
    let vkeys = vec![key_a(), key_b()];
    let values = vec![vec![7, 8, 9], vec![10, 11, 12, 13, 14]];
    let packed = pack_aggregation(&vkeys, &values).unwrap();
    let (dk, dv) = decode_commit_pairs(&packed).unwrap();
    assert_eq!(dk, vkeys);
    assert_eq!(dv, values);
    assert_eq!(dv[0].len(), 3);
    assert_eq!(dv[1].len(), 5);
}

#[test]
fn decode_rejects_malformed_commitments() {
    assert!(decode_commit_pairs(&vec![0, 0, 0]).is_none());
    // One key promised, no key bytes present.
    assert!(decode_commit_pairs(&vec![0, 0, 0, 1]).is_none());
    let packed = pack_aggregation(&vec![key_a()], &vec![vec![1, 2]]).unwrap();
    let mut trailing = packed.clone();
    trailing.push(0);
    assert!(decode_commit_pairs(&trailing).is_none());
    assert!(decode_commit_pairs(&packed).is_some());
}

#[test]
fn arity_mismatch_is_fatal_before_packing() {
    let vkeys = vec![key_a(), key_b()];
    let values = vec![vec![1, 2, 3]];
    assert_eq!(
        pack_aggregation(&vkeys, &values),
        Err(AggregationError::ArityMismatch { vkeys: 2, values: 1 })
    );
}

#[test]
fn verification_accepts_exact_and_rejects_tampered() {
    let vkeys = vec![key_a(), key_b()];
    let values = vec![vec![1, 2, 3], vec![4, 5]];
    let packed = pack_aggregation(&vkeys, &values).unwrap();
    assert_eq!(verify_aggregation(&packed, &vkeys, &values), Ok(()));
    let mut tampered = packed.clone();
    tampered[10] ^= 1;
    assert_eq!(
        verify_aggregation(&tampered, &vkeys, &values),
        Err(AggregationError::VerificationFailure)
    );
    assert_eq!(
        verify_aggregation(&packed, &vkeys, &values[..1].to_vec()),
        Err(AggregationError::ArityMismatch { vkeys: 2, values: 1 })
    );
}

#[test]
fn chunk_public_output_has_fixed_layout() {
    let chunk = vec![vec![1, 2], vec![3, 4]];
    let query = vec![1, 2];
    let out = chunk_public_output(&chunk, &query, Metric::SquaredEuclidean).unwrap();
    assert_eq!(out.len(), 100);
    assert_eq!(&out[0..4], &0u32.to_be_bytes());
    let query_digest = sha2::Sha256::digest(&encode_vector(&query));
    assert_eq!(&out[4..36], query_digest.as_slice());
    let winner_digest = sha2::Sha256::digest(&encode_vector(&chunk[0]));
    assert_eq!(&out[68..100], winner_digest.as_slice());
}

#[test]
fn chunk_public_output_errors_match_search_errors() {
    let query = vec![1, 2];
    let empty: Vec<Vec<i32>> = Vec::new();
    assert_eq!(
        chunk_public_output(&empty, &query, Metric::SquaredEuclidean),
        Err(SearchError::EmptyInput)
    );
    let bad = vec![vec![1, 2, 3]];
    assert_eq!(
        chunk_public_output(&bad, &query, Metric::SquaredEuclidean),
        Err(SearchError::DimensionMismatch { index: 0 })
    );
}

#[test]
fn declared_output_must_match_byte_for_byte() {
    let chunk = vec![vec![5, 6], vec![1, 1]];
    let query = vec![1, 1];
    let out = chunk_public_output(&chunk, &query, Metric::SquaredEuclidean).unwrap();
    assert_eq!(
        verify_chunk_output(&chunk, &query, Metric::SquaredEuclidean, &out),
        Ok(true)
    );
    let mut tampered = out.clone();
    tampered[40] ^= 0x80;
    assert_eq!(
        verify_chunk_output(&chunk, &query, Metric::SquaredEuclidean, &tampered),
        Ok(false)
    );
}

#[test]
fn public_values_decode_to_their_fields() {
    let chunk = vec![vec![9, 9], vec![1, 2], vec![3, 4]];
    let query = vec![1, 2];
    let out = chunk_public_output(&chunk, &query, Metric::SquaredEuclidean).unwrap();
    let decoded = decode_public_values(&out).unwrap();
    assert_eq!(decoded.index, 1);
    assert_eq!(decoded.query_digest, out[4..36].to_vec());
    assert_eq!(decoded.samples_digest, out[36..68].to_vec());
    assert_eq!(decoded.output_digest, out[68..100].to_vec());
    assert!(decode_public_values(&out[..99].to_vec()).is_none());
}

#[test]
fn vector_bytes_round_trip() {
    let v = vec![1, -2, 3, i32::MIN, i32::MAX];
    let bytes = encode_vector(&v);
    assert_eq!(bytes.len(), 20);
    assert_eq!(&bytes[0..4], &[1, 0, 0, 0]);
    assert_eq!(&bytes[4..8], &[0xFE, 0xFF, 0xFF, 0xFF]);
    assert_eq!(decode_vector(&bytes), Some(v));
    assert_eq!(decode_vector(&bytes[..7].to_vec()), None);
}

#[test]
fn embedding_hash_is_the_hex_digest_of_its_bytes() {
    let record = embed_record((), Vec::new());
    assert_eq!(
        record.hash,
        "e3b0c44298fc1c149afbf4c8996fb92427ae41e4649b934ca495991b7852b855"
    );
    let one = embed_record((), vec![1, 2, 3]);
    let again = embed_record((), vec![1, 2, 3]);
    assert_eq!(one.hash, again.hash);
    assert_eq!(one.hash.len(), 64);
    let expected = hex::encode(sha2::Sha256::digest(&encode_vector(&vec![1, 2, 3])));
    assert_eq!(one.hash, expected);
}

#[test]
fn changing_one_component_changes_the_hash() {
    let base = embed_record((), vec![1, 2, 3]);
    let flipped = embed_record((), vec![1, 2, 2]);
    assert_ne!(base.hash, flipped.hash);
}

#[test]
fn data_text_form_joins_name_and_description() {
    let data = Data { name: "apple".to_string(), description: "a crisp fruit".to_string() };
    assert_eq!(data.to_text(), "apple: a crisp fruit");
    let record = embed_record(data, vec![5, 6]);
    assert_eq!(record.data.name, "apple");
    assert_eq!(record.embeddings, vec![5, 6]);
}
