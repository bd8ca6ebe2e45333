//! Packing chunk proofs into one commitment, and checking it.
//!
//! An ordered list of (verifying-key hash, public-value blob) pairs is
//! committed as: the pair count as four big-endian bytes, then every
//! key's 32 bytes in input order, then every blob prefixed by its
//! big-endian length, in the same order.  Reordering the list changes
//! the commitment.  An independent verifier recomputes this byte string
//! from the expected pairs and accepts a declared commitment only on a
//! byte-exact match.

use vstd::prelude::*;

use crate::codec::{
    bytes_eq,
    copy_range,
    push_bytes,
    push_u32_be,
    read_u32_be,
    read_u32_le,
    u32_be_bytes,
    u32_from_be,
    u32_from_le,
    u32_le_bytes,
    lemma_u32_be_roundtrip,
    lemma_u32_le_roundtrip,
};
use crate::AggregationError;

verus! {

/// The 32 bytes of a verifying-key hash: its eight words, each as four
/// little-endian bytes, in word order.
#[verifier::opaque]
pub open spec fn vkey_bytes(ws: Seq<u32>) -> Seq<u8> {
    u32_le_bytes(ws[0]) + u32_le_bytes(ws[1]) + u32_le_bytes(ws[2]) + u32_le_bytes(ws[3])
        + u32_le_bytes(ws[4]) + u32_le_bytes(ws[5]) + u32_le_bytes(ws[6]) + u32_le_bytes(ws[7])
}

/// Converts a verifying-key hash, eight 32-bit words, to its 32 bytes.
pub fn words_to_bytes_le(words: &[u32; 8]) -> (r: [u8; 32])
    ensures
        r@ == vkey_bytes(words@),
{
    let w0 = words[0];
    let w1 = words[1];
    let w2 = words[2];
    let w3 = words[3];
    let w4 = words[4];
    let w5 = words[5];
    let w6 = words[6];
    let w7 = words[7];
    let r: [u8; 32] = [
        (w0 & 0xff) as u8,
        ((w0 >> 8) & 0xff) as u8,
        ((w0 >> 16) & 0xff) as u8,
        ((w0 >> 24) & 0xff) as u8,
        (w1 & 0xff) as u8,
        ((w1 >> 8) & 0xff) as u8,
        ((w1 >> 16) & 0xff) as u8,
        ((w1 >> 24) & 0xff) as u8,
        (w2 & 0xff) as u8,
        ((w2 >> 8) & 0xff) as u8,
        ((w2 >> 16) & 0xff) as u8,
        ((w2 >> 24) & 0xff) as u8,
        (w3 & 0xff) as u8,
        ((w3 >> 8) & 0xff) as u8,
        ((w3 >> 16) & 0xff) as u8,
        ((w3 >> 24) & 0xff) as u8,
        (w4 & 0xff) as u8,
        ((w4 >> 8) & 0xff) as u8,
        ((w4 >> 16) & 0xff) as u8,
        ((w4 >> 24) & 0xff) as u8,
        (w5 & 0xff) as u8,
        ((w5 >> 8) & 0xff) as u8,
        ((w5 >> 16) & 0xff) as u8,
        ((w5 >> 24) & 0xff) as u8,
        (w6 & 0xff) as u8,
        ((w6 >> 8) & 0xff) as u8,
        ((w6 >> 16) & 0xff) as u8,
        ((w6 >> 24) & 0xff) as u8,
        (w7 & 0xff) as u8,
        ((w7 >> 8) & 0xff) as u8,
        ((w7 >> 16) & 0xff) as u8,
        ((w7 >> 24) & 0xff) as u8,
    ];
    proof {
        reveal(vkey_bytes);
        assert(r@ =~= vkey_bytes(words@));
    }
    r
}

/// All keys' bytes, in input order.
pub open spec fn keys_bytes(ks: Seq<[u32; 8]>) -> Seq<u8>
    decreases ks.len(),
{
    if ks.len() == 0 {
        Seq::empty()
    } else {
        keys_bytes(ks.drop_last()) + vkey_bytes(ks.last()@)
    }
}

/// One blob's entry: its length as four big-endian bytes, then the blob.
pub open spec fn value_entry_bytes(v: Seq<u8>) -> Seq<u8> {
    u32_be_bytes(v.len() as u32) + v
}

/// All blobs' entries, in input order.
pub open spec fn values_bytes(vs: Seq<Seq<u8>>) -> Seq<u8>
    decreases vs.len(),
{
    if vs.len() == 0 {
        Seq::empty()
    } else {
        values_bytes(vs.drop_last()) + value_entry_bytes(vs.last())
    }
}

/// The whole commitment: pair count, keys, then length-prefixed blobs.
pub open spec fn commit_pairs_bytes(ks: Seq<[u32; 8]>, vs: Seq<Seq<u8>>) -> Seq<u8> {
    u32_be_bytes(ks.len() as u32) + keys_bytes(ks) + values_bytes(vs)
}

/// The views of a list of byte blobs.
pub open spec fn blob_views(vs: Seq<Vec<u8>>) -> Seq<Seq<u8>> {
    vs.map_values(|v: Vec<u8>| v@)
}

/// Encodes a list of verifying-key hashes and committed values into a
/// single byte string: the count, every key, then every blob behind
/// its length, all in input order.
pub fn commit_proof_pairs(vkeys: &[[u32; 8]], committed_values: &[Vec<u8>]) -> (r: Vec<u8>)
    requires
        vkeys@.len() == committed_values@.len(),
        vkeys@.len() <= 0xffff_ffff,
        forall|i: int|
            0 <= i < committed_values@.len() ==> (#[trigger] committed_values@[i])@.len()
                <= 0xffff_ffff,
    ensures
        r@ == commit_pairs_bytes(vkeys@, blob_views(committed_values@)),
{
    let n = vkeys.len();
    let ghost vs = blob_views(committed_values@);
    let mut out: Vec<u8> = Vec::new();
    push_u32_be(&mut out, n as u32);
    let mut k: usize = 0;
    while k < n
        invariant
            k <= n,
            n == vkeys@.len(),
            out@ == u32_be_bytes(n as u32) + keys_bytes(vkeys@.take(k as int)),
        decreases n - k,
    {
        let kb = words_to_bytes_le(&vkeys[k]);
        push_bytes(&mut out, kb.as_slice());
        proof {
            assert(vkeys@.take(k + 1).drop_last() =~= vkeys@.take(k as int));
            assert(vkeys@.take(k + 1).last() == vkeys@[k as int]);
            assert(out@ =~= u32_be_bytes(n as u32) + keys_bytes(vkeys@.take(k + 1)));
        }
        k = k + 1;
    }
    proof {
        assert(vkeys@.take(n as int) =~= vkeys@);
    }
    let m = committed_values.len();
    let mut k: usize = 0;
    while k < m
        invariant
            k <= m,
            m == committed_values@.len(),
            vs == blob_views(committed_values@),
            forall|i: int|
                0 <= i < committed_values@.len() ==> (#[trigger] committed_values@[i])@.len()
                    <= 0xffff_ffff,
            out@ == u32_be_bytes(vkeys@.len() as u32) + keys_bytes(vkeys@) + values_bytes(
                vs.take(k as int),
            ),
        decreases m - k,
    {
        let v = &committed_values[k];
        push_u32_be(&mut out, v.len() as u32);
        push_bytes(&mut out, v.as_slice());
        proof {
            assert(vs.take(k + 1).drop_last() =~= vs.take(k as int));
            assert(vs.take(k + 1).last() == committed_values@[k as int]@);
            assert(out@ =~= u32_be_bytes(vkeys@.len() as u32) + keys_bytes(vkeys@) + values_bytes(
                vs.take(k + 1),
            ));
        }
        k = k + 1;
    }
    proof {
        assert(vs.take(m as int) =~= vs);
    }
    out
}

/// Packs an ordered list of (key, public-value) pairs, or reports the
/// arity mismatch before anything is packed.
pub fn pack_aggregation(vkeys: &Vec<[u32; 8]>, committed_values: &Vec<Vec<u8>>) -> (r: Result<
    Vec<u8>,
    AggregationError,
>)
    requires
        vkeys@.len() <= 0xffff_ffff,
        forall|i: int|
            0 <= i < committed_values@.len() ==> (#[trigger] committed_values@[i])@.len()
                <= 0xffff_ffff,
    ensures
        match r {
            Ok(b) => vkeys@.len() == committed_values@.len() && b@ == commit_pairs_bytes(
                vkeys@,
                blob_views(committed_values@),
            ),
            Err(AggregationError::ArityMismatch { vkeys: a, values: b }) => a == vkeys@.len() && b
                == committed_values@.len() && a != b,
            Err(AggregationError::VerificationFailure) => false,
        },
{
    if vkeys.len() != committed_values.len() {
        return Err(
            AggregationError::ArityMismatch { vkeys: vkeys.len(), values: committed_values.len() },
        );
    }
    Ok(commit_proof_pairs(vkeys.as_slice(), committed_values.as_slice()))
}

/// Recomputes the commitment from the expected pairs and accepts the
/// declared one only on a byte-exact match; an arity mismatch is
/// reported before any comparison.
pub fn verify_aggregation(declared: &Vec<u8>, vkeys: &Vec<[u32; 8]>, committed_values: &Vec<
    Vec<u8>,
>) -> (r: Result<(), AggregationError>)
    requires
        vkeys@.len() <= 0xffff_ffff,
        forall|i: int|
            0 <= i < committed_values@.len() ==> (#[trigger] committed_values@[i])@.len()
                <= 0xffff_ffff,
    ensures
        match r {
            Ok(u) => vkeys@.len() == committed_values@.len() && declared@ == commit_pairs_bytes(
                vkeys@,
                blob_views(committed_values@),
            ),
            Err(AggregationError::ArityMismatch { vkeys: a, values: b }) => a == vkeys@.len() && b
                == committed_values@.len() && a != b,
            Err(AggregationError::VerificationFailure) => vkeys@.len() == committed_values@.len()
                && declared@ != commit_pairs_bytes(vkeys@, blob_views(committed_values@)),
        },
{
    match pack_aggregation(vkeys, committed_values) {
        Err(e) => Err(e),
        Ok(expected) => {
            if bytes_eq(declared, &expected) {
                Ok(())
            } else {
                Err(AggregationError::VerificationFailure)
            }
        },
    }
}

/// The views of a list of verifying-key hashes.
pub open spec fn key_views(ks: Seq<[u32; 8]>) -> Seq<Seq<u32>> {
    ks.map_values(|k: [u32; 8]| k@)
}

/// The eight words whose bytes are the 32-byte string `b`.
#[verifier::opaque]
pub open spec fn key_words(b: Seq<u8>) -> Seq<u32> {
    seq![
        u32_from_le(b.subrange(0, 4)),
        u32_from_le(b.subrange(4, 8)),
        u32_from_le(b.subrange(8, 12)),
        u32_from_le(b.subrange(12, 16)),
        u32_from_le(b.subrange(16, 20)),
        u32_from_le(b.subrange(20, 24)),
        u32_from_le(b.subrange(24, 28)),
        u32_from_le(b.subrange(28, 32)),
    ]
}

/// Reads `n` keys off the front of `b`; what remains follows them.
pub open spec fn decode_keys(b: Seq<u8>, n: nat) -> Option<(Seq<Seq<u32>>, Seq<u8>)>
    decreases n,
{
    if n == 0 {
        Some((Seq::empty(), b))
    } else if b.len() < 32 {
        None
    } else {
        match decode_keys(b.skip(32), (n - 1) as nat) {
            None => None,
            Some(t) => Some((seq![key_words(b.take(32))] + t.0, t.1)),
        }
    }
}

/// Reads `n` length-prefixed blobs, requiring that they use `b` up.
pub open spec fn decode_values(b: Seq<u8>, n: nat) -> Option<Seq<Seq<u8>>>
    decreases n,
{
    if n == 0 {
        if b.len() == 0 {
            Some(Seq::empty())
        } else {
            None
        }
    } else if b.len() < 4 {
        None
    } else {
        let l = u32_from_be(b.take(4)) as int;
        if b.len() < 4 + l {
            None
        } else {
            match decode_values(b.skip(4 + l), (n - 1) as nat) {
                None => None,
                Some(vs) => Some(seq![b.subrange(4, 4 + l)] + vs),
            }
        }
    }
}

/// Splits a commitment back into its ordered (key, blob) pairs.
pub open spec fn decode_commit(b: Seq<u8>) -> Option<(Seq<Seq<u32>>, Seq<Seq<u8>>)> {
    if b.len() < 4 {
        None
    } else {
        let n = u32_from_be(b.take(4)) as nat;
        match decode_keys(b.skip(4), n) {
            None => None,
            Some(kt) => match decode_values(kt.1, n) {
                None => None,
                Some(vs) => Some((kt.0, vs)),
            },
        }
    }
}

/// A key's 32 bytes read back as words give the key's own words.
proof fn lemma_key_words_roundtrip(k: [u32; 8])
    ensures
        key_words(vkey_bytes(k@)) == k@,
{
    reveal(vkey_bytes);
    reveal(key_words);
    let b = vkey_bytes(k@);
    assert forall|j: int| 0 <= j < 8 implies b.subrange(4 * j, 4 * j + 4) =~= u32_le_bytes(
        k@[j],
    ) by {}
    assert forall|j: int| 0 <= j < 8 implies key_words(b)[j] == k@[j] by {
        lemma_u32_le_roundtrip(k@[j]);
    }
    assert(key_words(b) =~= k@);
}

/// A key's byte image is 32 bytes long.
proof fn lemma_vkey_bytes_len(ws: Seq<u32>)
    ensures
        vkey_bytes(ws).len() == 32,
{
    reveal(vkey_bytes);
}

/// A concatenation splits back into its two parts.
proof fn lemma_split_concat(a: Seq<u8>, t: Seq<u8>)
    ensures
        (a + t).take(a.len() as int) == a,
        (a + t).skip(a.len() as int) == t,
{
    assert((a + t).take(a.len() as int) =~= a);
    assert((a + t).skip(a.len() as int) =~= t);
}

/// Splitting the keys' bytes off the front of a commitment gives back
/// the keys, whatever follows them.
#[verifier::rlimit(50)]
proof fn lemma_decode_keys_of_encode(ks: Seq<[u32; 8]>, tail: Seq<u8>)
    ensures
        decode_keys(keys_bytes(ks) + tail, ks.len()) == Some((key_views(ks), tail)),
    decreases ks.len(),
{
    if ks.len() == 0 {
        assert(keys_bytes(ks) + tail =~= tail);
        assert(key_views(ks) =~= Seq::<Seq<u32>>::empty());
    } else {
        let first = ks[0];
        let rest = ks.skip(1);
        let fb = vkey_bytes(first@);
        let b = keys_bytes(ks) + tail;
        lemma_vkey_bytes_len(first@);
        assert(b == fb + (keys_bytes(rest) + tail)) by {
            lemma_keys_bytes_first(ks);
            vstd::seq_lib::lemma_concat_associative(fb, keys_bytes(rest), tail);
        }
        lemma_split_concat(fb, keys_bytes(rest) + tail);
        assert(b.take(32) == fb);
        assert(b.skip(32) == keys_bytes(rest) + tail);
        lemma_decode_keys_of_encode(rest, tail);
        lemma_key_words_roundtrip(first);
        assert(seq![key_words(b.take(32))] + key_views(rest) =~= key_views(ks));
    }
}

/// The keys' bytes start with the first key's bytes.
proof fn lemma_keys_bytes_first(ks: Seq<[u32; 8]>)
    requires
        ks.len() >= 1,
    ensures
        keys_bytes(ks) == vkey_bytes(ks[0]@) + keys_bytes(ks.skip(1)),
    decreases ks.len(),
{
    if ks.len() == 1 {
        assert(ks.drop_last() =~= Seq::<[u32; 8]>::empty());
        assert(ks.skip(1) =~= Seq::<[u32; 8]>::empty());
        assert(keys_bytes(ks) =~= vkey_bytes(ks[0]@) + keys_bytes(ks.skip(1)));
    } else {
        lemma_keys_bytes_first(ks.drop_last());
        assert(ks.drop_last()[0] == ks[0]);
        assert(ks.skip(1).drop_last() =~= ks.drop_last().skip(1));
        assert(ks.skip(1).last() == ks.last());
        assert(keys_bytes(ks.skip(1)) == keys_bytes(ks.drop_last().skip(1)) + vkey_bytes(
            ks.last()@,
        ));
        assert(keys_bytes(ks) =~= vkey_bytes(ks[0]@) + keys_bytes(ks.skip(1)));
    }
}

/// The blobs' bytes start with the first blob's entry.
proof fn lemma_values_bytes_first(vs: Seq<Seq<u8>>)
    requires
        vs.len() >= 1,
    ensures
        values_bytes(vs) == value_entry_bytes(vs[0]) + values_bytes(vs.skip(1)),
    decreases vs.len(),
{
    if vs.len() == 1 {
        assert(vs.drop_last() =~= Seq::<Seq<u8>>::empty());
        assert(vs.skip(1) =~= Seq::<Seq<u8>>::empty());
        assert(values_bytes(vs) =~= value_entry_bytes(vs[0]) + values_bytes(vs.skip(1)));
    } else {
        lemma_values_bytes_first(vs.drop_last());
        assert(vs.drop_last()[0] == vs[0]);
        assert(vs.skip(1).drop_last() =~= vs.drop_last().skip(1));
        assert(vs.skip(1).last() == vs.last());
        assert(values_bytes(vs.skip(1)) == values_bytes(vs.drop_last().skip(1))
            + value_entry_bytes(vs.last()));
        assert(values_bytes(vs) =~= value_entry_bytes(vs[0]) + values_bytes(vs.skip(1)));
    }
}

/// Reading length-prefixed blobs back recovers them exactly.
proof fn lemma_decode_values_of_encode(vs: Seq<Seq<u8>>)
    requires
        forall|i: int| 0 <= i < vs.len() ==> (#[trigger] vs[i]).len() <= 0xffff_ffff,
    ensures
        decode_values(values_bytes(vs), vs.len()) == Some(vs),
    decreases vs.len(),
{
    if vs.len() == 0 {
        assert(values_bytes(vs) =~= Seq::<u8>::empty());
        assert(decode_values(values_bytes(vs), 0) == Some(Seq::<Seq<u8>>::empty()));
        assert(vs =~= Seq::<Seq<u8>>::empty());
    } else {
        let first = vs[0];
        let rest = vs.skip(1);
        lemma_values_bytes_first(vs);
        let b = values_bytes(vs);
        assert(b =~= u32_be_bytes(first.len() as u32) + first + values_bytes(rest));
        assert(b.take(4) =~= u32_be_bytes(first.len() as u32));
        lemma_u32_be_roundtrip(first.len() as u32);
        let l = u32_from_be(b.take(4)) as int;
        assert(l == first.len());
        assert(b.len() >= 4 + l);
        assert(b.subrange(4, 4 + l) =~= first);
        assert(b.skip(4 + l) =~= values_bytes(rest));
        assert forall|i: int| 0 <= i < rest.len() implies (#[trigger] rest[i]).len()
            <= 0xffff_ffff by {
            assert(rest[i] == vs[i + 1]);
        }
        lemma_decode_values_of_encode(rest);
        assert(seq![first] + rest =~= vs);
    }
}

/// The round trip: splitting a packed commitment recovers exactly the
/// ordered pairs that were packed, for any count and any blob lengths.
pub proof fn lemma_commit_pairs_roundtrip(ks: Seq<[u32; 8]>, vs: Seq<Seq<u8>>)
    requires
        ks.len() == vs.len(),
        ks.len() <= 0xffff_ffff,
        forall|i: int| 0 <= i < vs.len() ==> (#[trigger] vs[i]).len() <= 0xffff_ffff,
    ensures
        decode_commit(commit_pairs_bytes(ks, vs)) == Some((key_views(ks), vs)),
{
    let b = commit_pairs_bytes(ks, vs);
    assert(b.take(4) =~= u32_be_bytes(ks.len() as u32));
    lemma_u32_be_roundtrip(ks.len() as u32);
    assert(u32_from_be(b.take(4)) as nat == ks.len());
    assert(b.skip(4) =~= keys_bytes(ks) + values_bytes(vs));
    lemma_decode_keys_of_encode(ks, values_bytes(vs));
    lemma_decode_values_of_encode(vs);
}

/// Splits a packed commitment back into its verifying-key hashes and
/// public-value blobs.  Succeeds exactly when the bytes are a whole
/// well-formed commitment with nothing trailing.
#[verifier::rlimit(100)]
pub fn decode_commit_pairs(b: &Vec<u8>) -> (r: Option<(Vec<[u32; 8]>, Vec<Vec<u8>>)>)
    ensures
        match r {
            Some(p) => decode_commit(b@) == Some((key_views(p.0@), blob_views(p.1@))),
            None => decode_commit(b@) is None,
        },
{
    if b.len() < 4 {
        return None;
    }
    let n = read_u32_be(b, 0);
    proof {
        assert(b@.subrange(0, 4) =~= b@.take(4));
    }
    let mut keys: Vec<[u32; 8]> = Vec::new();
    let mut off: usize = 4;
    let mut k: u32 = 0;
    proof {
        assert(key_views(keys@) + decode_keys(b@.skip(4), n as nat).unwrap().0 =~= decode_keys(
            b@.skip(4),
            n as nat,
        ).unwrap().0) by {
            assert(key_views(keys@) =~= Seq::<Seq<u32>>::empty());
        }
    }
    while k < n
        invariant
            k <= n,
            4 <= off <= b@.len(),
            keys@.len() == k,
            n == u32_from_be(b@.take(4)),
            decode_keys(b@.skip(4), n as nat) == (match decode_keys(
                b@.skip(off as int),
                (n - k) as nat,
            ) {
                None => None::<(Seq<Seq<u32>>, Seq<u8>)>,
                Some(t) => Some((key_views(keys@) + t.0, t.1)),
            }),
        decreases n - k,
    {
        if b.len() - off < 32 {
            proof {
                assert(b@.skip(off as int).len() < 32);
                assert(decode_keys(b@.skip(off as int), (n - k) as nat) is None);
                assert(decode_commit(b@) is None);
            }
            return None;
        }
        let w0 = read_u32_le(b, off);
        let w1 = read_u32_le(b, off + 4);
        let w2 = read_u32_le(b, off + 8);
        let w3 = read_u32_le(b, off + 12);
        let w4 = read_u32_le(b, off + 16);
        let w5 = read_u32_le(b, off + 20);
        let w6 = read_u32_le(b, off + 24);
        let w7 = read_u32_le(b, off + 28);
        let key: [u32; 8] = [w0, w1, w2, w3, w4, w5, w6, w7];
        proof {
            let s = b@.skip(off as int);
            assert(key_words(s.take(32)) =~= key@) by {
                reveal(key_words);
                assert forall|j: int| 0 <= j < 8 implies #[trigger] s.take(32).subrange(
                    4 * j,
                    4 * j + 4,
                ) =~= b@.subrange(off + 4 * j, off + 4 * j + 4) by {}
            }
            assert(s.skip(32) =~= b@.skip(off + 32));
            let d = decode_keys(b@.skip(off + 32), (n - k - 1) as nat);
            if d is Some {
                let t = d.unwrap();
                assert(decode_keys(s, (n - k) as nat) == Some((
                    seq![key@] + t.0,
                    t.1,
                )));
                assert(key_views(keys@.push(key)) + t.0 =~= key_views(keys@) + (seq![key@]
                    + t.0));
            } else {
                assert(decode_keys(s, (n - k) as nat) is None);
            }
        }
        keys.push(key);
        off = off + 32;
        k = k + 1;
    }
    let ghost key_suffix = off as int;
    proof {
        assert(decode_keys(b@.skip(off as int), 0) == Some((
            Seq::<Seq<u32>>::empty(),
            b@.skip(off as int),
        )));
        assert(key_views(keys@) + Seq::<Seq<u32>>::empty() =~= key_views(keys@));
        assert(decode_keys(b@.skip(4), n as nat) == Some((key_views(keys@), b@.skip(off as int))));
    }
    let mut vals: Vec<Vec<u8>> = Vec::new();
    let mut k: u32 = 0;
    while k < n
        invariant
            k <= n,
            4 <= off <= b@.len(),
            vals@.len() == k,
            decode_values(b@.skip(key_suffix), n as nat) == (match decode_values(
                b@.skip(off as int),
                (n - k) as nat,
            ) {
                None => None::<Seq<Seq<u8>>>,
                Some(vs) => Some(blob_views(vals@) + vs),
            }),
            n == u32_from_be(b@.take(4)),
            decode_keys(b@.skip(4), n as nat) == Some((key_views(keys@), b@.skip(key_suffix))),
        decreases n - k,
    {
        proof {
            assert(blob_views(vals@).len() == vals@.len());
        }
        if b.len() - off < 4 {
            proof {
                assert(decode_values(b@.skip(off as int), (n - k) as nat) is None);
                assert(decode_commit(b@) is None);
            }
            return None;
        }
        let l32 = read_u32_be(b, off);
        let l = l32 as usize;
        proof {
            assert(b@.skip(off as int).take(4) =~= b@.subrange(off as int, off + 4));
        }
        if b.len() - off - 4 < l {
            proof {
                assert(b@.skip(off as int).len() < 4 + l);
                assert(decode_values(b@.skip(off as int), (n - k) as nat) is None);
                assert(decode_commit(b@) is None);
            }
            return None;
        }
        let v = copy_range(b, off + 4, off + 4 + l);
        proof {
            let s = b@.skip(off as int);
            assert(s.subrange(4, 4 + l) =~= b@.subrange(off + 4, off + 4 + l));
            assert(s.skip(4 + l) =~= b@.skip(off + 4 + l));
            let d = decode_values(b@.skip(off + 4 + l), (n - k - 1) as nat);
            if d is Some {
                let vs = d.unwrap();
                assert(decode_values(s, (n - k) as nat) == Some(seq![v@] + vs));
                assert(blob_views(vals@.push(v)) + vs =~= blob_views(vals@) + (seq![v@] + vs));
            } else {
                assert(decode_values(s, (n - k) as nat) is None);
            }
        }
        vals.push(v);
        off = off + 4 + l;
        k = k + 1;
    }
    if off != b.len() {
        proof {
            assert(b@.skip(off as int).len() != 0);
            assert(decode_values(b@.skip(off as int), 0) is None);
            assert(decode_commit(b@) is None);
        }
        return None;
    }
    proof {
        assert(b@.skip(off as int).len() == 0);
        assert(decode_values(b@.skip(off as int), 0) == Some(Seq::<Seq<u8>>::empty()));
        assert(blob_views(vals@) + Seq::<Seq<u8>>::empty() =~= blob_views(vals@));
        assert(decode_values(b@.skip(key_suffix), n as nat) == Some(blob_views(vals@)));
        assert(decode_commit(b@) == Some((key_views(keys@), blob_views(vals@))));
    }
    Some((keys, vals))
}

} // verus!
