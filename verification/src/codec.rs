//! Byte schema shared by the commitment and aggregation layers.
//!
//! One fixed layout is used everywhere: multi-byte integers are either
//! four little-endian bytes (vector components, verifying-key words) or
//! four big-endian bytes (counts and length prefixes, the form a
//! downstream decoder expects), and a vector is the concatenation of its
//! components' encodings in sequence order.

use vstd::prelude::*;

verus! {

/// The four little-endian bytes of a 32-bit word.
pub open spec fn u32_le_bytes(w: u32) -> Seq<u8> {
    seq![
        (w & 0xff) as u8,
        ((w >> 8) & 0xff) as u8,
        ((w >> 16) & 0xff) as u8,
        ((w >> 24) & 0xff) as u8,
    ]
}

/// The four big-endian bytes of a 32-bit word.
pub open spec fn u32_be_bytes(w: u32) -> Seq<u8> {
    seq![
        ((w >> 24) & 0xff) as u8,
        ((w >> 16) & 0xff) as u8,
        ((w >> 8) & 0xff) as u8,
        (w & 0xff) as u8,
    ]
}

/// The word whose little-endian bytes are the first four of `b`.
pub open spec fn u32_from_le(b: Seq<u8>) -> u32 {
    ((b[0] as u32) | ((b[1] as u32) << 8) | ((b[2] as u32) << 16) | ((b[3] as u32) << 24)) as u32
}

/// The word whose big-endian bytes are the first four of `b`.
pub open spec fn u32_from_be(b: Seq<u8>) -> u32 {
    (((b[0] as u32) << 24) | ((b[1] as u32) << 16) | ((b[2] as u32) << 8) | (b[3] as u32)) as u32
}

pub proof fn lemma_u32_le_roundtrip(w: u32)
    ensures
        u32_from_le(u32_le_bytes(w)) == w,
{
    assert((((w & 0xff) as u8) as u32) | ((((w >> 8) & 0xff) as u8) as u32) << 8 | ((((w >> 16)
        & 0xff) as u8) as u32) << 16 | ((((w >> 24) & 0xff) as u8) as u32) << 24 == w)
        by (bit_vector);
}

pub proof fn lemma_u32_be_roundtrip(w: u32)
    ensures
        u32_from_be(u32_be_bytes(w)) == w,
{
    assert(((((w >> 24) & 0xff) as u8) as u32) << 24 | ((((w >> 16) & 0xff) as u8) as u32) << 16
        | ((((w >> 8) & 0xff) as u8) as u32) << 8 | (((w & 0xff) as u8) as u32) == w)
        by (bit_vector);
}

/// Four arbitrary bytes survive a little-endian read/write round trip.
pub proof fn lemma_le_bytes_roundtrip(b0: u8, b1: u8, b2: u8, b3: u8)
    ensures
        u32_le_bytes(u32_from_le(seq![b0, b1, b2, b3])) =~= seq![b0, b1, b2, b3],
{
    assert({
        let w = ((b0 as u32) | ((b1 as u32) << 8) | ((b2 as u32) << 16) | ((b3 as u32) << 24))
            as u32;
        (w & 0xff) as u8 == b0 && ((w >> 8) & 0xff) as u8 == b1 && ((w >> 16) & 0xff) as u8 == b2
            && ((w >> 24) & 0xff) as u8 == b3
    }) by (bit_vector);
}

/// A fixed-point vector component, reinterpreted as a word for encoding.
pub open spec fn scalar_le_bytes(x: i32) -> Seq<u8> {
    u32_le_bytes(x as u32)
}

/// The component whose encoding is the first four bytes of `b`.
pub open spec fn scalar_from_le(b: Seq<u8>) -> i32 {
    u32_from_le(b) as i32
}

pub proof fn lemma_scalar_le_roundtrip(x: i32)
    ensures
        scalar_from_le(scalar_le_bytes(x)) == x,
{
    lemma_u32_le_roundtrip(x as u32);
    assert(((x as u32) as i32) == x) by (bit_vector);
}

/// A vector's byte image: each component's four little-endian bytes,
/// in sequence order.
pub open spec fn vector_bytes(v: Seq<i32>) -> Seq<u8>
    decreases v.len(),
{
    if v.len() == 0 {
        Seq::empty()
    } else {
        vector_bytes(v.drop_last()) + scalar_le_bytes(v.last())
    }
}

pub proof fn lemma_vector_bytes_len(v: Seq<i32>)
    ensures
        vector_bytes(v).len() == 4 * v.len(),
    decreases v.len(),
{
    if v.len() > 0 {
        lemma_vector_bytes_len(v.drop_last());
    }
}

/// Two vectors with the same byte image are the same vector.
pub proof fn lemma_vector_bytes_injective(a: Seq<i32>, b: Seq<i32>)
    requires
        vector_bytes(a) == vector_bytes(b),
    ensures
        a =~= b,
    decreases a.len(),
{
    lemma_vector_bytes_len(a);
    lemma_vector_bytes_len(b);
    if a.len() == 0 {
        assert(a =~= b);
    } else {
        let ab = vector_bytes(a.drop_last());
        let bb = vector_bytes(b.drop_last());
        lemma_vector_bytes_len(a.drop_last());
        lemma_vector_bytes_len(b.drop_last());
        let sa = scalar_le_bytes(a.last());
        let sb = scalar_le_bytes(b.last());
        assert(ab =~= bb) by {
            assert forall|i: int| 0 <= i < ab.len() implies ab[i] == bb[i] by {
                assert((ab + sa)[i] == (bb + sb)[i]);
            }
        }
        assert(sa =~= sb) by {
            assert forall|i: int| 0 <= i < 4 implies sa[i] == sb[i] by {
                assert((ab + sa)[ab.len() + i] == (bb + sb)[bb.len() + i]);
            }
        }
        lemma_scalar_le_roundtrip(a.last());
        lemma_scalar_le_roundtrip(b.last());
        assert(a.last() == b.last());
        lemma_vector_bytes_injective(a.drop_last(), b.drop_last());
        assert forall|i: int| 0 <= i < a.len() implies a[i] == b[i] by {
            if i < a.len() - 1 {
                assert(a[i] == a.drop_last()[i]);
                assert(b[i] == b.drop_last()[i]);
            } else {
                assert(a[i] == a.last());
                assert(b[i] == b.last());
            }
        }
        assert(a =~= b);
    }
}

/// Appends the four little-endian bytes of `w`.
pub fn push_u32_le(out: &mut Vec<u8>, w: u32)
    ensures
        final(out)@ =~= old(out)@ + u32_le_bytes(w),
{
    out.push((w & 0xff) as u8);
    out.push(((w >> 8) & 0xff) as u8);
    out.push(((w >> 16) & 0xff) as u8);
    out.push(((w >> 24) & 0xff) as u8);
}

/// Appends the four big-endian bytes of `w`.
pub fn push_u32_be(out: &mut Vec<u8>, w: u32)
    ensures
        final(out)@ =~= old(out)@ + u32_be_bytes(w),
{
    out.push(((w >> 24) & 0xff) as u8);
    out.push(((w >> 16) & 0xff) as u8);
    out.push(((w >> 8) & 0xff) as u8);
    out.push((w & 0xff) as u8);
}

/// Reads the big-endian word at `off`.
pub fn read_u32_be(b: &Vec<u8>, off: usize) -> (r: u32)
    requires
        off + 4 <= b@.len(),
    ensures
        r == u32_from_be(b@.subrange(off as int, off + 4)),
{
    let _n = b.len();
    ((b[off] as u32) << 24) | ((b[off + 1] as u32) << 16) | ((b[off + 2] as u32) << 8) | (b[off
        + 3] as u32)
}

/// Reads the little-endian word at `off`.
pub fn read_u32_le(b: &Vec<u8>, off: usize) -> (r: u32)
    requires
        off + 4 <= b@.len(),
    ensures
        r == u32_from_le(b@.subrange(off as int, off + 4)),
{
    let _n = b.len();
    (b[off] as u32) | ((b[off + 1] as u32) << 8) | ((b[off + 2] as u32) << 16) | ((b[off
        + 3] as u32) << 24)
}

/// Appends a byte string.
pub fn push_bytes(out: &mut Vec<u8>, b: &[u8])
    ensures
        final(out)@ == old(out)@ + b@,
{
    let mut k: usize = 0;
    while k < b.len()
        invariant
            k <= b@.len(),
            out@ == old(out)@ + b@.take(k as int),
        decreases b@.len() - k,
    {
        out.push(b[k]);
        proof {
            assert(old(out)@ + b@.take(k + 1) =~= (old(out)@ + b@.take(k as int)).push(
                b@[k as int],
            ));
        }
        k = k + 1;
    }
    proof {
        assert(b@.take(b@.len() as int) =~= b@);
    }
}

/// Encodes a vector as the concatenation of its components' bytes.
pub fn encode_vector(v: &Vec<i32>) -> (r: Vec<u8>)
    ensures
        r@ == vector_bytes(v@),
        r@.len() == 4 * v@.len(),
{
    let mut out: Vec<u8> = Vec::new();
    let mut k: usize = 0;
    while k < v.len()
        invariant
            k <= v@.len(),
            out@ == vector_bytes(v@.take(k as int)),
        decreases v@.len() - k,
    {
        let x = v[k];
        push_u32_le(&mut out, x as u32);
        proof {
            assert(v@.take(k + 1).drop_last() =~= v@.take(k as int));
            assert(v@.take(k + 1).last() == v@[k as int]);
        }
        k = k + 1;
    }
    proof {
        assert(v@.take(v@.len() as int) =~= v@);
        lemma_vector_bytes_len(v@);
    }
    out
}

/// Decodes a vector from its byte image.  Succeeds exactly when the
/// length is a whole number of components.
pub fn decode_vector(b: &Vec<u8>) -> (r: Option<Vec<i32>>)
    ensures
        match r {
            Some(v) => b@ == vector_bytes(v@),
            None => b@.len() % 4 != 0,
        },
{
    if b.len() % 4 != 0 {
        return None;
    }
    let mut v: Vec<i32> = Vec::new();
    let mut off: usize = 0;
    while off < b.len()
        invariant
            off <= b@.len(),
            off % 4 == 0,
            b@.len() % 4 == 0,
            vector_bytes(v@) == b@.take(off as int),
        decreases b@.len() - off,
    {
        let w = read_u32_le(b, off);
        let x = w as i32;
        proof {
            let grp = b@.subrange(off as int, off + 4);
            lemma_le_bytes_roundtrip(grp[0], grp[1], grp[2], grp[3]);
            assert(seq![grp[0], grp[1], grp[2], grp[3]] =~= grp);
            assert((w as i32) as u32 == w) by (bit_vector);
            assert(scalar_le_bytes(x) == grp);
            assert(v@.push(x).drop_last() =~= v@);
            assert(b@.take(off + 4) =~= b@.take(off as int) + grp);
        }
        v.push(x);
        off = off + 4;
    }
    proof {
        assert(b@.take(b@.len() as int) =~= b@);
    }
    Some(v)
}

/// Copies the bytes in `[lo, hi)`.
pub fn copy_range(b: &Vec<u8>, lo: usize, hi: usize) -> (r: Vec<u8>)
    requires
        lo <= hi <= b@.len(),
    ensures
        r@ == b@.subrange(lo as int, hi as int),
{
    let mut out: Vec<u8> = Vec::new();
    let mut k: usize = lo;
    while k < hi
        invariant
            lo <= k <= hi <= b@.len(),
            out@ == b@.subrange(lo as int, k as int),
        decreases hi - k,
    {
        out.push(b[k]);
        proof {
            assert(b@.subrange(lo as int, k + 1) =~= b@.subrange(lo as int, k as int).push(
                b@[k as int],
            ));
        }
        k = k + 1;
    }
    out
}

/// Compares two byte strings for exact equality.
pub fn bytes_eq(a: &Vec<u8>, b: &Vec<u8>) -> (r: bool)
    ensures
        r <==> a@ == b@,
{
    if a.len() != b.len() {
        proof {
            assert(a@.len() != b@.len());
        }
        return false;
    }
    let mut k: usize = 0;
    while k < a.len()
        invariant
            k <= a@.len(),
            a@.len() == b@.len(),
            forall|i: int| 0 <= i < k ==> a@[i] == b@[i],
        decreases a@.len() - k,
    {
        if a[k] != b[k] {
            return false;
        }
        k = k + 1;
    }
    proof {
        assert(a@ =~= b@);
    }
    true
}

} // verus!
