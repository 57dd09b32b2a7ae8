//! Vector kernels over GF(2^8): scaling a byte buffer by a scalar,
//! elementwise addition (XOR), and fused scale-and-accumulate.
//!
//! These are the hot paths of encoding and elimination. Each kernel is a
//! pure elementwise function of its inputs, stated byte by byte over
//! `gf_mul` and `gf_add`.

use vstd::prelude::*;

use crate::gf256::{
    gf_add, gf_mul, lemma_add_laws, lemma_mul_basic, lemma_mul_comm, lemma_mul_nibble_split, Gf256,
};

verus! {

/// Multiplies every byte of `vec` by `scalar` over GF(2^8), returning the
/// scaled copy.
pub fn gf256_mul_vec_by_scalar(vec: &[u8], scalar: u8) -> (r: Vec<u8>)
    ensures
        r@.len() == vec@.len(),
        forall|i: int| 0 <= i < vec@.len() ==> r@[i] == gf_mul(vec@[i], scalar),
{
    let mut result: Vec<u8> = Vec::new();
    let mut idx: usize = 0;
    while idx < vec.len()
        invariant
            idx <= vec@.len(),
            result@.len() == idx,
            forall|i: int| 0 <= i < idx ==> result@[i] == gf_mul(vec@[i], scalar),
        decreases vec@.len() - idx,
    {
        result.push(Gf256::mul_const(vec[idx], scalar));
        idx += 1;
    }
    result
}

/// Multiplies every byte of `vec` by `scalar` over GF(2^8), in place.
///
/// Zero and one scalars short-circuit: the buffer is zeroed or left as it
/// is, which agrees with the elementwise statement.
pub fn gf256_inplace_mul_vec_by_scalar(vec: &mut Vec<u8>, scalar: u8)
    ensures
        final(vec)@.len() == old(vec)@.len(),
        forall|i: int| 0 <= i < old(vec)@.len() ==> final(vec)@[i] == gf_mul(old(vec)@[i], scalar),
{
    if scalar == 0 {
        let mut idx: usize = 0;
        while idx < vec.len()
            invariant
                idx <= vec@.len(),
                vec@.len() == old(vec)@.len(),
                forall|i: int| 0 <= i < idx ==> vec@[i] == 0,
                forall|i: int| idx <= i < vec@.len() ==> vec@[i] == old(vec)@[i],
            decreases vec@.len() - idx,
        {
            vec[idx] = 0;
            idx += 1;
        }
        return ;
    }
    if scalar == 1 {
        proof {
            assert forall|i: int| 0 <= i < old(vec)@.len() implies final(vec)@[i] == gf_mul(
                old(vec)@[i],
                scalar,
            ) by {
                lemma_mul_basic(old(vec)@[i]);
            }
        }
        return ;
    }
    let mut idx: usize = 0;
    while idx < vec.len()
        invariant
            idx <= vec@.len(),
            vec@.len() == old(vec)@.len(),
            forall|i: int| 0 <= i < idx ==> vec@[i] == gf_mul(old(vec)@[i], scalar),
            forall|i: int| idx <= i < vec@.len() ==> vec@[i] == old(vec)@[i],
        decreases vec@.len() - idx,
    {
        let scaled = Gf256::mul_const(vec[idx], scalar);
        vec[idx] = scaled;
        idx += 1;
    }
}

/// Adds `vec_src` into `vec_dst` elementwise over GF(2^8), in place. Bytes
/// past the shorter of the two lengths are left untouched.
pub fn gf256_inplace_add_vectors(vec_dst: &mut Vec<u8>, vec_src: &[u8])
    ensures
        final(vec_dst)@.len() == old(vec_dst)@.len(),
        forall|i: int|
            0 <= i < old(vec_dst)@.len() && i < vec_src@.len() ==> final(vec_dst)@[i] == gf_add(
                old(vec_dst)@[i],
                vec_src@[i],
            ),
        forall|i: int|
            vec_src@.len() <= i < old(vec_dst)@.len() ==> final(vec_dst)@[i] == old(vec_dst)@[i],
{
    let bound = if vec_dst.len() <= vec_src.len() {
        vec_dst.len()
    } else {
        vec_src.len()
    };
    let mut idx: usize = 0;
    while idx < bound
        invariant
            idx <= bound,
            bound <= vec_dst@.len(),
            bound <= vec_src@.len(),
            vec_dst@.len() == old(vec_dst)@.len(),
            forall|i: int|
                0 <= i < idx ==> vec_dst@[i] == gf_add(old(vec_dst)@[i], vec_src@[i]),
            forall|i: int| idx <= i < vec_dst@.len() ==> vec_dst@[i] == old(vec_dst)@[i],
        decreases bound - idx,
    {
        let summed = vec_dst[idx] ^ vec_src[idx];
        vec_dst[idx] = summed;
        idx += 1;
    }
}

/// Scales `mul_vec` by `scalar` and accumulates the result into
/// `add_into_vec`, elementwise over GF(2^8). Bytes past the shorter of the
/// two lengths are left untouched.
pub fn gf256_inplace_mul_vec_by_scalar_then_add_into_vec(
    add_into_vec: &mut Vec<u8>,
    mul_vec: &[u8],
    scalar: u8,
)
    ensures
        final(add_into_vec)@.len() == old(add_into_vec)@.len(),
        forall|i: int|
            0 <= i < old(add_into_vec)@.len() && i < mul_vec@.len() ==> final(add_into_vec)@[i]
                == gf_add(old(add_into_vec)@[i], gf_mul(mul_vec@[i], scalar)),
        forall|i: int|
            mul_vec@.len() <= i < old(add_into_vec)@.len() ==> final(add_into_vec)@[i] == old(
                add_into_vec,
            )@[i],
{
    if scalar == 0 {
        proof {
            assert forall|i: int|
                0 <= i < old(add_into_vec)@.len() && i < mul_vec@.len() implies final(add_into_vec)@[i]
                == gf_add(old(add_into_vec)@[i], gf_mul(mul_vec@[i], scalar)) by {
                lemma_add_laws(old(add_into_vec)@[i], 0, 0);
            }
        }
        return ;
    }
    let bound = if add_into_vec.len() <= mul_vec.len() {
        add_into_vec.len()
    } else {
        mul_vec.len()
    };
    let mut idx: usize = 0;
    while idx < bound
        invariant
            idx <= bound,
            bound <= add_into_vec@.len(),
            bound <= mul_vec@.len(),
            add_into_vec@.len() == old(add_into_vec)@.len(),
            forall|i: int|
                0 <= i < idx ==> add_into_vec@[i] == gf_add(
                    old(add_into_vec)@[i],
                    gf_mul(mul_vec@[i], scalar),
                ),
            forall|i: int|
                idx <= i < add_into_vec@.len() ==> add_into_vec@[i] == old(add_into_vec)@[i],
        decreases bound - idx,
    {
        let accumulated = add_into_vec[idx] ^ Gf256::mul_const(mul_vec[idx], scalar);
        add_into_vec[idx] = accumulated;
        idx += 1;
    }
}

/// Multiplies every byte of `vec` by `scalar` over GF(2^8) through two
/// 16-entry nibble lookup tables, the technique behind the wide shuffle
/// paths: partial products of the low and the high nibble are looked up
/// per byte and XORed. Proven to agree byte for byte with plain
/// multiplication, so any path built on these tables matches the scalar
/// kernels on all inputs.
pub fn gf256_mul_vec_by_scalar_nibble_tables(vec: &[u8], scalar: u8) -> (r: Vec<u8>)
    ensures
        r@.len() == vec@.len(),
        forall|i: int| 0 <= i < vec@.len() ==> r@[i] == gf_mul(vec@[i], scalar),
{
    let mut table_low: Vec<u8> = Vec::new();
    let mut table_high: Vec<u8> = Vec::new();
    let mut n: usize = 0;
    while n < 16
        invariant
            n <= 16,
            table_low@.len() == n,
            table_high@.len() == n,
            forall|m: int| 0 <= m < n ==> table_low@[m] == gf_mul(scalar, m as u8),
            forall|m: int| 0 <= m < n ==> table_high@[m] == gf_mul(scalar, (m as u8) << 4),
        decreases 16 - n,
    {
        proof {
            assert((n as u8) << 4 == ((n * 16) as u8)) by (bit_vector)
                requires
                    n < 16usize,
            ;
        }
        table_low.push(Gf256::mul_const(scalar, n as u8));
        table_high.push(Gf256::mul_const(scalar, (n * 16) as u8));
        n += 1;
    }
    let mut result: Vec<u8> = Vec::new();
    let mut idx: usize = 0;
    while idx < vec.len()
        invariant
            idx <= vec@.len(),
            result@.len() == idx,
            table_low@.len() == 16,
            table_high@.len() == 16,
            forall|m: int| 0 <= m < 16 ==> table_low@[m] == gf_mul(scalar, m as u8),
            forall|m: int| 0 <= m < 16 ==> table_high@[m] == gf_mul(scalar, (m as u8) << 4),
            forall|i: int| 0 <= i < idx ==> result@[i] == gf_mul(vec@[i], scalar),
        decreases vec@.len() - idx,
    {
        let byte = vec[idx];
        let low_nibble = (byte & 0x0F) as usize;
        let high_nibble = (byte >> 4) as usize;
        proof {
            let b = byte;
            assert((b & 0x0F) < 16 && (b >> 4) < 16) by (bit_vector);
            lemma_mul_nibble_split(scalar, b);
            assert(((b >> 4) as u8) << 4 == (b >> 4) << 4) by (bit_vector);
            lemma_mul_comm(vec@[idx as int], scalar);
        }
        result.push(table_low[low_nibble] ^ table_high[high_nibble]);
        idx += 1;
    }
    result
}

} // verus!
