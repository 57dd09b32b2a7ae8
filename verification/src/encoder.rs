//! The encoder: holds the padded source data and emits full coded pieces.
//!
//! A full coded piece is the coding vector (`k` coefficient bytes) followed
//! by the coded payload (`l` bytes), where payload byte `i` is the GF(2^8)
//! sum over all pieces `p` of `coeffs[p] * data[p * l + i]`.

use vstd::prelude::*;

use crate::errors::RLNCError;
use crate::gf256::{gf_add, gf_mul, Gf256};
use crate::layout::lemma_flat_index;
use crate::random::sample_random_bytes;

verus! {

/// Marker byte written right after the original payload, before the zero
/// padding; decoding later truncates at its last occurrence.
pub const BOUNDARY_MARKER: u8 = 0x81;

/// GF(2^8) sum of the first `p` contributions `coeffs[q] * data[q * l + i]`
/// to payload byte `i`.
pub open spec fn lin_comb_byte(data: Seq<u8>, coeffs: Seq<u8>, l: int, i: int, p: int) -> u8
    decreases p,
{
    if p <= 0 {
        0
    } else {
        gf_add(
            lin_comb_byte(data, coeffs, l, i, p - 1),
            gf_mul(coeffs[p - 1], data[(p - 1) * l + i]),
        )
    }
}

/// Payload byte `i` of the piece coded from `data` under `coeffs`: the full
/// linear combination across all pieces.
pub open spec fn coded_payload_byte(data: Seq<u8>, coeffs: Seq<u8>, l: int, i: int) -> u8 {
    lin_comb_byte(data, coeffs, l, i, coeffs.len() as int)
}

/// The original bytes followed by the boundary marker and zero padding up
/// to `k * ceil((len + 1) / k)` bytes.
pub open spec fn padded_data(d: Seq<u8>, k: int) -> Seq<u8>
    recommends
        k >= 1,
{
    let n = d.len() as int;
    let total = k * ((n + k) / k);
    Seq::new(
        total as nat,
        |i: int|
            if i < n {
                d[i]
            } else if i == n {
                BOUNDARY_MARKER
            } else {
                0u8
            },
    )
}

/// An RLNC encoder: the padded source buffer, split conceptually into
/// `piece_count` pieces of `piece_byte_len` bytes each.
#[derive(Clone, Debug)]
pub struct Encoder {
    data: Vec<u8>,
    piece_count: usize,
    piece_byte_len: usize,
}

impl Encoder {
    /// The stored (padded) data.
    pub closed spec fn spec_data(self) -> Seq<u8> {
        self.data@
    }

    /// Number of pieces coded together.
    pub closed spec fn spec_piece_count(self) -> usize {
        self.piece_count
    }

    /// Bytes per piece.
    pub closed spec fn spec_piece_byte_len(self) -> usize {
        self.piece_byte_len
    }

    /// Structural soundness: at least one piece, at least one byte per
    /// piece, and the buffer is exactly `piece_count * piece_byte_len` long.
    pub open spec fn wf(self) -> bool {
        &&& self.spec_piece_count() >= 1
        &&& self.spec_piece_byte_len() >= 1
        &&& self.spec_data().len() == self.spec_piece_count() * self.spec_piece_byte_len()
        &&& self.spec_piece_count() + self.spec_piece_byte_len() <= usize::MAX
    }

    /// The full coded piece that coding under `coeffs` yields: the
    /// coefficients, then the combined payload.
    pub open spec fn spec_full_coded_piece(self, coeffs: Seq<u8>) -> Seq<u8>
        recommends
            coeffs.len() == self.spec_piece_count(),
    {
        coeffs + Seq::new(
            self.spec_piece_byte_len() as nat,
            |i: int|
                coded_payload_byte(
                    self.spec_data(),
                    coeffs,
                    self.spec_piece_byte_len() as int,
                    i,
                ),
        )
    }

    /// Number of pieces the original data got split into.
    pub fn get_piece_count(&self) -> (r: usize)
        ensures
            r == self.spec_piece_count(),
    {
        self.piece_count
    }

    /// Bytes per piece after padding.
    pub fn get_piece_byte_len(&self) -> (r: usize)
        ensures
            r == self.spec_piece_byte_len(),
    {
        self.piece_byte_len
    }

    /// Byte length of a full coded piece: the coefficients plus the payload.
    pub fn get_full_coded_piece_byte_len(&self) -> (r: usize)
        requires
            self.wf(),
        ensures
            r == self.spec_piece_count() + self.spec_piece_byte_len(),
    {
        self.piece_count + self.piece_byte_len
    }

    /// Creates an encoder over `data` split into `piece_count` pieces,
    /// appending the boundary marker and zero padding.
    ///
    /// Fails with `DataLengthZero` on empty data and with `PieceCountZero`
    /// on a zero piece count; otherwise the stored buffer is exactly the
    /// padded data and the piece length is `ceil((len + 1) / piece_count)`.
    pub fn new(data: Vec<u8>, piece_count: usize) -> (r: Result<Encoder, RLNCError>)
        requires
            data@.len() + piece_count < usize::MAX,
        ensures
            r is Err <==> (data@.len() == 0 || piece_count == 0),
            data@.len() == 0 ==> r == Err::<Encoder, RLNCError>(RLNCError::DataLengthZero),
            data@.len() != 0 && piece_count == 0 ==> r == Err::<Encoder, RLNCError>(
                RLNCError::PieceCountZero,
            ),
            r is Ok ==> {
                let e = r->Ok_0;
                &&& e.wf()
                &&& e.spec_piece_count() == piece_count
                &&& e.spec_piece_byte_len() == (data@.len() + piece_count) as int / piece_count
                    as int
                &&& e.spec_data() == padded_data(data@, piece_count as int)
            },
    {
        if data.len() == 0 {
            return Err(RLNCError::DataLengthZero);
        }
        if piece_count == 0 {
            return Err(RLNCError::PieceCountZero);
        }
        let mut data = data;
        let ghost original: Seq<u8> = data@;
        let in_data_len = data.len();
        let piece_byte_len = (in_data_len + piece_count) / piece_count;
        proof {
            let n = in_data_len as int;
            let k = piece_count as int;
            assert(k * ((n + k) / k) > n && k * ((n + k) / k) <= n + k && (n + k) / k >= 1
                && k + (n + k) / k <= k * ((n + k) / k) + 1) by (nonlinear_arith)
                requires
                    n >= 1,
                    k >= 1,
            ;
        }
        let padded_data_len = piece_count * piece_byte_len;
        while data.len() < padded_data_len
            invariant
                original.len() <= data@.len() <= padded_data_len,
                original.len() == in_data_len,
                forall|i: int| 0 <= i < in_data_len ==> data@[i] == original[i],
                forall|i: int| in_data_len <= i < data@.len() ==> data@[i] == 0u8,
            decreases padded_data_len - data@.len(),
        {
            data.push(0);
        }
        data[in_data_len] = BOUNDARY_MARKER;
        proof {
            assert(data@ =~= padded_data(original, piece_count as int));
        }
        Ok(Encoder { data, piece_count, piece_byte_len })
    }

    /// Creates an encoder over data that is already an exact stack of
    /// pieces: no marker, no padding. The recoder builds its inner encoder
    /// this way, over received payloads.
    ///
    /// Fails with `DataLengthZero` on empty data, `PieceCountZero` on a
    /// zero piece count, and `DataLengthMismatch` when the length is not a
    /// multiple of the piece count.
    pub fn without_padding(data: Vec<u8>, piece_count: usize) -> (r: Result<Encoder, RLNCError>)
        requires
            data@.len() < usize::MAX,
        ensures
            r is Err <==> (data@.len() == 0 || piece_count == 0 || data@.len() as int % (
            piece_count as int) != 0),
            data@.len() == 0 ==> r == Err::<Encoder, RLNCError>(RLNCError::DataLengthZero),
            data@.len() != 0 && piece_count == 0 ==> r == Err::<Encoder, RLNCError>(
                RLNCError::PieceCountZero,
            ),
            data@.len() != 0 && piece_count != 0 && data@.len() as int % (piece_count as int) != 0
                ==> r == Err::<Encoder, RLNCError>(RLNCError::DataLengthMismatch),
            r is Ok ==> {
                let e = r->Ok_0;
                &&& e.wf()
                &&& e.spec_piece_count() == piece_count
                &&& e.spec_piece_byte_len() == data@.len() as int / piece_count as int
                &&& e.spec_data() == data@
            },
    {
        if data.len() == 0 {
            return Err(RLNCError::DataLengthZero);
        }
        if piece_count == 0 {
            return Err(RLNCError::PieceCountZero);
        }
        let in_data_len = data.len();
        let piece_byte_len = in_data_len / piece_count;
        proof {
            let n = in_data_len as int;
            let k = piece_count as int;
            assert((n / k) * k <= n && (n / k) * k == n - n % k && (n % k == 0 && n >= 1 ==> n / k
                >= 1) && (n % k == 0 && n >= 1 ==> k + n / k <= (n / k) * k + 1))
                by (nonlinear_arith)
                requires
                    n >= 1,
                    k >= 1,
            ;
        }
        let computed_total_data_len = piece_byte_len * piece_count;
        if computed_total_data_len != in_data_len {
            return Err(RLNCError::DataLengthMismatch);
        }
        proof {
            let n = in_data_len as int;
            let k = piece_count as int;
            assert(k * (n / k) == (n / k) * k) by (nonlinear_arith);
        }
        Ok(Encoder { data, piece_count, piece_byte_len })
    }

    /// Codes the stored data under the given coding vector, producing the
    /// full coded piece: the vector itself, then the combined payload.
    ///
    /// Fails with `CodingVectorLengthMismatch` exactly when the vector's
    /// length differs from the piece count.
    pub fn code_with_coding_vector(&self, coding_vector: &[u8]) -> (r: Result<Vec<u8>, RLNCError>)
        requires
            self.wf(),
        ensures
            r is Err <==> coding_vector@.len() != self.spec_piece_count(),
            r is Err ==> r == Err::<Vec<u8>, RLNCError>(RLNCError::CodingVectorLengthMismatch),
            r is Ok ==> r->Ok_0@ == self.spec_full_coded_piece(coding_vector@),
            r is Ok ==> r->Ok_0@.len() == self.spec_piece_count() + self.spec_piece_byte_len(),
    {
        if coding_vector.len() != self.piece_count {
            return Err(RLNCError::CodingVectorLengthMismatch);
        }
        let k = self.piece_count;
        let l = self.piece_byte_len;
        proof {
            lemma_piece_dims_fit(k as int, l as int);
        }
        let mut full_coded_piece: Vec<u8> = Vec::new();
        let mut j: usize = 0;
        while j < k
            invariant
                j <= k,
                coding_vector@.len() == k,
                full_coded_piece@.len() == j,
                forall|q: int| 0 <= q < j ==> full_coded_piece@[q] == coding_vector@[q],
            decreases k - j,
        {
            full_coded_piece.push(coding_vector[j]);
            j += 1;
        }
        let mut i: usize = 0;
        while i < l
            invariant
                i <= l,
                coding_vector@.len() == k,
                full_coded_piece@.len() == k + i,
                forall|q: int| 0 <= q < k ==> full_coded_piece@[q] == coding_vector@[q],
                forall|q: int| k <= q < k + i ==> full_coded_piece@[q] == 0u8,
            decreases l - i,
        {
            full_coded_piece.push(0);
            i += 1;
        }
        let ghost d = self.spec_data();
        let ghost cv = coding_vector@;
        let mut p: usize = 0;
        while p < k
            invariant
                p <= k,
                self.wf(),
                k == self.spec_piece_count(),
                l == self.spec_piece_byte_len(),
                d == self.spec_data(),
                cv == coding_vector@,
                cv.len() == k,
                full_coded_piece@.len() == k + l,
                forall|q: int| 0 <= q < k ==> full_coded_piece@[q] == cv[q],
                forall|q: int|
                    k <= q < k + l ==> #[trigger] full_coded_piece@[q] == lin_comb_byte(
                        d,
                        cv,
                        l as int,
                        q - k,
                        p as int,
                    ),
            decreases k - p,
        {
            let mut i2: usize = 0;
            while i2 < l
                invariant
                    p < k,
                    i2 <= l,
                    self.wf(),
                    k == self.spec_piece_count(),
                    l == self.spec_piece_byte_len(),
                    d == self.spec_data(),
                    cv == coding_vector@,
                    cv.len() == k,
                    full_coded_piece@.len() == k + l,
                    forall|q: int| 0 <= q < k ==> full_coded_piece@[q] == cv[q],
                    forall|q: int|
                        k <= q < k + i2 ==> #[trigger] full_coded_piece@[q] == lin_comb_byte(
                            d,
                            cv,
                            l as int,
                            q - k,
                            p as int + 1,
                        ),
                    forall|q: int|
                        k + i2 <= q < k + l ==> #[trigger] full_coded_piece@[q] == lin_comb_byte(
                            d,
                            cv,
                            l as int,
                            q - k,
                            p as int,
                        ),
                decreases l - i2,
            {
                proof {
                    lemma_flat_index(p as int, i2 as int, k as int, l as int);
                    crate::layout::lemma_vec_len_bound(&self.data);
                }
                let contribution = Gf256::mul_const(coding_vector[p], self.data[p * l + i2]);
                let accumulated = full_coded_piece[k + i2] ^ contribution;
                full_coded_piece[k + i2] = accumulated;
                i2 += 1;
            }
            p += 1;
        }
        proof {
            assert(full_coded_piece@ =~= self.spec_full_coded_piece(cv));
        }
        Ok(full_coded_piece)
    }

    /// Codes the stored data under a freshly sampled random coding vector
    /// of `piece_count` bytes, yielding the full coded piece for it.
    pub fn code(&self, rng: &mut rand::rngs::ThreadRng) -> (r: Vec<u8>)
        requires
            self.wf(),
        ensures
            r@.len() == self.spec_piece_count() + self.spec_piece_byte_len(),
            exists|coeffs: Seq<u8>|
                coeffs.len() == self.spec_piece_count() && r@ == self.spec_full_coded_piece(
                    coeffs,
                ),
    {
        let coding_vector = sample_random_bytes(rng, self.piece_count);
        match self.code_with_coding_vector(coding_vector.as_slice()) {
            Ok(full_coded_piece) => {
                proof {
                    assert(coding_vector@.len() == self.spec_piece_count() && full_coded_piece@
                        == self.spec_full_coded_piece(coding_vector@));
                }
                full_coded_piece
            },
            Err(_) => {
                proof {
                    assert(false);
                }
                Vec::new()
            },
        }
    }
}

/// With at least one piece of at least one byte, the full coded piece
/// length `k + l` stays within the buffer length `k * l` plus one.
pub proof fn lemma_piece_dims_fit(k: int, l: int)
    requires
        k >= 1,
        l >= 1,
    ensures
        k + l <= k * l + 1,
{
    assert(k + l <= k * l + 1) by (nonlinear_arith)
        requires
            k >= 1,
            l >= 1,
    ;
}

} // verus!
