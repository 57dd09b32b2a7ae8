//! The recoder: combines received full coded pieces into new ones without
//! decoding.
//!
//! It splits each received piece into its coding vector and its payload,
//! stacks the vectors into a flat matrix and hands the payloads to an
//! inner encoder. A fresh random recoding vector then yields an output
//! piece whose coefficient part is the recoding vector multiplied through
//! the stacked coding vectors — re-expressed in the original basis — and
//! whose payload is the inner encoder's combination of received payloads.

use vstd::prelude::*;

use crate::decoder_matrix::{
    in_row_span, is_row_combination, lemma_span_transitive, rows_comb_byte,
};
use crate::encoder::{coded_payload_byte, lin_comb_byte, Encoder};
use crate::errors::RLNCError;
use crate::gf256::Gf256;
use crate::layout::{lemma_flat_index, lemma_vec_len_bound};
use crate::random::sample_random_bytes;

verus! {

/// An RLNC recoder: the stacked coding vectors of the received pieces and
/// an encoder over their payloads.
#[derive(Clone, Debug)]
pub struct Recoder {
    coding_vectors: Vec<u8>,
    encoder: Encoder,
    num_pieces_received: usize,
    full_coded_piece_byte_len: usize,
    num_pieces_coded_together: usize,
}

impl Recoder {
    /// The received coding vectors, stacked row-major: entry
    /// `c * k + j` is coefficient `j` of received piece `c`.
    pub closed spec fn spec_coding_vectors(self) -> Seq<u8> {
        self.coding_vectors@
    }

    /// The inner encoder over the received payloads.
    pub closed spec fn spec_encoder(self) -> Encoder {
        self.encoder
    }

    /// Number of received pieces being recoded together.
    pub closed spec fn spec_num_pieces_received(self) -> usize {
        self.num_pieces_received
    }

    /// Byte length of a full coded piece.
    pub closed spec fn spec_full_coded_piece_byte_len(self) -> usize {
        self.full_coded_piece_byte_len
    }

    /// Number of original pieces coded together.
    pub closed spec fn spec_num_pieces_coded_together(self) -> usize {
        self.num_pieces_coded_together
    }

    /// Structural soundness: the inner encoder treats the `r` received
    /// payloads as its pieces, the stacked vectors hold `r * k` bytes, and
    /// the piece length splits as `full = k + payload`.
    pub open spec fn wf(self) -> bool {
        &&& self.spec_encoder().wf()
        &&& self.spec_encoder().spec_piece_count() == self.spec_num_pieces_received()
        &&& self.spec_num_pieces_coded_together() >= 1
        &&& self.spec_num_pieces_received() >= 1
        &&& self.spec_num_pieces_coded_together() < self.spec_full_coded_piece_byte_len()
        &&& self.spec_encoder().spec_piece_byte_len() == self.spec_full_coded_piece_byte_len()
            - self.spec_num_pieces_coded_together()
        &&& self.spec_coding_vectors().len() == self.spec_num_pieces_received()
            * self.spec_num_pieces_coded_together()
    }

    /// The full coded piece that recoding under `recoding_vector` yields:
    /// `k` re-expressed coefficients, then the combined payload.
    pub open spec fn spec_recoded_piece(self, recoding_vector: Seq<u8>) -> Seq<u8>
        recommends
            recoding_vector.len() == self.spec_num_pieces_received(),
    {
        let k = self.spec_num_pieces_coded_together() as int;
        let l = self.spec_encoder().spec_piece_byte_len() as int;
        Seq::new(
            self.spec_full_coded_piece_byte_len() as nat,
            |x: int|
                if x < k {
                    coded_payload_byte(self.spec_coding_vectors(), recoding_vector, k, x)
                } else {
                    coded_payload_byte(self.spec_encoder().spec_data(), recoding_vector, l, x - k)
                },
        )
    }

    /// Received full coded piece `t` as the recoder retains it: its coding
    /// vector followed by its payload.
    pub open spec fn spec_input_piece(self, t: int) -> Seq<u8>
        recommends
            0 <= t < self.spec_num_pieces_received(),
    {
        let k = self.spec_num_pieces_coded_together() as int;
        let l = self.spec_encoder().spec_piece_byte_len() as int;
        Seq::new(
            self.spec_full_coded_piece_byte_len() as nat,
            |x: int|
                if x < k {
                    self.spec_coding_vectors()[t * k + x]
                } else {
                    self.spec_encoder().spec_data()[t * l + (x - k)]
                },
        )
    }

    /// All the received full coded pieces, as rows.
    pub open spec fn spec_input_pieces(self) -> Seq<Seq<u8>> {
        Seq::new(self.spec_num_pieces_received() as nat, |t: int| self.spec_input_piece(t))
    }

    /// Number of pieces the original data got split into.
    pub fn get_original_num_pieces_coded_together(&self) -> (r: usize)
        ensures
            r == self.spec_num_pieces_coded_together(),
    {
        self.num_pieces_coded_together
    }

    /// Number of received pieces being recoded together.
    pub fn get_num_pieces_recoded_together(&self) -> (r: usize)
        ensures
            r == self.spec_num_pieces_received(),
    {
        self.num_pieces_received
    }

    /// Bytes per piece payload.
    pub fn get_piece_byte_len(&self) -> (r: usize)
        requires
            self.wf(),
        ensures
            r == self.spec_full_coded_piece_byte_len() - self.spec_num_pieces_coded_together(),
    {
        self.full_coded_piece_byte_len - self.num_pieces_coded_together
    }

    /// Byte length of a full coded piece.
    pub fn get_full_coded_piece_byte_len(&self) -> (r: usize)
        ensures
            r == self.spec_full_coded_piece_byte_len(),
    {
        self.full_coded_piece_byte_len
    }

    /// Creates a recoder from a blob of concatenated full coded pieces,
    /// each `full_coded_piece_byte_len` bytes: a coding vector of
    /// `num_pieces_coded_together` coefficients, then the payload.
    ///
    /// Fails with `NotEnoughPiecesToRecode` when the blob holds no
    /// complete piece, `PieceLengthZero` on a zero piece length,
    /// `PieceCountZero` on a zero piece count, and `PieceLengthTooShort`
    /// when a piece would leave no room for a payload. On success the
    /// blob's coding vectors are stacked and its payloads become the inner
    /// encoder's data; a trailing fragment of the blob is ignored.
    #[verifier::rlimit(50)]
    pub fn new(
        data: Vec<u8>,
        full_coded_piece_byte_len: usize,
        num_pieces_coded_together: usize,
    ) -> (r: Result<Recoder, RLNCError>)
        ensures
            ({
                let n = data@.len() as int;
                let f = full_coded_piece_byte_len as int;
                let k = num_pieces_coded_together as int;
                &&& (r is Err <==> (n == 0 || f == 0 || k == 0 || f <= k || n / f == 0))
                &&& (n == 0 ==> r == Err::<Recoder, RLNCError>(RLNCError::NotEnoughPiecesToRecode))
                &&& (n != 0 && f == 0 ==> r == Err::<Recoder, RLNCError>(RLNCError::PieceLengthZero))
                &&& (n != 0 && f != 0 && k == 0 ==> r == Err::<Recoder, RLNCError>(
                    RLNCError::PieceCountZero,
                ))
                &&& (n != 0 && f != 0 && k != 0 && f <= k ==> r == Err::<Recoder, RLNCError>(
                    RLNCError::PieceLengthTooShort,
                ))
                &&& (n != 0 && f > k && k != 0 && n / f == 0 ==> r == Err::<Recoder, RLNCError>(
                    RLNCError::NotEnoughPiecesToRecode,
                ))
                &&& (r is Ok ==> {
                    let rc = r->Ok_0;
                    let rr = n / f;
                    let l = f - k;
                    &&& rc.wf()
                    &&& rc.spec_num_pieces_coded_together() == num_pieces_coded_together
                    &&& rc.spec_full_coded_piece_byte_len() == full_coded_piece_byte_len
                    &&& rc.spec_num_pieces_received() == rr
                    &&& forall|x: int|
                        0 <= x < rr * k ==> #[trigger] rc.spec_coding_vectors()[x] == data@[(x / k)
                            * f + (x % k)]
                    &&& forall|x: int|
                        0 <= x < rr * l ==> #[trigger] rc.spec_encoder().spec_data()[x] == data@[(x
                            / l) * f + k + (x % l)]
                })
            }),
    {
        if data.len() == 0 {
            return Err(RLNCError::NotEnoughPiecesToRecode);
        }
        if full_coded_piece_byte_len == 0 {
            return Err(RLNCError::PieceLengthZero);
        }
        if num_pieces_coded_together == 0 {
            return Err(RLNCError::PieceCountZero);
        }
        if full_coded_piece_byte_len <= num_pieces_coded_together {
            return Err(RLNCError::PieceLengthTooShort);
        }
        let piece_byte_len = full_coded_piece_byte_len - num_pieces_coded_together;
        let num_pieces_received = data.len() / full_coded_piece_byte_len;
        if num_pieces_received == 0 {
            return Err(RLNCError::NotEnoughPiecesToRecode);
        }
        let k = num_pieces_coded_together;
        let f = full_coded_piece_byte_len;
        let l = piece_byte_len;
        let rr = num_pieces_received;
        proof {
            lemma_vec_len_bound(&data);
            let ni = data@.len() as int;
            let fi = f as int;
            assert((ni / fi) * fi <= ni) by (nonlinear_arith)
                requires
                    ni >= 1,
                    fi >= 1,
            ;
        }
        let mut coding_vectors: Vec<u8> = Vec::new();
        let mut c: usize = 0;
        while c < rr
            invariant
                c <= rr,
                rr as int * f as int <= data@.len(),
                k < f,
                l == f - k,
                rr >= 1,
                k >= 1,
                coding_vectors@.len() == c * k,
                forall|x: int|
                    0 <= x < c * k ==> #[trigger] coding_vectors@[x] == data@[(x / (k as int)) * (f
                        as int) + (x % (k as int))],
            decreases rr - c,
        {
            let mut j: usize = 0;
            while j < k
                invariant
                    c < rr,
                    j <= k,
                    rr as int * f as int <= data@.len(),
                    k < f,
                    l == f - k,
                    rr >= 1,
                    k >= 1,
                    coding_vectors@.len() == c * k + j,
                    forall|x: int|
                        0 <= x < c * k + j ==> #[trigger] coding_vectors@[x] == data@[(x / (
                        k as int)) * (f as int) + (x % (k as int))],
                decreases k - j,
            {
                proof {
                    lemma_flat_index(c as int, j as int, rr as int, f as int);
                    lemma_flat_index(c as int, j as int, rr as int, k as int);
                    lemma_vec_len_bound(&data);
                    vstd::arithmetic::div_mod::lemma_fundamental_div_mod_converse(
                        c as int * k as int + j as int,
                        k as int,
                        c as int,
                        j as int,
                    );
                }
                coding_vectors.push(data[c * f + j]);
                j += 1;
            }
            proof {
                crate::layout::lemma_row_extend(c as int, k as int);
            }
            c += 1;
        }
        let mut coded_pieces: Vec<u8> = Vec::new();
        let mut c: usize = 0;
        while c < rr
            invariant
                c <= rr,
                rr as int * f as int <= data@.len(),
                k < f,
                l == f - k,
                rr >= 1,
                k >= 1,
                coded_pieces@.len() == c * l,
                forall|x: int|
                    0 <= x < c * l ==> #[trigger] coded_pieces@[x] == data@[(x / (l as int)) * (f
                        as int) + (k as int) + (x % (l as int))],
            decreases rr - c,
        {
            let mut i: usize = 0;
            while i < l
                invariant
                    c < rr,
                    i <= l,
                    rr as int * f as int <= data@.len(),
                    k < f,
                    l == f - k,
                    rr >= 1,
                    k >= 1,
                    coded_pieces@.len() == c * l + i,
                    forall|x: int|
                        0 <= x < c * l + i ==> #[trigger] coded_pieces@[x] == data@[(x / (
                        l as int)) * (f as int) + (k as int) + (x % (l as int))],
                decreases l - i,
            {
                proof {
                    lemma_flat_index(c as int, (k + i) as int, rr as int, f as int);
                    lemma_flat_index(c as int, i as int, rr as int, l as int);
                    lemma_vec_len_bound(&data);
                    vstd::arithmetic::div_mod::lemma_fundamental_div_mod_converse(
                        c as int * l as int + i as int,
                        l as int,
                        c as int,
                        i as int,
                    );
                }
                coded_pieces.push(data[c * f + k + i]);
                i += 1;
            }
            proof {
                crate::layout::lemma_row_extend(c as int, l as int);
            }
            c += 1;
        }
        proof {
            lemma_vec_len_bound(&data);
            let ni = data@.len() as int;
            let fi = f as int;
            let rri = rr as int;
            let li = l as int;
            assert(rri * fi <= ni) by (nonlinear_arith)
                requires
                    rri == ni / fi,
                    ni >= 1,
                    fi >= 1,
            ;
            assert(1 <= rri * li && rri * li < rri * fi) by (nonlinear_arith)
                requires
                    rri >= 1,
                    li >= 1,
                    li < fi,
            ;
            vstd::arithmetic::div_mod::lemma_mod_multiples_basic(li, rri);
            vstd::arithmetic::div_mod::lemma_div_multiples_vanish(li, rri);
        }
        let encoder = match Encoder::without_padding(coded_pieces, num_pieces_received) {
            Ok(encoder) => encoder,
            Err(_) => {
                proof {
                    assert(false);
                }
                return Err(RLNCError::NotEnoughPiecesToRecode);
            },
        };
        Ok(
            Recoder {
                coding_vectors,
                encoder,
                num_pieces_received,
                full_coded_piece_byte_len,
                num_pieces_coded_together,
            },
        )
    }

    /// Recodes under the given recoding vector, one coefficient per
    /// received piece: the output's coefficient part multiplies the vector
    /// through the stacked coding vectors, and its payload is the inner
    /// encoder's combination of the received payloads.
    ///
    /// Fails with `CodingVectorLengthMismatch` exactly when the vector's
    /// length differs from the number of received pieces.
    pub fn recode_with_recoding_vector(&self, recoding_vector: &[u8]) -> (r: Result<
        Vec<u8>,
        RLNCError,
    >)
        requires
            self.wf(),
        ensures
            r is Err <==> recoding_vector@.len() != self.spec_num_pieces_received(),
            r is Err ==> r == Err::<Vec<u8>, RLNCError>(RLNCError::CodingVectorLengthMismatch),
            r is Ok ==> r->Ok_0@ == self.spec_recoded_piece(recoding_vector@),
            r is Ok ==> r->Ok_0@.len() == self.spec_full_coded_piece_byte_len(),
    {
        if recoding_vector.len() != self.num_pieces_received {
            return Err(RLNCError::CodingVectorLengthMismatch);
        }
        let k = self.num_pieces_coded_together;
        let rr = self.num_pieces_received;
        let ghost cv = self.spec_coding_vectors();
        let ghost rv = recoding_vector@;
        let mut full_recoded_piece: Vec<u8> = Vec::new();
        let mut j: usize = 0;
        while j < k
            invariant
                j <= k,
                self.wf(),
                k == self.spec_num_pieces_coded_together(),
                rr == self.spec_num_pieces_received(),
                cv == self.spec_coding_vectors(),
                rv == recoding_vector@,
                rv.len() == rr,
                full_recoded_piece@.len() == j,
                forall|j2: int|
                    0 <= j2 < j ==> full_recoded_piece@[j2] == coded_payload_byte(
                        cv,
                        rv,
                        k as int,
                        j2,
                    ),
            decreases k - j,
        {
            let mut acc: u8 = 0;
            let mut t: usize = 0;
            while t < rr
                invariant
                    t <= rr,
                    j < k,
                    self.wf(),
                    k == self.spec_num_pieces_coded_together(),
                    rr == self.spec_num_pieces_received(),
                    cv == self.spec_coding_vectors(),
                    rv == recoding_vector@,
                    rv.len() == rr,
                    acc == crate::encoder::lin_comb_byte(cv, rv, k as int, j as int, t as int),
                decreases rr - t,
            {
                proof {
                    lemma_flat_index(t as int, j as int, rr as int, k as int);
                    lemma_vec_len_bound(&self.coding_vectors);
                }
                acc = acc ^ Gf256::mul_const(recoding_vector[t], self.coding_vectors[t * k + j]);
                t += 1;
            }
            full_recoded_piece.push(acc);
            j += 1;
        }
        let coded = match self.encoder.code_with_coding_vector(recoding_vector) {
            Ok(coded) => coded,
            Err(_) => {
                proof {
                    assert(false);
                }
                return Err(RLNCError::CodingVectorLengthMismatch);
            },
        };
        let l = self.encoder.get_piece_byte_len();
        let mut i: usize = 0;
        while i < l
            invariant
                i <= l,
                self.wf(),
                k == self.spec_num_pieces_coded_together(),
                rr == self.spec_num_pieces_received(),
                cv == self.spec_coding_vectors(),
                rv == recoding_vector@,
                rv.len() == rr,
                l == self.spec_encoder().spec_piece_byte_len(),
                coded@ == self.spec_encoder().spec_full_coded_piece(rv),
                coded@.len() == rr + l,
                full_recoded_piece@.len() == k + i,
                forall|j2: int|
                    0 <= j2 < k ==> full_recoded_piece@[j2] == coded_payload_byte(
                        cv,
                        rv,
                        k as int,
                        j2,
                    ),
                forall|i2: int|
                    0 <= i2 < i ==> full_recoded_piece@[k as int + i2] == coded_payload_byte(
                        self.spec_encoder().spec_data(),
                        rv,
                        l as int,
                        i2,
                    ),
            decreases l - i,
        {
            full_recoded_piece.push(coded[rr + i]);
            i += 1;
        }
        proof {
            assert(full_recoded_piece@ =~= self.spec_recoded_piece(rv));
        }
        Ok(full_recoded_piece)
    }

    /// Recodes under a freshly sampled random recoding vector, one byte
    /// per received piece, yielding the full recoded piece for it.
    pub fn recode(&self, rng: &mut rand::rngs::ThreadRng) -> (r: Vec<u8>)
        requires
            self.wf(),
        ensures
            r@.len() == self.spec_full_coded_piece_byte_len(),
            exists|recoding_vector: Seq<u8>|
                recoding_vector.len() == self.spec_num_pieces_received() && r@
                    == self.spec_recoded_piece(recoding_vector),
    {
        let recoding_vector = sample_random_bytes(rng, self.num_pieces_received);
        match self.recode_with_recoding_vector(recoding_vector.as_slice()) {
            Ok(full_recoded_piece) => {
                proof {
                    assert(recoding_vector@.len() == self.spec_num_pieces_received()
                        && full_recoded_piece@ == self.spec_recoded_piece(recoding_vector@));
                }
                full_recoded_piece
            },
            Err(_) => {
                proof {
                    assert(false);
                }
                Vec::new()
            },
        }
    }
}

/// The flat combination over a stacked buffer agrees with the row-level
/// combination over the received pieces, column by column: on coefficient
/// columns it reads the stacked coding vectors, on payload columns the
/// inner encoder's data.
proof fn lemma_flat_comb_as_rows_comb(rc: Recoder, rv: Seq<u8>, x: int, p: int)
    requires
        rc.wf(),
        rv.len() == rc.spec_num_pieces_received(),
        0 <= x < rc.spec_full_coded_piece_byte_len(),
        0 <= p <= rc.spec_num_pieces_received(),
    ensures
        x < rc.spec_num_pieces_coded_together() ==> lin_comb_byte(
            rc.spec_coding_vectors(),
            rv,
            rc.spec_num_pieces_coded_together() as int,
            x,
            p,
        ) == rows_comb_byte(rc.spec_input_pieces(), rv, x, p),
        x >= rc.spec_num_pieces_coded_together() ==> lin_comb_byte(
            rc.spec_encoder().spec_data(),
            rv,
            rc.spec_encoder().spec_piece_byte_len() as int,
            x - rc.spec_num_pieces_coded_together(),
            p,
        ) == rows_comb_byte(rc.spec_input_pieces(), rv, x, p),
    decreases p,
{
    if p > 0 {
        lemma_flat_comb_as_rows_comb(rc, rv, x, p - 1);
        assert(rc.spec_input_pieces()[p - 1] == rc.spec_input_piece(p - 1));
        assert(rc.spec_input_piece(p - 1)[x] == if x < rc.spec_num_pieces_coded_together() {
            rc.spec_coding_vectors()[(p - 1) * (rc.spec_num_pieces_coded_together() as int) + x]
        } else {
            rc.spec_encoder().spec_data()[(p - 1) * (rc.spec_encoder().spec_piece_byte_len()
                as int) + (x - rc.spec_num_pieces_coded_together())]
        });
    }
}

/// A recoded full coded piece is linearly dependent on the pieces the
/// recoder was built from: it is exactly their GF(2^8) combination under
/// the recoding vector, so it lies in their row span.
pub proof fn lemma_recoded_piece_in_input_span(rc: Recoder, recoding_vector: Seq<u8>)
    requires
        rc.wf(),
        recoding_vector.len() == rc.spec_num_pieces_received(),
    ensures
        in_row_span(
            rc.spec_recoded_piece(recoding_vector),
            rc.spec_input_pieces(),
            rc.spec_full_coded_piece_byte_len() as int,
        ),
{
    let out = rc.spec_recoded_piece(recoding_vector);
    let inputs = rc.spec_input_pieces();
    let f = rc.spec_full_coded_piece_byte_len() as int;
    let rr = rc.spec_num_pieces_received() as int;
    assert forall|x: int| 0 <= x < f implies out[x] == rows_comb_byte(
        inputs,
        recoding_vector,
        x,
        rr,
    ) by {
        lemma_flat_comb_as_rows_comb(rc, recoding_vector, x, rr);
    }
    assert(is_row_combination(out, inputs, f, recoding_vector));
}

/// Recoding cannot create new information: when every piece a recoder was
/// built from lies in the row span of some set of full coded pieces — for
/// instance the pieces a decoder has already consumed — then every
/// recoded piece lies in that same span. Fed back to such a decoder, a
/// recoded piece brings nothing outside what it already holds.
pub proof fn lemma_recoding_stays_in_span(
    rc: Recoder,
    recoding_vector: Seq<u8>,
    consumed: Seq<Seq<u8>>,
)
    requires
        rc.wf(),
        recoding_vector.len() == rc.spec_num_pieces_received(),
        forall|t: int|
            0 <= t < rc.spec_num_pieces_received() ==> in_row_span(
                #[trigger] rc.spec_input_piece(t),
                consumed,
                rc.spec_full_coded_piece_byte_len() as int,
            ),
    ensures
        in_row_span(
            rc.spec_recoded_piece(recoding_vector),
            consumed,
            rc.spec_full_coded_piece_byte_len() as int,
        ),
{
    let f = rc.spec_full_coded_piece_byte_len() as int;
    lemma_recoded_piece_in_input_span(rc, recoding_vector);
    assert forall|p: int| 0 <= p < rc.spec_input_pieces().len() implies in_row_span(
        #[trigger] rc.spec_input_pieces()[p],
        consumed,
        f,
    ) by {
        assert(rc.spec_input_pieces()[p] == rc.spec_input_piece(p));
    }
    lemma_span_transitive(
        rc.spec_recoded_piece(recoding_vector),
        rc.spec_input_pieces(),
        consumed,
        f,
    );
}

} // verus!
