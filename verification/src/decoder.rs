//! The decoder: consumes full coded pieces, tracks how many were useful,
//! and recovers the original bytes once its matrix reaches full rank.
//!
//! Usefulness is an independence question: a piece helps exactly when its
//! coding vector lies outside the coefficient row span of the matrix, and
//! each useful piece raises the rank by one. Once the rank equals the
//! required piece count, the payload halves of the matrix rows, read in
//! order, are the padded original data; the last boundary marker says
//! where the original bytes end.

use vstd::prelude::*;

use crate::decoder_matrix::{
    in_row_span, is_row_combination, lemma_span_extend, lemma_span_last, lemma_span_transitive,
    lemma_span_transitive_prefix, DecoderMatrix,
};
use crate::encoder::BOUNDARY_MARKER;
use crate::errors::RLNCError;
use crate::layout::{lemma_flat_index, lemma_vec_len_bound};

verus! {

/// The payload halves of the first `upto` matrix rows, concatenated in
/// row order.
pub open spec fn payload_stream(m: DecoderMatrix, upto: int) -> Seq<u8>
    decreases upto,
{
    if upto <= 0 {
        Seq::empty()
    } else {
        payload_stream(m, upto - 1) + m.row(upto - 1).skip(m.spec_coeff_cols() as int)
    }
}

/// The concatenated payloads of `upto` rows hold `upto` times the
/// payload width.
pub proof fn lemma_payload_stream_len(m: DecoderMatrix, upto: int)
    requires
        m.wf(),
        0 <= upto <= m.spec_rows(),
    ensures
        payload_stream(m, upto).len() == upto * (m.spec_cols() - m.spec_coeff_cols()),
    decreases upto,
{
    let width = m.spec_cols() - m.spec_coeff_cols();
    if upto > 0 {
        lemma_payload_stream_len(m, upto - 1);
        lemma_flat_index(upto - 1, 0, m.spec_rows() as int, m.spec_cols() as int);
        assert((upto - 1) * width + width == upto * width) by (nonlinear_arith);
    } else {
        assert(upto * width == 0) by (nonlinear_arith)
            requires
                upto == 0,
        ;
    }
}

/// Index of the last occurrence of `b` in `s`, or `-1` when `s` does not
/// contain it.
pub open spec fn last_index_of(s: Seq<u8>, b: u8) -> int
    decreases s.len(),
{
    if s.len() == 0 {
        -1
    } else if s.last() == b {
        s.len() - 1
    } else {
        last_index_of(s.drop_last(), b)
    }
}

/// A position that holds `b`, with nothing but other bytes after it, is
/// the last occurrence.
proof fn lemma_last_index_at(s: Seq<u8>, b: u8, m: int)
    requires
        0 <= m < s.len(),
        s[m] == b,
        forall|j: int| m < j < s.len() ==> s[j] != b,
    ensures
        last_index_of(s, b) == m,
    decreases s.len(),
{
    if m == s.len() - 1 {
    } else {
        lemma_last_index_at(s.drop_last(), b, m);
    }
}

/// When no position holds `b`, the last occurrence is `-1`.
proof fn lemma_last_index_absent(s: Seq<u8>, b: u8)
    requires
        forall|j: int| 0 <= j < s.len() ==> s[j] != b,
    ensures
        last_index_of(s, b) == -1,
    decreases s.len(),
{
    if s.len() > 0 {
        lemma_last_index_absent(s.drop_last(), b);
    }
}

/// Usefulness accounting, holding after any sequence of calls on a
/// decoder: the useful count always equals the matrix rank, never exceeds
/// the received count, and never exceeds the required piece count.
pub proof fn lemma_counter_laws(d: Decoder)
    requires
        d.wf(),
    ensures
        d.spec_useful_piece_count() == d.spec_matrix().spec_rows(),
        d.spec_useful_piece_count() <= d.spec_received_piece_count(),
        d.spec_useful_piece_count() <= d.spec_required_piece_count(),
{
}

/// Provenance of the decoder's equations: every row the matrix holds is a
/// GF(2^8) linear combination of the full coded pieces accepted so far. A
/// piece that is itself a combination of already-accepted pieces can
/// therefore never take the matrix beyond their span.
pub proof fn lemma_rows_lie_in_received_span(d: Decoder)
    requires
        d.wf(),
    ensures
        forall|r: int|
            0 <= r < d.spec_matrix().spec_rows() ==> in_row_span(
                #[trigger] d.spec_matrix().row(r),
                d.spec_received_pieces(),
                d.spec_matrix().spec_cols() as int,
            ),
{
}

/// Dependent pieces can never be useful: a full coded piece that is a
/// GF(2^8) combination of the pieces this decoder has already consumed —
/// for instance any output of a recoder built only from consumed pieces —
/// has its coding vector inside the matrix's coefficient row span, and by
/// `decode`'s contract such a piece is answered `PieceNotUseful`, never
/// `Ok`.
pub proof fn lemma_dependent_piece_in_matrix_span(d: Decoder, piece: Seq<u8>)
    requires
        d.wf(),
        in_row_span(piece, d.spec_received_pieces(), d.spec_matrix().spec_cols() as int),
    ensures
        in_row_span(
            piece.take(d.spec_required_piece_count() as int),
            d.spec_matrix().mat_view(),
            d.spec_required_piece_count() as int,
        ),
{
    let ki = d.spec_required_piece_count() as int;
    let w = d.spec_matrix().spec_cols() as int;
    let cs = choose|cs: Seq<u8>| is_row_combination(piece, d.spec_received_pieces(), w, cs);
    assert(is_row_combination(piece.take(ki), d.spec_received_pieces(), ki, cs));
    assert forall|t: int| 0 <= t < d.spec_received_pieces().len() implies #[trigger] d.spec_received_pieces()[t].len()
        >= ki by {}
    lemma_span_transitive_prefix(
        piece.take(ki),
        d.spec_received_pieces(),
        d.spec_matrix().mat_view(),
        ki,
    );
}

/// An RLNC decoder: the elimination matrix plus the session's dimensions
/// and the received / useful piece counters.
#[derive(Clone)]
pub struct Decoder {
    matrix: DecoderMatrix,
    piece_byte_len: usize,
    required_piece_count: usize,
    received_piece_count: usize,
    useful_piece_count: usize,
    received_pieces: Ghost<Seq<Seq<u8>>>,
}

impl Decoder {
    /// The elimination matrix.
    pub closed spec fn spec_matrix(self) -> DecoderMatrix {
        self.matrix
    }

    /// Bytes per piece payload.
    pub closed spec fn spec_piece_byte_len(self) -> usize {
        self.piece_byte_len
    }

    /// Number of linearly independent pieces needed to decode.
    pub closed spec fn spec_required_piece_count(self) -> usize {
        self.required_piece_count
    }

    /// Total pieces accepted for elimination so far.
    pub closed spec fn spec_received_piece_count(self) -> usize {
        self.received_piece_count
    }

    /// Linearly independent pieces seen so far: the matrix rank.
    pub closed spec fn spec_useful_piece_count(self) -> usize {
        self.useful_piece_count
    }

    /// The full coded pieces accepted for elimination so far, in arrival
    /// order.
    pub closed spec fn spec_received_pieces(self) -> Seq<Seq<u8>> {
        self.received_pieces@
    }

    /// Structural soundness, and the counter laws that every sequence of
    /// calls preserves: the useful count is the matrix rank, never exceeds
    /// the received count, and never exceeds the required count.
    pub open spec fn wf(self) -> bool {
        &&& self.spec_matrix().wf()
        &&& self.spec_matrix().spec_coeff_cols() == self.spec_required_piece_count()
        &&& self.spec_matrix().spec_cols() == self.spec_required_piece_count()
            + self.spec_piece_byte_len()
        &&& self.spec_required_piece_count() >= 1
        &&& self.spec_piece_byte_len() >= 1
        &&& self.spec_required_piece_count() * (self.spec_required_piece_count()
            + self.spec_piece_byte_len()) <= usize::MAX
        &&& self.spec_matrix().is_rref()
        &&& self.spec_useful_piece_count() == self.spec_matrix().spec_rows()
        &&& self.spec_useful_piece_count() <= self.spec_required_piece_count()
        &&& self.spec_useful_piece_count() <= self.spec_received_piece_count()
        &&& forall|r: int|
            0 <= r < self.spec_matrix().spec_rows() ==> in_row_span(
                #[trigger] self.spec_matrix().row(r),
                self.spec_received_pieces(),
                self.spec_matrix().spec_cols() as int,
            )
        &&& forall|i: int|
            0 <= i < self.spec_received_pieces().len()
                ==> #[trigger] self.spec_received_pieces()[i].len()
                == self.spec_matrix().spec_cols()
        &&& forall|i: int|
            0 <= i < self.spec_received_pieces().len() ==> in_row_span(
                #[trigger] self.spec_received_pieces()[i].take(
                    self.spec_required_piece_count() as int,
                ),
                self.spec_matrix().mat_view(),
                self.spec_required_piece_count() as int,
            )
    }

    /// Number of pieces the original data got split into.
    pub fn get_num_pieces_coded_together(&self) -> (r: usize)
        ensures
            r == self.spec_required_piece_count(),
    {
        self.required_piece_count
    }

    /// Bytes per piece payload.
    pub fn get_piece_byte_len(&self) -> (r: usize)
        ensures
            r == self.spec_piece_byte_len(),
    {
        self.piece_byte_len
    }

    /// Byte length of a full coded piece: coefficients plus payload.
    pub fn get_full_coded_piece_byte_len(&self) -> (r: usize)
        requires
            self.wf(),
        ensures
            r == self.spec_required_piece_count() + self.spec_piece_byte_len(),
    {
        proof {
            let k = self.spec_required_piece_count() as int;
            let l = self.spec_piece_byte_len() as int;
            assert(k + l <= k * (k + l)) by (nonlinear_arith)
                requires
                    k >= 1,
                    l >= 1,
            ;
        }
        self.required_piece_count + self.piece_byte_len
    }

    /// Total number of pieces received so far.
    pub fn get_received_piece_count(&self) -> (r: usize)
        ensures
            r == self.spec_received_piece_count(),
    {
        self.received_piece_count
    }

    /// Number of useful — linearly independent — pieces received so far.
    pub fn get_useful_piece_count(&self) -> (r: usize)
        ensures
            r == self.spec_useful_piece_count(),
    {
        self.useful_piece_count
    }

    /// Number of useful pieces still missing before decoding can finish.
    pub fn get_remaining_piece_count(&self) -> (r: usize)
        requires
            self.wf(),
        ensures
            r == self.spec_required_piece_count() - self.spec_useful_piece_count(),
    {
        self.required_piece_count - self.useful_piece_count
    }

    /// Creates a decoder for pieces of `piece_byte_len` payload bytes,
    /// `required_piece_count` of which must be gathered.
    ///
    /// Fails with `PieceLengthZero` on a zero piece length and with
    /// `PieceCountZero` on a zero piece count; otherwise both counters
    /// start at zero and the matrix is empty.
    pub fn new(piece_byte_len: usize, required_piece_count: usize) -> (r: Result<
        Decoder,
        RLNCError,
    >)
        requires
            required_piece_count * (required_piece_count + piece_byte_len) <= usize::MAX,
        ensures
            r is Err <==> (piece_byte_len == 0 || required_piece_count == 0),
            piece_byte_len == 0 ==> r == Err::<Decoder, RLNCError>(RLNCError::PieceLengthZero),
            piece_byte_len != 0 && required_piece_count == 0 ==> r == Err::<Decoder, RLNCError>(
                RLNCError::PieceCountZero,
            ),
            r is Ok ==> {
                let d = r->Ok_0;
                &&& d.wf()
                &&& d.spec_piece_byte_len() == piece_byte_len
                &&& d.spec_required_piece_count() == required_piece_count
                &&& d.spec_received_piece_count() == 0
                &&& d.spec_useful_piece_count() == 0
            },
    {
        if piece_byte_len == 0 {
            return Err(RLNCError::PieceLengthZero);
        }
        if required_piece_count == 0 {
            return Err(RLNCError::PieceCountZero);
        }
        proof {
            let k = required_piece_count as int;
            let l = piece_byte_len as int;
            assert(k + l <= k * (k + l)) by (nonlinear_arith)
                requires
                    k >= 1,
                    l >= 1,
            ;
        }
        let matrix = DecoderMatrix::new(required_piece_count, piece_byte_len);
        Ok(
            Decoder {
                matrix,
                piece_byte_len,
                required_piece_count,
                received_piece_count: 0,
                useful_piece_count: 0,
                received_pieces: Ghost(Seq::empty()),
            },
        )
    }

    /// True exactly when enough linearly independent pieces have arrived:
    /// the useful count equals the required count.
    pub fn is_already_decoded(&self) -> (r: bool)
        requires
            self.wf(),
        ensures
            r <==> self.spec_useful_piece_count() == self.spec_required_piece_count(),
    {
        self.matrix.rank() == self.required_piece_count
    }

    /// Consumes one full coded piece.
    ///
    /// Fails with `ReceivedAllPieces` when decoding is already complete and
    /// with `InvalidPieceLength` on a piece of the wrong length; neither
    /// touches the decoder's state. Otherwise the received count grows by
    /// one and the call returns `Ok` exactly when the piece's coding
    /// vector is linearly independent of the rows already held — the
    /// piece then joins the matrix and the useful count rises by one;
    /// a dependent piece is answered `PieceNotUseful` and the matrix is
    /// left as it was.
    pub fn decode(&mut self, full_coded_piece: &[u8]) -> (r: Result<(), RLNCError>)
        requires
            old(self).wf(),
            old(self).spec_received_piece_count() < usize::MAX,
        ensures
            final(self).wf(),
            final(self).spec_required_piece_count() == old(self).spec_required_piece_count(),
            final(self).spec_piece_byte_len() == old(self).spec_piece_byte_len(),
            old(self).spec_useful_piece_count() == old(self).spec_required_piece_count() ==> r
                == Err::<(), RLNCError>(RLNCError::ReceivedAllPieces) && *final(self) == *old(self),
            old(self).spec_useful_piece_count() != old(self).spec_required_piece_count()
                && full_coded_piece@.len() != old(self).spec_required_piece_count() + old(
                self,
            ).spec_piece_byte_len() ==> r == Err::<(), RLNCError>(RLNCError::InvalidPieceLength)
                && *final(self) == *old(self),
            old(self).spec_useful_piece_count() != old(self).spec_required_piece_count()
                && full_coded_piece@.len() == old(self).spec_required_piece_count() + old(
                self,
            ).spec_piece_byte_len() ==> {
                &&& final(self).spec_received_piece_count() == old(
                    self,
                ).spec_received_piece_count() + 1
                &&& final(self).spec_received_pieces() == old(self).spec_received_pieces().push(
                    full_coded_piece@,
                )
                &&& (r is Ok <==> !in_row_span(
                    full_coded_piece@.take(old(self).spec_required_piece_count() as int),
                    old(self).spec_matrix().mat_view(),
                    old(self).spec_required_piece_count() as int,
                ))
                &&& (r is Ok ==> final(self).spec_useful_piece_count()
                    == old(self).spec_useful_piece_count() + 1)
                &&& (r is Err ==> r == Err::<(), RLNCError>(RLNCError::PieceNotUseful)
                    && final(self).spec_useful_piece_count()
                    == old(self).spec_useful_piece_count()
                    && final(self).spec_matrix() == old(self).spec_matrix())
            },
    {
        if self.is_already_decoded() {
            return Err(RLNCError::ReceivedAllPieces);
        }
        if full_coded_piece.len() != self.get_full_coded_piece_byte_len() {
            return Err(RLNCError::InvalidPieceLength);
        }
        proof {
            let k = old(self).spec_required_piece_count() as int;
            let l = old(self).spec_piece_byte_len() as int;
            let rows = old(self).spec_matrix().spec_rows() as int;
            assert(rows * (k + l) + (k + l) <= k * (k + l)) by (nonlinear_arith)
                requires
                    0 <= rows < k,
                    l >= 1,
            ;
        }
        let ghost history_before = self.received_pieces@;
        let ghost history = history_before.push(full_coded_piece@);
        let ghost w = self.spec_matrix().spec_cols() as int;
        let ghost ki = self.spec_required_piece_count() as int;
        let ghost m_before = self.spec_matrix();
        proof {
            self.received_pieces@ = history;
            assert forall|r: int| 0 <= r < m_before.spec_rows() implies in_row_span(
                #[trigger] m_before.row(r),
                history,
                w,
            ) by {
                lemma_span_extend(m_before.row(r), history_before, w, full_coded_piece@);
            }
            lemma_span_last(history_before, w, full_coded_piece@);
        }
        let useful = self.matrix.integrate(full_coded_piece, Ghost(history));
        let ghost m_after = self.spec_matrix();
        proof {
            assert(forall|r: int|
                0 <= r < m_after.spec_rows() ==> in_row_span(
                    #[trigger] m_after.row(r),
                    history,
                    w,
                ));
            assert(forall|r: int|
                0 <= r < m_before.spec_rows() ==> in_row_span(
                    #[trigger] m_before.row(r).take(ki),
                    m_after.mat_view(),
                    ki,
                ));
            assert(in_row_span(full_coded_piece@.take(ki), m_after.mat_view(), ki));
            assert(m_after.wf());
            assert(m_after.is_rref());
            assert(useful ==> m_after.spec_rows() == m_before.spec_rows() + 1);
            assert(!useful ==> m_after == m_before);
            assert forall|i: int| 0 <= i < history.len() implies #[trigger] history[i].len()
                == self.spec_matrix().spec_cols() by {
                if i < history_before.len() {
                    assert(history[i] == old(self).spec_received_pieces()[i]);
                } else {
                    assert(history[i] == full_coded_piece@);
                }
            }
        }
        self.received_piece_count += 1;
        if useful {
            self.useful_piece_count += 1;
            proof {
                assert(self.spec_matrix() == m_after);
                assert forall|r: int| 0 <= r < self.spec_matrix().spec_rows() implies in_row_span(
                    #[trigger] self.spec_matrix().row(r),
                    self.spec_received_pieces(),
                    w,
                ) by {
                    assert(in_row_span(m_after.row(r), history, w));
                }
                assert forall|i: int| 0 <= i < history.len() implies in_row_span(
                    #[trigger] history[i].take(ki),
                    self.spec_matrix().mat_view(),
                    ki,
                ) by {
                    if i < history_before.len() {
                        assert(history[i] == history_before[i]);
                        assert(history_before[i] == old(self).spec_received_pieces()[i]);
                        assert(in_row_span(
                            old(self).spec_received_pieces()[i].take(ki),
                            m_before.mat_view(),
                            ki,
                        ));
                        assert forall|t: int|
                            0 <= t < m_before.mat_view().len() implies #[trigger] m_before.mat_view()[t].len()
                            >= ki by {
                            crate::layout::lemma_flat_index(
                                t,
                                0,
                                m_before.spec_rows() as int,
                                w,
                            );
                        }
                        assert forall|t: int| 0 <= t < m_before.mat_view().len() implies in_row_span(
                            #[trigger] m_before.mat_view()[t].take(ki),
                            m_after.mat_view(),
                            ki,
                        ) by {
                            assert(m_before.mat_view()[t] == m_before.row(t));
                            assert(in_row_span(m_before.row(t).take(ki), m_after.mat_view(), ki));
                        }
                        lemma_span_transitive_prefix(
                            history_before[i].take(ki),
                            m_before.mat_view(),
                            m_after.mat_view(),
                            ki,
                        );
                    } else {
                        assert(history[i] == full_coded_piece@);
                        assert(in_row_span(full_coded_piece@.take(ki), m_after.mat_view(), ki));
                    }
                }
            }
            Ok(())
        } else {
            proof {
                assert(self.spec_matrix() == m_before);
                assert forall|r: int| 0 <= r < self.spec_matrix().spec_rows() implies in_row_span(
                    #[trigger] self.spec_matrix().row(r),
                    self.spec_received_pieces(),
                    w,
                ) by {
                    assert(in_row_span(m_after.row(r), history, w));
                }
                assert forall|i: int| 0 <= i < history.len() implies in_row_span(
                    #[trigger] history[i].take(ki),
                    self.spec_matrix().mat_view(),
                    ki,
                ) by {
                    if i < history_before.len() {
                        assert(history[i] == history_before[i]);
                        assert(history_before[i] == old(self).spec_received_pieces()[i]);
                        assert(in_row_span(
                            old(self).spec_received_pieces()[i].take(ki),
                            m_before.mat_view(),
                            ki,
                        ));
                    } else {
                        assert(history[i] == full_coded_piece@);
                        assert(in_row_span(
                            full_coded_piece@.take(ki),
                            m_before.mat_view(),
                            ki,
                        ));
                    }
                }
            }
            Err(RLNCError::PieceNotUseful)
        }
    }

    /// Recovers the original bytes, consuming the decoder.
    ///
    /// Fails with `NotAllPiecesReceivedYet` before the rank reaches the
    /// required count. Otherwise the payload halves of the matrix rows are
    /// concatenated in row order; the concatenation must hold a boundary
    /// marker past its first byte with only zeros after the last one, else
    /// it is rejected with `InvalidDecodedDataFormat`; what precedes that
    /// marker is the decoded data.
    #[verifier::rlimit(100)]
    pub fn get_decoded_data(self) -> (r: Result<Vec<u8>, RLNCError>)
        requires
            self.wf(),
        ensures
            self.spec_useful_piece_count() != self.spec_required_piece_count() ==> r == Err::<
                Vec<u8>,
                RLNCError,
            >(RLNCError::NotAllPiecesReceivedYet),
            self.spec_useful_piece_count() == self.spec_required_piece_count() ==> {
                let stream = payload_stream(
                    self.spec_matrix(),
                    self.spec_required_piece_count() as int,
                );
                let marker = last_index_of(stream, BOUNDARY_MARKER);
                let valid = marker >= 1 && (forall|j: int|
                    marker < j < stream.len() ==> stream[j] == 0);
                &&& valid ==> r is Ok && r->Ok_0@ == stream.subrange(0, marker)
                &&& !valid ==> r == Err::<Vec<u8>, RLNCError>(RLNCError::InvalidDecodedDataFormat)
            },
    {
        if !self.is_already_decoded() {
            return Err(RLNCError::NotAllPiecesReceivedYet);
        }
        let k = self.required_piece_count;
        let l = self.piece_byte_len;
        let cols = self.get_full_coded_piece_byte_len();
        let rows = self.matrix.rank();
        let ghost m = self.spec_matrix();
        let ghost stream = payload_stream(m, rows as int);
        let flat = self.matrix.extract_data();
        let mut decoded_data: Vec<u8> = Vec::new();
        let mut r: usize = 0;
        while r < rows
            invariant
                r <= rows,
                m.wf(),
                rows == m.spec_rows(),
                flat@ == m.spec_elements(),
                cols == m.spec_cols(),
                k == m.spec_coeff_cols(),
                l == cols - k,
                l >= 1,
                decoded_data@ == payload_stream(m, r as int),
            decreases rows - r,
        {
            let ghost row_prefix = payload_stream(m, r as int);
            let mut i: usize = 0;
            while i < l
                invariant
                    i <= l,
                    r < rows,
                    m.wf(),
                    rows == m.spec_rows(),
                    flat@ == m.spec_elements(),
                    cols == m.spec_cols(),
                    k == m.spec_coeff_cols(),
                    l == cols - k,
                    decoded_data@ == row_prefix + m.row(r as int).skip(k as int).subrange(
                        0,
                        i as int,
                    ),
                decreases l - i,
            {
                proof {
                    lemma_flat_index(r as int, (k + i) as int, rows as int, cols as int);
                    lemma_flat_index(r as int, 0, rows as int, cols as int);
                    lemma_vec_len_bound(&flat);
                }
                decoded_data.push(flat[r * cols + k + i]);
                proof {
                    assert(decoded_data@ =~= row_prefix + m.row(r as int).skip(k as int).subrange(
                        0,
                        i as int + 1,
                    ));
                }
                i += 1;
            }
            proof {
                lemma_flat_index(r as int, 0, rows as int, cols as int);
                assert(m.row(r as int).skip(k as int).subrange(0, l as int) =~= m.row(
                    r as int,
                ).skip(k as int));
            }
            r += 1;
        }
        proof {
            lemma_payload_stream_len(m, rows as int);
            assert(rows as int * (cols - k) as int >= 1) by (nonlinear_arith)
                requires
                    rows as int >= 1,
                    (cols - k) as int >= 1,
            ;
        }
        let total_len = decoded_data.len();
        let mut idx: usize = total_len;
        let mut found = false;
        let mut marker_idx: usize = 0;
        while idx > 0 && !found
            invariant
                idx <= total_len,
                total_len == decoded_data@.len(),
                decoded_data@ == stream,
                !found ==> forall|j: int|
                    idx <= j < total_len ==> decoded_data@[j] != BOUNDARY_MARKER,
                found ==> marker_idx < total_len && decoded_data@[marker_idx as int]
                    == BOUNDARY_MARKER && (forall|j: int|
                    marker_idx < j < total_len ==> decoded_data@[j] != BOUNDARY_MARKER),
            decreases idx,
        {
            idx -= 1;
            if decoded_data[idx] == BOUNDARY_MARKER {
                found = true;
                marker_idx = idx;
            }
        }
        if !found {
            proof {
                lemma_last_index_absent(stream, BOUNDARY_MARKER);
            }
            return Err(RLNCError::InvalidDecodedDataFormat);
        }
        proof {
            lemma_last_index_at(stream, BOUNDARY_MARKER, marker_idx as int);
        }
        if marker_idx == 0 {
            return Err(RLNCError::InvalidDecodedDataFormat);
        }
        let mut j: usize = marker_idx + 1;
        while j < total_len
            invariant
                marker_idx < j <= total_len,
                total_len == decoded_data@.len(),
                decoded_data@ == stream,
                self.spec_useful_piece_count() == self.spec_required_piece_count(),
                m == self.spec_matrix(),
                rows == self.spec_required_piece_count(),
                stream == payload_stream(m, rows as int),
                marker_idx == last_index_of(stream, BOUNDARY_MARKER),
                1 <= marker_idx < total_len,
                forall|j2: int| marker_idx < j2 < j ==> decoded_data@[j2] == 0,
            decreases total_len - j,
        {
            if decoded_data[j] != 0 {
                return Err(RLNCError::InvalidDecodedDataFormat);
            }
            j += 1;
        }
        let mut decoded_data = decoded_data;
        decoded_data.truncate(marker_idx);
        Ok(decoded_data)
    }
}


} // verus!
