//! The decoder's matrix: received full coded pieces as rows of a flat
//! row-major byte buffer, reduced incrementally by Gaussian elimination.
//!
//! Each row is one full coded piece: `num_pieces_coded_together`
//! coefficient bytes followed by the coded payload, `cols` bytes in all.
//! The matrix is kept in reduced row echelon form over the coefficient
//! columns: each arriving piece is reduced against the pivots gathered so
//! far, and it either dies — its coefficients cancel to zero, proving it
//! a combination of the rows already held — or contributes a fresh pivot
//! and joins as a new row, with its pivot column cleared everywhere else.
//! The row count is therefore always the rank, and usefulness of a piece
//! is decided exactly: it is useful if and only if its coding vector lies
//! outside the coefficient row span of the matrix.

use vstd::prelude::*;

use crate::errors::RLNCError;
use crate::gf256::{
    gf_add, gf_mul, lemma_add_laws, lemma_mul_assoc, lemma_mul_basic, lemma_mul_comm,
    lemma_mul_distributive, lemma_mul_inv, Gf256,
};
use crate::layout::{lemma_flat_index, lemma_row_extend, lemma_rows_disjoint, lemma_vec_len_bound};

verus! {

/// True when one of the first `k` bytes of the row — its coefficient part
/// — is nonzero, so the row still carries an equation.
pub open spec fn has_nonzero_coeff(row: Seq<u8>, k: int) -> bool {
    exists|c: int| 0 <= c < k && row[c] != 0
}


/// GF(2^8) sum of the first `p` row contributions `coeffs[t] * m[t][j]`
/// to byte `j` of a combined row.
pub open spec fn rows_comb_byte(m: Seq<Seq<u8>>, coeffs: Seq<u8>, j: int, p: int) -> u8
    decreases p,
{
    if p <= 0 {
        0
    } else {
        gf_add(rows_comb_byte(m, coeffs, j, p - 1), gf_mul(coeffs[p - 1], m[p - 1][j]))
    }
}

/// `v` is, byte for byte, the combination of the rows of `m` under
/// `coeffs`.
pub open spec fn is_row_combination(
    v: Seq<u8>,
    m: Seq<Seq<u8>>,
    width: int,
    coeffs: Seq<u8>,
) -> bool {
    &&& coeffs.len() == m.len()
    &&& v.len() == width
    &&& forall|j: int| 0 <= j < width ==> v[j] == rows_comb_byte(m, coeffs, j, m.len() as int)
}

/// `v` lies in the row space of `m`: some coefficients combine the rows of
/// `m` into `v`.
pub open spec fn in_row_span(v: Seq<u8>, m: Seq<Seq<u8>>, width: int) -> bool {
    exists|coeffs: Seq<u8>| is_row_combination(v, m, width, coeffs)
}

/// Associativity of XOR on bytes.
proof fn lemma_xor_assoc_helper(a: u8, b: u8, c: u8)
    ensures
        (a ^ b) ^ c == a ^ (b ^ c),
{
    assert((a ^ b) ^ c == a ^ (b ^ c)) by (bit_vector);
}

/// Shuffling four XOR terms: the middle pair may swap.
proof fn lemma_xor_shuffle(a: u8, b: u8, c: u8, d: u8)
    ensures
        (a ^ b) ^ (c ^ d) == (a ^ c) ^ (b ^ d),
{
    assert((a ^ b) ^ (c ^ d) == (a ^ c) ^ (b ^ d)) by (bit_vector);
}

/// Under the unit coefficient vector for row `i`, the partial combination
/// is row `i` itself once the sum has passed it, and zero before.
proof fn lemma_rows_comb_unit(m: Seq<Seq<u8>>, i: int, j: int, p: int)
    requires
        0 <= i < m.len(),
        0 <= p <= m.len(),
    ensures
        rows_comb_byte(
            m,
            Seq::new(
                m.len(),
                |t: int|
                    if t == i {
                        1u8
                    } else {
                        0u8
                    },
            ),
            j,
            p,
        ) == if i < p {
            m[i][j]
        } else {
            0u8
        },
    decreases p,
{
    if p > 0 {
        lemma_rows_comb_unit(m, i, j, p - 1);
        let unit = Seq::new(
            m.len(),
            |t: int|
                if t == i {
                    1u8
                } else {
                    0u8
                },
        );
        let prev = rows_comb_byte(m, unit, j, p - 1);
        lemma_mul_basic(m[p - 1][j]);
        lemma_add_laws(prev, gf_mul(unit[p - 1], m[p - 1][j]), 0);
        lemma_add_laws(m[p - 1][j], 0, 0);
    }
}

/// Each row of `m` of the right width lies in the row space of `m`.
proof fn lemma_row_in_own_span(m: Seq<Seq<u8>>, width: int, i: int)
    requires
        0 <= i < m.len(),
        m[i].len() == width,
    ensures
        in_row_span(m[i], m, width),
{
    let unit = Seq::new(
        m.len(),
        |t: int|
            if t == i {
                1u8
            } else {
                0u8
            },
    );
    assert forall|j: int| 0 <= j < width implies m[i][j] == rows_comb_byte(
        m,
        unit,
        j,
        m.len() as int,
    ) by {
        lemma_rows_comb_unit(m, i, j, m.len() as int);
    }
    assert(is_row_combination(m[i], m, width, unit));
}

/// The combination under all-zero coefficients is the zero row.
proof fn lemma_rows_comb_zero(m: Seq<Seq<u8>>, j: int, p: int)
    requires
        0 <= p <= m.len(),
    ensures
        rows_comb_byte(m, Seq::new(m.len(), |t: int| 0u8), j, p) == 0u8,
    decreases p,
{
    if p > 0 {
        lemma_rows_comb_zero(m, j, p - 1);
        lemma_mul_basic(m[p - 1][j]);
        lemma_add_laws(0, 0, 0);
    }
}

/// Combinations mix linearly: combining under `cs1 + q * cs2` (pointwise,
/// over the field) gives the combination under `cs1` plus `q` times the
/// combination under `cs2`.
proof fn lemma_rows_comb_mix(
    m: Seq<Seq<u8>>,
    cs1: Seq<u8>,
    cs2: Seq<u8>,
    q: u8,
    j: int,
    p: int,
)
    requires
        cs1.len() == m.len(),
        cs2.len() == m.len(),
        0 <= p <= m.len(),
    ensures
        rows_comb_byte(m, Seq::new(m.len(), |t: int| cs1[t] ^ gf_mul(q, cs2[t])), j, p)
            == rows_comb_byte(m, cs1, j, p) ^ gf_mul(q, rows_comb_byte(m, cs2, j, p)),
    decreases p,
{
    if p <= 0 {
        lemma_mul_basic(q);
        lemma_add_laws(0, 0, 0);
    } else {
        lemma_rows_comb_mix(m, cs1, cs2, q, j, p - 1);
        let mix = Seq::new(m.len(), |t: int| cs1[t] ^ gf_mul(q, cs2[t]));
        let a1 = rows_comb_byte(m, cs1, j, p - 1);
        let a2 = rows_comb_byte(m, cs2, j, p - 1);
        let mv = m[p - 1][j];
        let t1 = gf_mul(cs1[p - 1], mv);
        let t2 = gf_mul(cs2[p - 1], mv);
        lemma_mul_comm(mix[p - 1], mv);
        lemma_mul_distributive(mv, cs1[p - 1], gf_mul(q, cs2[p - 1]));
        lemma_mul_comm(mv, cs1[p - 1]);
        lemma_mul_comm(mv, gf_mul(q, cs2[p - 1]));
        lemma_mul_assoc(q, cs2[p - 1], mv);
        lemma_mul_distributive(q, a2, t2);
        lemma_xor_shuffle(a1, gf_mul(q, a2), t1, gf_mul(q, t2));
    }
}

/// The row space is closed under adding a scaled member: if `v1` and `v2`
/// both lie in the row space of `m`, so does `v1 + q * v2`.
proof fn lemma_span_add_scaled(m: Seq<Seq<u8>>, width: int, v1: Seq<u8>, v2: Seq<u8>, q: u8)
    requires
        in_row_span(v1, m, width),
        in_row_span(v2, m, width),
    ensures
        in_row_span(Seq::new(width as nat, |c: int| v1[c] ^ gf_mul(q, v2[c])), m, width),
{
    let cs1 = choose|cs: Seq<u8>| is_row_combination(v1, m, width, cs);
    let cs2 = choose|cs: Seq<u8>| is_row_combination(v2, m, width, cs);
    let mix = Seq::new(m.len(), |t: int| cs1[t] ^ gf_mul(q, cs2[t]));
    let target = Seq::new(width as nat, |c: int| v1[c] ^ gf_mul(q, v2[c]));
    assert forall|j: int| 0 <= j < width implies target[j] == rows_comb_byte(
        m,
        mix,
        j,
        m.len() as int,
    ) by {
        lemma_rows_comb_mix(m, cs1, cs2, q, j, m.len() as int);
    }
    assert(is_row_combination(target, m, width, mix));
}

/// The row space is closed under scaling a member by `q`.
proof fn lemma_span_scaled(m: Seq<Seq<u8>>, width: int, v: Seq<u8>, q: u8)
    requires
        0 <= width,
        in_row_span(v, m, width),
    ensures
        in_row_span(Seq::new(width as nat, |c: int| gf_mul(q, v[c])), m, width),
{
    let zero_row = Seq::new(width as nat, |c: int| 0u8);
    let zeros = Seq::new(m.len(), |t: int| 0u8);
    assert forall|j: int| 0 <= j < width implies zero_row[j] == rows_comb_byte(
        m,
        zeros,
        j,
        m.len() as int,
    ) by {
        lemma_rows_comb_zero(m, j, m.len() as int);
    }
    assert(is_row_combination(zero_row, m, width, zeros));
    lemma_span_add_scaled(m, width, zero_row, v, q);
    let mixed = Seq::new(width as nat, |c: int| zero_row[c] ^ gf_mul(q, v[c]));
    assert forall|c: int| 0 <= c < width implies mixed[c] == gf_mul(q, v[c]) by {
        lemma_add_laws(gf_mul(q, v[c]), 0, 0);
    }
    assert(mixed =~= Seq::new(width as nat, |c: int| gf_mul(q, v[c])));
}

/// A combination is unaffected by rows appended after the coefficients
/// run out, when those extra coefficients are zero.
proof fn lemma_rows_comb_extend(m: Seq<Seq<u8>>, e: Seq<u8>, cs: Seq<u8>, j: int, p: int)
    requires
        cs.len() == m.len(),
        0 <= p <= m.len(),
    ensures
        rows_comb_byte(m.push(e), cs.push(0), j, p) == rows_comb_byte(m, cs, j, p),
    decreases p,
{
    if p > 0 {
        lemma_rows_comb_extend(m, e, cs, j, p - 1);
    }
}

/// The row space only grows when a row is appended to the matrix.
pub proof fn lemma_span_extend(v: Seq<u8>, m: Seq<Seq<u8>>, width: int, e: Seq<u8>)
    requires
        in_row_span(v, m, width),
    ensures
        in_row_span(v, m.push(e), width),
{
    let cs = choose|cs: Seq<u8>| is_row_combination(v, m, width, cs);
    assert forall|j: int| 0 <= j < width implies v[j] == rows_comb_byte(
        m.push(e),
        cs.push(0),
        j,
        m.push(e).len() as int,
    ) by {
        lemma_rows_comb_extend(m, e, cs, j, m.len() as int);
        lemma_mul_basic(e[j]);
        lemma_add_laws(rows_comb_byte(m, cs, j, m.len() as int), 0, 0);
    }
    assert(is_row_combination(v, m.push(e), width, cs.push(0)));
}

/// The newly appended row itself lies in the extended row space.
pub proof fn lemma_span_last(m: Seq<Seq<u8>>, width: int, e: Seq<u8>)
    requires
        e.len() == width,
    ensures
        in_row_span(e, m.push(e), width),
{
    lemma_row_in_own_span(m.push(e), width, m.len() as int);
}

/// Composing combinations: summing the coefficient rows of `cmat` under
/// `cv` yields coefficients over `h` that rebuild the combination of the
/// rows of `mid` under `cv`, as long as each row of `mid` is itself the
/// combination of the rows of `h` under the matching row of `cmat`.
proof fn lemma_rows_comb_compose(
    h: Seq<Seq<u8>>,
    mid: Seq<Seq<u8>>,
    cv: Seq<u8>,
    cmat: Seq<Seq<u8>>,
    width: int,
    j: int,
    p: int,
)
    requires
        cmat.len() == mid.len(),
        cv.len() == mid.len(),
        0 <= p <= mid.len(),
        0 <= j < width,
        forall|p2: int|
            0 <= p2 < mid.len() ==> is_row_combination(
                #[trigger] mid[p2],
                h,
                width,
                cmat[p2],
            ),
    ensures
        rows_comb_byte(
            h,
            Seq::new(h.len(), |t: int| rows_comb_byte(cmat, cv, t, p)),
            j,
            h.len() as int,
        ) == rows_comb_byte(mid, cv, j, p),
    decreases p,
{
    if p <= 0 {
        let zeros = Seq::new(h.len(), |t: int| 0u8);
        assert(Seq::new(h.len(), |t: int| rows_comb_byte(cmat, cv, t, 0)) =~= zeros);
        lemma_rows_comb_zero(h, j, h.len() as int);
    } else {
        lemma_rows_comb_compose(h, mid, cv, cmat, width, j, p - 1);
        let d_prev = Seq::new(h.len(), |t: int| rows_comb_byte(cmat, cv, t, p - 1));
        let d_cur = Seq::new(h.len(), |t: int| rows_comb_byte(cmat, cv, t, p));
        let q = cv[p - 1];
        assert(is_row_combination(mid[p - 1], h, width, cmat[p - 1]));
        assert(d_cur =~= Seq::new(h.len(), |t: int| d_prev[t] ^ gf_mul(q, cmat[p - 1][t])));
        lemma_rows_comb_mix(h, d_prev, cmat[p - 1], q, j, h.len() as int);
        assert(rows_comb_byte(h, cmat[p - 1], j, h.len() as int) == mid[p - 1][j]);
    }
}

/// Row spans compose: what lies in the row space of `mid` lies in the row
/// space of `h` whenever every row of `mid` does.
pub proof fn lemma_span_transitive(v: Seq<u8>, mid: Seq<Seq<u8>>, h: Seq<Seq<u8>>, width: int)
    requires
        in_row_span(v, mid, width),
        forall|p: int| 0 <= p < mid.len() ==> in_row_span(#[trigger] mid[p], h, width),
    ensures
        in_row_span(v, h, width),
{
    let cv = choose|cs: Seq<u8>| is_row_combination(v, mid, width, cs);
    let cmat = Seq::new(
        mid.len(),
        |p: int| choose|cs: Seq<u8>| is_row_combination(mid[p], h, width, cs),
    );
    assert forall|p2: int| 0 <= p2 < mid.len() implies is_row_combination(
        #[trigger] mid[p2],
        h,
        width,
        cmat[p2],
    ) by {
        assert(in_row_span(mid[p2], h, width));
        let witness = choose|cs: Seq<u8>| is_row_combination(mid[p2], h, width, cs);
        assert(is_row_combination(mid[p2], h, width, witness));
    }
    let d = Seq::new(h.len(), |t: int| rows_comb_byte(cmat, cv, t, mid.len() as int));
    assert forall|j: int| 0 <= j < width implies v[j] == rows_comb_byte(
        h,
        d,
        j,
        h.len() as int,
    ) by {
        lemma_rows_comb_compose(h, mid, cv, cmat, width, j, mid.len() as int);
    }
    assert(is_row_combination(v, h, width, d));
}

/// Index of the first nonzero byte of `v` at or after position `c`,
/// looking no further than position `k`; `k` itself when there is none.
pub open spec fn first_nz_from(v: Seq<u8>, c: int, k: int) -> int
    decreases k - c,
{
    if c >= k {
        k
    } else if v[c] != 0 {
        c
    } else {
        first_nz_from(v, c + 1, k)
    }
}

/// The pivot column of a row: the first nonzero coefficient column, or
/// `k` when the whole coefficient part is zero.
pub open spec fn pivot_col(v: Seq<u8>, k: int) -> int {
    first_nz_from(v, 0, k)
}

/// What the first-nonzero scan guarantees: everything before the found
/// position is zero, and the found position (when inside the range) is
/// nonzero.
pub proof fn lemma_first_nz_props(v: Seq<u8>, c: int, k: int)
    requires
        0 <= c <= k,
    ensures
        c <= first_nz_from(v, c, k) <= k,
        forall|j: int| c <= j < first_nz_from(v, c, k) ==> v[j] == 0,
        first_nz_from(v, c, k) < k ==> v[first_nz_from(v, c, k)] != 0,
    decreases k - c,
{
    if c < k && v[c] == 0 {
        lemma_first_nz_props(v, c + 1, k);
    }
}

/// The converse: a position with only zeros before it, and nonzero itself
/// unless it is the range's end, is what the scan finds.
pub proof fn lemma_first_nz_at(v: Seq<u8>, c: int, k: int, at: int)
    requires
        0 <= c <= at <= k,
        forall|j: int| c <= j < at ==> v[j] == 0,
        at < k ==> v[at] != 0,
    ensures
        first_nz_from(v, c, k) == at,
    decreases k - c,
{
    if c < at {
        lemma_first_nz_at(v, c + 1, k, at);
    }
}

/// Two sequences that agree on the scanned range scan to the same place.
pub proof fn lemma_first_nz_congruent(v1: Seq<u8>, v2: Seq<u8>, c: int, k: int)
    requires
        0 <= c <= k,
        forall|j: int| c <= j < k ==> v1[j] == v2[j],
    ensures
        first_nz_from(v1, c, k) == first_nz_from(v2, c, k),
    decreases k - c,
{
    if c < k && v1[c] == 0 {
        lemma_first_nz_congruent(v1, v2, c + 1, k);
    }
}

/// At a column where one row holds 1 and every other row holds 0, a
/// combination reproduces that row's coefficient.
pub proof fn lemma_comb_at_pivot(m: Seq<Seq<u8>>, cs: Seq<u8>, t: int, p: int, q: int)
    requires
        cs.len() == m.len(),
        0 <= t < m.len(),
        m[t][p] == 1,
        forall|t2: int| 0 <= t2 < m.len() && t2 != t ==> #[trigger] m[t2][p] == 0,
        0 <= q <= m.len(),
    ensures
        rows_comb_byte(m, cs, p, q) == if t < q {
            cs[t]
        } else {
            0u8
        },
    decreases q,
{
    if q > 0 {
        lemma_comb_at_pivot(m, cs, t, p, q - 1);
        lemma_mul_basic(cs[q - 1]);
        let prev = rows_comb_byte(m, cs, p, q - 1);
        lemma_add_laws(prev, gf_mul(cs[q - 1], m[q - 1][p]), 0);
        lemma_add_laws(cs[q - 1], 0, 0);
    }
}

/// The coefficient prefix of each row of `m` lies in the width-`k` row
/// span of `m` (a combination reads only the first `k` columns).
pub proof fn lemma_row_prefix_in_own_span(m: Seq<Seq<u8>>, k: int, i: int)
    requires
        0 <= i < m.len(),
        0 <= k <= m[i].len(),
    ensures
        in_row_span(m[i].take(k), m, k),
{
    let unit = Seq::new(
        m.len(),
        |t: int|
            if t == i {
                1u8
            } else {
                0u8
            },
    );
    assert forall|j: int| 0 <= j < k implies m[i].take(k)[j] == rows_comb_byte(
        m,
        unit,
        j,
        m.len() as int,
    ) by {
        lemma_rows_comb_unit(m, i, j, m.len() as int);
    }
    assert(is_row_combination(m[i].take(k), m, k, unit));
}

/// A partial combination only reads the coefficients below its bound.
proof fn lemma_rows_comb_agree(m: Seq<Seq<u8>>, cs1: Seq<u8>, cs2: Seq<u8>, j: int, p: int)
    requires
        forall|t: int| 0 <= t < p ==> cs1[t] == cs2[t],
    ensures
        rows_comb_byte(m, cs1, j, p) == rows_comb_byte(m, cs2, j, p),
    decreases p,
{
    if p > 0 {
        lemma_rows_comb_agree(m, cs1, cs2, j, p - 1);
    }
}

/// A partial combination at column `j` only reads column `j` of the rows.
proof fn lemma_rows_comb_entrywise(
    m1: Seq<Seq<u8>>,
    m2: Seq<Seq<u8>>,
    cs: Seq<u8>,
    j: int,
    p: int,
)
    requires
        forall|t: int| 0 <= t < p ==> #[trigger] m1[t][j] == m2[t][j],
    ensures
        rows_comb_byte(m1, cs, j, p) == rows_comb_byte(m2, cs, j, p),
    decreases p,
{
    if p > 0 {
        lemma_rows_comb_entrywise(m1, m2, cs, j, p - 1);
    }
}

/// A partial combination ignores rows and coefficients appended past its
/// bound.
proof fn lemma_rows_comb_push_agree(
    m: Seq<Seq<u8>>,
    e: Seq<u8>,
    cs: Seq<u8>,
    q: u8,
    j: int,
    p: int,
)
    requires
        cs.len() == m.len(),
        0 <= p <= m.len(),
    ensures
        rows_comb_byte(m.push(e), cs.push(q), j, p) == rows_comb_byte(m, cs, j, p),
    decreases p,
{
    if p > 0 {
        lemma_rows_comb_push_agree(m, e, cs, q, j, p - 1);
    }
}

/// Row spans compose through coefficient prefixes: a width-`k`
/// combination of full rows whose prefixes all lie in the row space of
/// `h` lies in that row space itself.
pub proof fn lemma_span_transitive_prefix(v: Seq<u8>, mid: Seq<Seq<u8>>, h: Seq<Seq<u8>>, k: int)
    requires
        in_row_span(v, mid, k),
        forall|t: int| 0 <= t < mid.len() ==> #[trigger] mid[t].len() >= k,
        0 <= k,
        forall|t: int|
            0 <= t < mid.len() ==> in_row_span(#[trigger] mid[t].take(k), h, k),
    ensures
        in_row_span(v, h, k),
{
    let prefixes = Seq::new(mid.len(), |t: int| mid[t].take(k));
    let cs = choose|cs: Seq<u8>| is_row_combination(v, mid, k, cs);
    assert forall|j: int| 0 <= j < k implies v[j] == rows_comb_byte(
        prefixes,
        cs,
        j,
        prefixes.len() as int,
    ) by {
        assert forall|t: int| 0 <= t < mid.len() implies #[trigger] prefixes[t][j]
            == mid[t][j] by {
            assert(prefixes[t] == mid[t].take(k));
        }
        lemma_rows_comb_entrywise(prefixes, mid, cs, j, mid.len() as int);
    }
    assert(is_row_combination(v, prefixes, k, cs));
    assert forall|t: int| 0 <= t < prefixes.len() implies in_row_span(
        #[trigger] prefixes[t],
        h,
        k,
    ) by {
        assert(prefixes[t] == mid[t].take(k));
    }
    lemma_span_transitive(v, prefixes, h, k);
}


/// Growable matrix of received full coded pieces over GF(2^8).
#[derive(Clone, Debug)]
pub struct DecoderMatrix {
    num_pieces_coded_together: usize,
    rows: usize,
    cols: usize,
    elements: Vec<u8>,
}

impl DecoderMatrix {
    /// Number of coefficient columns.
    pub closed spec fn spec_coeff_cols(self) -> usize {
        self.num_pieces_coded_together
    }

    /// Current number of rows.
    pub closed spec fn spec_rows(self) -> usize {
        self.rows
    }

    /// Bytes per row: coefficient columns plus payload columns.
    pub closed spec fn spec_cols(self) -> usize {
        self.cols
    }

    /// The flat backing buffer.
    pub closed spec fn spec_elements(self) -> Seq<u8> {
        self.elements@
    }

    /// Structural soundness: at least one coefficient column, at least one
    /// payload column, and a backing buffer of exactly `rows * cols` bytes.
    pub open spec fn wf(self) -> bool {
        &&& 1 <= self.spec_coeff_cols() < self.spec_cols()
        &&& self.spec_elements().len() == self.spec_rows() * self.spec_cols()
    }

    /// The byte at row `r`, column `c`.
    pub open spec fn entry(self, r: int, c: int) -> u8
        recommends
            0 <= r < self.spec_rows(),
            0 <= c < self.spec_cols(),
    {
        self.spec_elements()[r * self.spec_cols() + c]
    }

    /// Row `r` as a byte sequence.
    pub open spec fn row(self, r: int) -> Seq<u8>
        recommends
            0 <= r < self.spec_rows(),
    {
        self.spec_elements().subrange(
            r * self.spec_cols(),
            r * self.spec_cols() + self.spec_cols(),
        )
    }

    /// The whole matrix as a sequence of rows.
    pub open spec fn mat_view(self) -> Seq<Seq<u8>> {
        Seq::new(self.spec_rows() as nat, |r: int| self.row(r))
    }

    /// Reduced form over the coefficient columns: every row's pivot — its
    /// first nonzero coefficient column — exists, holds 1, is the only
    /// nonzero entry of its column, and the pivots increase strictly from
    /// row to row.
    pub open spec fn is_rref(self) -> bool {
        let k = self.spec_coeff_cols() as int;
        &&& forall|r: int| 0 <= r < self.spec_rows() ==> #[trigger] pivot_col(self.row(r), k) < k
        &&& forall|r: int|
            0 <= r < self.spec_rows() ==> #[trigger] self.row(r)[pivot_col(self.row(r), k)] == 1
        &&& forall|r: int, r2: int|
            0 <= r < self.spec_rows() && 0 <= r2 < self.spec_rows() && r2 != r
                ==> #[trigger] self.row(r2)[pivot_col(self.row(r), k)] == 0
        &&& forall|r: int, r2: int|
            #![trigger pivot_col(self.row(r), k), pivot_col(self.row(r2), k)]
            0 <= r < r2 < self.spec_rows() ==> pivot_col(self.row(r), k) < pivot_col(
                self.row(r2),
                k,
            )
    }

    /// A coefficient-width vector combined from the rows of a reduced
    /// matrix, yet zero at every pivot column, is zero everywhere: its
    /// combination coefficients can be read off at the pivot columns.
    #[verifier::rlimit(50)]
    proof fn lemma_residue_zero(self, v: Seq<u8>, cs: Seq<u8>)
        requires
            self.wf(),
            self.is_rref(),
            cs.len() == self.spec_rows(),
            v.len() == self.spec_coeff_cols(),
            forall|j: int|
                0 <= j < self.spec_coeff_cols() ==> v[j] == rows_comb_byte(
                    self.mat_view(),
                    cs,
                    j,
                    self.spec_rows() as int,
                ),
            forall|r: int|
                0 <= r < self.spec_rows() ==> v[pivot_col(
                    #[trigger] self.row(r),
                    self.spec_coeff_cols() as int,
                )] == 0,
        ensures
            forall|j: int| 0 <= j < self.spec_coeff_cols() ==> v[j] == 0,
    {
        let k = self.spec_coeff_cols() as int;
        let rows = self.spec_rows() as int;
        assert forall|r: int| 0 <= r < rows implies cs[r] == 0 by {
            let p = pivot_col(self.row(r), k);
            lemma_first_nz_props(self.row(r), 0, k);
            assert(self.mat_view()[r] == self.row(r));
            assert forall|t2: int| 0 <= t2 < rows && t2 != r implies #[trigger] self.mat_view()[t2][p]
                == 0 by {
                assert(self.mat_view()[t2] == self.row(t2));
            }
            lemma_comb_at_pivot(self.mat_view(), cs, r, p, rows);
        }
        assert(cs =~= Seq::new(rows as nat, |t: int| 0u8));
        assert forall|j: int| 0 <= j < k implies v[j] == 0 by {
            lemma_rows_comb_zero(self.mat_view(), j, rows);
        }
    }

    /// Sets up an empty matrix for pieces of `piece_byte_length` payload
    /// bytes coded `num_pieces_coded_together` at a time.
    pub fn new(num_pieces_coded_together: usize, piece_byte_length: usize) -> (r: Self)
        requires
            num_pieces_coded_together >= 1,
            piece_byte_length >= 1,
            num_pieces_coded_together + piece_byte_length <= usize::MAX,
        ensures
            r.wf(),
            r.spec_rows() == 0,
            r.spec_coeff_cols() == num_pieces_coded_together,
            r.spec_cols() == num_pieces_coded_together + piece_byte_length,
            r.spec_elements() == Seq::<u8>::empty(),
    {
        let full_coded_piece_byte_len = num_pieces_coded_together + piece_byte_length;
        let elements: Vec<u8> = Vec::new();
        proof {
            assert(elements@ =~= Seq::<u8>::empty());
        }
        DecoderMatrix {
            num_pieces_coded_together,
            rows: 0,
            cols: full_coded_piece_byte_len,
            elements,
        }
    }

    /// Reads the byte at row `r`, column `c`.
    fn get(&self, r: usize, c: usize) -> (b: u8)
        requires
            self.wf(),
            r < self.spec_rows(),
            c < self.spec_cols(),
        ensures
            b == self.entry(r as int, c as int),
            b == self.row(r as int)[c as int],
    {
        proof {
            lemma_flat_index(r as int, c as int, self.spec_rows() as int, self.spec_cols() as int);
            lemma_vec_len_bound(&self.elements);
        }
        self.elements[r * self.cols + c]
    }

    /// Writes the byte at row `r`, column `c`; every other row keeps its
    /// contents.
    fn set(&mut self, r: usize, c: usize, val: u8)
        requires
            old(self).wf(),
            r < old(self).spec_rows(),
            c < old(self).spec_cols(),
        ensures
            final(self).wf(),
            final(self).spec_rows() == old(self).spec_rows(),
            final(self).spec_cols() == old(self).spec_cols(),
            final(self).spec_coeff_cols() == old(self).spec_coeff_cols(),
            final(self).row(r as int) == old(self).row(r as int).update(c as int, val),
            forall|r2: int|
                0 <= r2 < old(self).spec_rows() && r2 != r ==> final(self).row(r2) == old(
                    self,
                ).row(r2),
    {
        proof {
            lemma_flat_index(r as int, c as int, self.spec_rows() as int, self.spec_cols() as int);
            lemma_vec_len_bound(&self.elements);
        }
        let idx = r * self.cols + c;
        self.elements[idx] = val;
        proof {
            let cols = self.spec_cols() as int;
            assert(final(self).row(r as int) =~= old(self).row(r as int).update(c as int, val));
            assert forall|r2: int|
                0 <= r2 < old(self).spec_rows() && r2 != r implies final(self).row(r2) == old(
                self,
            ).row(r2) by {
                lemma_rows_disjoint(r as int, r2, cols);
                lemma_flat_index(
                    r2,
                    0,
                    old(self).spec_rows() as int,
                    old(self).spec_cols() as int,
                );
                assert(final(self).row(r2) =~= old(self).row(r2));
            }
        }
    }

    /// Appends a full coded piece as a new row.
    ///
    /// Fails with `InvalidPieceLength` exactly when the piece's length is
    /// not the row width; on success the new row sits below the existing
    /// ones, which are untouched.
    pub fn add_row(&mut self, row: &[u8]) -> (r: Result<(), RLNCError>)
        requires
            old(self).wf(),
            old(self).spec_elements().len() + old(self).spec_cols() <= usize::MAX,
        ensures
            final(self).wf(),
            final(self).spec_cols() == old(self).spec_cols(),
            final(self).spec_coeff_cols() == old(self).spec_coeff_cols(),
            r is Err <==> row@.len() != old(self).spec_cols(),
            r is Err ==> r == Err::<(), RLNCError>(RLNCError::InvalidPieceLength) && *final(self)
                == *old(self),
            r is Ok ==> {
                &&& final(self).spec_rows() == old(self).spec_rows() + 1
                &&& final(self).spec_elements() == old(self).spec_elements() + row@
                &&& final(self).row(old(self).spec_rows() as int) == row@
                &&& forall|r2: int|
                    0 <= r2 < old(self).spec_rows() ==> final(self).row(r2) == old(self).row(r2)
            },
    {
        if row.len() != self.cols {
            return Err(RLNCError::InvalidPieceLength);
        }
        let ghost old_elems = self.elements@;
        let mut i: usize = 0;
        while i < row.len()
            invariant
                i <= row@.len(),
                self.elements@ == old_elems + row@.subrange(0, i as int),
                self.cols == old(self).spec_cols(),
                self.rows == old(self).spec_rows(),
                self.num_pieces_coded_together == old(self).spec_coeff_cols(),
                row@.len() == self.cols,
                old_elems.len() + self.cols <= usize::MAX,
            decreases row@.len() - i,
        {
            self.elements.push(row[i]);
            proof {
                assert(self.elements@ =~= old_elems + row@.subrange(0, i as int + 1));
            }
            i += 1;
        }
        proof {
            assert(self.elements@ =~= old_elems + row@);
            lemma_vec_len_bound(&self.elements);
            let rows0 = old(self).spec_rows() as int;
            let cols = old(self).spec_cols() as int;
            assert(rows0 >= 1 ==> rows0 + 1 <= rows0 * cols) by (nonlinear_arith)
                requires
                    cols >= 2,
                    rows0 >= 0,
            ;
        }
        self.rows += 1;
        proof {
            let rows0 = old(self).spec_rows() as int;
            let cols = old(self).spec_cols() as int;
            lemma_row_extend(rows0, cols);
            assert(final(self).row(rows0) =~= row@);
            assert forall|r2: int| 0 <= r2 < rows0 implies final(self).row(r2) == old(self).row(
                r2,
            ) by {
                lemma_flat_index(r2, 0, rows0, cols);
                assert(final(self).row(r2) =~= old(self).row(r2));
            }
        }
        Ok(())
    }

    /// Exchanges rows `row1_idx` and `row2_idx`; all other rows keep their
    /// contents.
    pub fn swap_rows(&mut self, row1_idx: usize, row2_idx: usize)
        requires
            old(self).wf(),
            row1_idx < old(self).spec_rows(),
            row2_idx < old(self).spec_rows(),
        ensures
            final(self).wf(),
            final(self).spec_rows() == old(self).spec_rows(),
            final(self).spec_cols() == old(self).spec_cols(),
            final(self).spec_coeff_cols() == old(self).spec_coeff_cols(),
            final(self).row(row1_idx as int) == old(self).row(row2_idx as int),
            final(self).row(row2_idx as int) == old(self).row(row1_idx as int),
            forall|r2: int|
                0 <= r2 < old(self).spec_rows() && r2 != row1_idx && r2 != row2_idx
                    ==> final(self).row(r2) == old(self).row(r2),
    {
        let cols = self.cols;
        let mut c: usize = 0;
        while c < cols
            invariant
                c <= cols,
                self.wf(),
                cols == old(self).spec_cols(),
                self.spec_rows() == old(self).spec_rows(),
                self.spec_cols() == old(self).spec_cols(),
                self.spec_coeff_cols() == old(self).spec_coeff_cols(),
                row1_idx < self.spec_rows(),
                row2_idx < self.spec_rows(),
                forall|c2: int|
                    0 <= c2 < c ==> self.row(row1_idx as int)[c2] == old(self).row(
                        row2_idx as int,
                    )[c2] && self.row(row2_idx as int)[c2] == old(self).row(row1_idx as int)[c2],
                forall|c2: int|
                    c <= c2 < cols ==> self.row(row1_idx as int)[c2] == old(self).row(
                        row1_idx as int,
                    )[c2] && self.row(row2_idx as int)[c2] == old(self).row(row2_idx as int)[c2],
                forall|r2: int|
                    0 <= r2 < old(self).spec_rows() && r2 != row1_idx && r2 != row2_idx
                        ==> self.row(r2) == old(self).row(r2),
            decreases cols - c,
        {
            let ghost pre = *self;
            let byte1 = self.get(row1_idx, c);
            let byte2 = self.get(row2_idx, c);
            self.set(row1_idx, c, byte2);
            let ghost mid = *self;
            self.set(row2_idx, c, byte1);
            proof {
                let r1 = row1_idx as int;
                let r2 = row2_idx as int;
                let ci = c as int;
                let rows = self.spec_rows() as int;
                let colsi = self.spec_cols() as int;
                lemma_flat_index(r1, 0, rows, colsi);
                lemma_flat_index(r2, 0, rows, colsi);
                if r1 == r2 {
                    assert(self.row(r1) == mid.row(r1).update(ci, byte1));
                    assert(self.row(r1) =~= pre.row(r1));
                } else {
                    assert(self.row(r1) == mid.row(r1));
                    assert(self.row(r1) == pre.row(r1).update(ci, byte2));
                    assert(self.row(r2) == pre.row(r2).update(ci, byte1));
                }
                assert forall|c2: int| 0 <= c2 < c + 1 implies self.row(r1)[c2] == old(self).row(
                    r2,
                )[c2] && self.row(r2)[c2] == old(self).row(r1)[c2] by {
                    if c2 < ci {
                        assert(self.row(r1)[c2] == pre.row(r1)[c2]);
                        assert(self.row(r2)[c2] == pre.row(r2)[c2]);
                    }
                }
            }
            c += 1;
        }
        proof {
            let rows = self.spec_rows() as int;
            let colsi = self.spec_cols() as int;
            lemma_flat_index(row1_idx as int, 0, rows, colsi);
            lemma_flat_index(row2_idx as int, 0, rows, colsi);
            assert(final(self).row(row1_idx as int) =~= old(self).row(row2_idx as int));
            assert(final(self).row(row2_idx as int) =~= old(self).row(row1_idx as int));
        }
    }

    /// The matrix rank: the number of rows left standing, valid right
    /// after `rref`.
    pub fn rank(&self) -> (r: usize)
        ensures
            r == self.spec_rows(),
    {
        self.rows
    }

    /// Hands the backing buffer out, consuming the matrix.
    pub fn extract_data(self) -> (r: Vec<u8>)
        ensures
            r@ == self.spec_elements(),
    {
        self.elements
    }

    /// First nonzero coefficient column of row `r`, or the coefficient
    /// count when the row's coefficient part is all zero.
    fn row_pivot(&self, r: usize) -> (c: usize)
        requires
            self.wf(),
            r < self.spec_rows(),
        ensures
            c as int == pivot_col(self.row(r as int), self.spec_coeff_cols() as int),
            c <= self.spec_coeff_cols(),
    {
        let k = self.num_pieces_coded_together;
        let mut c: usize = 0;
        let mut found = false;
        while c < k && !found
            invariant
                self.wf(),
                r < self.spec_rows(),
                k == self.spec_coeff_cols(),
                c <= k,
                found ==> c < k && self.row(r as int)[c as int] != 0,
                forall|j: int| 0 <= j < c ==> self.row(r as int)[j] == 0,
            decreases k - c, (if found {
                0int
            } else {
                1int
            }),
        {
            if self.get(r, c) != 0 {
                found = true;
            } else {
                c += 1;
            }
        }
        proof {
            lemma_first_nz_at(self.row(r as int), 0, k as int, c as int);
        }
        c
    }

    /// Inserts `row` so that it becomes row `idx`, pushing the rows from
    /// `idx` on down by one.
    #[verifier::rlimit(50)]
    fn insert_row_at(&mut self, idx: usize, row: &Vec<u8>)
        requires
            old(self).wf(),
            idx <= old(self).spec_rows(),
            row@.len() == old(self).spec_cols(),
            old(self).spec_elements().len() + old(self).spec_cols() <= usize::MAX,
        ensures
            final(self).wf(),
            final(self).spec_cols() == old(self).spec_cols(),
            final(self).spec_coeff_cols() == old(self).spec_coeff_cols(),
            final(self).spec_rows() == old(self).spec_rows() + 1,
            forall|r: int| 0 <= r < idx ==> final(self).row(r) == old(self).row(r),
            final(self).row(idx as int) == row@,
            forall|r: int|
                idx < r < old(self).spec_rows() + 1 ==> final(self).row(r) == old(self).row(r - 1),
    {
        let cols = self.cols;
        let rows = self.rows;
        let mut rebuilt: Vec<u8> = Vec::new();
        let mut r: usize = 0;
        while r < idx
            invariant
                r <= idx,
                idx <= rows,
                *self == *old(self),
                self.wf(),
                cols == self.spec_cols(),
                rows == self.spec_rows(),
                rebuilt@.len() == r * cols,
                forall|r2: int|
                    0 <= r2 < r ==> #[trigger] rebuilt@.subrange(r2 * cols, r2 * cols + cols)
                        == self.row(r2),
            decreases idx - r,
        {
            let ghost before = rebuilt@;
            proof {
                lemma_flat_index(r as int, 0, rows as int, cols as int);
            }
            self.copy_row_into(r, &mut rebuilt);
            proof {
                crate::layout::lemma_row_extend(r as int, cols as int);
                assert forall|r2: int| 0 <= r2 < r implies #[trigger] rebuilt@.subrange(
                    r2 * cols,
                    r2 * cols + cols,
                ) == self.row(r2) by {
                    lemma_flat_index(r2, 0, r as int, cols as int);
                    assert(rebuilt@.subrange(r2 * cols, r2 * cols + cols) =~= before.subrange(
                        r2 * cols,
                        r2 * cols + cols,
                    ));
                }
            }
            r += 1;
        }
        let ghost lead = rebuilt@;
        let mut j: usize = 0;
        while j < cols
            invariant
                j <= cols,
                row@.len() == cols,
                rebuilt@ == lead + row@.subrange(0, j as int),
            decreases cols - j,
        {
            rebuilt.push(row[j]);
            proof {
                assert(rebuilt@ =~= lead + row@.subrange(0, j as int + 1));
            }
            j += 1;
        }
        proof {
            assert(rebuilt@ =~= lead + row@);
            crate::layout::lemma_row_extend(idx as int, cols as int);
            assert forall|r2: int| 0 <= r2 < idx implies #[trigger] rebuilt@.subrange(
                r2 * cols,
                r2 * cols + cols,
            ) == self.row(r2) by {
                lemma_flat_index(r2, 0, idx as int, cols as int);
                assert(rebuilt@.subrange(r2 * cols, r2 * cols + cols) =~= lead.subrange(
                    r2 * cols,
                    r2 * cols + cols,
                ));
            }
        }
        let mut r2: usize = idx;
        while r2 < rows
            invariant
                idx <= r2 <= rows,
                *self == *old(self),
                self.wf(),
                cols == self.spec_cols(),
                rows == self.spec_rows(),
                row@.len() == cols,
                rebuilt@.len() == (r2 + 1) * cols,
                forall|r3: int|
                    0 <= r3 < idx ==> #[trigger] rebuilt@.subrange(r3 * cols, r3 * cols + cols)
                        == self.row(r3),
                rebuilt@.subrange(idx * cols, idx * cols + cols) == row@,
                forall|r3: int|
                    idx < r3 <= r2 ==> #[trigger] rebuilt@.subrange(r3 * cols, r3 * cols + cols)
                        == self.row(r3 - 1),
            decreases rows - r2,
        {
            proof {
                crate::layout::lemma_row_extend(r2 as int + 1, cols as int);
                crate::layout::lemma_row_extend(r2 as int + 2, cols as int);
                lemma_flat_index(r2 as int, 0, rows as int, cols as int);
            }
            let ghost before = rebuilt@;
            self.copy_row_into(r2, &mut rebuilt);
            proof {
                assert forall|r3: int| 0 <= r3 <= r2 implies #[trigger] rebuilt@.subrange(
                    r3 * cols,
                    r3 * cols + cols,
                ) == before.subrange(r3 * cols, r3 * cols + cols) by {
                    lemma_flat_index(r3, 0, r2 as int + 1, cols as int);
                    assert(rebuilt@.subrange(r3 * cols, r3 * cols + cols) =~= before.subrange(
                        r3 * cols,
                        r3 * cols + cols,
                    ));
                }
            }
            r2 += 1;
        }
        proof {
            lemma_vec_len_bound(&self.elements);
            crate::layout::lemma_row_extend(rows as int, cols as int);
            assert(rows as int + 1 <= (rows as int + 1) * (cols as int)) by (nonlinear_arith)
                requires
                    cols as int >= 1,
                    rows as int >= 0,
            ;
        }
        self.elements = rebuilt;
        self.rows = rows + 1;
        proof {
            assert forall|r3: int| 0 <= r3 < idx implies final(self).row(r3) == old(self).row(
                r3,
            ) by {
                assert(final(self).row(r3) =~= final(self).spec_elements().subrange(
                    r3 * cols,
                    r3 * cols + cols,
                ));
            }
            assert(final(self).row(idx as int) =~= final(self).spec_elements().subrange(
                idx as int * cols,
                idx as int * cols + cols,
            ));
            assert forall|r3: int| idx < r3 < rows + 1 implies final(self).row(r3) == old(
                self,
            ).row(r3 - 1) by {
                assert(final(self).row(r3) =~= final(self).spec_elements().subrange(
                    r3 * cols,
                    r3 * cols + cols,
                ));
            }
        }
    }

    /// Appends the bytes of row `r` to `out`.
    #[verifier::rlimit(50)]
    fn copy_row_into(&self, r: usize, out: &mut Vec<u8>)
        requires
            self.wf(),
            r < self.spec_rows(),
        ensures
            final(out)@ == old(out)@ + self.row(r as int),
    {
        proof {
            lemma_flat_index(r as int, 0, self.spec_rows() as int, self.spec_cols() as int);
        }
        let cols = self.cols;
        let ghost start = out@;
        let mut j: usize = 0;
        while j < cols
            invariant
                j <= cols,
                self.wf(),
                r < self.spec_rows(),
                cols == self.spec_cols(),
                out@ == start + self.row(r as int).subrange(0, j as int),
            decreases cols - j,
        {
            proof {
                lemma_flat_index(r as int, 0, self.spec_rows() as int, self.spec_cols() as int);
            }
            out.push(self.get(r, j));
            proof {
                assert(out@ =~= start + self.row(r as int).subrange(0, j as int + 1));
            }
            j += 1;
        }
        proof {
            assert(out@ =~= start + self.row(r as int));
        }
    }


    /// Inserts an already-reduced piece: `working` is zero at every
    /// existing pivot column and before its own first nonzero coefficient
    /// column `cpos`. The row is normalized so its pivot is one, placed at
    /// its pivot position, and its pivot column is cleared from every
    /// other row, so the matrix stays reduced. Every old row's coefficient
    /// prefix, and `working`'s own, lie in the new row span.
    #[verifier::loop_isolation(false)]
    #[verifier::rlimit(100)]
    fn insert_reduced(
        &mut self,
        working: Vec<u8>,
        cpos: usize,
        Ghost(base): Ghost<Seq<Seq<u8>>>,
    )
        requires
            old(self).wf(),
            old(self).is_rref(),
            working@.len() == old(self).spec_cols(),
            old(self).spec_elements().len() + old(self).spec_cols() <= usize::MAX,
            cpos < old(self).spec_coeff_cols(),
            working@[cpos as int] != 0,
            forall|j: int| 0 <= j < cpos ==> working@[j] == 0,
            forall|r: int|
                0 <= r < old(self).spec_rows() ==> working@[pivot_col(
                    #[trigger] old(self).row(r),
                    old(self).spec_coeff_cols() as int,
                )] == 0,
            forall|r: int|
                0 <= r < old(self).spec_rows() ==> in_row_span(
                    #[trigger] old(self).row(r),
                    base,
                    old(self).spec_cols() as int,
                ),
            in_row_span(working@, base, old(self).spec_cols() as int),
        ensures
            final(self).wf(),
            final(self).is_rref(),
            final(self).spec_cols() == old(self).spec_cols(),
            final(self).spec_coeff_cols() == old(self).spec_coeff_cols(),
            final(self).spec_rows() == old(self).spec_rows() + 1,
            forall|r: int|
                0 <= r < final(self).spec_rows() ==> in_row_span(
                    #[trigger] final(self).row(r),
                    base,
                    final(self).spec_cols() as int,
                ),
            forall|r: int|
                0 <= r < old(self).spec_rows() ==> in_row_span(
                    #[trigger] old(self).row(r).take(old(self).spec_coeff_cols() as int),
                    final(self).mat_view(),
                    old(self).spec_coeff_cols() as int,
                ),
            in_row_span(
                working@.take(old(self).spec_coeff_cols() as int),
                final(self).mat_view(),
                old(self).spec_coeff_cols() as int,
            ),
    {
        let k = self.num_pieces_coded_together;
        let cols = self.cols;
        let rows = self.rows;
        let ghost m0 = *self;
        let ghost w = cols as int;
        let ghost ki = k as int;
        let mut working = working;
        let ghost working_orig = working@;

        // Normalize: scale the whole row by the pivot's inverse.
        let pivot_value = working[cpos];
        let pivot_inv = Gf256::inv_const(pivot_value);
        proof {
            lemma_mul_inv(pivot_value);
        }
        let mut j: usize = 0;
        while j < cols
            invariant
                j <= cols,
                working@.len() == cols,
                forall|j2: int|
                    0 <= j2 < j ==> working@[j2] == gf_mul(pivot_inv, working_orig[j2]),
                forall|j2: int| j <= j2 < cols ==> working@[j2] == working_orig[j2],
            decreases cols - j,
        {
            let scaled = Gf256::mul_const(pivot_inv, working[j]);
            working[j] = scaled;
            j += 1;
        }
        let ghost norm = working@;
        proof {
            // The normalized row: pivot one, zeros kept, original recoverable.
            assert(norm =~= Seq::new(w as nat, |j2: int| gf_mul(pivot_inv, working_orig[j2])));
            lemma_mul_comm(pivot_inv, pivot_value);
            assert(norm[cpos as int] == 1);
            assert forall|j2: int| 0 <= j2 < cols && working_orig[j2] == 0 implies norm[j2]
                == 0 by {
                lemma_mul_basic(pivot_inv);
            }
            assert forall|j2: int| 0 <= j2 < cols implies working_orig[j2] == gf_mul(
                pivot_value,
                norm[j2],
            ) by {
                lemma_mul_assoc(pivot_value, pivot_inv, working_orig[j2]);
                lemma_mul_basic(working_orig[j2]);
            }
            lemma_span_scaled(base, w, working_orig, pivot_inv);
            assert(in_row_span(norm, base, w));
        }

        // Insertion position: after every row whose pivot is smaller.
        let mut idx: usize = 0;
        let mut placed = false;
        while idx < rows && !placed
            invariant
                idx <= rows,
                forall|r2: int|
                    0 <= r2 < idx ==> pivot_col(#[trigger] self.row(r2), ki) < cpos,
                placed ==> idx < rows && pivot_col(self.row(idx as int), ki) > cpos,
            decreases rows - idx, (if placed {
                0int
            } else {
                1int
            }),
        {
            let p = self.row_pivot(idx);
            if p < cpos {
                idx += 1;
            } else {
                proof {
                    assert(p != cpos);
                }
                placed = true;
            }
        }
        proof {
            assert forall|r2: int| idx <= r2 < rows implies pivot_col(
                #[trigger] self.row(r2),
                ki,
            ) > cpos by {
                if placed && r2 > idx {
                    assert(pivot_col(self.row(idx as int), ki) < pivot_col(self.row(r2), ki));
                }
            }
        }

        self.insert_row_at(idx, &working);
        let ghost m1 = *self;
        proof {
            // The freshly inserted row's pivot is its first nonzero column.
            lemma_first_nz_at(norm, 0, ki, cpos as int);
            assert(pivot_col(m1.row(idx as int), ki) == cpos);
            // Pivots of the other rows carried over unchanged.
            assert forall|r2: int|
                0 <= r2 < rows + 1 && r2 != idx implies pivot_col(#[trigger] m1.row(r2), ki)
                == pivot_col(m0.row(if r2 < idx {
                r2
            } else {
                r2 - 1
            }), ki) by {}
        }

        // Clear the new pivot column from every other row.
        let total = self.rows;
        let mut e: usize = 0;
        while e < total
            invariant
                e <= total,
                total == rows + 1,
                self.wf(),
                self.spec_rows() == rows + 1,
                self.spec_cols() == cols,
                self.spec_coeff_cols() == k,
                idx < rows + 1,
                forall|r2: int|
                    0 <= r2 < rows + 1 && (r2 == idx || e <= r2) ==> #[trigger] self.row(r2)
                        == m1.row(r2),
                forall|r2: int|
                    0 <= r2 < e && r2 != idx ==> #[trigger] self.row(r2) == Seq::new(
                        w as nat,
                        |j2: int| m1.row(r2)[j2] ^ gf_mul(m1.row(r2)[cpos as int], norm[j2]),
                    ),
                forall|r2: int|
                    0 <= r2 < rows + 1 ==> in_row_span(#[trigger] self.row(r2), base, w),
            decreases total - e,
        {
            if e != idx {
                let alpha = self.get(e, cpos);
                let ghost pre = *self;
                if alpha != 0 {
                    self.add_scaled_row(e, idx, alpha, Ghost(base));
                    proof {
                        lemma_flat_index(e as int, 0, rows as int + 1, w);
                        assert(self.row(e as int) =~= Seq::new(
                            w as nat,
                            |j2: int| m1.row(e as int)[j2] ^ gf_mul(
                                m1.row(e as int)[cpos as int],
                                norm[j2],
                            ),
                        ));
                    }
                } else {
                    proof {
                        lemma_flat_index(e as int, 0, rows as int + 1, w);
                        assert forall|j2: int| 0 <= j2 < w implies m1.row(e as int)[j2] == m1.row(
                            e as int,
                        )[j2] ^ gf_mul(m1.row(e as int)[cpos as int], norm[j2]) by {
                            lemma_mul_basic(norm[j2]);
                            lemma_add_laws(m1.row(e as int)[j2], 0, 0);
                        }
                        assert(self.row(e as int) =~= Seq::new(
                            w as nat,
                            |j2: int| m1.row(e as int)[j2] ^ gf_mul(
                                m1.row(e as int)[cpos as int],
                                norm[j2],
                            ),
                        ));
                    }
                }
            }
            e += 1;
        }

        proof {
            let rows1 = rows as int + 1;
            // Pivot bookkeeping for the final rows: unchanged everywhere.
            assert forall|r2: int| 0 <= r2 < rows1 implies pivot_col(
                #[trigger] self.row(r2),
                ki,
            ) == pivot_col(m1.row(r2), ki) && pivot_col(self.row(r2), ki) < ki && self.row(
                r2,
            )[pivot_col(self.row(r2), ki)] == 1 by {
                if r2 == idx {
                    assert(self.row(r2) == m1.row(r2));
                } else {
                    let p2 = pivot_col(m1.row(r2), ki);
                    let alpha = m1.row(r2)[cpos as int];
                    lemma_first_nz_props(m1.row(r2), 0, ki);
                    if p2 > cpos {
                        assert(m1.row(r2)[cpos as int] == 0);
                        assert forall|j2: int| 0 <= j2 < w implies self.row(r2)[j2] == m1.row(
                            r2,
                        )[j2] by {
                            lemma_mul_basic(norm[j2]);
                            lemma_add_laws(m1.row(r2)[j2], 0, 0);
                        }
                        lemma_first_nz_congruent(self.row(r2), m1.row(r2), 0, ki);
                    } else {
                        assert(p2 != cpos);
                        assert forall|j2: int| 0 <= j2 <= p2 implies self.row(r2)[j2] == m1.row(
                            r2,
                        )[j2] by {
                            assert(norm[j2] == 0);
                            lemma_mul_basic(alpha);
                            lemma_add_laws(m1.row(r2)[j2], 0, 0);
                        }
                        lemma_first_nz_at(self.row(r2), 0, ki, p2);
                    }
                }
            }
            // Elementary pivot columns.
            assert forall|r2: int, r3: int|
                0 <= r2 < rows1 && 0 <= r3 < rows1 && r3 != r2 implies #[trigger] self.row(
                r3,
            )[pivot_col(self.row(r2), ki)] == 0 by {
                let p2 = pivot_col(self.row(r2), ki);
                if r2 == idx {
                    assert(p2 == cpos);
                    let alpha = m1.row(r3)[cpos as int];
                    assert(self.row(r3)[p2] == alpha ^ gf_mul(alpha, norm[cpos as int]));
                    lemma_mul_basic(alpha);
                    lemma_add_laws(alpha, alpha, 0);
                } else {
                    assert(p2 == pivot_col(m1.row(r2), ki));
                    lemma_first_nz_props(self.row(r2), 0, ki);
                    let ro2 = if r2 < idx {
                        r2
                    } else {
                        r2 - 1
                    };
                    assert(m1.row(r2) == m0.row(ro2));
                    assert(working_orig[pivot_col(m0.row(ro2), ki)] == 0);
                    assert(norm[p2] == 0);
                    assert(m1.row(idx as int)[p2] == 0);
                    if r3 == idx {
                        assert(self.row(r3) == m1.row(r3));
                    } else {
                        let alpha3 = m1.row(r3)[cpos as int];
                        assert(self.row(r3) == Seq::new(
                            w as nat,
                            |j2: int| m1.row(r3)[j2] ^ gf_mul(alpha3, norm[j2]),
                        ));
                        assert(self.row(r3)[p2] == m1.row(r3)[p2] ^ gf_mul(alpha3, norm[p2]));
                        let ro3 = if r3 < idx {
                            r3
                        } else {
                            r3 - 1
                        };
                        assert(m1.row(r3) == m0.row(ro3));
                        assert(ro3 != ro2);
                        assert(m1.row(r3)[p2] == 0);
                        lemma_mul_basic(alpha3);
                        lemma_add_laws(0, 0, 0);
                    }
                }
            }
            // Sorted pivots.
            assert forall|r2: int, r3: int|
                #![trigger pivot_col(self.row(r2), ki), pivot_col(self.row(r3), ki)]
                0 <= r2 < r3 < rows1 implies pivot_col(self.row(r2), ki) < pivot_col(
                self.row(r3),
                ki,
            ) by {
                if r3 == idx {
                    assert(pivot_col(m1.row(r2), ki) < cpos);
                } else if r2 == idx {
                    assert(pivot_col(m1.row(r3), ki) > cpos);
                } else if r3 < idx || r2 >= idx {
                    assert(pivot_col(m0.row(if r2 < idx {
                        r2
                    } else {
                        r2 - 1
                    }), ki) < pivot_col(m0.row(if r3 < idx {
                        r3
                    } else {
                        r3 - 1
                    }), ki));
                } else {
                    assert(pivot_col(m1.row(r2), ki) < cpos);
                    assert(pivot_col(m1.row(r3), ki) > cpos);
                }
            }
            assert(self.is_rref());
            // Old rows, coefficient part, stay reachable: each equals its
            // eliminated form plus a multiple of the inserted row.
            assert forall|ro: int| 0 <= ro < rows implies in_row_span(
                #[trigger] m0.row(ro).take(ki),
                self.mat_view(),
                ki,
            ) by {
                let mi = if ro < idx {
                    ro
                } else {
                    ro + 1
                };
                let alpha = m1.row(mi)[cpos as int];
                lemma_flat_index(mi, 0, rows as int + 1, w);
                lemma_flat_index(idx as int, 0, rows as int + 1, w);
                assert(self.mat_view()[mi] == self.row(mi));
                assert(self.mat_view()[idx as int] == self.row(idx as int));
                lemma_row_prefix_in_own_span(self.mat_view(), ki, mi);
                lemma_row_prefix_in_own_span(self.mat_view(), ki, idx as int);
                lemma_span_add_scaled(
                    self.mat_view(),
                    ki,
                    self.row(mi).take(ki),
                    self.row(idx as int).take(ki),
                    alpha,
                );
                assert(m0.row(ro) == m1.row(mi));
                assert forall|j2: int| 0 <= j2 < ki implies m1.row(mi)[j2] == self.row(mi)[j2]
                    ^ gf_mul(alpha, self.row(idx as int)[j2]) by {
                    if mi == idx as int {
                        assert(false);
                    } else {
                        assert(self.row(mi)[j2] == m1.row(mi)[j2] ^ gf_mul(alpha, norm[j2]));
                        assert(self.row(idx as int)[j2] == norm[j2]);
                        lemma_add_laws(m1.row(mi)[j2], gf_mul(alpha, norm[j2]), 0);
                        lemma_add_laws(gf_mul(alpha, norm[j2]), gf_mul(alpha, norm[j2]), 0);
                        assert((m1.row(mi)[j2] ^ gf_mul(alpha, norm[j2])) ^ gf_mul(alpha, norm[j2])
                            == m1.row(mi)[j2] ^ (gf_mul(alpha, norm[j2]) ^ gf_mul(
                            alpha,
                            norm[j2],
                        ))) by {
                            lemma_xor_assoc_helper(
                                m1.row(mi)[j2],
                                gf_mul(alpha, norm[j2]),
                                gf_mul(alpha, norm[j2]),
                            );
                        }
                    }
                }
                assert(m0.row(ro).take(ki) =~= Seq::new(
                    ki as nat,
                    |j2: int| self.row(mi).take(ki)[j2] ^ gf_mul(
                        alpha,
                        self.row(idx as int).take(ki)[j2],
                    ),
                ));
            }
            // The piece's own coefficient part: the pivot value times the
            // inserted row.
            lemma_flat_index(idx as int, 0, rows as int + 1, w);
            assert(self.mat_view()[idx as int] == self.row(idx as int));
            lemma_row_prefix_in_own_span(self.mat_view(), ki, idx as int);
            lemma_span_scaled(
                self.mat_view(),
                ki,
                self.row(idx as int).take(ki),
                pivot_value,
            );
            assert(working_orig.take(ki) =~= Seq::new(
                ki as nat,
                |j2: int| gf_mul(pivot_value, self.row(idx as int).take(ki)[j2]),
            ));
        }
    }


    /// Consumes one full coded piece for elimination: reduces it against
    /// every existing pivot and, when a nonzero coefficient survives,
    /// inserts the reduced row and clears its pivot column, growing the
    /// rank by one; otherwise the matrix is left untouched. The returned
    /// flag decides linear independence exactly: the piece is useful if
    /// and only if its coefficient prefix lies outside the width-`k` row
    /// span of the matrix as it was.
    #[verifier::loop_isolation(false)]
    #[verifier::rlimit(100)]
    pub(crate) fn integrate(&mut self, piece: &[u8], Ghost(base): Ghost<Seq<Seq<u8>>>) -> (useful:
        bool)
        requires
            old(self).wf(),
            old(self).is_rref(),
            piece@.len() == old(self).spec_cols(),
            old(self).spec_elements().len() + old(self).spec_cols() <= usize::MAX,
            forall|r: int|
                0 <= r < old(self).spec_rows() ==> in_row_span(
                    #[trigger] old(self).row(r),
                    base,
                    old(self).spec_cols() as int,
                ),
            in_row_span(piece@, base, old(self).spec_cols() as int),
        ensures
            final(self).wf(),
            final(self).is_rref(),
            final(self).spec_cols() == old(self).spec_cols(),
            final(self).spec_coeff_cols() == old(self).spec_coeff_cols(),
            useful <==> !in_row_span(
                piece@.take(old(self).spec_coeff_cols() as int),
                old(self).mat_view(),
                old(self).spec_coeff_cols() as int,
            ),
            !useful ==> *final(self) == *old(self),
            useful ==> final(self).spec_rows() == old(self).spec_rows() + 1,
            forall|r: int|
                0 <= r < final(self).spec_rows() ==> in_row_span(
                    #[trigger] final(self).row(r),
                    base,
                    final(self).spec_cols() as int,
                ),
            forall|r: int|
                0 <= r < old(self).spec_rows() ==> in_row_span(
                    #[trigger] old(self).row(r).take(old(self).spec_coeff_cols() as int),
                    final(self).mat_view(),
                    old(self).spec_coeff_cols() as int,
                ),
            in_row_span(
                piece@.take(old(self).spec_coeff_cols() as int),
                final(self).mat_view(),
                old(self).spec_coeff_cols() as int,
            ),
    {
        let k = self.num_pieces_coded_together;
        let cols = self.cols;
        let rows = self.rows;
        let ghost m0 = *self;
        let ghost w = cols as int;
        let ghost ki = k as int;

        let mut working: Vec<u8> = Vec::new();
        let mut j: usize = 0;
        while j < cols
            invariant
                j <= cols,
                working@ == piece@.subrange(0, j as int),
            decreases cols - j,
        {
            working.push(piece[j]);
            proof {
                assert(working@ =~= piece@.subrange(0, j as int + 1));
            }
            j += 1;
        }
        proof {
            assert(working@ =~= piece@);
        }

        // Reduce the piece against every pivot in turn.
        let ghost mut cs: Seq<u8> = Seq::new(rows as nat, |t: int| 0u8);
        proof {
            assert forall|j2: int| 0 <= j2 < cols implies piece@[j2] == working@[j2]
                ^ rows_comb_byte(m0.mat_view(), cs, j2, 0) by {
                lemma_add_laws(piece@[j2], 0, 0);
            }
        }
        let mut r: usize = 0;
        while r < rows
            invariant
                r <= rows,
                *self == m0,
                working@.len() == cols,
                cs.len() == rows,
                forall|t: int| r <= t < rows ==> cs[t] == 0,
                forall|j2: int|
                    0 <= j2 < cols ==> piece@[j2] == working@[j2] ^ rows_comb_byte(
                        m0.mat_view(),
                        cs,
                        j2,
                        r as int,
                    ),
                forall|t: int|
                    0 <= t < r ==> working@[pivot_col(#[trigger] m0.row(t), ki)] == 0,
                in_row_span(working@, base, w),
            decreases rows - r,
        {
            let c = self.row_pivot(r);
            proof {
                lemma_first_nz_props(m0.row(r as int), 0, ki);
            }
            let q = working[c];
            let ghost cs_old = cs;
            let ghost working_old = working@;
            proof {
                cs = cs.update(r as int, q);
            }
            if q != 0 {
                let mut j2: usize = 0;
                while j2 < cols
                    invariant
                        j2 <= cols,
                        *self == m0,
                        r < rows,
                        working@.len() == cols,
                        forall|j3: int|
                            0 <= j3 < j2 ==> working@[j3] == working_old[j3] ^ gf_mul(
                                q,
                                m0.row(r as int)[j3],
                            ),
                        forall|j3: int| j2 <= j3 < cols ==> working@[j3] == working_old[j3],
                    decreases cols - j2,
                {
                    proof {
                        lemma_flat_index(r as int, 0, rows as int, w);
                    }
                    let updated = working[j2] ^ Gf256::mul_const(q, self.get(r, j2));
                    working[j2] = updated;
                    j2 += 1;
                }
                proof {
                    lemma_flat_index(r as int, 0, rows as int, w);
                    assert(working@ =~= Seq::new(
                        w as nat,
                        |j3: int| working_old[j3] ^ gf_mul(q, m0.row(r as int)[j3]),
                    ));
                    lemma_span_add_scaled(base, w, working_old, m0.row(r as int), q);
                    assert(in_row_span(working@, base, w));
                }
            } else {
                proof {
                    assert forall|j3: int| 0 <= j3 < cols implies working@[j3] == working_old[j3]
                        ^ gf_mul(q, m0.row(r as int)[j3]) by {
                        lemma_mul_basic(m0.row(r as int)[j3]);
                        lemma_add_laws(working_old[j3], 0, 0);
                    }
                }
            }
            proof {
                // The decomposition of the piece moves one row forward.
                assert forall|j2: int| 0 <= j2 < cols implies piece@[j2] == working@[j2]
                    ^ rows_comb_byte(m0.mat_view(), cs, j2, r as int + 1) by {
                    lemma_rows_comb_agree(m0.mat_view(), cs_old, cs, j2, r as int);
                    let comb_r = rows_comb_byte(m0.mat_view(), cs, j2, r as int);
                    let term = gf_mul(q, m0.row(r as int)[j2]);
                    assert(m0.mat_view()[r as int] == m0.row(r as int));
                    assert(rows_comb_byte(m0.mat_view(), cs, j2, r as int + 1) == comb_r ^ term);
                    assert(piece@[j2] == working_old[j2] ^ rows_comb_byte(
                        m0.mat_view(),
                        cs_old,
                        j2,
                        r as int,
                    ));
                    assert(piece@[j2] == working_old[j2] ^ comb_r);
                    assert(working@[j2] == working_old[j2] ^ term);
                    lemma_xor_assoc_helper(working_old[j2], term, term);
                    lemma_add_laws(term, term, 0);
                    lemma_add_laws(working_old[j2], 0, 0);
                    assert(working@[j2] ^ term == working_old[j2]);
                    assert(piece@[j2] == (working@[j2] ^ term) ^ comb_r);
                    lemma_xor_assoc_helper(working@[j2], term, comb_r);
                    lemma_add_laws(term, comb_r, 0);
                }
                // Pivots stay cleared, and the current one is now cleared.
                assert forall|t: int| 0 <= t < r + 1 implies working@[pivot_col(
                    #[trigger] m0.row(t),
                    ki,
                )] == 0 by {
                    let pt = pivot_col(m0.row(t), ki);
                    lemma_first_nz_props(m0.row(t), 0, ki);
                    if t < r {
                        assert(m0.row(r as int)[pt] == 0);
                        lemma_mul_basic(q);
                        lemma_add_laws(0, 0, 0);
                    } else {
                        assert(m0.row(r as int)[pt] == 1);
                        lemma_mul_basic(q);
                        lemma_add_laws(q, q, 0);
                    }
                }
            }
            r += 1;
        }

        // Scan the reduced coefficient part for a surviving pivot.
        let mut cpos: usize = 0;
        let mut found = false;
        while cpos < k && !found
            invariant
                cpos <= k,
                working@.len() == cols,
                found ==> cpos < k && working@[cpos as int] != 0,
                forall|j2: int| 0 <= j2 < cpos ==> working@[j2] == 0,
            decreases k - cpos, (if found {
                0int
            } else {
                1int
            }),
        {
            if working[cpos] != 0 {
                found = true;
            } else {
                cpos += 1;
            }
        }

        if !found {
            proof {
                // The whole coefficient part reduced to zero: the piece's
                // coefficients are a combination of the rows.
                assert forall|j2: int| 0 <= j2 < ki implies piece@.take(ki)[j2] == rows_comb_byte(
                    m0.mat_view(),
                    cs,
                    j2,
                    rows as int,
                ) by {
                    lemma_add_laws(rows_comb_byte(m0.mat_view(), cs, j2, rows as int), 0, 0);
                }
                assert(is_row_combination(piece@.take(ki), m0.mat_view(), ki, cs));
                assert(in_row_span(piece@.take(ki), m0.mat_view(), ki));
                assert forall|r2: int| 0 <= r2 < rows implies in_row_span(
                    #[trigger] m0.row(r2).take(ki),
                    self.mat_view(),
                    ki,
                ) by {
                    lemma_flat_index(r2, 0, rows as int, w);
                    assert(self.mat_view()[r2] == m0.row(r2));
                    lemma_row_prefix_in_own_span(self.mat_view(), ki, r2);
                }
            }
            return false;
        }

        proof {
            // A surviving nonzero coefficient means the piece is outside
            // the span: otherwise the residue would be a combination that
            // is zero at every pivot, hence zero everywhere.
            if in_row_span(piece@.take(ki), m0.mat_view(), ki) {
                let cs2 = choose|cs2: Seq<u8>|
                    is_row_combination(piece@.take(ki), m0.mat_view(), ki, cs2);
                let mixed = Seq::new(rows as nat, |t: int| cs2[t] ^ gf_mul(1, cs[t]));
                assert forall|j2: int| 0 <= j2 < ki implies working@.take(ki)[j2]
                    == rows_comb_byte(m0.mat_view(), mixed, j2, rows as int) by {
                    lemma_rows_comb_mix(m0.mat_view(), cs2, cs, 1, j2, rows as int);
                    let comb1 = rows_comb_byte(m0.mat_view(), cs2, j2, rows as int);
                    let comb2 = rows_comb_byte(m0.mat_view(), cs, j2, rows as int);
                    lemma_mul_basic(comb2);
                    assert(piece@[j2] == working@[j2] ^ comb2);
                    assert(piece@[j2] == comb1);
                    lemma_xor_assoc_helper(working@[j2], comb2, comb2);
                    lemma_add_laws(comb2, comb2, 0);
                    lemma_add_laws(working@[j2], 0, 0);
                }
                assert forall|r2: int| 0 <= r2 < rows implies working@.take(ki)[pivot_col(
                    #[trigger] m0.row(r2),
                    ki,
                )] == 0 by {
                    lemma_first_nz_props(m0.row(r2), 0, ki);
                }
                m0.lemma_residue_zero(working@.take(ki), mixed);
                assert(working@.take(ki)[cpos as int] == 0);
                assert(false);
            }
        }
        let ghost working_now = working@;
        self.insert_reduced(working, cpos, Ghost(base));
        proof {
            // The piece's coefficients combine the old rows and its own
            // reduced residue, all of which lie in the final row span.
            let mid = Seq::new(rows as nat, |t: int| m0.row(t).take(ki)).push(
                working_now.take(ki),
            );
            let mid_cs = cs.push(1);
            assert forall|j2: int| 0 <= j2 < ki implies piece@.take(ki)[j2] == rows_comb_byte(
                mid,
                mid_cs,
                j2,
                rows as int + 1,
            ) by {
                let prefix = Seq::new(rows as nat, |t: int| m0.row(t).take(ki));
                lemma_rows_comb_push_agree(prefix, working_now.take(ki), cs, 1, j2, rows as int);
                assert forall|t: int| 0 <= t < rows implies #[trigger] prefix[t][j2]
                    == m0.mat_view()[t][j2] by {
                    lemma_flat_index(t, 0, rows as int, w);
                }
                lemma_rows_comb_entrywise(prefix, m0.mat_view(), cs, j2, rows as int);
                assert(mid[rows as int] == working_now.take(ki));
                lemma_mul_basic(working_now.take(ki)[j2]);
                lemma_add_laws(
                    rows_comb_byte(m0.mat_view(), cs, j2, rows as int),
                    working_now[j2],
                    0,
                );
            }
            assert(is_row_combination(piece@.take(ki), mid, ki, mid_cs));
            assert forall|t: int| 0 <= t < mid.len() implies in_row_span(
                #[trigger] mid[t],
                self.mat_view(),
                ki,
            ) by {
                if t < rows {
                    assert(mid[t] == m0.row(t).take(ki));
                } else {
                    assert(mid[t] == working_now.take(ki));
                }
            }
            lemma_span_transitive(piece@.take(ki), mid, self.mat_view(), ki);
        }
        true
    }

    /// Adds `q` times row `src` into row `dst` across the whole row. Every
    /// other row keeps its contents, and all rows stay inside the row
    /// space of `base` when they started in it.
    fn add_scaled_row(&mut self, dst: usize, src: usize, q: u8, Ghost(base): Ghost<Seq<Seq<u8>>>)
        requires
            old(self).wf(),
            dst < old(self).spec_rows(),
            src < old(self).spec_rows(),
            dst != src,
            forall|r: int|
                0 <= r < old(self).spec_rows() ==> in_row_span(
                    #[trigger] old(self).row(r),
                    base,
                    old(self).spec_cols() as int,
                ),
        ensures
            final(self).wf(),
            final(self).spec_rows() == old(self).spec_rows(),
            final(self).spec_cols() == old(self).spec_cols(),
            final(self).spec_coeff_cols() == old(self).spec_coeff_cols(),
            forall|r: int|
                0 <= r < final(self).spec_rows() && r != dst ==> final(self).row(r) == old(
                    self,
                ).row(r),
            forall|c: int|
                0 <= c < final(self).spec_cols() ==> final(self).row(dst as int)[c] == gf_add(
                    old(self).row(dst as int)[c],
                    gf_mul(q, old(self).row(src as int)[c]),
                ),
            forall|r: int|
                0 <= r < final(self).spec_rows() ==> in_row_span(
                    #[trigger] final(self).row(r),
                    base,
                    final(self).spec_cols() as int,
                ),
    {
        let ghost w = old(self).spec_cols() as int;
        let cols = self.cols;
        let mut cidx: usize = 0;
        while cidx < cols
            invariant
                self.wf(),
                cols == self.spec_cols(),
                self.spec_rows() == old(self).spec_rows(),
                self.spec_cols() == old(self).spec_cols(),
                self.spec_coeff_cols() == old(self).spec_coeff_cols(),
                dst < self.spec_rows(),
                src < self.spec_rows(),
                dst != src,
                cidx <= cols,
                forall|r: int|
                    0 <= r < self.spec_rows() && r != dst ==> self.row(r) == old(self).row(r),
                forall|c: int|
                    0 <= c < cidx ==> self.row(dst as int)[c] == gf_add(
                        old(self).row(dst as int)[c],
                        gf_mul(q, old(self).row(src as int)[c]),
                    ),
                forall|c: int| cidx <= c < cols ==> self.row(dst as int)[c] == old(self).row(
                    dst as int,
                )[c],
            decreases cols - cidx,
        {
            proof {
                lemma_flat_index(dst as int, 0, self.spec_rows() as int, self.spec_cols() as int);
                lemma_flat_index(src as int, 0, self.spec_rows() as int, self.spec_cols() as int);
            }
            let updated = self.get(dst, cidx) ^ Gf256::mul_const(q, self.get(src, cidx));
            self.set(dst, cidx, updated);
            cidx += 1;
        }
        proof {
            lemma_flat_index(dst as int, 0, self.spec_rows() as int, self.spec_cols() as int);
            lemma_flat_index(src as int, 0, self.spec_rows() as int, self.spec_cols() as int);
            let target = Seq::new(
                w as nat,
                |c: int| old(self).row(dst as int)[c] ^ gf_mul(q, old(self).row(src as int)[c]),
            );
            assert(self.row(dst as int) =~= target);
            assert forall|r: int| 0 <= r < self.spec_rows() implies in_row_span(
                #[trigger] self.row(r),
                base,
                w,
            ) by {
                if r == dst as int {
                    lemma_span_add_scaled(
                        base,
                        w,
                        old(self).row(dst as int),
                        old(self).row(src as int),
                        q,
                    );
                }
            }
        }
    }





    /// Brings the matrix to reduced row echelon form over the coefficient
    /// columns, compacting away every row whose coefficients reduce to
    /// zero: each row is reduced against the pivots gathered so far and
    /// kept only when a nonzero coefficient survives. Afterwards the row
    /// count — the rank — has not grown, every surviving row carries an
    /// equation, the survivors lie in the old row space, and every old
    /// row's coefficient prefix lies in the survivors' row space.
    #[verifier::loop_isolation(false)]
    #[verifier::rlimit(100)]
    pub fn rref(&mut self)
        requires
            old(self).wf(),
        ensures
            final(self).wf(),
            final(self).is_rref(),
            final(self).spec_cols() == old(self).spec_cols(),
            final(self).spec_coeff_cols() == old(self).spec_coeff_cols(),
            final(self).spec_rows() <= old(self).spec_rows(),
            forall|r: int|
                0 <= r < final(self).spec_rows() ==> has_nonzero_coeff(
                    #[trigger] final(self).row(r),
                    final(self).spec_coeff_cols() as int,
                ),
            forall|r: int|
                0 <= r < final(self).spec_rows() ==> in_row_span(
                    #[trigger] final(self).row(r),
                    old(self).mat_view(),
                    old(self).spec_cols() as int,
                ),
            forall|r: int|
                0 <= r < old(self).spec_rows() ==> in_row_span(
                    #[trigger] old(self).row(r).take(old(self).spec_coeff_cols() as int),
                    final(self).mat_view(),
                    old(self).spec_coeff_cols() as int,
                ),
    {
        let k = self.num_pieces_coded_together;
        let cols = self.cols;
        let rows = self.rows;
        let ghost base = self.mat_view();
        let ghost w = cols as int;
        let ghost ki = k as int;
        proof {
            lemma_vec_len_bound(&self.elements);
        }
        let mut reduced = DecoderMatrix::new(k, cols - k);
        let mut r: usize = 0;
        while r < rows
            invariant
                r <= rows,
                reduced.wf(),
                reduced.is_rref(),
                reduced.spec_cols() == cols,
                reduced.spec_coeff_cols() == k,
                reduced.spec_rows() <= r,
                forall|r2: int|
                    0 <= r2 < reduced.spec_rows() ==> in_row_span(
                        #[trigger] reduced.row(r2),
                        base,
                        w,
                    ),
                forall|r2: int|
                    0 <= r2 < r ==> in_row_span(
                        #[trigger] self.row(r2).take(ki),
                        reduced.mat_view(),
                        ki,
                    ),
            decreases rows - r,
        {
            let mut row_buf: Vec<u8> = Vec::new();
            self.copy_row_into(r, &mut row_buf);
            proof {
                lemma_flat_index(r as int, 0, rows as int, w);
                assert(base[r as int] == self.row(r as int));
                lemma_row_in_own_span(base, w, r as int);
                lemma_row_extend(reduced.spec_rows() as int, w);
                lemma_vec_len_bound(&self.elements);
                assert((reduced.spec_rows() as int + 1) * w <= rows as int * w)
                    by (nonlinear_arith)
                    requires
                        reduced.spec_rows() as int + 1 <= rows as int,
                        w >= 0,
                ;
            }
            let ghost reduced_before = reduced;
            let useful = reduced.integrate(row_buf.as_slice(), Ghost(base));
            proof {
                assert forall|r2: int| 0 <= r2 < r + 1 implies in_row_span(
                    #[trigger] self.row(r2).take(ki),
                    reduced.mat_view(),
                    ki,
                ) by {
                    if r2 < r {
                        assert forall|t: int|
                            0 <= t < reduced_before.mat_view().len() implies #[trigger] reduced_before.mat_view()[t].len()
                            >= ki by {
                            lemma_flat_index(t, 0, reduced_before.spec_rows() as int, w);
                        }
                        assert forall|t: int|
                            0 <= t < reduced_before.mat_view().len() implies in_row_span(
                            #[trigger] reduced_before.mat_view()[t].take(ki),
                            reduced.mat_view(),
                            ki,
                        ) by {
                            assert(reduced_before.mat_view()[t] == reduced_before.row(t));
                        }
                        lemma_span_transitive_prefix(
                            self.row(r2).take(ki),
                            reduced_before.mat_view(),
                            reduced.mat_view(),
                            ki,
                        );
                    }
                }
            }
            r += 1;
        }
        proof {
            assert forall|r2: int| 0 <= r2 < reduced.spec_rows() implies has_nonzero_coeff(
                #[trigger] reduced.row(r2),
                ki,
            ) by {
                let p = pivot_col(reduced.row(r2), ki);
                lemma_first_nz_props(reduced.row(r2), 0, ki);
                assert(reduced.row(r2)[p] != 0);
            }
        }
        *self = reduced;
    }
}



} // verus!
