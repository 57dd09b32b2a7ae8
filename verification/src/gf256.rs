//! Scalar arithmetic over GF(2^8).
//!
//! Field elements are bytes read as polynomials over GF(2) modulo the
//! irreducible polynomial `x^8 + x^4 + x^3 + x^2 + 1` (0x11D), for which
//! `x` (the byte 2) is a primitive element. Addition is XOR; multiplication
//! and inversion go through logarithm and exponentiation tables for that
//! primitive element. The exponentiation table holds two periods of the
//! multiplicative group so that a sum of two logarithms (at most 508) can
//! index it directly, with no reduction modulo 255.

use vstd::prelude::*;

verus! {

/// Discrete logarithms base 2 of every nonzero field element; entry 0 is
/// unused and set to 0.
pub const GF256_LOG_TABLE: [u8; 256] = [
    0, 0, 1, 25, 2, 50, 26, 198, 3, 223, 51, 238, 27, 104, 199, 75,
    4, 100, 224, 14, 52, 141, 239, 129, 28, 193, 105, 248, 200, 8, 76, 113,
    5, 138, 101, 47, 225, 36, 15, 33, 53, 147, 142, 218, 240, 18, 130, 69,
    29, 181, 194, 125, 106, 39, 249, 185, 201, 154, 9, 120, 77, 228, 114, 166,
    6, 191, 139, 98, 102, 221, 48, 253, 226, 152, 37, 179, 16, 145, 34, 136,
    54, 208, 148, 206, 143, 150, 219, 189, 241, 210, 19, 92, 131, 56, 70, 64,
    30, 66, 182, 163, 195, 72, 126, 110, 107, 58, 40, 84, 250, 133, 186, 61,
    202, 94, 155, 159, 10, 21, 121, 43, 78, 212, 229, 172, 115, 243, 167, 87,
    7, 112, 192, 247, 140, 128, 99, 13, 103, 74, 222, 237, 49, 197, 254, 24,
    227, 165, 153, 119, 38, 184, 180, 124, 17, 68, 146, 217, 35, 32, 137, 46,
    55, 63, 209, 91, 149, 188, 207, 205, 144, 135, 151, 178, 220, 252, 190, 97,
    242, 86, 211, 171, 20, 42, 93, 158, 132, 60, 57, 83, 71, 109, 65, 162,
    31, 45, 67, 216, 183, 123, 164, 118, 196, 23, 73, 236, 127, 12, 111, 246,
    108, 161, 59, 82, 41, 157, 85, 170, 251, 96, 134, 177, 187, 204, 62, 90,
    203, 89, 95, 176, 156, 169, 160, 81, 11, 245, 22, 235, 122, 117, 44, 215,
    79, 174, 213, 233, 230, 231, 173, 232, 116, 214, 244, 234, 168, 80, 88, 175,
];

/// Powers of the primitive element 2: two copies of the 255-long period,
/// so indices up to 509 are valid.
pub const GF256_EXP_TABLE: [u8; 510] = [
    1, 2, 4, 8, 16, 32, 64, 128, 29, 58, 116, 232, 205, 135, 19, 38,
    76, 152, 45, 90, 180, 117, 234, 201, 143, 3, 6, 12, 24, 48, 96, 192,
    157, 39, 78, 156, 37, 74, 148, 53, 106, 212, 181, 119, 238, 193, 159, 35,
    70, 140, 5, 10, 20, 40, 80, 160, 93, 186, 105, 210, 185, 111, 222, 161,
    95, 190, 97, 194, 153, 47, 94, 188, 101, 202, 137, 15, 30, 60, 120, 240,
    253, 231, 211, 187, 107, 214, 177, 127, 254, 225, 223, 163, 91, 182, 113, 226,
    217, 175, 67, 134, 17, 34, 68, 136, 13, 26, 52, 104, 208, 189, 103, 206,
    129, 31, 62, 124, 248, 237, 199, 147, 59, 118, 236, 197, 151, 51, 102, 204,
    133, 23, 46, 92, 184, 109, 218, 169, 79, 158, 33, 66, 132, 21, 42, 84,
    168, 77, 154, 41, 82, 164, 85, 170, 73, 146, 57, 114, 228, 213, 183, 115,
    230, 209, 191, 99, 198, 145, 63, 126, 252, 229, 215, 179, 123, 246, 241, 255,
    227, 219, 171, 75, 150, 49, 98, 196, 149, 55, 110, 220, 165, 87, 174, 65,
    130, 25, 50, 100, 200, 141, 7, 14, 28, 56, 112, 224, 221, 167, 83, 166,
    81, 162, 89, 178, 121, 242, 249, 239, 195, 155, 43, 86, 172, 69, 138, 9,
    18, 36, 72, 144, 61, 122, 244, 245, 247, 243, 251, 235, 203, 139, 11, 22,
    44, 88, 176, 125, 250, 233, 207, 131, 27, 54, 108, 216, 173, 71, 142, 1,
    2, 4, 8, 16, 32, 64, 128, 29, 58, 116, 232, 205, 135, 19, 38, 76,
    152, 45, 90, 180, 117, 234, 201, 143, 3, 6, 12, 24, 48, 96, 192, 157,
    39, 78, 156, 37, 74, 148, 53, 106, 212, 181, 119, 238, 193, 159, 35, 70,
    140, 5, 10, 20, 40, 80, 160, 93, 186, 105, 210, 185, 111, 222, 161, 95,
    190, 97, 194, 153, 47, 94, 188, 101, 202, 137, 15, 30, 60, 120, 240, 253,
    231, 211, 187, 107, 214, 177, 127, 254, 225, 223, 163, 91, 182, 113, 226, 217,
    175, 67, 134, 17, 34, 68, 136, 13, 26, 52, 104, 208, 189, 103, 206, 129,
    31, 62, 124, 248, 237, 199, 147, 59, 118, 236, 197, 151, 51, 102, 204, 133,
    23, 46, 92, 184, 109, 218, 169, 79, 158, 33, 66, 132, 21, 42, 84, 168,
    77, 154, 41, 82, 164, 85, 170, 73, 146, 57, 114, 228, 213, 183, 115, 230,
    209, 191, 99, 198, 145, 63, 126, 252, 229, 215, 179, 123, 246, 241, 255, 227,
    219, 171, 75, 150, 49, 98, 196, 149, 55, 110, 220, 165, 87, 174, 65, 130,
    25, 50, 100, 200, 141, 7, 14, 28, 56, 112, 224, 221, 167, 83, 166, 81,
    162, 89, 178, 121, 242, 249, 239, 195, 155, 43, 86, 172, 69, 138, 9, 18,
    36, 72, 144, 61, 122, 244, 245, 247, 243, 251, 235, 203, 139, 11, 22, 44,
    88, 176, 125, 250, 233, 207, 131, 27, 54, 108, 216, 173, 71, 142,
];

/// Field addition: XOR of the two bytes.
pub open spec fn gf_add(a: u8, b: u8) -> u8 {
    a ^ b
}

/// Table logarithm of `a`; meaningful only for `a != 0`.
pub open spec fn gf_log(a: u8) -> u8 {
    GF256_LOG_TABLE@[a as int]
}

/// Table power of the primitive element.
pub open spec fn gf_exp_at(i: int) -> u8
    recommends
        0 <= i < 510,
{
    GF256_EXP_TABLE@[i]
}

/// Field multiplication through the logarithm and exponentiation tables.
pub open spec fn gf_mul(a: u8, b: u8) -> u8 {
    if a == 0 || b == 0 {
        0
    } else {
        gf_exp_at(gf_log(a) + gf_log(b))
    }
}

/// Multiplicative inverse; meaningful only for `a != 0`.
pub open spec fn gf_inv(a: u8) -> u8
    recommends
        a != 0,
{
    gf_exp_at(255 - gf_log(a))
}

/// Field division `a / b`; meaningful only for `b != 0`.
pub open spec fn gf_div(a: u8, b: u8) -> u8
    recommends
        b != 0,
{
    gf_mul(a, gf_inv(b))
}

/// The exponentiation table never yields zero: its entries enumerate the
/// multiplicative group.
pub proof fn lemma_exp_nonzero()
    ensures
        forall|i: int| 0 <= i < 510 ==> #[trigger] gf_exp_at(i) != 0,
{
}

/// Every table logarithm is below the group order 255.
pub proof fn lemma_log_below_order()
    ensures
        forall|a: u8| #[trigger] gf_log(a) < 255,
{
}

/// The logarithm table inverts the exponentiation table on one period.
pub proof fn lemma_log_of_exp()
    ensures
        forall|i: int| 0 <= i < 255 ==> gf_log(#[trigger] gf_exp_at(i)) == i,
{
}

/// The exponentiation table inverts the logarithm table on nonzero bytes.
pub proof fn lemma_exp_of_log()
    ensures
        forall|a: u8| a != 0 ==> gf_exp_at(#[trigger] gf_log(a) as int) == a,
{
}

/// The exponentiation table repeats with period 255.
pub proof fn lemma_exp_periodic()
    ensures
        forall|i: int| 0 <= i < 255 ==> #[trigger] gf_exp_at(i + 255) == gf_exp_at(i),
{
}

/// Sum of two logarithms reduced into one period of the group.
pub open spec fn add_log(x: int, y: int) -> int {
    if x + y < 255 {
        x + y
    } else {
        x + y - 255
    }
}

/// A product of nonzero elements is nonzero, equals the table power at the
/// reduced sum of the logarithms, and its logarithm is that reduced sum.
#[verifier::rlimit(50)]
pub proof fn lemma_log_of_mul(a: u8, b: u8)
    requires
        a != 0,
        b != 0,
    ensures
        gf_mul(a, b) != 0,
        gf_mul(a, b) == gf_exp_at(add_log(gf_log(a) as int, gf_log(b) as int)),
        gf_log(gf_mul(a, b)) == add_log(gf_log(a) as int, gf_log(b) as int),
{
    lemma_log_below_order();
    lemma_exp_nonzero();
    lemma_log_of_exp();
    lemma_exp_periodic();
    let s = gf_log(a) + gf_log(b);
    if s >= 255 {
        assert(gf_exp_at(s) == gf_exp_at(s - 255));
    }
}

/// Laws of field addition: associativity, commutativity, zero as neutral
/// element, and every element being its own additive inverse.
pub proof fn lemma_add_laws(a: u8, b: u8, c: u8)
    ensures
        gf_add(gf_add(a, b), c) == gf_add(a, gf_add(b, c)),
        gf_add(a, b) == gf_add(b, a),
        gf_add(a, 0) == a,
        gf_add(a, a) == 0,
{
    assert((a ^ b) ^ c == a ^ (b ^ c)) by (bit_vector);
    assert(a ^ b == b ^ a) by (bit_vector);
    assert(a ^ 0 == a) by (bit_vector);
    assert(a ^ a == 0) by (bit_vector);
}

/// Multiplication by zero annihilates and multiplication by one is the
/// identity.
pub proof fn lemma_mul_basic(a: u8)
    ensures
        gf_mul(a, 0) == 0,
        gf_mul(0, a) == 0,
        gf_mul(a, 1) == a,
        gf_mul(1, a) == a,
{
    lemma_exp_of_log();
    assert(gf_log(1) == 0);
}

/// Commutativity of field multiplication.
pub proof fn lemma_mul_comm(a: u8, b: u8)
    ensures
        gf_mul(a, b) == gf_mul(b, a),
{
}

/// Associativity of field multiplication.
pub proof fn lemma_mul_assoc(a: u8, b: u8, c: u8)
    ensures
        gf_mul(gf_mul(a, b), c) == gf_mul(a, gf_mul(b, c)),
{
    if a == 0 || b == 0 || c == 0 {
        lemma_mul_basic(a);
        lemma_mul_basic(b);
        lemma_mul_basic(c);
        if a != 0 && b != 0 {
            lemma_log_of_mul(a, b);
        }
        if b != 0 && c != 0 {
            lemma_log_of_mul(b, c);
        }
    } else {
        lemma_log_of_mul(a, b);
        lemma_log_of_mul(b, c);
        lemma_log_of_mul(gf_mul(a, b), c);
        lemma_log_of_mul(a, gf_mul(b, c));
    }
}

/// A nonzero element times its table inverse is one.
#[verifier::rlimit(50)]
pub proof fn lemma_mul_inv(b: u8)
    requires
        b != 0,
    ensures
        gf_inv(b) != 0,
        gf_mul(b, gf_inv(b)) == 1,
{
    lemma_log_below_order();
    lemma_exp_nonzero();
    lemma_log_of_exp();
    lemma_exp_of_log();
    lemma_exp_periodic();
    assert(gf_exp_at(0) == 1);
    let lb = gf_log(b) as int;
    if lb == 0 {
        assert(gf_exp_at(255) == gf_exp_at(0));
    } else {
        assert(gf_log(gf_inv(b)) == 255 - lb);
        assert(gf_exp_at(lb + (255 - lb)) == gf_exp_at(0));
    }
}

/// Multiplying by a nonzero element and then dividing by it gives the
/// original element back.
pub proof fn lemma_mul_div_cancel(a: u8, b: u8)
    requires
        b != 0,
    ensures
        gf_div(gf_mul(a, b), b) == a,
{
    lemma_mul_inv(b);
    lemma_mul_assoc(a, b, gf_inv(b));
    lemma_mul_basic(a);
    if a != 0 {
        lemma_log_of_mul(a, b);
    }
}

/// Doubling of a field element, written with bit operations.
pub open spec fn gf_xtime(y: u8) -> u8 {
    (y << 1) ^ (if y >= 128 {
        0x1Du8
    } else {
        0u8
    })
}

/// Doubling of a field element, written arithmetically: the same function
/// as `gf_xtime`, stated over plain integers so that it can be matched
/// against the tables.
pub open spec fn gf_xtime_arith(y: u8) -> int {
    if y < 128 {
        2 * y
    } else {
        2 * y - 256 + 29 - 8 * (((y as int) / 2) % 2) - 16 * (((y as int) / 4) % 2) - 32 * (((y
            as int) / 8) % 2)
    }
}

/// The two statements of doubling agree.
pub proof fn lemma_xtime_arith_agrees()
    ensures
        forall|y: u8| #[trigger] gf_xtime(y) as int == gf_xtime_arith(y),
{
    assert(forall|y: u8|
        ((y << 1) ^ (if y >= 128 {
            0x1Du8
        } else {
            0u8
        })) as u16 == (if y < 128 {
            2 * (y as u16)
        } else {
            2 * (y as u16) - 256 + 29 - 8 * (((y as u16) / 2) % 2) - 16 * (((y as u16) / 4) % 2)
                - 32 * (((y as u16) / 8) % 2)
        })) by (bit_vector);
}

/// Multiplication by the primitive element is doubling.
#[verifier::rlimit(50)]
pub proof fn lemma_mul_two_is_xtime()
    ensures
        forall|y: u8| #[trigger] gf_mul(2, y) == gf_xtime(y),
{
    lemma_xtime_arith_agrees();
    assert(forall|y: u8| #[trigger] gf_mul(2, y) as int == gf_xtime_arith(y));
}

/// Doubling distributes over field addition.
pub proof fn lemma_xtime_additive(y: u8, z: u8)
    ensures
        gf_xtime(y ^ z) == gf_xtime(y) ^ gf_xtime(z),
{
    assert((((y ^ z) << 1) ^ (if (y ^ z) >= 128 {
        0x1Du8
    } else {
        0u8
    })) == (((y << 1) ^ (if y >= 128 {
        0x1Du8
    } else {
        0u8
    })) ^ ((z << 1) ^ (if z >= 128 {
        0x1Du8
    } else {
        0u8
    })))) by (bit_vector);
}

/// Multiplication by any power of the primitive element distributes over
/// field addition; proved by walking the power up from the identity, one
/// doubling at a time.
#[verifier::rlimit(50)]
proof fn lemma_dist_pow(i: int, y: u8, z: u8)
    requires
        0 <= i < 255,
    ensures
        gf_mul(gf_exp_at(i), y ^ z) == gf_mul(gf_exp_at(i), y) ^ gf_mul(gf_exp_at(i), z),
    decreases i,
{
    lemma_exp_nonzero();
    lemma_log_of_exp();
    if i == 0 {
        assert(gf_exp_at(0) == 1);
        lemma_mul_basic(y ^ z);
        lemma_mul_basic(y);
        lemma_mul_basic(z);
    } else {
        lemma_dist_pow(i - 1, y, z);
        lemma_mul_two_is_xtime();
        let e = gf_exp_at(i - 1);
        assert(gf_log(2) == 1);
        lemma_log_of_mul(2, e);
        assert(gf_mul(2, e) == gf_exp_at(i));
        lemma_mul_assoc(2, e, y ^ z);
        lemma_mul_assoc(2, e, y);
        lemma_mul_assoc(2, e, z);
        lemma_xtime_additive(gf_mul(e, y), gf_mul(e, z));
    }
}

/// Field multiplication distributes over field addition.
pub proof fn lemma_mul_distributive(a: u8, b: u8, c: u8)
    ensures
        gf_mul(a, gf_add(b, c)) == gf_add(gf_mul(a, b), gf_mul(a, c)),
{
    if a == 0 {
        assert(0u8 ^ 0u8 == 0u8) by (bit_vector);
    } else {
        lemma_exp_of_log();
        lemma_log_below_order();
        lemma_dist_pow(gf_log(a) as int, b, c);
    }
}

/// A byte splits into its low and high nibble parts, and multiplication
/// distributes over that split: the product of `s` with a byte is the XOR
/// of the products of `s` with the byte's two nibble parts. This is what
/// makes the nibble-lookup vector path agree with plain multiplication.
pub proof fn lemma_mul_nibble_split(s: u8, b: u8)
    ensures
        gf_mul(s, b) == gf_mul(s, b & 0x0F) ^ gf_mul(s, ((b >> 4) << 4)),
{
    assert(b == (b & 0x0F) ^ ((b >> 4) << 4)) by (bit_vector);
    lemma_mul_distributive(s, b & 0x0F, (b >> 4) << 4);
}

/// A GF(2^8) field element wrapping one byte.
#[derive(Clone, Copy, Debug, PartialEq, Eq, Structural)]
pub struct Gf256 {
    val: u8,
}

impl Gf256 {
    /// The byte this element stands for.
    pub closed spec fn spec_val(self) -> u8 {
        self.val
    }

    /// Creates a new field element from a byte.
    pub fn new(val: u8) -> (r: Self)
        ensures
            r.spec_val() == val,
    {
        Gf256 { val }
    }

    /// Returns the raw byte of the element.
    pub fn get(&self) -> (r: u8)
        ensures
            r == self.spec_val(),
    {
        self.val
    }

    /// The additive identity element.
    pub fn zero() -> (r: Self)
        ensures
            r.spec_val() == 0,
    {
        Gf256 { val: 0 }
    }

    /// The multiplicative identity element.
    pub fn one() -> (r: Self)
        ensures
            r.spec_val() == 1,
    {
        Gf256 { val: 1 }
    }

    /// The primitive element `x` whose powers fill the exponentiation table.
    pub fn primitive_element() -> (r: Self)
        ensures
            r.spec_val() == 2,
    {
        Gf256 { val: 2 }
    }

    /// Multiplies two bytes as field elements through the tables.
    pub fn mul_const(a: u8, b: u8) -> (r: u8)
        ensures
            r == gf_mul(a, b),
    {
        if a == 0 || b == 0 {
            return 0;
        }
        proof {
            lemma_log_below_order();
        }
        let la = GF256_LOG_TABLE[a as usize] as usize;
        let lb = GF256_LOG_TABLE[b as usize] as usize;
        GF256_EXP_TABLE[la + lb]
    }

    /// The multiplicative inverse of the element; `None` for zero.
    pub fn inv(self) -> (r: Option<Self>)
        ensures
            r is Some <==> self.spec_val() != 0,
            self.spec_val() != 0 ==> r->Some_0.spec_val() == gf_inv(self.spec_val()),
    {
        if self.val == 0 {
            return None;
        }
        proof {
            lemma_log_below_order();
        }
        let l = GF256_LOG_TABLE[self.val as usize] as usize;
        Some(Gf256 { val: GF256_EXP_TABLE[255 - l] })
    }

    /// The raw multiplicative inverse of a nonzero byte.
    pub fn inv_const(b: u8) -> (r: u8)
        requires
            b != 0,
        ensures
            r == gf_inv(b),
    {
        proof {
            lemma_log_below_order();
        }
        let l = GF256_LOG_TABLE[b as usize] as usize;
        GF256_EXP_TABLE[255 - l]
    }

    /// Raw field division of `a` by a nonzero byte `b`.
    pub fn div_const(a: u8, b: u8) -> (r: u8)
        requires
            b != 0,
        ensures
            r == gf_div(a, b),
    {
        let b_inv = Self::inv_const(b);
        Self::mul_const(a, b_inv)
    }

    /// Field addition of two elements.
    pub fn add(self, rhs: Self) -> (r: Self)
        ensures
            r.spec_val() == gf_add(self.spec_val(), rhs.spec_val()),
    {
        Gf256 { val: self.val ^ rhs.val }
    }

    /// In-place field addition.
    pub fn add_assign(&mut self, rhs: Self)
        ensures
            final(self).spec_val() == gf_add(old(self).spec_val(), rhs.spec_val()),
    {
        self.val = self.val ^ rhs.val;
    }

    /// The additive inverse: the element itself, as addition is XOR.
    pub fn neg(self) -> (r: Self)
        ensures
            r.spec_val() == self.spec_val(),
    {
        self
    }

    /// Field subtraction, which coincides with addition.
    pub fn sub(self, rhs: Self) -> (r: Self)
        ensures
            r.spec_val() == gf_add(self.spec_val(), rhs.spec_val()),
    {
        Gf256 { val: self.val ^ rhs.val }
    }

    /// Field multiplication of two elements.
    pub fn mul(self, rhs: Self) -> (r: Self)
        ensures
            r.spec_val() == gf_mul(self.spec_val(), rhs.spec_val()),
    {
        Gf256 { val: Self::mul_const(self.val, rhs.val) }
    }

    /// Field division; `None` when dividing by zero.
    pub fn div(self, rhs: Self) -> (r: Option<Self>)
        ensures
            r is Some <==> rhs.spec_val() != 0,
            rhs.spec_val() != 0 ==> r->Some_0.spec_val() == gf_div(
                self.spec_val(),
                rhs.spec_val(),
            ),
    {
        match rhs.inv() {
            None => None,
            Some(rhs_inv) => Some(self.mul(rhs_inv)),
        }
    }
}

impl Default for Gf256 {
    /// The zero element.
    fn default() -> (r: Self)
        ensures
            r.spec_val() == 0,
    {
        Gf256 { val: 0 }
    }
}

} // verus!
