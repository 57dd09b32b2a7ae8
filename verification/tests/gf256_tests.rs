use rand::Rng;
use rlnc::gf256::Gf256;

#[test]
fn prop_test_gf256_operations() {
    const NUM_TEST_ITERATIONS: usize = 100_000;

    let mut rng = rand::rng();

    for _ in 0..NUM_TEST_ITERATIONS {
        let a = Gf256::new(rng.random());
        let b = Gf256::new(rng.random());

        // Addition, Subtraction, Negation
        let sum = a.add(b);
        let diff = sum.sub(b);

        assert_eq!(diff, a);

        // Multiplication, Division, Inversion
        let mul = a.mul(b);
        let div = mul.div(b);

        if b == Gf256::zero() {
            assert_eq!(div, None);
            assert_eq!(mul, Gf256::zero());
        } else {
            assert_eq!(a, div.unwrap());
        }
    }
}

#[test]
fn test_gf256_constants_and_accessors() {
    assert_eq!(Gf256::zero().get(), 0);
    assert_eq!(Gf256::one().get(), 1);
    assert_eq!(Gf256::primitive_element().get(), 2);
    assert_eq!(Gf256::new(173).get(), 173);
    assert_eq!(Gf256::default(), Gf256::zero());
}

#[test]
fn test_gf256_mul_exact_values() {
    // Doubling the top byte wraps through the reduction polynomial.
    assert_eq!(Gf256::mul_const(2, 128), 29);
    assert_eq!(Gf256::mul_const(7, 11), 49);
    assert_eq!(Gf256::mul_const(0x53, 0xCA), 0x8F);
    assert_eq!(Gf256::mul_const(200, 77), 177);
    // Zero annihilates, one is neutral.
    assert_eq!(Gf256::mul_const(0, 255), 0);
    assert_eq!(Gf256::mul_const(255, 0), 0);
    assert_eq!(Gf256::mul_const(1, 173), 173);
    assert_eq!(Gf256::mul_const(173, 1), 173);
}

#[test]
fn test_gf256_add_is_xor() {
    let a = Gf256::new(0x57);
    let b = Gf256::new(0x83);
    assert_eq!(a.add(b).get(), 0x57 ^ 0x83);
    assert_eq!(a.sub(b).get(), 0x57 ^ 0x83);
    assert_eq!(a.neg(), a);
    let mut c = a;
    c.add_assign(b);
    assert_eq!(c.get(), 0x57 ^ 0x83);
}

#[test]
fn test_gf256_inv_exact_values() {
    assert_eq!(Gf256::zero().inv(), None);
    assert_eq!(Gf256::new(1).inv().unwrap().get(), 1);
    assert_eq!(Gf256::new(2).inv().unwrap().get(), 142);
    assert_eq!(Gf256::new(142).inv().unwrap().get(), 2);
    assert_eq!(Gf256::new(200).inv().unwrap().get(), 210);
    assert_eq!(Gf256::inv_const(2), 142);
    assert_eq!(Gf256::div_const(49, 11), 7);
    for value in 1..=255u8 {
        let inverse = Gf256::new(value).inv().unwrap();
        assert_eq!(Gf256::new(value).mul(inverse), Gf256::one());
    }
}

#[test]
fn test_gf256_field_laws_on_samples() {
    let mut rng = rand::rng();
    for _ in 0..10_000 {
        let a: u8 = rng.random();
        let b: u8 = rng.random();
        let c: u8 = rng.random();
        // Associativity and commutativity of multiplication.
        assert_eq!(
            Gf256::mul_const(Gf256::mul_const(a, b), c),
            Gf256::mul_const(a, Gf256::mul_const(b, c))
        );
        assert_eq!(Gf256::mul_const(a, b), Gf256::mul_const(b, a));
        // Distributivity over XOR.
        assert_eq!(
            Gf256::mul_const(a, b ^ c),
            Gf256::mul_const(a, b) ^ Gf256::mul_const(a, c)
        );
    }
}
