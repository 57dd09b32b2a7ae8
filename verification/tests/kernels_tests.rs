use rand::Rng;
use rlnc::gf256::Gf256;
use rlnc::kernels::{
    gf256_inplace_add_vectors, gf256_inplace_mul_vec_by_scalar,
    gf256_inplace_mul_vec_by_scalar_then_add_into_vec, gf256_mul_vec_by_scalar,
    gf256_mul_vec_by_scalar_nibble_tables,
};

#[test]
fn prop_test_mul_vec_by_scalar_matches_scalar_reference() {
    const NUM_TEST_ITERATIONS: usize = 10_000;
    const MIN_VEC_LEN: usize = 1;
    const MAX_VEC_LEN: usize = 4096;

    let mut rng = rand::rng();

    for _ in 0..NUM_TEST_ITERATIONS {
        let vec_len: usize = rng.random_range(MIN_VEC_LEN..=MAX_VEC_LEN);
        let scalar: u8 = rng.random();
        let mut vec = vec![0u8; vec_len];
        rng.fill(vec.as_mut_slice());

        let scaled = gf256_mul_vec_by_scalar(&vec, scalar);
        assert_eq!(scaled.len(), vec.len());
        for (idx, &byte) in vec.iter().enumerate() {
            assert_eq!(scaled[idx], Gf256::mul_const(byte, scalar));
        }

        let mut in_place = vec.clone();
        gf256_inplace_mul_vec_by_scalar(&mut in_place, scalar);
        assert_eq!(in_place, scaled);
    }
}

#[test]
fn test_mul_vec_by_scalar_fast_paths() {
    let vec = vec![1u8, 2, 3, 250, 0, 77];
    assert_eq!(gf256_mul_vec_by_scalar(&vec, 0), vec![0u8; 6]);
    assert_eq!(gf256_mul_vec_by_scalar(&vec, 1), vec);
    assert_eq!(gf256_mul_vec_by_scalar(&[1, 2, 3, 4], 3), vec![3, 6, 5, 12]);
}

#[test]
fn test_inplace_add_vectors_is_xor() {
    let mut dst = vec![0x0Fu8, 0xF0, 0xAA, 0x55];
    let src = [0x01u8, 0x02, 0x03, 0x04];
    gf256_inplace_add_vectors(&mut dst, &src);
    assert_eq!(dst, vec![0x0E, 0xF2, 0xA9, 0x51]);

    // A shorter source leaves the tail of the destination untouched.
    let mut dst = vec![9u8, 9, 9];
    gf256_inplace_add_vectors(&mut dst, &[1]);
    assert_eq!(dst, vec![8, 9, 9]);
}

#[test]
fn test_fused_mul_add_matches_composition() {
    let mut rng = rand::rng();
    for _ in 0..1_000 {
        let vec_len: usize = rng.random_range(1..=512);
        let scalar: u8 = rng.random();
        let mut dst = vec![0u8; vec_len];
        let mut src = vec![0u8; vec_len];
        rng.fill(dst.as_mut_slice());
        rng.fill(src.as_mut_slice());

        let mut fused = dst.clone();
        gf256_inplace_mul_vec_by_scalar_then_add_into_vec(&mut fused, &src, scalar);

        let mut scaled = src.clone();
        gf256_inplace_mul_vec_by_scalar(&mut scaled, scalar);
        let mut composed = dst.clone();
        gf256_inplace_add_vectors(&mut composed, &scaled);

        assert_eq!(fused, composed);
    }
}

#[test]
fn prop_test_nibble_table_path_matches_scalar_path() {
    // The nibble-lookup technique behind the wide SIMD paths must agree
    // with the plain scalar path on every input.
    let mut rng = rand::rng();
    for _ in 0..2_000 {
        let vec_len: usize = rng.random_range(1..=2048);
        let scalar: u8 = rng.random();
        let mut vec = vec![0u8; vec_len];
        rng.fill(vec.as_mut_slice());
        assert_eq!(
            gf256_mul_vec_by_scalar_nibble_tables(&vec, scalar),
            gf256_mul_vec_by_scalar(&vec, scalar)
        );
    }
}
