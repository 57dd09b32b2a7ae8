use rand::Rng;
use rlnc::decoder::Decoder;
use rlnc::encoder::Encoder;
use rlnc::gf256::Gf256;
use rlnc::recoder::Recoder;
use rlnc::RLNCError;

#[test]
fn test_recoder_new_invalid_inputs() {
    let mut rng = rand::rng();

    let data_byte_len: usize = 1024;
    let piece_count: usize = 32;
    let encoder = Encoder::new((0..data_byte_len).map(|_| rng.random()).collect::<Vec<u8>>(), piece_count)
        .expect("Failed to create Encoder for recoder new invalid inputs test");
    let full_coded_piece_byte_len = encoder.get_full_coded_piece_byte_len();
    let num_pieces_coded_together = encoder.get_piece_count();

    // Test case 1: Empty `data` vector
    let empty_data: Vec<u8> = Vec::new();
    let result_empty_data = Recoder::new(empty_data, full_coded_piece_byte_len, num_pieces_coded_together);
    assert!(result_empty_data.is_err());
    assert_eq!(
        result_empty_data.expect_err("Expected NotEnoughPiecesToRecode error for empty data"),
        RLNCError::NotEnoughPiecesToRecode
    );

    // Test case 2: `full_coded_piece_byte_len` is zero
    let data_non_empty = vec![1, 2, 3]; // Needs at least one piece worth of data for non-empty input
    let result_zero_full_len = Recoder::new(data_non_empty.clone(), 0, num_pieces_coded_together);
    assert!(result_zero_full_len.is_err());
    assert_eq!(
        result_zero_full_len.expect_err("Expected PieceLengthZero error for zero full coded piece length"),
        RLNCError::PieceLengthZero
    );

    // Test case 3: `num_pieces_coded_together` is zero
    let result_zero_piece_count = Recoder::new(data_non_empty.clone(), full_coded_piece_byte_len, 0);
    assert!(result_zero_piece_count.is_err());
    assert_eq!(
        result_zero_piece_count.expect_err("Expected PieceCountZero error for zero pieces coded together"),
        RLNCError::PieceCountZero
    );

    // Test case 4: `full_coded_piece_byte_len` is not greater than `num_pieces_coded_together`
    // Case 4.1: Equal
    let result_equal_len = Recoder::new(
        data_non_empty.clone(),
        num_pieces_coded_together, // full_coded_piece_byte_len = num_pieces_coded_together
        num_pieces_coded_together,
    );
    assert!(result_equal_len.is_err());
    assert_eq!(
        result_equal_len.expect_err("Expected PieceLengthTooShort error when full length equals piece count"),
        RLNCError::PieceLengthTooShort
    );

    // Case 4.2: Less than
    let result_less_len = Recoder::new(
        data_non_empty.clone(),
        num_pieces_coded_together - 1, // full_coded_piece_byte_len < num_pieces_coded_together
        num_pieces_coded_together,
    );
    assert!(result_less_len.is_err());
    assert_eq!(
        result_less_len.expect_err("Expected PieceLengthTooShort error when full length is less than piece count"),
        RLNCError::PieceLengthTooShort
    );

    // Test case 5: Valid input (using existing encoder setup to generate valid data)
    let num_pieces_to_recode_with: usize = 5;
    let coded_pieces_for_recoder: Vec<u8> = (0..num_pieces_to_recode_with).flat_map(|_| encoder.code(&mut rng)).collect();

    let result_valid = Recoder::new(coded_pieces_for_recoder, full_coded_piece_byte_len, num_pieces_coded_together);
    assert!(result_valid.is_ok());
    let recoder = result_valid.expect("Expected Recoder to be created successfully with valid inputs");
    assert_eq!(recoder.get_original_num_pieces_coded_together(), num_pieces_coded_together);
    assert_eq!(recoder.get_num_pieces_recoded_together(), num_pieces_to_recode_with);
}

#[test]
fn test_recoder_getters() {
    let mut rng = rand::rng();

    let data_byte_len: usize = 1024;
    let piece_count: usize = 32; // Original number of pieces
    let data = (0..data_byte_len).map(|_| rng.random()).collect::<Vec<u8>>();
    let encoder = Encoder::new(data, piece_count).expect("Failed to create Encoder for recoder getters test");

    let num_pieces_to_recode_with: usize = 10; // Number of coded pieces given to recoder
    let full_coded_piece_byte_len = encoder.get_full_coded_piece_byte_len();
    let original_piece_byte_len = encoder.get_piece_byte_len();

    let coded_pieces_for_recoder: Vec<u8> = (0..num_pieces_to_recode_with).flat_map(|_| encoder.code(&mut rng)).collect();

    let recoder = Recoder::new(
        coded_pieces_for_recoder,
        full_coded_piece_byte_len,
        piece_count, // `num_pieces_coded_together` from original encoder
    )
    .expect("Recoder creation failed");

    assert_eq!(recoder.get_original_num_pieces_coded_together(), piece_count);
    assert_eq!(recoder.get_num_pieces_recoded_together(), num_pieces_to_recode_with);
    assert_eq!(recoder.get_piece_byte_len(), original_piece_byte_len);
    assert_eq!(recoder.get_full_coded_piece_byte_len(), full_coded_piece_byte_len);
}

#[test]
fn test_recoder_rejects_fragment_only_blob() {
    // A nonempty blob shorter than one full coded piece holds nothing to recode.
    let result = Recoder::new(vec![1, 2, 3], 6, 2);
    assert!(result.is_err());
    assert_eq!(
        result.expect_err("Expected NotEnoughPiecesToRecode error for a fragment"),
        RLNCError::NotEnoughPiecesToRecode
    );
}

#[test]
fn test_recode_with_recoding_vector_exact() {
    // Two unit-coded pieces of data [1,2,3,4,5] under three pieces.
    let encoder = Encoder::new(vec![1u8, 2, 3, 4, 5], 3).expect("Failed to create Encoder for exact recode test");
    let piece0 = encoder.code_with_coding_vector(&[1, 0, 0]).unwrap(); // [1,0,0,1,2]
    let piece1 = encoder.code_with_coding_vector(&[0, 1, 0]).unwrap(); // [0,1,0,3,4]
    let blob = [piece0, piece1].concat();

    let recoder = Recoder::new(blob, encoder.get_full_coded_piece_byte_len(), encoder.get_piece_count())
        .expect("Failed to create Recoder for exact recode test");
    assert_eq!(recoder.get_num_pieces_recoded_together(), 2);

    let a: u8 = 7;
    let b: u8 = 11;
    let recoded = recoder.recode_with_recoding_vector(&[a, b]).unwrap();

    // Coefficients: a and b land on the first two original pieces, nothing
    // on the third; the payload mixes the received payloads the same way.
    let expected = vec![
        a,
        b,
        0,
        Gf256::mul_const(1, a) ^ Gf256::mul_const(3, b),
        Gf256::mul_const(2, a) ^ Gf256::mul_const(4, b),
    ];
    assert_eq!(recoded, expected);

    // A wrong-length recoding vector is rejected.
    assert_eq!(
        recoder.recode_with_recoding_vector(&[1, 2, 3]),
        Err(RLNCError::CodingVectorLengthMismatch)
    );
}

#[test]
fn test_useless_recoder_scenario() {
    // A recoder built only from pieces a decoder has already consumed can
    // never raise that decoder's rank.
    const DATA_BYTE_LEN: usize = 10 * 1024;
    const PIECE_COUNT: usize = 32;
    const NUM_PIECES_SEEN: usize = 16;
    const NUM_RECODED: usize = 64;

    let mut rng = rand::rng();
    let data = (0..DATA_BYTE_LEN).map(|_| rng.random()).collect::<Vec<u8>>();
    let encoder = Encoder::new(data, PIECE_COUNT).expect("Failed to create Encoder for useless recoder scenario");
    let mut decoder = Decoder::new(encoder.get_piece_byte_len(), encoder.get_piece_count())
        .expect("Failed to create Decoder for useless recoder scenario");

    let mut consumed_blob: Vec<u8> = Vec::new();
    for _ in 0..NUM_PIECES_SEEN {
        let piece = encoder.code(&mut rng);
        match decoder.decode(&piece) {
            Ok(_) | Err(RLNCError::PieceNotUseful) => {}
            Err(e) => panic!("Unexpected error while feeding the decoder: {e:?}"),
        }
        consumed_blob.extend_from_slice(&piece);
    }
    let rank_after_feeding = decoder.get_useful_piece_count();

    let recoder = Recoder::new(
        consumed_blob,
        encoder.get_full_coded_piece_byte_len(),
        encoder.get_piece_count(),
    )
    .expect("Failed to create Recoder from consumed pieces");

    for _ in 0..NUM_RECODED {
        let recoded = recoder.recode(&mut rng);
        assert_eq!(decoder.decode(&recoded), Err(RLNCError::PieceNotUseful));
    }
    assert_eq!(decoder.get_useful_piece_count(), rank_after_feeding);
}

#[test]
fn test_productive_recoder_scenario() {
    // Recoded pieces from fresh coded pieces raise a fresh decoder's rank
    // toward the number of recoded-together pieces, and never past it.
    const DATA_BYTE_LEN: usize = 10 * 1024;
    const PIECE_COUNT: usize = 32;
    const NUM_FRESH_PIECES: usize = 16;
    const NUM_RECODED: usize = 64;

    let mut rng = rand::rng();
    let data = (0..DATA_BYTE_LEN).map(|_| rng.random()).collect::<Vec<u8>>();
    let encoder = Encoder::new(data, PIECE_COUNT).expect("Failed to create Encoder for productive recoder scenario");

    let fresh_blob: Vec<u8> = (0..NUM_FRESH_PIECES).flat_map(|_| encoder.code(&mut rng)).collect();
    let recoder = Recoder::new(
        fresh_blob,
        encoder.get_full_coded_piece_byte_len(),
        encoder.get_piece_count(),
    )
    .expect("Failed to create Recoder from fresh pieces");

    let mut decoder = Decoder::new(encoder.get_piece_byte_len(), encoder.get_piece_count())
        .expect("Failed to create Decoder for productive recoder scenario");

    for _ in 0..NUM_RECODED {
        let recoded = recoder.recode(&mut rng);
        match decoder.decode(&recoded) {
            Ok(_) | Err(RLNCError::PieceNotUseful) => {}
            Err(e) => panic!("Unexpected error while decoding recoded pieces: {e:?}"),
        }
        assert!(decoder.get_useful_piece_count() <= NUM_FRESH_PIECES);
    }
    assert_eq!(decoder.get_useful_piece_count(), NUM_FRESH_PIECES);
}
