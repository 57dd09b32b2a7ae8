use rand::Rng;
use rlnc::decoder::Decoder;
use rlnc::encoder::Encoder;
use rlnc::RLNCError;

#[test]
fn test_decoder_new_invalid_inputs() {
    // Test case 1: piece_byte_len is zero
    let piece_byte_len_zero: usize = 0;
    let required_piece_count_non_zero: usize = 10;

    let result_piece_len_zero = Decoder::new(piece_byte_len_zero, required_piece_count_non_zero);
    assert!(result_piece_len_zero.is_err());
    match result_piece_len_zero {
        Err(e) => assert_eq!(e, RLNCError::PieceLengthZero),
        Ok(_) => panic!("Expected PieceLengthZero error"),
    }

    // Test case 2: required_piece_count is zero
    let piece_byte_len_non_zero: usize = 10;
    let required_piece_count_zero: usize = 0;

    let result_piece_count_zero = Decoder::new(piece_byte_len_non_zero, required_piece_count_zero);
    assert!(result_piece_count_zero.is_err());
    match result_piece_count_zero {
        Err(e) => assert_eq!(e, RLNCError::PieceCountZero),
        Ok(_) => panic!("Expected PieceCountZero error"),
    }

    // Test case 3: Both piece_byte_len and required_piece_count are zero
    let piece_byte_len_both_zero: usize = 0;
    let required_piece_count_both_zero: usize = 0;

    let result_both_zero = Decoder::new(piece_byte_len_both_zero, required_piece_count_both_zero);
    assert!(result_both_zero.is_err());
    match result_both_zero {
        Err(e) => assert_eq!(e, RLNCError::PieceLengthZero),
        Ok(_) => panic!("Expected PieceLengthZero error for both zero inputs"),
    }

    // Test case 4: Valid input
    let piece_byte_len_valid: usize = 10;
    let required_piece_count_valid: usize = 5;
    let result_valid = Decoder::new(piece_byte_len_valid, required_piece_count_valid);
    assert!(result_valid.is_ok());
}

#[test]
fn test_decoder_decode_invalid_piece_length() {
    let mut rng = rand::rng();

    let data_byte_len: usize = 1024;
    let piece_count: usize = 32;
    let data = (0..data_byte_len).map(|_| rng.random()).collect::<Vec<u8>>();
    let encoder = Encoder::new(data, piece_count).expect("Failed to create Encoder for decode invalid length test");

    let piece_byte_len = encoder.get_piece_byte_len();
    let required_piece_count = encoder.get_piece_count();
    let full_coded_piece_byte_len = encoder.get_full_coded_piece_byte_len();

    let mut decoder =
        Decoder::new(piece_byte_len, required_piece_count).expect("Failed to create Decoder for decode invalid length test");

    // Test case 1: Piece length is shorter than expected
    let short_piece_len: usize = full_coded_piece_byte_len - 1;
    let short_coded_piece: Vec<u8> = (0..short_piece_len).map(|_| rng.random()).collect();
    let result_short = decoder.decode(&short_coded_piece);
    assert!(result_short.is_err());
    assert_eq!(
        result_short.expect_err("Expected InvalidPieceLength error for short piece"),
        RLNCError::InvalidPieceLength
    );

    // Test case 2: Piece length is longer than expected
    let long_piece_len: usize = full_coded_piece_byte_len + 1;
    let long_coded_piece: Vec<u8> = (0..long_piece_len).map(|_| rng.random()).collect();
    let result_long = decoder.decode(&long_coded_piece);
    assert!(result_long.is_err());
    assert_eq!(
        result_long.expect_err("Expected InvalidPieceLength error for long piece"),
        RLNCError::InvalidPieceLength
    );

    // Test case 3: Piece length is zero
    let zero_piece: Vec<u8> = Vec::new();
    let result_zero = decoder.decode(&zero_piece);
    assert!(result_zero.is_err());
    assert_eq!(
        result_zero.expect_err("Expected InvalidPieceLength error for zero-length piece"),
        RLNCError::InvalidPieceLength
    );

    // Ensure decoder state is unchanged after invalid decode attempts
    assert_eq!(decoder.get_received_piece_count(), 0);
    assert_eq!(decoder.get_useful_piece_count(), 0);
    assert!(!decoder.is_already_decoded());

    // Test case 4: Valid coded piece - check if state changes
    let correct_coded_piece = encoder.code(&mut rng);
    let result_correct = decoder.decode(&correct_coded_piece);
    assert!(result_correct.is_ok() || matches!(result_correct, Err(RLNCError::PieceNotUseful)));

    // After a valid decode attempt, received_piece_count must increase
    assert_eq!(decoder.get_received_piece_count(), 1);

    // If the piece was useful, useful_piece_count will be 1. Otherwise, it remains 0.
    // Given the small piece_count in this test, it's very likely to be useful.
    if result_correct.is_ok() {
        assert_eq!(decoder.get_useful_piece_count(), 1);
        assert!(!decoder.is_already_decoded()); // Unless piece_count was 1
    } else {
        assert_eq!(decoder.get_useful_piece_count(), 0);
    }
}

#[test]
fn test_decoder_getters() {
    let mut rng = rand::rng();

    let data_byte_len: usize = 1024;
    let piece_count: usize = 32;
    let data = (0..data_byte_len).map(|_| rng.random()).collect::<Vec<u8>>();
    let encoder = Encoder::new(data.clone(), piece_count).expect("Failed to create Encoder for getters test");

    let piece_byte_len = encoder.get_piece_byte_len();
    let required_piece_count = encoder.get_piece_count();
    let full_coded_piece_byte_len = encoder.get_full_coded_piece_byte_len();

    let mut decoder =
        Decoder::new(piece_byte_len, required_piece_count).expect("Failed to create Decoder for getters test");

    assert_eq!(decoder.get_num_pieces_coded_together(), required_piece_count);
    assert_eq!(decoder.get_piece_byte_len(), piece_byte_len);
    assert_eq!(decoder.get_full_coded_piece_byte_len(), full_coded_piece_byte_len);
    assert_eq!(decoder.get_received_piece_count(), 0);
    assert_eq!(decoder.get_useful_piece_count(), 0);
    assert_eq!(decoder.get_remaining_piece_count(), required_piece_count);
    assert!(!decoder.is_already_decoded());

    // Add some pieces and track useful ones
    let num_pieces_to_decode_initially: usize = required_piece_count / 2;
    let mut expected_useful_pieces_after_initial: usize = 0;

    for _ in 0..num_pieces_to_decode_initially {
        let coded_piece = encoder.code(&mut rng);
        match decoder.decode(&coded_piece) {
            Ok(_) => {
                expected_useful_pieces_after_initial += 1;
            }
            Err(RLNCError::PieceNotUseful) => {}
            Err(e) => panic!("Unexpected error during initial decoding phase: {e:?}"),
        }
    }

    assert_eq!(decoder.get_received_piece_count(), num_pieces_to_decode_initially);
    assert_eq!(decoder.get_useful_piece_count(), expected_useful_pieces_after_initial);
    assert_eq!(
        decoder.get_remaining_piece_count(),
        required_piece_count - expected_useful_pieces_after_initial
    );

    // Add remaining pieces to complete decoding
    let mut total_pieces_received: usize = num_pieces_to_decode_initially;
    while !decoder.is_already_decoded() {
        let coded_piece = encoder.code(&mut rng);

        match decoder.decode(&coded_piece) {
            Ok(_) => {}
            Err(RLNCError::PieceNotUseful) => {}
            Err(RLNCError::ReceivedAllPieces) => break,
            Err(e) => panic!("Unexpected error during final decoding phase: {e:?}"),
        }

        total_pieces_received += 1;
    }

    assert_eq!(decoder.get_useful_piece_count(), required_piece_count);
    assert_eq!(decoder.get_remaining_piece_count(), 0);
    assert!(decoder.is_already_decoded());
    assert_eq!(decoder.get_received_piece_count(), total_pieces_received);
}

#[test]
fn test_tiny_round_trip() {
    // data [1,2,3,4,5], three pieces: padded to [1,2,3,4,5,0x81], two bytes each.
    let data = vec![1u8, 2, 3, 4, 5];
    let encoder = Encoder::new(data.clone(), 3).expect("Failed to create Encoder for tiny round trip");
    let mut decoder = Decoder::new(encoder.get_piece_byte_len(), encoder.get_piece_count())
        .expect("Failed to create Decoder for tiny round trip");

    for unit in [[1u8, 0, 0], [0, 1, 0], [0, 0, 1]] {
        let piece = encoder.code_with_coding_vector(&unit).unwrap();
        decoder.decode(&piece).expect("Unit piece must be useful");
    }

    assert!(decoder.is_already_decoded());
    let decoded = decoder.get_decoded_data().expect("Tiny round trip must decode");
    assert_eq!(decoded, data);
}

#[test]
fn test_exact_boundary_padding_round_trip() {
    // data [0xAA; 8], three pieces: padded to nine bytes ending in 0x81.
    let data = vec![0xAAu8; 8];
    let encoder = Encoder::new(data.clone(), 3).expect("Failed to create Encoder for boundary padding");
    assert_eq!(encoder.get_piece_byte_len(), 3);
    let mut decoder = Decoder::new(encoder.get_piece_byte_len(), encoder.get_piece_count())
        .expect("Failed to create Decoder for boundary padding");

    for unit in [[1u8, 0, 0], [0, 1, 0], [0, 0, 1]] {
        let piece = encoder.code_with_coding_vector(&unit).unwrap();
        decoder.decode(&piece).expect("Unit piece must be useful");
    }

    let decoded = decoder.get_decoded_data().expect("Boundary padding round trip must decode");
    assert_eq!(decoded, data);
}

#[test]
fn test_single_piece_round_trip() {
    // data [42], one piece: padded to [42, 0x81]; one useful coded piece decodes.
    let encoder = Encoder::new(vec![42u8], 1).expect("Failed to create Encoder for single piece");
    assert_eq!(encoder.get_piece_byte_len(), 2);
    let mut decoder = Decoder::new(encoder.get_piece_byte_len(), encoder.get_piece_count())
        .expect("Failed to create Decoder for single piece");

    let piece = encoder.code_with_coding_vector(&[5]).unwrap();
    decoder.decode(&piece).expect("A scaled single piece must be useful");
    assert!(decoder.is_already_decoded());

    let decoded = decoder.get_decoded_data().expect("Single piece must decode");
    assert_eq!(decoded, vec![42]);
}

#[test]
fn test_decode_duplicate_piece_not_useful() {
    let data = (0u16..256).map(|v| v as u8).collect::<Vec<u8>>();
    let encoder = Encoder::new(data, 4).expect("Failed to create Encoder for duplicate piece test");
    let mut decoder = Decoder::new(encoder.get_piece_byte_len(), encoder.get_piece_count())
        .expect("Failed to create Decoder for duplicate piece test");

    let piece = encoder.code_with_coding_vector(&[1, 2, 3, 4]).unwrap();
    decoder.decode(&piece).expect("First copy must be useful");
    assert_eq!(decoder.get_useful_piece_count(), 1);

    // The identical piece adds no information, yet it still counts as received.
    assert_eq!(decoder.decode(&piece), Err(RLNCError::PieceNotUseful));
    assert_eq!(decoder.get_received_piece_count(), 2);
    assert_eq!(decoder.get_useful_piece_count(), 1);
}

#[test]
fn test_decode_after_complete_reports_received_all() {
    let encoder = Encoder::new(vec![7u8, 8, 9], 1).expect("Failed to create Encoder for completion test");
    let mut decoder = Decoder::new(encoder.get_piece_byte_len(), encoder.get_piece_count())
        .expect("Failed to create Decoder for completion test");

    let piece = encoder.code_with_coding_vector(&[1]).unwrap();
    decoder.decode(&piece).expect("Identity piece must be useful");
    assert!(decoder.is_already_decoded());

    let another = encoder.code_with_coding_vector(&[9]).unwrap();
    assert_eq!(decoder.decode(&another), Err(RLNCError::ReceivedAllPieces));
}

#[test]
fn test_get_decoded_data_before_complete() {
    let decoder = Decoder::new(4, 3).expect("Failed to create Decoder for premature extraction test");
    assert_eq!(decoder.get_decoded_data(), Err(RLNCError::NotAllPiecesReceivedYet));
}

#[test]
fn test_get_decoded_data_rejects_missing_marker() {
    // Hand-built pieces whose payloads hold no boundary marker at all.
    let mut decoder = Decoder::new(1, 2).expect("Failed to create Decoder for missing marker test");
    decoder.decode(&[1, 0, 0]).expect("First unit equation must be useful");
    decoder.decode(&[0, 1, 0]).expect("Second unit equation must be useful");
    assert!(decoder.is_already_decoded());
    assert_eq!(decoder.get_decoded_data(), Err(RLNCError::InvalidDecodedDataFormat));
}

#[test]
fn test_get_decoded_data_rejects_marker_at_start() {
    // The recovered stream is [0x81, 0]: a marker at the very start is degenerate.
    let mut decoder = Decoder::new(1, 2).expect("Failed to create Decoder for degenerate marker test");
    decoder.decode(&[1, 0, 0x81]).expect("First unit equation must be useful");
    decoder.decode(&[0, 1, 0]).expect("Second unit equation must be useful");
    assert_eq!(decoder.get_decoded_data(), Err(RLNCError::InvalidDecodedDataFormat));
}

#[test]
fn test_get_decoded_data_rejects_nonzero_after_marker() {
    // The recovered stream is [1, 0x81, 3, 0]: the 3 after the last marker is garbage.
    let mut decoder = Decoder::new(2, 2).expect("Failed to create Decoder for trailing byte test");
    decoder.decode(&[1, 0, 1, 0x81]).expect("First unit equation must be useful");
    decoder.decode(&[0, 1, 3, 0]).expect("Second unit equation must be useful");
    assert_eq!(decoder.get_decoded_data(), Err(RLNCError::InvalidDecodedDataFormat));
}

#[test]
fn test_payload_containing_marker_bytes_round_trips() {
    // Original data that itself ends in marker bytes and zeros still comes
    // back intact: the sentinel is the final nonzero byte by construction.
    let data = vec![0x81u8, 0x00, 0x81, 0x00, 0x00];
    let encoder = Encoder::new(data.clone(), 2).expect("Failed to create Encoder for marker data test");
    let mut decoder = Decoder::new(encoder.get_piece_byte_len(), encoder.get_piece_count())
        .expect("Failed to create Decoder for marker data test");

    for unit in [[1u8, 0], [0, 1]] {
        let piece = encoder.code_with_coding_vector(&unit).unwrap();
        decoder.decode(&piece).expect("Unit piece must be useful");
    }

    let decoded = decoder.get_decoded_data().expect("Marker-laden data must decode");
    assert_eq!(decoded, data);
}

#[test]
fn test_dependent_coding_vectors_rejected() {
    // Two pieces whose coding vectors are multiples of the same unit
    // vector carry one equation between them: the second must be rejected,
    // wherever in the vector the nonzero coefficient sits.
    let mut decoder = Decoder::new(2, 3).expect("Failed to create Decoder for dependent vectors test");
    decoder.decode(&[0, 0, 1, 9, 9]).expect("First piece must be useful");
    assert_eq!(decoder.decode(&[0, 0, 2, 18, 18]), Err(RLNCError::PieceNotUseful));
    assert_eq!(decoder.get_useful_piece_count(), 1);

    // An independent vector is accepted afterwards.
    decoder.decode(&[0, 1, 0, 5, 5]).expect("Independent piece must be useful");
    assert_eq!(decoder.get_useful_piece_count(), 2);
}

#[test]
fn test_zero_coding_vector_not_useful() {
    // A zero coding vector carries no equation, whatever its payload says,
    // yet it still counts as received.
    let mut decoder = Decoder::new(2, 2).expect("Failed to create Decoder for zero vector test");
    assert_eq!(decoder.decode(&[0, 0, 7, 7]), Err(RLNCError::PieceNotUseful));
    assert_eq!(decoder.get_received_piece_count(), 1);
    assert_eq!(decoder.get_useful_piece_count(), 0);
}
