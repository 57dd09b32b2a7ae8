//! Errors reported while encoding, recoding or decoding.

use vstd::prelude::*;

verus! {

/// Everything that can go wrong across the encoder, recoder and decoder.
///
/// `PieceNotUseful`, `ReceivedAllPieces` and `NotAllPiecesReceivedYet` are
/// ordinary control-flow signals rather than failures: callers feeding a
/// decoder branch on them while pieces keep arriving.
#[derive(Clone, Copy, Debug, PartialEq, Eq, Structural)]
pub enum RLNCError {
    /// The coding vector's length does not match the expected dimension.
    CodingVectorLengthMismatch,
    /// The data length does not match the expected block size.
    DataLengthMismatch,
    /// The piece count is zero.
    PieceCountZero,
    /// The data length is zero.
    DataLengthZero,
    /// The piece length is zero.
    PieceLengthZero,
    /// A full coded piece would leave no room for a payload.
    PieceLengthTooShort,
    /// Not enough full coded pieces were supplied to recode from.
    NotEnoughPiecesToRecode,
    /// The received piece adds no new linearly independent information.
    PieceNotUseful,
    /// All necessary pieces were already received; nothing more is needed.
    ReceivedAllPieces,
    /// Decoded data was requested before enough useful pieces arrived.
    NotAllPiecesReceivedYet,
    /// The recovered byte stream does not carry a valid boundary marker.
    InvalidDecodedDataFormat,
    /// The length of a received piece does not match the expected length.
    InvalidPieceLength,
}

} // verus!
