use vstd::prelude::*;

verus! {

/// The conditions a decode can fail with. Every one of them is fatal for the
/// stream instance that raised it: the decoder is not to be reused afterwards.
#[derive(Clone, Copy, Debug, PartialEq, Eq, Structural)]
pub enum InflateError {
    /// The underlying byte source ran out in the middle of a read.
    IoError,
    /// The stream header's compression-info value is above 7.
    InvalidCompressionInfo(u8),
    /// The stream header's method nibble is not the one for DEFLATE.
    InvalidCompressionMethod(u8),
    /// The two header bytes, read as one big-endian value, are not a multiple of 31.
    FlagCheckMismatch(u16),
    /// A block's 2-bit type field holds the reserved value 3.
    UnimplementedBlockType(u8),
    /// A stored block's NLEN field is not the bitwise complement of its LEN field.
    LengthComplementMismatch(u16, u16),
    /// A symbol outside 257..=285 arrived where a back-reference length was expected.
    InvalidLengthSymbol(u16),
    /// A distance symbol of 30 or above was decoded.
    InvalidDistanceSymbol(u8),
    /// A dynamic block's code-length stream asked to repeat a previous length
    /// when no length had been decoded yet.
    DynamicCodeMalformed,
    /// A Huffman decode used up the table's longest code length without
    /// matching any codeword.
    InvalidCode,
    /// A back-reference's distance reaches further back than the bytes held
    /// in the history.
    DistanceTooFar(u16),
}

pub type InflateResult<T> = Result<T, InflateError>;

} // verus!
