//! What can go wrong while reading a file.

use vstd::prelude::*;

verus! {

/// Parse error.
#[derive(Debug, Copy, Clone, Ord, PartialOrd, Eq, PartialEq, Hash)]
pub enum ParseError {
    /// The image uses an unsupported bit depth.
    UnsupportedBpp(u16),
    /// Unexpected end of file.
    UnexpectedEndOfFile,
    /// Invalid file signatures.
    InvalidFileSignature([u8; 3]),
    /// Unsupported compression method.
    UnsupportedCompressionMethod(u32),
    /// Unsupported header length.
    UnsupportedHeaderLength(u32),
    /// Unsupported channel masks.
    UnsupportedChannelMasks,
    /// Invalid image dimensions.
    InvalidImageDimensions,
    /// A byte that no block may have at this place.
    InvalidByte,
    /// Bytes follow the trailer.
    JunkAfterTrailerByte,
    /// Current size bytes should be a constant.
    InvalidConstSizeBytes,
    /// An extension label that is not known.
    InvalidExtensionLabel,
}

/// What a parser makes of some bytes: the bytes that it leaves and the value that it read,
/// or why it read none.
pub type Parsed<T> = Result<(Seq<u8>, T), ParseError>;

/// The result `got` of an executable parser is what `model` says.
pub open spec fn parsed_as<T: View>(
    got: Result<(&[u8], T), ParseError>,
    model: Parsed<T::V>,
) -> bool {
    match (got, model) {
        (Ok((rest, value)), Ok((model_rest, model_value))) => rest@ == model_rest && value@
            == model_value,
        (Err(error), Err(model_error)) => error == model_error,
        _ => false,
    }
}

/// The view of a value that may be missing.
pub open spec fn view_of<T: View>(value: Option<T>) -> Option<T::V> {
    match value {
        Some(value) => Some(value@),
        None => None,
    }
}

} // verus!
