use vstd::prelude::*;

verus! {

/// The error kinds of the page codec layer.
///
/// Every error is fatal for the current page: the caller must not try to
/// resume decoding after one of these is returned.
#[derive(Clone, Copy, Debug, PartialEq, Eq, Structural)]
pub enum NativeError {
    /// The input ran out in the middle of a page header or payload.
    Truncated,
    /// A codec identifier outside the catalog was found in a page header.
    UnknownCodec,
    /// A codec-specific structural fault in a payload (a zero run length,
    /// a bit width above 32, a dictionary index past the dictionary, or a
    /// generic byte codec that this build does not provide).
    InvalidPayload,
    /// The decoded element count does not match the expected page length.
    SizeMismatch,
    /// An error of the surrounding reader or writer, attached by the caller;
    /// the codec layer itself never produces it.
    Io,
}

} // verus!
