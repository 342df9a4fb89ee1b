//! The decoder's error taxonomy.
//!
//! Errors surface synchronously from the operation that detected them;
//! after a failure the decoder instance is meant to be discarded.

use vstd::prelude::*;

verus! {

/// Which kind of table a scan referenced but could not resolve.
#[derive(Clone, Copy, Debug, PartialEq, Eq, Structural)]
pub enum TableKind {
    /// A quantization table (from DQT).
    Quant,
    /// A DC Huffman table (from DHT with class 0).
    Dc,
    /// An AC Huffman table (from DHT with class 1).
    Ac,
}

/// Everything that can go wrong while decoding one JPEG stream.
#[derive(Clone, Copy, Debug, PartialEq, Eq, Structural)]
pub enum DecodeError {
    /// The first two bytes were not `FF D8`.
    MissingSoi,
    /// An unhandled marker was met in the header stream.
    UnknownMarker(u8),
    /// A marker other than the expected RSTn was met inside the
    /// entropy-coded segment.
    UnexpectedMarkerInScan(u8),
    /// An RSTn marker was met whose index is out of step with the MCU
    /// counter: first the expected index, then the observed one.
    RestartMismatch(u8, u8),
    /// The byte source ended before the structure it was feeding.
    TruncatedStream,
    /// Sixteen accumulated bits matched no Huffman code, or a decoded
    /// symbol asked for an amplitude wider than sixteen bits.
    HuffmanDecodeError,
    /// A scan referenced a table id that no parsed segment defined:
    /// the kind of table, then the id.
    TableLookupFailed(TableKind, u8),
    /// An AC run-length code asked to fill coefficients past the end
    /// of a 64-coefficient block.
    BlockOverflow,
    /// A segment's length field is inconsistent with its content.
    MalformedSegment,
    /// The stream uses a feature outside the baseline subset.
    UnsupportedFeature(Feature),
}

/// The unsupported features the decoder rejects explicitly.
#[derive(Clone, Copy, Debug, PartialEq, Eq, Structural)]
pub enum Feature {
    /// A DQT entry with 16-bit precision (pq != 0).
    QuantPrecision,
    /// A frame whose sample precision is not 8 bits.
    SamplePrecision,
    /// A frame with a component count outside {1, 3}.
    ComponentCount,
    /// A component whose sampling factor lies outside 1..=4.
    SamplingFactor,
    /// A sample plane larger than the address space can hold.
    ImageSize,
}

} // verus!
