//! The errors of the codec.

use vstd::prelude::*;
use crate::bitpacker::BitPackError;

verus! {

#[derive(Debug, PartialEq, Eq)]
pub enum X3Error {
    BitPack(BitPackError),
    /// A threshold is larger than the offset of its Rice code.
    InvalidEncodingThresh,
    /// A Rice index is past the end of the inverse table.
    OutOfBoundsInverse,
    /// The frame holds more channels than are supported.
    MoreThanOneChannel,
    /// The archive XML is malformed.
    ArchiveHeaderXMLInvalid,
    /// The archive XML names an unknown Rice code.
    ArchiveHeaderXMLRiceCode,
    /// The archive does not start with `X3ARCHIV`.
    ArchiveHeaderXMLInvalidKey,
    /// The frame is too long.
    FrameLength,
    /// The frame header does not start with "x3".
    FrameHeaderInvalidKey,
    /// The payload reaches past the end of the data.
    FrameHeaderInvalidPayloadLen,
    FrameHeaderInvalidHeaderCRC,
    FrameHeaderInvalidPayloadCRC,
    FrameDecodeInvalidBlockLength,
    FrameDecodeInvalidIndex,
    FrameDecodeInvalidNTOGO,
    FrameDecodeInvalidFType,
    FrameDecodeInvalidRiceCode,
    /// A block-floating-point width of five bits or less.
    FrameDecodeInvalidBPF,
    /// The data ends before a complete frame header.
    FrameDecodeUnexpectedEnd,
    /// A fixed-size output is full.
    ByteWriterInsufficientMemory,
    StreamBuilderNoOutput,
    StreamBuilderNoSampleRate,
    EncodeStreamMissingBitpacker,
    /// Channels of an interleaved stream ended at different lengths.
    EncodeStreamMismatchedChannelLengths,
}

} // verus!
