//! X3 lossless audio codec for 16-bit PCM: first-order differences coded
//! per block with one of three Rice codes, block floating point or raw
//! words, packed at bit granularity into CRC-protected, self-synchronising
//! frames, plus the `.x3a` archive header.
//!
//! - `crc`: CRC-16/CCITT-FALSE.
//! - `bitpacker`, `bitreader`: MSB-first bit writer and reader.
//! - `bytereader`, `bytewriter`: byte sources and sinks.
//! - `x3`: parameters, Rice code descriptors, frame header layout.
//! - `encoder`, `streamencoder`: block, frame and stream encoding.
//! - `decoder`: block and frame decoding, stream decoding with resync.
//! - `archive`: the archive header and its XML fields.
//! - `roundtrip`: decoding inverts encoding; resynchronisation.
//! - `filetype`: file kinds by extension.

pub mod archive;
pub mod bitpacker;
pub mod bitreader;
pub mod bytereader;
pub mod bytewriter;
pub mod crc;
pub mod decoder;
pub mod encoder;
pub mod error;
pub mod filetype;
pub mod roundtrip;
pub mod streamencoder;
pub mod x3;
