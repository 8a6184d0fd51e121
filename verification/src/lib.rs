//! Decoder for BRSTM streams: 4-bit ADPCM audio in the big-endian container used by Wii games.

pub mod adpcm;
pub mod decoder;
pub mod error;
pub mod laws;
pub mod parse;
pub mod records;
pub mod section;
pub mod util;
pub mod wav;
