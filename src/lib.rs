//! A decoder for FLAC streams: a bit reader with CRC taps, Rice residuals,
//! frame and subframe parsing and inter-channel decorrelation, each stated
//! over spec functions on the stream's bytes.

pub mod error;
pub mod crc;
pub mod bits;
pub mod bitvec;
pub mod decode;
pub mod metadata;
pub mod frame;
pub mod stream;
