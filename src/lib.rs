//! Reading, re-scaling and writing PCM WAV files with a canonical 44-byte header.

pub mod codec;
pub mod error;
pub mod scale;
pub mod wav;
pub mod laws;
