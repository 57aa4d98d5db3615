//! The ways reading or re-scaling a WAV file can fail.
use vstd::prelude::*;

verus! {

#[derive(Clone, Copy, Debug, PartialEq, Eq, Structural)]
pub enum WavError {
    /// A read of `len` bytes at `offset` runs past the `available` bytes of the buffer.
    OutOfBounds { offset: usize, len: usize, available: usize },
    /// The RIFF chunk size, read in either byte order, does not account for the buffer's length.
    AmbiguousOrCorruptHeader { size_le: u32, size_be: u32, buffer_len: usize },
    /// The `fmt` subchunk is not the 16-byte PCM layout.
    UnsupportedChunkLayout { subchunk_size: u32 },
    /// Neither the current nor the requested bit depth is a whole number of bytes.
    UnsupportedBitDepth { current: u16, requested: u16 },
}

} // verus!
