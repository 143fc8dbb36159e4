//! Nibble-aligned column compression: values are queued as zigzag deltas and
//! emitted in blocks tagged by a four-bit header.

pub mod consts;
pub mod constants;
pub mod halfvec;
pub mod encode;
pub mod queue;
pub mod decode;
pub mod roundtrip;
pub mod greedy_delta_v2;
pub mod column;
pub mod row_writer;

use vstd::prelude::*;

verus! {

/// A struct representing the expected and actual lengths of columns in a data set.
#[derive(Debug)]
pub struct ColumnLengths {
    pub expected_rows: usize,
    pub column_lengths: Vec<usize>,
}

/// The errors that can occur while decoding.
#[derive(Debug)]
pub enum CodingError {
    /// There is not enough data to decode a single value.
    Empty,
    /// There were not enough bits to finish decoding an expected value.
    NotEnoughBits,
    /// There were bits that indicated an invalid value.
    InvalidBits,
    /// The first column tag was invalid.
    InvalidInitialColumnTag,
    /// A non-first column tag was invalid.
    InvalidColumnTag,
    /// The number of rows decoded did not match the expected number of rows.
    ColumnLengthMismatch(ColumnLengths),
    /// The number of rows to decode cannot be valid.
    InvalidRowCount(usize),
}

/// High-level interface for compression, implemented for row types.
pub trait TszCompressV2: Sized {
    /// The type of the row to compress.
    type T: Copy;

    /// A new compressor; `prealloc_rows` is a capacity hint, not a limit.
    fn new(prealloc_rows: usize) -> Self;

    /// Lazily compresses a row.
    fn compress(&mut self, row: Self::T);

    /// The estimate of the number of bits compressed so far that `len` gives.
    spec fn estimated_bits(&self) -> nat;

    /// The bytes that finishing now appends: the compressed rows.
    spec fn pending_bytes(&self) -> Seq<u8>;

    /// An estimate of the number of bits compressed so far.
    fn len(&self) -> (r: usize)
        ensures
            r == self.estimated_bits(),
    ;

    /// True when no bits have been compressed.
    fn is_empty(&self) -> (r: bool)
        ensures
            r == (self.estimated_bits() == 0),
    {
        self.len() == 0
    }

    /// An estimate of the bits per column value.
    fn bit_rate(&self) -> usize;

    /// The exact number of rows consumed.
    fn row_count(&self) -> usize;

    /// Appends the compressed bytes to `output_bytes`, leaving the compressor cleared.
    fn finish_into(&mut self, output_bytes: &mut Vec<u8>)
        ensures
            final(output_bytes)@ == old(output_bytes)@ + old(self).pending_bytes(),
    ;

    /// Finishes into a new vector of bytes: the bytes that `finish_into` appends.
    fn finish(&mut self) -> (r: Vec<u8>)
        ensures
            r@ == old(self).pending_bytes(),
    {
        let mut bytes: Vec<u8> = Vec::new();
        self.finish_into(&mut bytes);
        assert(bytes@ =~= old(self).pending_bytes());
        bytes
    }
}

/// High-level interface for decompression, implemented for row types.
pub trait TszDecompressV2: Sized {
    /// The type of the decompressed row.
    type T: Copy;

    /// A new decompressor.
    fn new() -> Self;

    /// Decompresses all rows into columnar buffers, without overwriting earlier data.
    fn decompress(&mut self, bits: &[u8]) -> Result<(), CodingError>;

    /// The decompressed values rotated into rows.
    fn rows(&self) -> Vec<Self::T>;

    /// Clears the internal state for reuse.
    fn clear(&mut self);
}

} // verus!
