//! Block formats, errors and the size of a decoded block grid.
use vstd::prelude::*;

verus! {

/// Format of the uncompressed BC block data.
#[derive(Clone, Copy, Debug, PartialEq, Eq, Structural)]
pub enum Format {
    /// Eight-byte RGB blocks.
    Bc1,
    /// Sixteen-byte RGBA blocks.
    Bc3,
    /// Eight-byte single-channel blocks.
    Bc4,
    /// Sixteen-byte two-channel blocks.
    Bc5,
}

/// Invalid dimensions, buffer sizes or compressed data.
#[derive(Clone, Copy, Debug, PartialEq, Eq, Structural)]
pub enum Error {
    /// Invalid block dimensions or overflowing storage size.
    Dimensions,
    /// Buffer length does not match the block grid or exceeds the input limit.
    Length,
    /// The stream ended before decoding completed.
    Truncated,
    /// The stream contains invalid coding data.
    InvalidStream,
}

/// Result returned by the block stream codec.
pub type Result<T> = core::result::Result<T, Error>;

impl Error {
    /// A human-readable description of the error.
    pub fn message(&self) -> (s: &'static str)
        ensures
            match self {
                Error::Dimensions => s@ == "invalid or overflowing block grid dimensions"@,
                Error::Length => s@ == "buffer length does not match the block grid"@,
                Error::Truncated => s@ == "truncated compressed stream"@,
                Error::InvalidStream => s@ == "invalid compressed stream"@,
            },
    {
        match self {
            Error::Dimensions => "invalid or overflowing block grid dimensions",
            Error::Length => "buffer length does not match the block grid",
            Error::Truncated => "truncated compressed stream",
            Error::InvalidStream => "invalid compressed stream",
        }
    }
}

/// Whether a width and height describe a nonempty grid of whole 4x4 blocks.
pub open spec fn valid_dims(width: u32, height: u32) -> bool {
    width != 0 && height != 0 && width % 4 == 0 && height % 4 == 0
}

/// Number of blocks in a grid of the given pixel dimensions.
pub open spec fn block_count(width: u32, height: u32) -> int {
    (width / 4) as int * (height / 4) as int
}

impl Format {
    pub open spec fn spec_block_bytes(self) -> usize {
        match self {
            Format::Bc1 | Format::Bc4 => 8,
            _ => 16,
        }
    }

    /// Bytes in one 4x4 BC block.
    #[verifier::when_used_as_spec(spec_block_bytes)]
    pub fn block_bytes(self) -> (r: usize)
        ensures
            r == self.spec_block_bytes(),
    {
        match self {
            Format::Bc1 | Format::Bc4 => 8,
            _ => 16,
        }
    }

    /// The decoded size in bytes, when the dimensions are valid and the size
    /// fits addressable storage.
    pub open spec fn grid_len(self, width: u32, height: u32) -> Option<int> {
        let n = block_count(width, height) * self.spec_block_bytes();
        if valid_dims(width, height) && n <= isize::MAX as int {
            Some(n)
        } else {
            None
        }
    }

    /// Size of the decoded BC block buffer, in bytes.
    pub fn decoded_len(self, width: u32, height: u32) -> (r: Result<usize>)
        ensures
            match self.grid_len(width, height) {
                Some(n) => r == Ok::<usize, Error>(n as usize),
                None => r == Err::<usize, Error>(Error::Dimensions),
            },
    {
        if width == 0 || height == 0 || width % 4 != 0 || height % 4 != 0 {
            return Err(Error::Dimensions);
        }
        let columns = (width / 4) as usize;
        let rows = (height / 4) as usize;
        let limit = isize::MAX as usize;
        match columns.checked_mul(rows) {
            None => {
                proof {
                    assert(columns as int * rows as int > usize::MAX as int);
                    assert(block_count(width, height) * self.spec_block_bytes() >= block_count(width, height)) by (nonlinear_arith)
                        requires block_count(width, height) >= 0, self.spec_block_bytes() >= 1;
                }
                Err(Error::Dimensions)
            },
            Some(blocks) => match blocks.checked_mul(self.block_bytes()) {
                None => Err(Error::Dimensions),
                Some(n) => {
                    if n <= limit {
                        Ok(n)
                    } else {
                        Err(Error::Dimensions)
                    }
                },
            },
        }
    }
}

} // verus!
