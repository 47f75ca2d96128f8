//! Row-major block grids and little-endian reads within them.
use vstd::prelude::*;
use crate::types::{Error, Format, Result, block_count};
use crate::range::p256;

verus! {

/// Little-endian value of the two bytes at `at`.
pub open spec fn u16_at(s: Seq<u8>, at: int) -> u16 {
    (s[at] as int + 256 * s[at + 1] as int) as u16
}

/// Little-endian value of the four bytes at `at`.
pub open spec fn u32_at(s: Seq<u8>, at: int) -> u32 {
    (s[at] as int + 256 * s[at + 1] as int + 65536 * s[at + 2] as int + 16777216 * s[at + 3] as int) as u32
}

pub(crate) fn read_u16(data: &[u8], at: usize) -> (r: u16)
    requires
        at + 2 <= data@.len(),
    ensures
        r == u16_at(data@, at as int),
{
    data[at] as u16 + (data[at + 1] as u16) * 256
}

pub(crate) fn read_u32(data: &[u8], at: usize) -> (r: u32)
    requires
        at + 4 <= data@.len(),
    ensures
        r == u32_at(data@, at as int),
{
    data[at] as u32 + (data[at + 1] as u32) * 256 + (data[at + 2] as u32) * 65536 + (data[at + 3] as u32) * 16777216
}

/// A validated row-major grid and the eight-byte plane currently being coded.
#[derive(Clone, Copy)]
pub struct Layout {
    pub columns: usize,
    pub rows: usize,
    pub stride: usize,
    pub offset: usize,
}

impl Layout {
    /// The grid holds at least one block, its storage is addressable, and
    /// the coded eight-byte plane lies within each block.
    pub open spec fn wf(self) -> bool {
        &&& self.columns >= 1
        &&& self.rows >= 1
        &&& (self.stride == 8 || self.stride == 16)
        &&& (self.offset == 0 || self.offset == 8)
        &&& self.offset + 8 <= self.stride
        &&& self.columns * self.rows * self.stride <= isize::MAX
    }

    /// Bytes covered by the grid.
    pub open spec fn len(self) -> int {
        self.columns * self.rows * self.stride
    }

    /// Validate a grid and the length of the buffer that holds it.
    pub fn new(width: u32, height: u32, format: Format, length: usize) -> (r: Result<Self>)
        ensures
            match format.grid_len(width, height) {
                None => r == Err::<Layout, Error>(Error::Dimensions),
                Some(n) => if length as int != n {
                    r == Err::<Layout, Error>(Error::Length)
                } else {
                    r == Ok::<Layout, Error>(Layout {
                        columns: (width / 4) as usize,
                        rows: (height / 4) as usize,
                        stride: format.spec_block_bytes(),
                        offset: 0,
                    })
                },
            },
            r matches Ok(l) ==> l.wf() && l.len() == length,
    {
        let n = format.decoded_len(width, height)?;
        if length != n {
            return Err(Error::Length);
        }
        let l = Layout {
            columns: (width / 4) as usize,
            rows: (height / 4) as usize,
            stride: format.block_bytes(),
            offset: 0,
        };
        proof {
            assert(l.columns * l.rows == block_count(width, height));
        }
        Ok(l)
    }

    /// The second eight-byte plane of sixteen-byte blocks.
    pub fn second_plane(self) -> (r: Self)
        requires
            self.stride == 16,
        ensures
            r == (Layout { offset: 8, ..self }),
    {
        Layout { offset: 8, ..self }
    }
}


/// Byte `j` of the little-endian encoding of `v`.
pub open spec fn byte_of(v: u32, j: int) -> u8 {
    ((v as int / p256(j as nat)) % 256) as u8
}

pub proof fn lemma_p256_small()
    ensures
        p256(0) == 1,
        p256(1) == 256,
        p256(2) == 65536,
        p256(3) == 16777216,
        p256(4) == 0x1_0000_0000int,
{
    reveal_with_fuel(p256, 5);
}

/// Byte `j` of the little-endian encoding of `v`.
pub(crate) fn le_byte(v: u32, j: u32) -> (b: u8)
    requires
        j < 4,
    ensures
        b == byte_of(v, j as int),
{
    proof {
        lemma_p256_small();
    }
    if j == 0 {
        (v % 256) as u8
    } else if j == 1 {
        (v / 256 % 256) as u8
    } else if j == 2 {
        (v / 65536 % 256) as u8
    } else {
        (v / 16777216 % 256) as u8
    }
}

/// A value is the sum of its little-endian bytes.
pub proof fn lemma_bytes_of(v: u32)
    ensures
        v as int == byte_of(v, 0) as int + 256 * byte_of(v, 1) as int + 65536 * byte_of(v, 2) as int
            + 16777216 * byte_of(v, 3) as int,
{
    lemma_p256_small();
    let x = v as int;
    vstd::arithmetic::div_mod::lemma_fundamental_div_mod(x, 256);
    vstd::arithmetic::div_mod::lemma_fundamental_div_mod(x / 256, 256);
    vstd::arithmetic::div_mod::lemma_fundamental_div_mod(x / 65536, 256);
    vstd::arithmetic::div_mod::lemma_div_denominator(x, 256, 256);
    vstd::arithmetic::div_mod::lemma_div_denominator(x, 65536, 256);
    assert(x / 16777216 < 256);
}

/// The bytes of a little-endian read are the bytes read.
pub proof fn lemma_u32_at_bytes(s: Seq<u8>, at: int)
    requires
        0 <= at,
        at + 4 <= s.len(),
    ensures
        byte_of(u32_at(s, at), 0) == s[at],
        byte_of(u32_at(s, at), 1) == s[at + 1],
        byte_of(u32_at(s, at), 2) == s[at + 2],
        byte_of(u32_at(s, at), 3) == s[at + 3],
{
    lemma_p256_small();
    let a = s[at] as int;
    let b = s[at + 1] as int;
    let c = s[at + 2] as int;
    let d = s[at + 3] as int;
    let v = a + 256 * b + 65536 * c + 16777216 * d;
    assert(u32_at(s, at) as int == v);
    vstd::arithmetic::div_mod::lemma_fundamental_div_mod_converse(v, 256, b + 256 * c + 65536 * d, a);
    vstd::arithmetic::div_mod::lemma_fundamental_div_mod_converse(v, 65536, c + 256 * d, a + 256 * b);
    vstd::arithmetic::div_mod::lemma_fundamental_div_mod_converse(v, 16777216, d, a + 256 * b + 65536 * c);
    vstd::arithmetic::div_mod::lemma_fundamental_div_mod_converse(b + 256 * c + 65536 * d, 256, c + 256 * d, b);
    vstd::arithmetic::div_mod::lemma_fundamental_div_mod_converse(c + 256 * d, 256, d, c);
    vstd::arithmetic::div_mod::lemma_fundamental_div_mod_converse(d, 256, 0, d);
    vstd::arithmetic::div_mod::lemma_fundamental_div_mod_converse(v, 1, v, 0);
}

} // verus!
