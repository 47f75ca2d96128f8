//! Lossless compression of BC1, BC3, BC4 and BC5 texture blocks with an
//! adaptive range coder.
//!
//! `compress` and `decompress_into` are specified by `codec::spec_compress`
//! and `codec::spec_decompress`. The proof functions of `roundtrip` show that
//! decompression gives back every byte that compression was given, those of
//! `truncation` that a stream cut short is refused, and those of `locality`
//! that each plane pass reads and writes only its plane, so that the prior
//! contents of the output never change the result.
use vstd::prelude::*;

pub mod types;
pub mod block;
pub mod range;
pub mod decodable;
pub mod dictionary;
pub mod color;
pub mod color_inverse;
pub mod alpha;
pub mod alpha_inverse;
pub mod codec;
pub mod roundtrip;
pub mod truncation;
pub mod locality;

pub use types::{Error, Format, Result};
pub use block::Layout;
pub use codec::{compress, decompress_into};
