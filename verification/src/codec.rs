//! Compression and decompression of whole BC block grids.
use vstd::prelude::*;
use crate::alpha::{alpha_decode, alpha_encode, alpha_left};
use crate::block::Layout;
use crate::color::{color_decode, color_encode, color_left};
use crate::range::{DecState, EncState, Decoder, Encoder, dec_new, enc_finish, enc_init};
use crate::types::{Error, Format, Result};

verus! {

/// The grid of the given dimensions and format, first plane.
pub open spec fn grid(width: u32, height: u32, format: Format) -> Layout {
    Layout { columns: (width / 4) as usize, rows: (height / 4) as usize, stride: format.spec_block_bytes(), offset: 0 }
}

/// The second eight-byte plane of a grid.
pub open spec fn second(l: Layout) -> Layout {
    Layout { offset: 8, ..l }
}

/// The encoder state after coding every plane of `input`: alpha before
/// colour, first plane before second.
pub open spec fn encode_planes(format: Format, input: Seq<u8>, l: Layout) -> EncState {
    let e0 = enc_init();
    match format {
        Format::Bc1 => color_encode(e0, input, l),
        Format::Bc3 => color_encode(alpha_encode(e0, input, l), input, second(l)),
        Format::Bc4 => alpha_encode(e0, input, l),
        Format::Bc5 => alpha_encode(alpha_encode(e0, input, l), input, second(l)),
    }
}

/// The compressed stream of a grid of blocks.
pub open spec fn spec_compress(width: u32, height: u32, format: Format, input: Seq<u8>) -> Result<Seq<u8>> {
    match format.grid_len(width, height) {
        None => Err(Error::Dimensions),
        Some(n) => if input.len() != n {
            Err(Error::Length)
        } else {
            Ok(enc_finish(encode_planes(format, input, grid(width, height, format))))
        },
    }
}

/// Decode every plane into `out`, in coding order.
pub open spec fn decode_planes(format: Format, d: DecState, bytes: Seq<u8>, out: Seq<u8>, l: Layout) -> Result<(DecState, Seq<u8>)> {
    match format {
        Format::Bc1 => color_decode(d, bytes, out, l),
        Format::Bc3 => match alpha_decode(d, bytes, out, l) {
            Err(e) => Err(e),
            Ok((d1, o1)) => color_decode(d1, bytes, o1, second(l)),
        },
        Format::Bc4 => alpha_decode(d, bytes, out, l),
        Format::Bc5 => match alpha_decode(d, bytes, out, l) {
            Err(e) => Err(e),
            Ok((d1, o1)) => alpha_decode(d1, bytes, o1, second(l)),
        },
    }
}

/// The largest stream accepted for an output of `n` bytes.
pub open spec fn input_limit(n: int) -> int {
    2 * n + 4096
}

/// The output of decompressing `input` into a buffer that held `out`.
pub open spec fn spec_decompress(width: u32, height: u32, format: Format, input: Seq<u8>, out: Seq<u8>) -> Result<Seq<u8>> {
    match format.grid_len(width, height) {
        None => Err(Error::Dimensions),
        Some(n) => if out.len() != n {
            Err(Error::Length)
        } else if input.len() > input_limit(out.len() as int) {
            Err(Error::Length)
        } else {
            match dec_new(input) {
                Err(e) => Err(e),
                Ok(d) => match decode_planes(format, d, input, out, grid(width, height, format)) {
                    Err(e) => Err(e),
                    Ok((_, o)) => Ok(o),
                },
            }
        },
    }
}

/// The output buffer as decoding the planes leaves it, whether or not a
/// plane fails.
pub open spec fn planes_left(format: Format, d: DecState, bytes: Seq<u8>, out: Seq<u8>, l: Layout) -> Seq<u8> {
    match format {
        Format::Bc1 => color_left(d, bytes, out, l),
        Format::Bc3 => match alpha_decode(d, bytes, out, l) {
            Err(_) => alpha_left(d, bytes, out, l),
            Ok((d1, o1)) => color_left(d1, bytes, o1, second(l)),
        },
        Format::Bc4 => alpha_left(d, bytes, out, l),
        Format::Bc5 => match alpha_decode(d, bytes, out, l) {
            Err(_) => alpha_left(d, bytes, out, l),
            Ok((d1, o1)) => alpha_left(d1, bytes, o1, second(l)),
        },
    }
}

/// The output buffer after decompressing `input` into a buffer that held
/// `out`: unchanged when the dimensions, the lengths or the first four bytes
/// are refused, and otherwise holding every endpoint and selector decoded
/// before a failure, or the whole grid.
pub open spec fn decompress_left(width: u32, height: u32, format: Format, input: Seq<u8>, out: Seq<u8>) -> Seq<u8> {
    match format.grid_len(width, height) {
        None => out,
        Some(n) => if out.len() != n || input.len() > input_limit(out.len() as int) {
            out
        } else {
            match dec_new(input) {
                Err(_) => out,
                Ok(d) => planes_left(format, d, input, out, grid(width, height, format)),
            }
        },
    }
}

/// Encode ordinary row-major BC blocks. Dimensions must be nonzero multiples
/// of four. The stream ends with three arithmetic lookahead bytes.
pub fn compress(width: u32, height: u32, format: Format, input: &[u8]) -> (r: Result<Vec<u8>>)
    ensures
        match spec_compress(width, height, format, input@) {
            Ok(s) => r matches Ok(v) && v@ == s,
            Err(e) => r == Err::<Vec<u8>, Error>(e),
        },
{
    let layout = Layout::new(width, height, format, input.len())?;
    let mut encoder = Encoder::new(input.len() / 2);
    match format {
        Format::Bc1 => crate::color::encode(&mut encoder, input, layout),
        Format::Bc3 => {
            crate::alpha::encode(&mut encoder, input, layout);
            crate::color::encode(&mut encoder, input, layout.second_plane());
        },
        Format::Bc4 => crate::alpha::encode(&mut encoder, input, layout),
        Format::Bc5 => {
            crate::alpha::encode(&mut encoder, input, layout);
            crate::alpha::encode(&mut encoder, input, layout.second_plane());
        },
    }
    Ok(encoder.finish())
}

/// Decode into caller-owned BC storage. Input reads and output dimensions
/// are checked; errors may leave partial output, which the caller must
/// discard: `decompress_left` says which.
pub fn decompress_into(width: u32, height: u32, format: Format, input: &[u8], output: &mut [u8]) -> (r: Result<()>)
    ensures
        final(output)@.len() == old(output)@.len(),
        final(output)@ == decompress_left(width, height, format, input@, old(output)@),
        match spec_decompress(width, height, format, input@, old(output)@) {
            Ok(o) => r is Ok && final(output)@ == o,
            Err(e) => r == Err::<(), Error>(e),
        },
{
    let layout = Layout::new(width, height, format, output.len())?;
    // The limit saturates at the largest length.
    let limit = if output.len() > (usize::MAX - 4096) / 2 {
        usize::MAX
    } else {
        output.len() * 2 + 4096
    };
    if input.len() > limit {
        return Err(Error::Length);
    }
    let mut decoder = Decoder::new(input)?;
    match format {
        Format::Bc1 => crate::color::decode(&mut decoder, output, layout)?,
        Format::Bc3 => {
            crate::alpha::decode(&mut decoder, output, layout)?;
            crate::color::decode(&mut decoder, output, layout.second_plane())?;
        },
        Format::Bc4 => crate::alpha::decode(&mut decoder, output, layout)?,
        Format::Bc5 => {
            crate::alpha::decode(&mut decoder, output, layout)?;
            crate::alpha::decode(&mut decoder, output, layout.second_plane())?;
        },
    }
    Ok(())
}

} // verus!
