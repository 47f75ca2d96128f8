//! Decompression gives back what compression was given: every byte of
//! every block, endpoint order and selectors included.
use vstd::prelude::*;
use crate::alpha::alpha_encode;
use crate::alpha_inverse::{lemma_alpha_encode_ok, lemma_alpha_inverse};
use crate::block::Layout;
use crate::codec::{decode_planes, encode_planes, grid, input_limit, second, spec_compress, spec_decompress};
use crate::color::color_encode;
use crate::color_inverse::{lemma_color_encode_ok, lemma_color_inverse, plane_fill};
use crate::decodable::{code_in, lemma_finish, lemma_narrows_trans, lemma_start, narrows};
use crate::range::{EncState, dec_new, enc_finish, enc_init, enc_inv, num, p256};
use crate::types::{Format, block_count};

verus! {

/// The grid of valid dimensions is well formed and as long as the decoded
/// size.
pub proof fn lemma_grid(width: u32, height: u32, format: Format)
    requires
        format.grid_len(width, height) is Some,
    ensures
        grid(width, height, format).wf(),
        grid(width, height, format).len() == format.grid_len(width, height)->Some_0,
{
    let l = grid(width, height, format);
    assert(l.columns * l.rows == block_count(width, height));
    assert(l.columns * l.rows * l.stride == block_count(width, height) * format.spec_block_bytes());
}

pub proof fn lemma_init_inv()
    ensures
        enc_inv(enc_init()),
{
    assert(p256(0) == 1);
    assert(num(Seq::<u8>::empty()) == 0);
}

/// Coding every plane keeps the encoder well formed and narrows its
/// interval.
pub proof fn lemma_planes_ok(format: Format, input: Seq<u8>, l: Layout)
    requires
        l.wf(),
        l.offset == 0,
        l.stride == format.spec_block_bytes(),
        input.len() == l.len(),
    ensures
        enc_inv(encode_planes(format, input, l)),
        narrows(enc_init(), encode_planes(format, input, l)),
{
    lemma_init_inv();
    let e0 = enc_init();
    let l2 = second(l);
    match format {
        Format::Bc1 => {
            lemma_color_encode_ok(e0, input, l);
        },
        Format::Bc3 => {
            lemma_alpha_encode_ok(e0, input, l);
            let e1 = alpha_encode(e0, input, l);
            lemma_color_encode_ok(e1, input, l2);
            lemma_narrows_trans(e0, e1, color_encode(e1, input, l2));
        },
        Format::Bc4 => {
            lemma_alpha_encode_ok(e0, input, l);
        },
        Format::Bc5 => {
            lemma_alpha_encode_ok(e0, input, l);
            let e1 = alpha_encode(e0, input, l);
            lemma_alpha_encode_ok(e1, input, l2);
            lemma_narrows_trans(e0, e1, alpha_encode(e1, input, l2));
        },
    }
}

/// Decoding the planes of a finished stream fills every byte of the grid.
pub proof fn lemma_planes_inverse(format: Format, input: Seq<u8>, l: Layout, out0: Seq<u8>)
    requires
        l.wf(),
        l.offset == 0,
        l.stride == format.spec_block_bytes(),
        input.len() == l.len(),
        out0.len() == l.len(),
    ensures
        dec_new(enc_finish(encode_planes(format, input, l))) matches Ok(d0) && decode_planes(
            format,
            d0,
            enc_finish(encode_planes(format, input, l)),
            out0,
            l,
        ) matches Ok((d, o)) && o == input && d.at == encode_planes(format, input, l).bytes.len() + 4,
{
    lemma_planes_ok(format, input, l);
    lemma_init_inv();
    let e0 = enc_init();
    let fin = encode_planes(format, input, l);
    let s = enc_finish(fin);
    lemma_finish(fin);
    assert(code_in(s, e0));
    lemma_start(s);
    let d0 = dec_new(s)->Ok_0;
    let l2 = second(l);
    match format {
        Format::Bc1 => {
            lemma_color_inverse(e0, input, l, d0, s, out0);
            assert(plane_fill(out0, input, l) =~= input);
        },
        Format::Bc3 => {
            lemma_alpha_encode_ok(e0, input, l);
            let e1 = alpha_encode(e0, input, l);
            lemma_color_encode_ok(e1, input, l2);
            assert(code_in(s, e1));
            lemma_alpha_inverse(e0, input, l, d0, s, out0);
            let (d1, o1) = crate::alpha::alpha_decode(d0, s, out0, l)->Ok_0;
            lemma_color_inverse(e1, input, l2, d1, s, o1);
            assert(plane_fill(o1, input, l2) =~= input);
        },
        Format::Bc4 => {
            lemma_alpha_inverse(e0, input, l, d0, s, out0);
            assert(plane_fill(out0, input, l) =~= input);
        },
        Format::Bc5 => {
            lemma_alpha_encode_ok(e0, input, l);
            let e1 = alpha_encode(e0, input, l);
            lemma_alpha_encode_ok(e1, input, l2);
            assert(code_in(s, e1));
            lemma_alpha_inverse(e0, input, l, d0, s, out0);
            let (d1, o1) = crate::alpha::alpha_decode(d0, s, out0, l)->Ok_0;
            lemma_alpha_inverse(e1, input, l2, d1, s, o1);
            assert(plane_fill(o1, input, l2) =~= input);
        },
    }
}

/// Decompressing the stream of a grid gives the grid back, into a buffer
/// of its size holding anything, unless the stream is longer than the
/// decoder accepts for that size.
pub proof fn lemma_roundtrip(width: u32, height: u32, format: Format, input: Seq<u8>, out0: Seq<u8>)
    requires
        format.grid_len(width, height) == Some(input.len() as int),
        out0.len() == input.len(),
        spec_compress(width, height, format, input) matches Ok(s) && s.len() <= input_limit(input.len() as int),
    ensures
        spec_compress(width, height, format, input) matches Ok(s) && spec_decompress(width, height, format, s, out0) == Ok::<
            Seq<u8>,
            crate::types::Error,
        >(input),
{
    lemma_grid(width, height, format);
    lemma_planes_inverse(format, input, grid(width, height, format), out0);
}

/// Every compressed stream ends with the three zero bytes of decoder
/// lookahead.
pub proof fn lemma_lookahead(width: u32, height: u32, format: Format, input: Seq<u8>)
    requires
        spec_compress(width, height, format, input) is Ok,
    ensures
        spec_compress(width, height, format, input) matches Ok(s) && s.len() >= 3 && s.subrange(s.len() - 3, s.len() as int)
            == seq![0u8, 0u8, 0u8],
{
    let s = spec_compress(width, height, format, input)->Ok_0;
    assert(s.subrange(s.len() - 3, s.len() as int) =~= seq![0u8, 0u8, 0u8]);
}

} // verus!
