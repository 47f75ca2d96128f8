use bc_crunch::dictionary::top_words;
use bc_crunch::{compress, decompress_into, Error, Format};

const FORMATS: [Format; 4] = [Format::Bc1, Format::Bc3, Format::Bc4, Format::Bc5];

fn noise(seed: &mut u32, n: usize) -> Vec<u8> {
    (0..n)
        .map(|_| {
            *seed ^= *seed << 13;
            *seed ^= *seed >> 17;
            *seed ^= *seed << 5;
            *seed as u8
        })
        .collect()
}

#[test]
fn calls_are_independent_and_deterministic() {
    for fmt in FORMATS {
        let raw = vec![173; 128 * fmt.block_bytes()];
        let packed = compress(64, 32, fmt, &raw).unwrap();
        let mut out = vec![0; raw.len()];
        decompress_into(64, 32, fmt, &packed, &mut out).unwrap();
        assert_eq!(out, raw);
        assert_eq!(packed, compress(64, 32, fmt, &raw).unwrap());
    }
}

#[test]
fn streams_end_with_three_lookahead_zeros() {
    let mut seed = 91u32;
    for fmt in FORMATS {
        for (w, h) in [(4, 4), (16, 8), (32, 32)] {
            let raw = noise(&mut seed, fmt.decoded_len(w, h).unwrap());
            let packed = compress(w, h, fmt, &raw).unwrap();
            assert!(packed.len() >= 4);
            assert_eq!(&packed[packed.len() - 3..], &[0, 0, 0]);
        }
    }
}

#[test]
fn roundtrip_restores_noise_over_any_output_buffer() {
    let mut seed = 7u32;
    for fmt in FORMATS {
        let raw = noise(&mut seed, fmt.decoded_len(40, 24).unwrap());
        let packed = compress(40, 24, fmt, &raw).unwrap();
        for fill in [0u8, 0x5a, 0xff] {
            let mut out = vec![fill; raw.len()];
            assert_eq!(decompress_into(40, 24, fmt, &packed, &mut out), Ok(()));
            assert_eq!(out, raw);
        }
    }
}

#[test]
fn each_error_has_an_input_that_gives_it() {
    // Dimensions: not a multiple of four, or empty.
    assert_eq!(compress(6, 4, Format::Bc4, &[0; 8]), Err(Error::Dimensions));
    let mut out = vec![0; 8];
    assert_eq!(decompress_into(0, 4, Format::Bc1, &[0; 16], &mut out), Err(Error::Dimensions));
    // Length: a buffer of the wrong size, or a stream beyond the limit.
    assert_eq!(compress(4, 4, Format::Bc3, &[0; 8]), Err(Error::Length));
    let mut short = vec![0; 7];
    assert_eq!(decompress_into(4, 4, Format::Bc1, &[0; 16], &mut short), Err(Error::Length));
    let long = vec![0; 2 * 8 + 4096 + 1];
    assert_eq!(decompress_into(4, 4, Format::Bc1, &long, &mut out), Err(Error::Length));
    let at_limit = vec![0; 2 * 8 + 4096];
    assert_ne!(decompress_into(4, 4, Format::Bc1, &at_limit, &mut out), Err(Error::Length));
    // Truncated: fewer than the four bytes of the initial code value.
    assert_eq!(decompress_into(4, 4, Format::Bc1, &[0; 3], &mut out), Err(Error::Truncated));
    assert_eq!(decompress_into(4, 4, Format::Bc4, &[], &mut out), Err(Error::Truncated));
    // InvalidStream: a code value outside the coding interval.
    assert_eq!(decompress_into(4, 4, Format::Bc1, &[0xff; 16], &mut out), Err(Error::InvalidStream));
    assert_eq!(decompress_into(4, 4, Format::Bc4, &[0xff; 16], &mut out), Err(Error::InvalidStream));
}

#[test]
fn decoded_sizes_and_block_sizes_are_exact() {
    assert_eq!(Format::Bc1.block_bytes(), 8);
    assert_eq!(Format::Bc3.block_bytes(), 16);
    assert_eq!(Format::Bc4.block_bytes(), 8);
    assert_eq!(Format::Bc5.block_bytes(), 16);
    assert_eq!(Format::Bc1.decoded_len(8, 8), Ok(32));
    assert_eq!(Format::Bc3.decoded_len(8, 8), Ok(64));
    assert_eq!(Format::Bc5.decoded_len(1024, 4), Ok(4096));
    assert_eq!(Format::Bc4.decoded_len(4, 2048), Ok(4096));
}

#[test]
fn error_messages_describe_the_error() {
    assert_eq!(Error::Dimensions.message(), "invalid or overflowing block grid dimensions");
    assert_eq!(Error::Length.message(), "buffer length does not match the block grid");
    assert_eq!(Error::Truncated.message(), "truncated compressed stream");
    assert_eq!(Error::InvalidStream.message(), "invalid compressed stream");
}

#[test]
fn dictionary_holds_distinct_words_in_increasing_order() {
    assert_eq!(top_words(vec![5, 3, 5, 9, 3, 5]), vec![3, 5, 9]);
    assert_eq!(top_words(vec![7]), vec![7]);
    assert_eq!(top_words(vec![u32::MAX, 0, u32::MAX]), vec![0, u32::MAX]);
}

#[test]
fn dictionary_keeps_the_most_frequent_words_and_larger_on_ties() {
    // 300 words once each: the 256 largest win the ties.
    let once: Vec<u32> = (0..300).rev().collect();
    assert_eq!(top_words(once), (44..300).collect::<Vec<u32>>());
    // A frequent small word beats every single larger one.
    let mut words: Vec<u32> = (1000..1300).collect();
    words.push(1);
    words.push(1);
    let mut expected = vec![1u32];
    expected.extend(1045..1300);
    assert_eq!(top_words(words), expected);
}

#[test]
fn prefixes_missing_two_bytes_are_refused() {
    let mut seed = 55u32;
    for fmt in FORMATS {
        let raw = noise(&mut seed, fmt.decoded_len(16, 12).unwrap());
        let packed = compress(16, 12, fmt, &raw).unwrap();
        let mut out = vec![0; raw.len()];
        for end in 0..=packed.len() - 2 {
            assert!(decompress_into(16, 12, fmt, &packed[..end], &mut out).is_err(), "{fmt:?} prefix {end}");
        }
        assert_eq!(decompress_into(16, 12, fmt, &packed, &mut out), Ok(()));
        assert_eq!(out, raw);
    }
}

#[test]
fn refused_streams_leave_the_buffer_untouched() {
    let mut out = vec![0x3c; 16];
    assert_eq!(decompress_into(4, 4, Format::Bc3, &[1, 2, 3], &mut out), Err(Error::Truncated));
    assert_eq!(out, vec![0x3c; 16]);
    assert_eq!(decompress_into(4, 4, Format::Bc3, &vec![0; 2 * 16 + 4097], &mut out), Err(Error::Length));
    assert_eq!(out, vec![0x3c; 16]);
    // The first coded value is out of range: nothing is decoded.
    assert_eq!(decompress_into(4, 4, Format::Bc1, &[0xff; 16], &mut out[..8]), Err(Error::InvalidStream));
    assert_eq!(out, vec![0x3c; 16]);
}

#[test]
fn prior_output_contents_never_change_the_result() {
    let mut seed = 4242u32;
    for n in [0usize, 3, 4, 9, 40, 300] {
        for _ in 0..20 {
            let stream = noise(&mut seed, n);
            for fmt in FORMATS {
                let len = fmt.decoded_len(16, 8).unwrap();
                let mut zeros = vec![0u8; len];
                let mut ones = vec![0xffu8; len];
                let r0 = decompress_into(16, 8, fmt, &stream, &mut zeros);
                let r1 = decompress_into(16, 8, fmt, &stream, &mut ones);
                assert_eq!(r0, r1);
                if r0.is_ok() {
                    assert_eq!(zeros, ones);
                }
            }
        }
    }
    // A valid stream decodes to the same bytes over any prior contents.
    let raw = noise(&mut seed, Format::Bc3.decoded_len(16, 8).unwrap());
    let packed = compress(16, 8, Format::Bc3, &raw).unwrap();
    let mut a = noise(&mut seed, raw.len());
    let mut b = vec![0u8; raw.len()];
    decompress_into(16, 8, Format::Bc3, &packed, &mut a).unwrap();
    decompress_into(16, 8, Format::Bc3, &packed, &mut b).unwrap();
    assert_eq!(a, b);
    assert_eq!(a, raw);
}

#[test]
fn bytes_after_a_stream_are_ignored() {
    let mut seed = 77u32;
    for fmt in FORMATS {
        let raw = noise(&mut seed, fmt.decoded_len(12, 8).unwrap());
        let packed = compress(12, 8, fmt, &raw).unwrap();
        for extra in [vec![], vec![0u8], vec![0xff; 7], noise(&mut seed, 100)] {
            let mut longer = packed.clone();
            longer.extend_from_slice(&extra);
            let mut out = vec![0x11; raw.len()];
            assert_eq!(decompress_into(12, 8, fmt, &longer, &mut out), Ok(()));
            assert_eq!(out, raw);
        }
    }
}
