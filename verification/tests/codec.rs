use bc_crunch::{compress, decompress_into, Error, Format};

const FORMATS: [Format; 4] = [Format::Bc1, Format::Bc3, Format::Bc4, Format::Bc5];

/// A deterministic 64x64 BC3 grid with varied endpoints and selectors,
/// standing in for a texture fixture.
fn sample_bc3() -> Vec<u8> {
    let mut seed = 0x2545_f491u32;
    let mut raw = Vec::with_capacity(4096);
    for block in 0..256u32 {
        let mut next = || {
            seed ^= seed << 13;
            seed ^= seed >> 17;
            seed ^= seed << 5;
            seed
        };
        let a = (block * 3 % 256) as u8;
        raw.push(a);
        raw.push(a.wrapping_add((next() % 40) as u8));
        let idx = if block % 3 == 0 { 0x0049_2492_4924u64 } else { next() as u64 | ((next() as u64 & 0xffff) << 32) };
        raw.extend_from_slice(&idx.to_le_bytes()[..6]);
        let c0 = ((block * 97) % 65536) as u16;
        let c1 = c0.wrapping_add((next() % 300) as u16);
        raw.extend_from_slice(&c0.to_le_bytes());
        raw.extend_from_slice(&c1.to_le_bytes());
        let sel = if block % 5 == 0 { 0x5555_5555u32 } else { next() };
        raw.extend_from_slice(&sel.to_le_bytes());
    }
    raw
}

#[test]
fn roundtrip_all_formats_and_edge_dimensions() {
    let mut seed = 193u32;
    for fmt in FORMATS {
        for (w, h) in [(4, 4), (12, 20), (64, 64), (1024, 4), (4, 1024), (2048, 8), (8, 2048)] {
            for pattern in 0..3 {
                let raw: Vec<_> = (0..w * h / 16 * fmt.block_bytes())
                    .map(|i| {
                        seed ^= seed << 13;
                        seed ^= seed >> 17;
                        seed ^= seed << 5;
                        match pattern {
                            0 => 0,
                            1 => (i % 13) as u8,
                            _ => seed as u8,
                        }
                    })
                    .collect();
                let stream = compress(w as u32, h as u32, fmt, &raw).unwrap();
                let mut out = vec![0xa5; raw.len()];
                decompress_into(w as u32, h as u32, fmt, &stream, &mut out).unwrap();
                assert_eq!(raw, out, "{fmt:?} {w}x{h} {pattern}");
            }
        }
    }
}

#[test]
fn bad_sizes_and_truncated_inputs_return_errors() {
    assert_eq!(compress(u32::MAX, 4, Format::Bc1, &[0; 8]), Err(Error::Dimensions));
    assert_eq!(compress(4, 4, Format::Bc1, &[0; 7]), Err(Error::Length));
    let raw = sample_bc3();
    let stream = compress(64, 64, Format::Bc3, &raw).unwrap();
    let mut out = vec![0; raw.len()];
    for end in 0..stream.len().saturating_sub(3) {
        assert!(decompress_into(64, 64, Format::Bc3, &stream[..end], &mut out).is_err(), "prefix {end}");
    }
}

#[test]
fn arbitrary_inputs_do_not_panic() {
    let mut seed = 713u32;
    for n in 0..500 {
        let bytes: Vec<_> = (0..n)
            .map(|_| {
                seed ^= seed << 13;
                seed ^= seed >> 17;
                seed ^= seed << 5;
                seed as u8
            })
            .collect();
        for fmt in FORMATS {
            let mut out = vec![0; 16 * fmt.block_bytes()];
            let _ = decompress_into(16, 16, fmt, &bytes, &mut out);
        }
    }
}

#[test]
fn mutated_valid_streams_remain_bounded() {
    let raw = sample_bc3();
    let stream = compress(64, 64, Format::Bc3, &raw).unwrap();
    let mut out = vec![0; raw.len()];
    for i in (0..stream.len()).step_by(7) {
        for bit in [1, 128, 255] {
            let mut damaged = stream.clone();
            damaged[i] ^= bit;
            // A raw stream has no checksum, so a mutation may decode successfully.
            let _ = decompress_into(64, 64, Format::Bc3, &damaged, &mut out);
        }
    }
}

#[test]
fn sample_grid_roundtrips_in_every_format() {
    let raw = sample_bc3();
    for fmt in FORMATS {
        let blocks = &raw[..64 * 64 / 16 * fmt.block_bytes()];
        let (w, h) = (64, 64);
        let len = fmt.decoded_len(w, h).unwrap();
        let blocks = &blocks[..len];
        let stream = compress(w, h, fmt, blocks).unwrap();
        let mut out = vec![0x5a; len];
        decompress_into(w, h, fmt, &stream, &mut out).unwrap();
        assert_eq!(out, blocks, "{fmt:?}");
    }
}
