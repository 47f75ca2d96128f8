use bc_crunch::dictionary::top_words;
use bc_crunch::{compress, decompress_into, Format};

#[test]
fn frequency_cutoff_preserves_dictionary_ties_and_stream_bytes() {
    // 300 distinct selector patterns compete for 256 dictionary slots.
    // Frequencies tie on both sides of the cutoff.
    let mut blocks = Vec::new();
    for block in 0..1024u32 {
        blocks.extend_from_slice(&(block.wrapping_mul(31) as u16).to_le_bytes());
        blocks.extend_from_slice(&(block.wrapping_mul(17).wrapping_add(9) as u16).to_le_bytes());
        blocks.extend_from_slice(&(block % 300).wrapping_mul(0x0102_0305).to_le_bytes());
    }
    let packed = compress(128, 128, Format::Bc1, &blocks).unwrap();
    assert_eq!(packed, compress(128, 128, Format::Bc1, &blocks).unwrap());
    let mut output = vec![0; blocks.len()];
    decompress_into(128, 128, Format::Bc1, &packed, &mut output).unwrap();
    assert_eq!(output, blocks);

    // The dictionary: the 124 words seen four times, then the largest of
    // the words seen three times.
    let selectors: Vec<u32> = (0..1024u32).map(|block| (block % 300).wrapping_mul(0x0102_0305)).collect();
    let mut ranked: Vec<(usize, u32)> = (0..300u32)
        .map(|r| (if r < 124 { 4 } else { 3 }, r.wrapping_mul(0x0102_0305)))
        .collect();
    ranked.sort_unstable_by(|a, b| b.cmp(a));
    let mut expected: Vec<u32> = ranked[..256].iter().map(|p| p.1).collect();
    expected.sort_unstable();
    assert_eq!(top_words(selectors), expected);
}
