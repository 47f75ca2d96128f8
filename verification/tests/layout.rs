use bc_crunch::{Error, Format};

#[test]
fn decoded_size_is_checked_before_allocation() {
    for format in [Format::Bc1, Format::Bc3, Format::Bc4, Format::Bc5] {
        assert_eq!(format.decoded_len(12, 8), Ok(6 * format.block_bytes()));
        for (width, height) in [(0, 4), (4, 0), (5, 4), (4, 7), (u32::MAX, u32::MAX)] {
            assert_eq!(format.decoded_len(width, height), Err(Error::Dimensions));
        }
    }
    assert_eq!(Format::Bc5.decoded_len(u32::MAX - 3, u32::MAX - 3), Err(Error::Dimensions));
}
