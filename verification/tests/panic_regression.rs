use rawloader::tiff::TiffIFD;

// === Inputs found by fuzzing ===

#[test]
fn fujifilm_short_header_no_panic() {
    let result = TiffIFD::new_file(&b"FUJIFILM"[..]);
    assert!(result.is_err());
}

#[test]
fn tiff_large_ifd_count_no_panic() {
    let mut input = vec![0u8; 1026];
    input[0..4].copy_from_slice(&[0x49, 0x49, 0x2a, 0x00]); // LE TIFF
    input[4..8].copy_from_slice(&[0x08, 0x00, 0x00, 0x00]); // IFD offset 8
    input[8..10].copy_from_slice(&[0x88, 0x00]); // 136 entries
    let result = TiffIFD::new_file(&input[..]);
    assert!(result.is_err());
}

// === Hardened parser returns errors, not garbage ===

#[test]
fn truncated_tiff_returns_error() {
    // Valid TIFF header pointing to IFD at offset 8, but nothing there
    let input = [0x49, 0x49, 0x2a, 0x00, 0x08, 0x00, 0x00, 0x00];
    let result = TiffIFD::new_file(&input[..]);
    assert!(result.is_err());
}
