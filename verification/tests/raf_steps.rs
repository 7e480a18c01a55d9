use rawloader::raf::{detect_zero_borders, find_fuji_compressed_header, rotate_image, RafDecoder};
use rawloader::tiff::{Tag, TiffIFD};

#[test]
fn finds_the_compressed_header() {
    let mut src = vec![0u8; 40];
    // a near miss: version 2
    src[1..5].copy_from_slice(&[0x49, 0x53, 0x02, 0x10]);
    src[5..9].copy_from_slice(&[0x49, 0x53, 0x01, 0x10]);
    src[12..16].copy_from_slice(&[0x49, 0x53, 0x00, 0x00]);
    assert_eq!(find_fuji_compressed_header(&src), Some(5));
    src[5] = 0;
    assert_eq!(find_fuji_compressed_header(&src), Some(12));
}

#[test]
fn header_search_skips_the_last_16_bytes() {
    let mut src = vec![0u8; 40];
    src[24..28].copy_from_slice(&[0x49, 0x53, 0x01, 0x10]);
    assert_eq!(find_fuji_compressed_header(&src), None);
    src[23..27].copy_from_slice(&[0x49, 0x53, 0x01, 0x10]);
    assert_eq!(find_fuji_compressed_header(&src), Some(23));
    assert_eq!(find_fuji_compressed_header(&src[..10]), None);
    assert_eq!(find_fuji_compressed_header(&[]), None);
}

#[test]
fn zero_borders() {
    let (w, h) = (8usize, 13usize);
    let mut img = vec![0u16; w * h];
    for y in 0..h {
        for x in 0..w {
            let zero = y == 0 || y == 12 || (y == 6 && (x < 2 || x == 7));
            img[y * w + x] = if zero { 0 } else { (1 + x + y) as u16 };
        }
    }
    assert_eq!(detect_zero_borders(&img, w, h), [1, 1, 1, 2]);
    // columns are judged on every sixth row only
    img[3 * w] = 0;
    img[3 * w + 2] = 0;
    assert_eq!(detect_zero_borders(&img, w, h), [1, 1, 1, 2]);
}

#[test]
fn zero_borders_of_empty_images() {
    assert_eq!(detect_zero_borders(&[0u16; 12], 4, 3), [3, 4, 3, 4]);
    assert_eq!(detect_zero_borders(&[], 0, 0), [0, 0, 0, 0]);
    // at most 24 rows and 256 columns from each side
    let img = vec![0u16; 300 * 30];
    assert_eq!(detect_zero_borders(&img, 300, 30), [24, 256, 24, 256]);
}

#[test]
fn rotates_a_crop() {
    let src = [1u16, 2, 3, 4, 5, 6];
    let (w, h, out) = rotate_image(&src, [0, 0, 0, 0], false, 3, 2, false);
    assert_eq!((w, h), (4, 3));
    assert_eq!(out, vec![0, 0, 3, 6, 0, 2, 5, 0, 1, 4, 0, 0]);

    let src = [1u16, 2, 3, 4, 5, 6];
    let (w, h, out) = rotate_image(&src, [0, 0, 0, 0], true, 2, 3, false);
    assert_eq!((w, h), (4, 3));
    assert_eq!(out, vec![1, 2, 0, 0, 0, 3, 4, 0, 0, 0, 5, 6]);
}

#[test]
fn rotates_inside_the_crops() {
    let mut src = vec![9u16; 5 * 4];
    src[1 * 5 + 1..1 * 5 + 4].copy_from_slice(&[1, 2, 3]);
    src[2 * 5 + 1..2 * 5 + 4].copy_from_slice(&[4, 5, 6]);
    let (w, h, out) = rotate_image(&src, [1, 1, 1, 1], false, 5, 4, false);
    assert_eq!((w, h), (4, 3));
    assert_eq!(out, vec![0, 0, 3, 6, 0, 2, 5, 0, 1, 4, 0, 0]);
}

#[test]
fn rotation_size_only() {
    let (w, h, out) = rotate_image(&[], [0, 0, 0, 0], false, 3, 2, true);
    assert_eq!((w, h), (4, 3));
    assert_eq!(out, vec![0]);
    let (w, h, out) = rotate_image(&[], [10, 20, 30, 40], true, 4000, 3000, true);
    assert_eq!((w, h), (2960 + 3940 / 2, 2960 + 3940 / 2 - 1));
    assert_eq!(out, vec![0]);
}

#[test]
fn decoder_holds_its_file() {
    let buf = [0x49u8, 0x49, 0x2a, 0x00, 0x08, 0x00, 0x00, 0x00, 0, 0, 0, 0, 0, 0];
    let tiff = TiffIFD::new_file(&buf).unwrap();
    assert!(!tiff.has_entry(Tag::Make));
    let _decoder = RafDecoder::new(&buf, tiff);
}
