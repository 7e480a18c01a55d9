use rawloader::raf::{RafDecoder, RafFormat};
use rawloader::tiff::TiffIFD;

const STRIP14: [u8; 120] = [
    181, 93, 219, 25, 53, 49, 187, 29, 125, 19, 61, 223, 215, 51, 123, 63,
    217, 31, 63, 115, 31, 219, 25, 113, 23, 85, 149, 215, 89, 61, 157, 93,
    53, 113, 191, 49, 49, 31, 121, 255, 219, 177, 255, 249, 185, 153, 127, 93,
    125, 57, 153, 253, 191, 245, 147, 53, 61, 215, 85, 191, 93, 251, 215, 21,
    55, 177, 191, 179, 255, 249, 51, 63, 155, 243, 49, 31, 159, 245, 145, 213,
    177, 27, 253, 181, 87, 59, 253, 31, 127, 147, 83, 127, 219, 217, 255, 57,
    85, 245, 221, 159, 87, 221, 159, 213, 183, 211, 119, 93, 59, 91, 93, 119,
    119, 23, 249, 93, 151, 145, 19, 91,
];

const IMAGE14: [u16; 36] = [
    53, 8169, 16167, 16324, 8384, 16178, 15918, 14356, 16272, 12381, 10295, 38, 99, 12033, 12229, 16303,
    12787, 11349, 12943, 12285, 8992, 12514, 12167, 3722, 12347, 12260, 13997, 12377, 12281, 8340, 16275, 5453,
    12713, 4150, 8103, 12502,
];

/// A RAF file: header, Fuji directory at 120 giving the image size, a TIFF
/// structure at 200 (with `bps_entry` bits per sample where given) and raw
/// data at 256 that is not a TIFF structure.
fn raf_file(height: u16, width: u16, bps_entry: Option<u32>, raw: &[u8]) -> Vec<u8> {
    let mut buf = vec![0u8; 256];
    buf[0..8].copy_from_slice(b"FUJIFILM");
    buf[84..88].copy_from_slice(&188u32.to_be_bytes());
    buf[92..96].copy_from_slice(&120u32.to_be_bytes());
    buf[100..104].copy_from_slice(&256u32.to_be_bytes());
    buf[120..128].copy_from_slice(&[0, 0, 0, 1, 0x01, 0x00, 0x00, 0x04]);
    buf[128..130].copy_from_slice(&height.to_be_bytes());
    buf[130..132].copy_from_slice(&width.to_be_bytes());
    // little-endian TIFF structure with one directory of one entry
    buf[200..210].copy_from_slice(&[0x49, 0x49, 0x2a, 0x00, 0x08, 0x00, 0x00, 0x00, 0x01, 0x00]);
    match bps_entry {
        Some(b) => {
            buf[210..218].copy_from_slice(&[0x03, 0xf0, 0x04, 0x00, 0x01, 0x00, 0x00, 0x00]);
            buf[218..222].copy_from_slice(&b.to_le_bytes());
        },
        None => buf[210..222].copy_from_slice(&[0x0f, 0x01, 0x02, 0x00, 0x04, 0x00, 0x00, 0x00, b'F', b'U', b'J', 0]),
    }
    buf.extend_from_slice(raw);
    buf
}

/// A compressed stream of one 14-bit strip holding a 6 x 6 image.
fn stream14() -> Vec<u8> {
    let mut v = vec![0x49u8, 0x53, 1, 16, 14, 0, 0, 0, 0, 0, 6, 0, 6, 1, 0, 1, 0, 0, 0, 120];
    v.extend_from_slice(&[0u8; 12]);
    v.extend_from_slice(&STRIP14);
    v
}

#[test]
fn raw_layout_from_the_fuji_directory() {
    let buf = raf_file(4000, 6000, None, &[0u8; 16]);
    let tiff = TiffIFD::new_file(&buf).unwrap();
    let dec = RafDecoder::new(&buf, tiff);
    let l = dec.raw_layout().unwrap();
    assert_eq!((l.width, l.height, l.offset, l.bps), (6000, 4000, 256, 16));
    assert_eq!(dec.raw_format(&l, false, false), Ok(RafFormat::Compressed));
    assert_eq!(dec.raw_format(&l, true, false), Ok(RafFormat::SkipLines16));
    assert_eq!(dec.raw_format(&l, false, true), Ok(RafFormat::Packed12Msb32));
}

#[test]
fn raw_formats_by_sample_size() {
    // 2 x 2 samples of 16 bits fit in 8 bytes
    let buf = raf_file(2, 2, None, &[0u8; 8]);
    let dec = RafDecoder::new(&buf, TiffIFD::new_file(&buf).unwrap());
    let l = dec.raw_layout().unwrap();
    assert_eq!(dec.raw_format(&l, false, false), Ok(RafFormat::Little16));
    let buf = raf_file(2, 2, Some(12), &[0u8; 8]);
    let dec = RafDecoder::new(&buf, TiffIFD::new_file(&buf).unwrap());
    let l = dec.raw_layout().unwrap();
    assert_eq!(l.bps, 12);
    assert_eq!(dec.raw_format(&l, false, false), Ok(RafFormat::Packed12));
    let buf = raf_file(2, 2, Some(14), &[0u8; 8]);
    let dec = RafDecoder::new(&buf, TiffIFD::new_file(&buf).unwrap());
    let l = dec.raw_layout().unwrap();
    assert_eq!(dec.raw_format(&l, false, false), Ok(RafFormat::Unpacked14));
    let buf = raf_file(2, 2, Some(10), &[0u8; 8]);
    let dec = RafDecoder::new(&buf, TiffIFD::new_file(&buf).unwrap());
    let l = dec.raw_layout().unwrap();
    assert_eq!(dec.raw_format(&l, false, false), Err("RAF: Don't know how to decode bps 10".to_string()));
    // 7 bytes are too few for 2 x 2 samples of 16 bits
    let buf = raf_file(2, 2, None, &[0u8; 7]);
    let dec = RafDecoder::new(&buf, TiffIFD::new_file(&buf).unwrap());
    let l = dec.raw_layout().unwrap();
    assert_eq!(dec.raw_format(&l, false, false), Ok(RafFormat::Compressed));
}

#[test]
fn raw_layout_errors() {
    // a plain TIFF file has no raw data offset
    let buf = [0x49u8, 0x49, 0x2a, 0x00, 0x08, 0x00, 0x00, 0x00, 0, 0, 0, 0, 0, 0];
    let dec = RafDecoder::new(&buf, TiffIFD::new_file(&buf).unwrap());
    assert_eq!(dec.raw_layout().err(), Some("Couldn't find ifd with tag RafOffsets".to_string()));
    // a RAF file without the image size record
    let mut buf = raf_file(2, 2, None, &[0u8; 8]);
    buf[123] = 0;
    let dec = RafDecoder::new(&buf, TiffIFD::new_file(&buf).unwrap());
    assert!(dec.raw_layout().is_err());
}

#[test]
fn decodes_compressed_raw_data() {
    let mut raw = vec![0u8; 5];
    raw.extend(stream14());
    let buf = raf_file(7, 7, None, &raw);
    let dec = RafDecoder::new(&buf, TiffIFD::new_file(&buf).unwrap());
    let l = dec.raw_layout().unwrap();
    let (image, crops) = dec.decode_compressed(&l, false).unwrap();
    let mut expected = vec![0u16; 49];
    for y in 0..6 {
        for x in 0..6 {
            expected[y * 7 + x] = IMAGE14[y * 6 + x];
        }
    }
    assert_eq!(image, expected);
    // the last row and column were not decoded
    assert_eq!(crops, Some([0, 1, 1, 0]));

    let (image, crops) = dec.decode_compressed(&l, true).unwrap();
    assert_eq!(image, vec![0]);
    assert_eq!(crops, None);
}

#[test]
fn compressed_data_without_a_header() {
    let buf = raf_file(7, 7, None, &[0u8; 200]);
    let dec = RafDecoder::new(&buf, TiffIFD::new_file(&buf).unwrap());
    let l = dec.raw_layout().unwrap();
    assert_eq!(
        dec.decode_compressed(&l, false).err(),
        Some("RAF: Compressed but could not find Fuji compressed header".to_string())
    );
    // a header that is found but does not decode
    let mut raw = stream14();
    raw[4] = 12;
    raw.extend_from_slice(&[0u8; 16]);
    let buf = raf_file(7, 7, None, &raw);
    let dec = RafDecoder::new(&buf, TiffIFD::new_file(&buf).unwrap());
    let l = dec.raw_layout().unwrap();
    assert!(dec.decode_compressed(&l, false).is_err());
}
