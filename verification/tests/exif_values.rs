use rawloader::basics::Endian;
use rawloader::exif::{get_u32_entry_val, NativeExifInfo};
use rawloader::tiff::{Tag, TiffIFD};

/// A little-endian TIFF file with Make, ImageWidth, Orientation and, in an
/// EXIF directory, Software.
fn sample() -> Vec<u8> {
    let mut buf = vec![0x49u8, 0x49, 0x2a, 0x00, 0x08, 0x00, 0x00, 0x00];
    let entries: [(u16, u16, u32, [u8; 4]); 4] = [
        (0x010F, 2, 4, *b"FUJ\0"),
        (0x0100, 4, 1, [0x40, 0x1f, 0, 0]),
        (0x0112, 3, 1, [6, 0, 0, 0]),
        (0x8769, 4, 1, [62, 0, 0, 0]),
    ];
    buf.extend_from_slice(&(entries.len() as u16).to_le_bytes());
    for (tag, typ, count, value) in entries {
        buf.extend_from_slice(&tag.to_le_bytes());
        buf.extend_from_slice(&typ.to_le_bytes());
        buf.extend_from_slice(&count.to_le_bytes());
        buf.extend_from_slice(&value);
    }
    buf.extend_from_slice(&[0, 0, 0, 0]);
    assert_eq!(buf.len(), 62);
    // EXIF directory: Software, 8 bytes at 80
    buf.extend_from_slice(&[1, 0, 0x31, 0x01, 2, 0, 8, 0, 0, 0, 80, 0, 0, 0, 0, 0, 0, 0]);
    assert_eq!(buf.len(), 80);
    buf.extend_from_slice(b" v1.02 \0");
    buf
}

#[test]
fn gathers_exif_values() {
    let buf = sample();
    let root = TiffIFD::new_file(&buf).unwrap();
    let exif = NativeExifInfo::new(&root);
    assert_eq!(exif.get_str(Tag::Make), Some("FUJ"));
    assert_eq!(exif.get_str(Tag::Software), Some("v1.02"));
    assert_eq!(exif.get_uint(Tag::Orientation), Some(6));
    // the first byte of ASCII data
    assert_eq!(exif.get_uint(Tag::Make), Some(b'F' as u32));
    assert_eq!(exif.get_str(Tag::Model), None);
    assert_eq!(exif.get_uint(Tag::Model), None);
    // only EXIF tags are gathered
    assert!(root.has_entry(Tag::ImageWidth));
    assert_eq!(exif.get_uint(Tag::ImageWidth), None);
    assert_eq!(exif.get_tags(), vec![Tag::Make, Tag::Orientation, Tag::Software]);
}

#[test]
fn empty_exif() {
    let buf = [0x49u8, 0x49, 0x2a, 0x00, 0x08, 0x00, 0x00, 0x00, 0, 0, 0, 0, 0, 0];
    let root = TiffIFD::new_file(&buf).unwrap();
    let exif = NativeExifInfo::new(&root);
    assert!(exif.get_tags().is_empty());
    assert_eq!(exif.get_str(Tag::Make), None);
    let copy = exif.clone();
    assert!(copy.get_tags().is_empty());
}

#[test]
fn values_by_field_type() {
    let data = [0x01u8, 0x02, 0x03, 0x04, 0x05, 0x06, 0x07, 0x08];
    assert_eq!(get_u32_entry_val(1, &data, Endian::Big, 3), 4);
    assert_eq!(get_u32_entry_val(7, &data, Endian::Big, 8), 0);
    assert_eq!(get_u32_entry_val(3, &data, Endian::Big, 1), 0x0304);
    assert_eq!(get_u32_entry_val(8, &data, Endian::Little, 1), 0x0403);
    assert_eq!(get_u32_entry_val(4, &data, Endian::Big, 1), 0x05060708);
    assert_eq!(get_u32_entry_val(5, &data, Endian::Little, 0), 0x04030201);
    // a rational's numerator is the first word of each 8-byte pair
    assert_eq!(get_u32_entry_val(10, &data, Endian::Big, 1), 0);
    let pairs = [0u8, 0, 0, 1, 0, 0, 0, 2, 0, 0, 0, 3, 0, 0, 0, 4];
    assert_eq!(get_u32_entry_val(5, &pairs, Endian::Big, 1), 3);
    assert_eq!(get_u32_entry_val(4, &data, Endian::Little, 2), 0);
    assert_eq!(get_u32_entry_val(11, &data, Endian::Little, 0), 0);
    assert_eq!(get_u32_entry_val(12, &data, Endian::Little, 0), 0);
    assert_eq!(get_u32_entry_val(3, &data, Endian::Big, usize::MAX), 0);
}
