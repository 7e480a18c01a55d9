use rawloader::basics::Endian;
use rawloader::tiff::{get_str_entry_val, t, Tag, TiffEntry};

/// A little-endian 12-byte directory entry.
fn le_entry(tag: u16, typ: u16, count: u32, value: [u8; 4]) -> Vec<u8> {
    let mut v = Vec::new();
    v.extend_from_slice(&tag.to_le_bytes());
    v.extend_from_slice(&typ.to_le_bytes());
    v.extend_from_slice(&count.to_le_bytes());
    v.extend_from_slice(&value);
    v
}

#[test]
fn tag_codes_round_trip() {
    assert_eq!(t(Tag::Make), 0x010F);
    assert_eq!(t(Tag::ImageWidth), 0x0100);
    assert_eq!(t(Tag::RafOffsets), 0xF007);
    assert_eq!(t(Tag::KdcIFD), 0xFE00);
    assert_eq!(Tag::n(0x010F), Some(Tag::Make));
    assert_eq!(Tag::n(0x8769), Some(Tag::ExifIFDPointer));
    assert_eq!(Tag::n(0x1234), None);
    assert_eq!(Tag::n(0x0000), None);
    for tag in [Tag::PanaWidth, Tag::Orientation, Tag::SubIFDs, Tag::Makernote, Tag::RafWBGRB] {
        assert_eq!(Tag::n(t(tag)), Some(tag));
    }
}

#[test]
fn entry_with_inline_data() {
    let buf = le_entry(0x010F, 2, 4, *b"Fuj\0");
    let e = TiffEntry::new(&buf, 0, 0, 40, Endian::Little).unwrap();
    assert_eq!(e.count(), 4);
    assert_eq!(e.doffset(), 8);
    assert_eq!(e.parent_offset(), 40);
    assert_eq!(e.get_data(), b"Fuj\0");
    assert_eq!(e.get_str(), "Fuj");
    assert_eq!(e.get_u32(1), b'u' as u32);
    assert_eq!(e.get_u16(2), b'j' as u16);
    assert_eq!(e.get_u32(4), 0);
}

#[test]
fn entry_with_data_at_offset() {
    let mut buf = le_entry(0x0110, 2, 6, [12, 0, 0, 0]);
    buf.extend_from_slice(b"X-T3\0\0");
    let e = TiffEntry::new(&buf, 0, 0, 0, Endian::Little).unwrap();
    assert_eq!(e.doffset(), 12);
    assert_eq!(e.get_data().len(), 6);
    assert_eq!(e.get_str(), "X-T3");
}

#[test]
fn entry_data_offset_counts_from_base() {
    let mut buf = le_entry(0x0110, 2, 6, [112, 0, 0, 0]);
    buf.extend_from_slice(b"GFX50S");
    let e = TiffEntry::new(&buf, 0, 100, 0, Endian::Little).unwrap();
    assert_eq!(e.doffset(), 12);
    assert_eq!(e.get_str(), "GFX50S");
    // an offset below the base cannot be resolved
    assert_eq!(
        TiffEntry::new(&buf, 0, 200, 0, Endian::Little).err(),
        Some("TIFF: entry data offset underflow for tag 272".to_string())
    );
}

#[test]
fn entry_data_past_the_buffer_is_refused() {
    let buf = le_entry(0x0100, 4, 100, [12, 0, 0, 0]);
    assert_eq!(
        TiffEntry::new(&buf, 0, 0, 0, Endian::Little).err(),
        Some("TIFF: entry data for tag 256 at 12..412 exceeds buffer size 12".to_string())
    );
    let buf = le_entry(0x0100, 4, 1, [1, 0, 0, 0]);
    // read four bytes in, the entry's data would end past the buffer
    assert!(TiffEntry::new(&buf, 4, 0, 0, Endian::Little).is_err());
}

#[test]
fn entry_numeric_reads() {
    // LONG
    let buf = le_entry(0x0100, 4, 1, [0x45, 0x23, 0x01, 0x00]);
    let e = TiffEntry::new(&buf, 0, 0, 0, Endian::Little).unwrap();
    assert_eq!(e.get_u32(0), 0x12345);
    assert_eq!(e.get_u16(0), 0x2345);
    assert_eq!(e.get_usize(0), 0x12345);
    assert_eq!(e.get_force_u16(1), 0x0001);
    assert_eq!(e.get_u32(1), 0);

    // SHORT, two values, big-endian
    let buf = [0x01u8, 0x00, 0x00, 0x03, 0x00, 0x00, 0x00, 0x02, 0x0f, 0xa0, 0x0b, 0xb8];
    let e = TiffEntry::new(&buf, 0, 0, 0, Endian::Big).unwrap();
    assert_eq!(e.get_u16(0), 4000);
    assert_eq!(e.get_u32(1), 3000);
    assert_eq!(e.get_force_u32(0), 0x0fa00bb8);

    // RATIONAL: the numerator
    let mut buf = le_entry(0x0100, 5, 1, [12, 0, 0, 0]);
    buf.extend_from_slice(&[7, 0, 0, 0, 2, 0, 0, 0]);
    let e = TiffEntry::new(&buf, 0, 0, 0, Endian::Little).unwrap();
    assert_eq!(e.get_u32(0), 7);
    assert_eq!(e.get_u16(0), 7);

    // two RATIONALs: each index reads its own numerator
    let mut buf = le_entry(0x0100, 5, 2, [12, 0, 0, 0]);
    buf.extend_from_slice(&[7, 0, 0, 0, 2, 0, 0, 0, 0x39, 0x30, 1, 0, 3, 0, 0, 0]);
    let e = TiffEntry::new(&buf, 0, 0, 0, Endian::Little).unwrap();
    assert_eq!(e.get_u32(0), 7);
    assert_eq!(e.get_u32(1), 0x13039);
    assert_eq!(e.get_u16(1), 0x3039);
    assert_eq!(e.get_u32(2), 0);
    // SRATIONAL, big-endian
    let mut buf = vec![0x01u8, 0x00, 0x00, 0x0a, 0x00, 0x00, 0x00, 0x02, 0, 0, 0, 12];
    buf.extend_from_slice(&[0, 0, 0, 1, 0, 0, 0, 9, 0xff, 0xff, 0xff, 0xfe, 0, 0, 0, 5]);
    let e = TiffEntry::new(&buf, 0, 0, 0, Endian::Big).unwrap();
    assert_eq!(e.get_u32(0), 1);
    assert_eq!(e.get_u32(1), 0xfffffffe);

    // FLOAT has no integer reading
    let buf = le_entry(0x0100, 11, 1, [0, 0, 0x80, 0x3f]);
    let e = TiffEntry::new(&buf, 0, 0, 0, Endian::Little).unwrap();
    assert_eq!(e.get_u32(0), 0);
    assert_eq!(e.get_u16(0), 0);
    assert_eq!(e.get_force_u32(0), 0x3f800000);
}

#[test]
fn field_type_sizes() {
    // (type, count, whether the data fits in the entry)
    let cases = [
        (1u16, 4u32, true),
        (2, 5, false),
        (3, 2, true),
        (3, 3, false),
        (4, 1, true),
        (4, 2, false),
        (5, 1, false),
        (6, 4, true),
        (7, 5, false),
        (8, 2, true),
        (9, 1, true),
        (10, 1, false),
        (11, 1, true),
        (11, 2, false),
        (12, 1, false),
        (13, 1, true),
        (13, 2, false),
    ];
    for (typ, count, inline) in cases {
        let mut buf = le_entry(0x0100, typ, count, [12, 0, 0, 0]);
        buf.extend_from_slice(&[0u8; 16]);
        let e = TiffEntry::new(&buf, 0, 0, 0, Endian::Little).unwrap();
        assert_eq!(e.doffset(), if inline { 8 } else { 12 });
        let size = e.get_data().len();
        let expected = count as usize
            * match typ {
                3 | 8 => 2,
                4 | 9 | 11 | 13 => 4,
                5 | 10 | 12 => 8,
                _ => 1,
            };
        assert_eq!(size, expected);
    }
}

#[test]
fn unknown_field_type_reads_as_bytes() {
    let buf = le_entry(0x0100, 99, 3, [5, 6, 7, 0]);
    let e = TiffEntry::new(&buf, 0, 0, 0, Endian::Little).unwrap();
    assert_eq!(e.get_data(), &[5, 6, 7]);
    assert_eq!(e.get_u32(2), 7);
    let buf = le_entry(0x0100, 0, 2, [9, 8, 0, 0]);
    let e = TiffEntry::new(&buf, 0, 0, 0, Endian::Little).unwrap();
    assert_eq!(e.get_u16(1), 8);
}

#[test]
fn copies_of_entries() {
    let buf = le_entry(0x010F, 2, 4, *b"Fuj\0");
    let e = TiffEntry::new(&buf, 0, 0, 2, Endian::Little).unwrap();
    let other = b"Canon\0".to_vec();
    let c = e.copy_with_new_data(&other);
    assert_eq!(c.get_str(), "Canon");
    assert_eq!(c.doffset(), 8);
    assert_eq!(c.count(), 4);

    let parent: Vec<u8> = (0u8..20).collect();
    let p = e.copy_offset_from_parent(&parent);
    assert_eq!(p.get_data(), &parent[10..]);
    let short: Vec<u8> = vec![1, 2, 3];
    let q = e.copy_offset_from_parent(&short);
    assert_eq!(q.get_data().len(), 0);
}

#[test]
fn string_values() {
    assert_eq!(get_str_entry_val(b"  FUJIFILM  \0garbage"), "FUJIFILM");
    assert_eq!(get_str_entry_val(b"NIKON"), "NIKON");
    assert_eq!(get_str_entry_val(b"\0abc"), "");
    assert_eq!(get_str_entry_val(&[0xff, 0xfe, 0x41]), "");
    assert_eq!(get_str_entry_val(&[0x41, 0x00, 0xff]), "A");
    assert_eq!(get_str_entry_val(b""), "");
}

#[test]
fn string_values_lose_unicode_white_space() {
    // tab, line feed, no-break space and ideographic space around, inner space kept
    let mut v = b"\t\n".to_vec();
    v.extend_from_slice("\u{a0}X T3\u{3000}".as_bytes());
    v.push(0);
    assert_eq!(get_str_entry_val(&v), "X T3");
    assert_eq!(get_str_entry_val(b" \t\r "), "");
    // a zero-width space is not white space
    assert_eq!(get_str_entry_val("\u{200b}A".as_bytes()), "\u{200b}A");
}
