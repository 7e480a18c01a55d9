use rawloader::basics::Endian;
use rawloader::tiff::{Tag, TiffIFD};

/// A little-endian directory: entry count, 12-byte entries, next offset.
fn ifd_le(entries: &[(u16, u16, u32, [u8; 4])], next: u32) -> Vec<u8> {
    let mut v = Vec::new();
    v.extend_from_slice(&(entries.len() as u16).to_le_bytes());
    for (tag, typ, count, value) in entries {
        v.extend_from_slice(&tag.to_le_bytes());
        v.extend_from_slice(&typ.to_le_bytes());
        v.extend_from_slice(&count.to_le_bytes());
        v.extend_from_slice(value);
    }
    v.extend_from_slice(&next.to_le_bytes());
    v
}

/// A little-endian TIFF file: a first directory with Make, Orientation, an
/// unknown tag and a pointer to an EXIF directory with Model and another
/// Orientation.
fn sample_tiff() -> Vec<u8> {
    let mut buf = vec![0x49u8, 0x49, 0x2a, 0x00, 0x08, 0x00, 0x00, 0x00];
    // first directory at 8, 4 entries: 2 + 48 + 4 = 54 bytes, ends at 62
    buf.extend(ifd_le(
        &[
            (0x010F, 2, 4, *b"FUJ\0"),
            (0x0112, 3, 1, [1, 0, 0, 0]),
            (0x1234, 3, 1, [9, 0, 0, 0]),
            (0x8769, 4, 1, [62, 0, 0, 0]),
        ],
        0,
    ));
    assert_eq!(buf.len(), 62);
    buf.extend(ifd_le(&[(0x0110, 2, 4, *b"X-T\0"), (0x0112, 3, 1, [6, 0, 0, 0])], 0));
    buf
}

#[test]
fn root_directory_tree() {
    let buf = sample_tiff();
    let root = TiffIFD::new_file(&buf).unwrap();
    assert!(root.little_endian());
    assert_eq!(root.get_endian(), Endian::Little);
    assert_eq!(root.start_offset(), 0);
    assert_eq!(root.find_entry(Tag::Make).unwrap().get_str(), "FUJ");
    // found in the EXIF directory below the first one
    assert_eq!(root.find_entry(Tag::Model).unwrap().get_str(), "X-T");
    // the first directory's own value comes before the one below it
    assert_eq!(root.find_entry(Tag::Orientation).unwrap().get_u16(0), 1);
    assert!(root.has_entry(Tag::Model));
    assert!(!root.has_entry(Tag::Software));
    assert!(root.find_entry(Tag::Software).is_none());
    // the pointer entry was followed, not kept
    assert!(!root.has_entry(Tag::ExifIFDPointer));
}

#[test]
fn directories_with_a_tag() {
    let buf = sample_tiff();
    let root = TiffIFD::new_file(&buf).unwrap();
    // each directory below the root is listed once by its parent and once
    // more by its own search
    let ifds = root.find_ifds_with_tag(Tag::Orientation);
    assert_eq!(ifds.len(), 4);
    assert_eq!(ifds[0].find_entry(Tag::Orientation).unwrap().get_u16(0), 1);
    assert_eq!(ifds[1].find_entry(Tag::Orientation).unwrap().get_u16(0), 1);
    assert_eq!(ifds[2].find_entry(Tag::Orientation).unwrap().get_u16(0), 6);
    assert_eq!(ifds[3].find_entry(Tag::Orientation).unwrap().get_u16(0), 6);
    assert_eq!(root.find_ifds_with_tag(Tag::Model).len(), 2);
    assert_eq!(root.find_ifds_with_tag(Tag::Software).len(), 0);

    let first = root.find_first_ifd(Tag::Model).unwrap();
    assert_eq!(first.find_entry(Tag::Model).unwrap().get_str(), "X-T");
    assert!(first.find_entry(Tag::Make).is_none());
    assert!(root.find_first_ifd(Tag::Software).is_none());
}

#[test]
fn single_directory() {
    let mut buf = vec![0u8; 4];
    buf.extend(ifd_le(
        &[(0x010F, 2, 4, *b"AAA\0"), (0x0100, 4, 1, [0x40, 0x1f, 0, 0]), (0x010F, 2, 4, *b"BBB\0")],
        0x1234,
    ));
    let ifd = TiffIFD::new(&buf, 4, 0, 77, 0, Endian::Little).unwrap();
    // the last of two entries with one tag is kept
    assert_eq!(ifd.find_entry(Tag::Make).unwrap().get_str(), "BBB");
    assert_eq!(ifd.find_entry(Tag::ImageWidth).unwrap().get_u32(0), 8000);
    assert_eq!(ifd.find_entry(Tag::ImageWidth).unwrap().parent_offset(), 4);
    assert_eq!(ifd.start_offset(), 77);
    assert!(ifd.little_endian());
    let ifd = TiffIFD::new(&buf, 4, 0, 0, 0, Endian::Big);
    // read big-endian the entry count is 0x0300: too many bytes needed
    assert!(ifd.is_err());
}

#[test]
fn directory_errors() {
    // more than 4000 entries
    let mut buf = vec![0xa1u8, 0x0f];
    buf.extend(vec![0u8; 64]);
    assert!(TiffIFD::new(&buf, 0, 0, 0, 0, Endian::Little).is_err());
    // entries past the end of the buffer
    let buf = ifd_le(&[(0x010F, 2, 4, *b"AAA\0")], 0);
    assert!(TiffIFD::new(&buf[..buf.len() - 1], 0, 0, 0, 0, Endian::Little).is_err());
    assert!(TiffIFD::new(&buf, 0, 0, 0, 0, Endian::Little).is_ok());
    assert!(TiffIFD::new(&buf, 100, 0, 0, 0, Endian::Little).is_err());
}

#[test]
fn entry_with_bad_data_is_skipped() {
    // an ImageWidth whose data lies past the buffer, then a good Make
    let buf = ifd_le(&[(0x0100, 4, 8, [0, 1, 0, 0]), (0x010F, 2, 2, *b"A\0\0\0")], 0);
    let ifd = TiffIFD::new(&buf, 0, 0, 0, 0, Endian::Little).unwrap();
    assert!(!ifd.has_entry(Tag::ImageWidth));
    assert_eq!(ifd.find_entry(Tag::Make).unwrap().get_str(), "A");
}

#[test]
fn unreadable_sub_directory_keeps_its_pointer() {
    let buf = ifd_le(&[(0x014A, 4, 1, [0xff, 0, 0, 0])], 0);
    let ifd = TiffIFD::new(&buf, 0, 0, 0, 0, Endian::Little).unwrap();
    assert_eq!(ifd.find_entry(Tag::SubIFDs).unwrap().get_u32(0), 0xff);
}

#[test]
fn chain_of_directories() {
    let mut buf = vec![0x4du8, 0x4d, 0x00, 0x2a, 0x00, 0x00, 0x00, 0x08];
    // first directory at 8 (1 entry: 18 bytes), next at 26
    buf.extend_from_slice(&[0, 1, 0x01, 0x0F, 0, 2, 0, 0, 0, 4, b'A', b'B', b'C', 0, 0, 0, 0, 26]);
    buf.extend_from_slice(&[0, 1, 0x01, 0x10, 0, 2, 0, 0, 0, 4, b'D', b'E', b'F', 0, 0, 0, 0, 0]);
    let root = TiffIFD::new_root(&buf, 0).unwrap();
    assert!(!root.little_endian());
    assert_eq!(root.find_entry(Tag::Make).unwrap().get_str(), "ABC");
    assert_eq!(root.find_entry(Tag::Model).unwrap().get_str(), "DEF");
    // the second directory, listed by the root and by its own search
    assert_eq!(root.find_ifds_with_tag(Tag::Model).len(), 2);
}

#[test]
fn root_errors() {
    assert!(TiffIFD::new_root(&[0x49, 0x49, 0x2a, 0x00], 4).is_err());
    assert!(TiffIFD::new_root(&[0x4a, 0x49, 0x2a, 0x00, 8, 0, 0, 0], 0).is_err());
    // a chain that loops on itself stops after 100 directories
    let mut buf = vec![0x49u8, 0x49, 0x2a, 0x00, 0x08, 0x00, 0x00, 0x00];
    buf.extend(ifd_le(&[(0x010F, 2, 4, *b"LOP\0")], 8));
    let root = TiffIFD::new_root(&buf, 0).unwrap();
    assert_eq!(root.find_ifds_with_tag(Tag::Make).len(), 200);
    // a root inside the buffer with its offsets counted from there
    let mut inner = vec![0u8; 10];
    inner.extend(buf.clone());
    let root = TiffIFD::new_root(&inner, 10).unwrap();
    assert_eq!(root.start_offset(), 10);
    assert_eq!(root.find_entry(Tag::Make).unwrap().get_str(), "LOP");
}

#[test]
fn fuji_directory() {
    let mut buf = vec![0u8; 4];
    buf.extend_from_slice(&[0, 0, 0, 3]);
    // image size record
    buf.extend_from_slice(&[0x01, 0x00, 0x00, 0x04, 0x0f, 0xa0, 0x0b, 0xb8]);
    // a record this library does not read
    buf.extend_from_slice(&[0x01, 0x21, 0x00, 0x02, 0xaa, 0xbb]);
    // old white balance record
    buf.extend_from_slice(&[0x2f, 0xf0, 0x00, 0x08, 1, 2, 3, 4, 5, 6, 7, 8]);
    let ifd = TiffIFD::new_fuji(&buf, 4).unwrap();
    assert!(!ifd.little_endian());
    let size = ifd.find_entry(Tag::ImageWidth).unwrap();
    assert_eq!(size.get_u16(0), 4000);
    assert_eq!(size.get_u16(1), 3000);
    assert_eq!(size.count(), 2);
    assert_eq!(size.doffset(), 12);
    let wb = ifd.find_entry(Tag::RafOldWB).unwrap();
    assert_eq!(wb.get_u16(0), 0x0102);
    assert_eq!(wb.get_u16(3), 0x0708);

    // more records announced than present: the walk stops at the end
    let mut more = buf.clone();
    more[7] = 200;
    assert!(TiffIFD::new_fuji(&more, 4).unwrap().has_entry(Tag::RafOldWB));
    // more than 4000 records
    let mut many = buf.clone();
    many[6] = 0x10;
    assert!(TiffIFD::new_fuji(&many, 4).is_err());
}

/// A RAF file: header, Fuji directory at 120, TIFF structure at 200.
fn sample_raf() -> Vec<u8> {
    let mut buf = vec![0u8; 256];
    buf[0..8].copy_from_slice(b"FUJIFILM");
    buf[84..88].copy_from_slice(&188u32.to_be_bytes());
    buf[92..96].copy_from_slice(&120u32.to_be_bytes());
    buf[100..104].copy_from_slice(&240u32.to_be_bytes());
    buf[120..132].copy_from_slice(&[0, 0, 0, 1, 0x01, 0x00, 0x00, 0x04, 0x0f, 0xa0, 0x0b, 0xb8]);
    buf[200..208].copy_from_slice(&[0x49, 0x49, 0x2a, 0x00, 0x08, 0x00, 0x00, 0x00]);
    let dir = ifd_le(&[(0x010F, 2, 4, *b"FUJ\0")], 0);
    buf[208..208 + dir.len()].copy_from_slice(&dir);
    buf
}

#[test]
fn raf_file() {
    let buf = sample_raf();
    let root = TiffIFD::new_file(&buf).unwrap();
    assert!(root.little_endian());
    assert_eq!(root.start_offset(), 0);
    assert_eq!(root.find_entry(Tag::Make).unwrap().get_str(), "FUJ");
    assert_eq!(root.find_entry(Tag::ImageWidth).unwrap().get_u16(1), 3000);
    // the second TIFF structure is not readable: its offset becomes an entry
    let raw = root.find_entry(Tag::RafOffsets).unwrap();
    assert_eq!(raw.get_u32(0), 240);
    assert_eq!(raw.doffset(), 100);
    assert_eq!(root.find_first_ifd(Tag::RafOffsets).unwrap().start_offset(), 0);
}

#[test]
fn raf_file_errors() {
    let buf = sample_raf();
    assert!(TiffIFD::new_file(&buf[..107]).is_err());
    let mut bad = buf.clone();
    bad[87] = 250;
    assert!(TiffIFD::new_file(&bad).is_err());
}

#[test]
fn maker_notes() {
    let mut buf = vec![0u8; 16];
    // a Nikon note at 16: its own TIFF header 10 bytes in, directory 8 further
    buf.extend_from_slice(b"Nikon\0\x02\x10\0\0");
    buf.extend_from_slice(&[0x49, 0x49, 0x2a, 0x00, 0x08, 0x00, 0x00, 0x00]);
    buf.extend(ifd_le(&[(0x0112, 3, 1, [3, 0, 0, 0])], 0));
    let note = TiffIFD::new_makernote(&buf, 16, 0, 0, Endian::Big).unwrap();
    assert!(note.little_endian());
    assert_eq!(note.find_entry(Tag::Orientation).unwrap().get_u16(0), 3);
    assert!(TiffIFD::new_makernote(&buf, buf.len(), 0, 0, Endian::Big).is_err());

    // a note marking its byte order with "II"
    let mut buf = vec![0x49u8, 0x49];
    buf.extend(ifd_le(&[(0x0112, 3, 1, [8, 0, 0, 0])], 0));
    let note = TiffIFD::new_makernote(&buf, 0, 0, 0, Endian::Big).unwrap();
    assert!(note.little_endian());
    assert_eq!(note.find_entry(Tag::Orientation).unwrap().get_u16(0), 8);

    // a truncated Olympus name: the directory is 8 bytes in
    let mut buf = b"OLYMP\0\x01\0".to_vec();
    buf.extend(ifd_le(&[(0x0112, 3, 1, [5, 0, 0, 0])], 0));
    let note = TiffIFD::new_makernote(&buf, 0, 0, 0, Endian::Little).unwrap();
    assert_eq!(note.find_entry(Tag::Orientation).unwrap().get_u16(0), 5);
}

/// An "OLYMPUS" note: its directory 12 bytes in, holding the offset of an
/// image-processing directory (from the note's start) at `ioff`.
fn olympus_note(ioff: u32) -> Vec<u8> {
    let mut buf = b"OLYMPUS\0II\x03\0".to_vec();
    buf.extend(ifd_le(&[(0x2040, 4, 1, ioff.to_le_bytes())], 0));
    assert_eq!(buf.len(), 30);
    buf.extend(ifd_le(&[(0x0112, 3, 1, [4, 0, 0, 0])], 0));
    buf
}

#[test]
fn olympus_image_processing_directory() {
    let buf = olympus_note(30);
    let note = TiffIFD::new_makernote(&buf, 0, 0, 0, Endian::Little).unwrap();
    assert_eq!(note.find_entry(Tag::OlympusImgProc).unwrap().get_u32(0), 30);
    assert_eq!(note.find_entry(Tag::Orientation).unwrap().get_u16(0), 4);
    assert_eq!(note.find_ifds_with_tag(Tag::Orientation).len(), 2);
    // an offset past the note: no image-processing directory
    let buf = olympus_note(300);
    let note = TiffIFD::new_makernote(&buf, 0, 0, 0, Endian::Little).unwrap();
    assert!(!note.has_entry(Tag::Orientation));
    // an image-processing directory that cannot be read fails the note
    let buf = olympus_note(44);
    assert!(TiffIFD::new_makernote(&buf, 0, 0, 0, Endian::Little).is_err());
}

#[test]
fn maker_note_entry_is_followed() {
    // a directory whose maker note entry points at a note with Orientation
    let note_off = 2 + 12 + 4;
    let mut buf = ifd_le(&[(0x927C, 7, 20, [note_off as u8, 0, 0, 0])], 0);
    buf.extend_from_slice(&[0x49, 0x49]);
    buf.extend(ifd_le(&[(0x0112, 3, 1, [2, 0, 0, 0])], 0));
    let ifd = TiffIFD::new(&buf, 0, 0, 0, 0, Endian::Little).unwrap();
    assert!(!ifd.has_entry(Tag::Makernote));
    assert_eq!(ifd.find_entry(Tag::Orientation).unwrap().get_u16(0), 2);
}

#[test]
fn find_entry_matches_first_directory() {
    let buf = sample_tiff();
    let root = TiffIFD::new_file(&buf).unwrap();
    for tag in [Tag::Make, Tag::Model, Tag::Orientation, Tag::Software, Tag::ImageWidth] {
        let found = root.find_entry(tag);
        match root.find_first_ifd(tag) {
            Some(ifd) => {
                let own = ifd.find_entry(tag).unwrap();
                assert_eq!(found.unwrap().get_data(), own.get_data());
                assert_eq!(found.unwrap().doffset(), own.doffset());
            },
            None => assert!(found.is_none()),
        }
        for ifd in root.find_ifds_with_tag(tag) {
            assert!(ifd.has_entry(tag));
        }
    }
}

#[test]
fn directory_pointing_at_itself_stops_at_depth_ten() {
    let mut buf = vec![0x49u8, 0x49, 0x2a, 0x00, 0x08, 0x00, 0x00, 0x00];
    buf.extend(ifd_le(&[(0x010F, 2, 4, *b"REC\0"), (0x8769, 4, 1, [8, 0, 0, 0])], 0));
    let root = TiffIFD::new_file(&buf).unwrap();
    // directories at depths 0 to 10, each listed twice but the deepest
    // once, and once more by the root
    assert_eq!(root.find_ifds_with_tag(Tag::Make).len(), 22);
    // at depth 10 the pointer is neither followed nor kept
    assert!(!root.has_entry(Tag::ExifIFDPointer));
}

#[test]
fn sub_directories_keep_their_structure() {
    let buf = sample_tiff();
    let root = TiffIFD::new_file(&buf).unwrap();
    let exif = root.find_first_ifd(Tag::Model).unwrap();
    assert_eq!(exif.start_offset(), 0);
    assert!(exif.little_endian());
    let ifd0 = root.find_first_ifd(Tag::Make).unwrap();
    assert_eq!(ifd0.find_ifds_with_tag(Tag::Model).len(), 2);
}

#[test]
fn parse_error_messages() {
    let mut buf = vec![0xa1u8, 0x0f];
    buf.extend(vec![0u8; 64]);
    assert_eq!(
        TiffIFD::new(&buf, 0, 0, 0, 0, Endian::Little).err(),
        Some("too many entries in IFD (4001)".to_string())
    );
    let buf = ifd_le(&[(0x010F, 2, 4, *b"AAA\0")], 0);
    assert_eq!(
        TiffIFD::new(&buf[..17], 0, 0, 0, 0, Endian::Little).err(),
        Some("IFD at offset 0 with 1 entries needs 18 bytes but buffer is 17".to_string())
    );
    assert_eq!(
        TiffIFD::new_root(&[0x49, 0x49, 0x2a, 0x00], 4).err(),
        Some("TIFF: root offset 4 out of bounds (4)".to_string())
    );
    assert_eq!(
        TiffIFD::new_root(&[0x4a, 0x49, 0x2a, 0x00, 8, 0, 0, 0], 0).err(),
        Some("TIFF: don't know marker 0x494a".to_string())
    );
    assert_eq!(TiffIFD::new_file(&b"FUJIFILM"[..]).err(), Some("FUJIFILM: header too short".to_string()));
    let mut many = vec![0u8, 0, 0x10, 0];
    many.extend(vec![0u8; 8]);
    assert_eq!(TiffIFD::new_fuji(&many, 0).err(), Some("too many entries in IFD (4096)".to_string()));
    assert_eq!(
        TiffIFD::new_makernote(&[1u8, 2], 5, 0, 0, Endian::Big).err(),
        Some("Makernote offset out of bounds".to_string())
    );
}

#[test]
fn raf_header_with_largest_offset() {
    let mut buf = sample_raf();
    buf[84..88].copy_from_slice(&[0xff; 4]);
    let r = TiffIFD::new_file(&buf);
    assert!(r.is_err());
}
