use rawloader::basics::BitPumpMSB;
use rawloader::fuji_compressed::{decode_fuji_compressed, xtrans_decode_block, FujiHeader, FujiParams, GradPair};

/// A compressed stream: 16-byte header, strip size table, padding to 16
/// bytes, then the strips.
fn stream(raw_bits: u8, block_size: u16, raw_width: u16, total_lines: u16, strips: &[&[u8]]) -> Vec<u8> {
    let mut v = vec![0x49u8, 0x53, 1, 16, raw_bits, 0, 0, 0, 0];
    v.extend_from_slice(&raw_width.to_be_bytes());
    v.extend_from_slice(&block_size.to_be_bytes());
    v.push(strips.len() as u8);
    v.extend_from_slice(&total_lines.to_be_bytes());
    for s in strips {
        v.extend_from_slice(&(s.len() as u32).to_be_bytes());
    }
    while v.len() % 16 != 0 {
        v.push(0);
    }
    for s in strips {
        v.extend_from_slice(s);
    }
    v
}

const STRIP14: [u8; 120] = [
    181, 93, 219, 25, 53, 49, 187, 29, 125, 19, 61, 223, 215, 51, 123, 63,
    217, 31, 63, 115, 31, 219, 25, 113, 23, 85, 149, 215, 89, 61, 157, 93,
    53, 113, 191, 49, 49, 31, 121, 255, 219, 177, 255, 249, 185, 153, 127, 93,
    125, 57, 153, 253, 191, 245, 147, 53, 61, 215, 85, 191, 93, 251, 215, 21,
    55, 177, 191, 179, 255, 249, 51, 63, 155, 243, 49, 31, 159, 245, 145, 213,
    177, 27, 253, 181, 87, 59, 253, 31, 127, 147, 83, 127, 219, 217, 255, 57,
    85, 245, 221, 159, 87, 221, 159, 213, 183, 211, 119, 93, 59, 91, 93, 119,
    119, 23, 249, 93, 151, 145, 19, 91,
];

const STRIP16_A: [u8; 200] = [
    231, 239, 231, 97, 127, 243, 127, 49, 229, 187, 105, 47, 53, 235, 231, 113,
    39, 33, 63, 51, 97, 123, 47, 237, 167, 225, 101, 119, 183, 255, 35, 43,
    235, 175, 241, 43, 163, 161, 117, 179, 47, 35, 55, 237, 55, 181, 229, 35,
    41, 33, 109, 107, 59, 241, 225, 235, 247, 37, 101, 171, 173, 45, 191, 171,
    39, 241, 61, 101, 127, 51, 37, 63, 239, 249, 123, 97, 229, 97, 99, 247,
    229, 59, 235, 247, 109, 33, 171, 187, 43, 107, 127, 233, 51, 53, 107, 109,
    227, 165, 37, 169, 183, 229, 37, 39, 47, 107, 125, 39, 189, 191, 233, 97,
    247, 101, 229, 125, 111, 191, 117, 127, 97, 113, 101, 231, 247, 41, 247, 57,
    53, 55, 51, 163, 123, 233, 163, 247, 251, 183, 121, 35, 97, 117, 245, 37,
    175, 109, 105, 41, 35, 169, 243, 229, 127, 63, 55, 123, 177, 189, 99, 47,
    185, 103, 231, 169, 103, 49, 41, 243, 183, 191, 49, 43, 39, 247, 35, 191,
    163, 101, 37, 39, 231, 189, 55, 99, 175, 181, 43, 243, 39, 245, 47, 255,
    39, 227, 227, 39, 37, 41, 47, 59,
];

const STRIP16_B: [u8; 200] = [
    163, 245, 169, 231, 235, 225, 237, 43, 47, 191, 45, 247, 43, 117, 57, 255,
    249, 163, 37, 189, 187, 105, 103, 119, 175, 227, 255, 123, 167, 239, 161, 101,
    253, 103, 109, 229, 113, 163, 107, 101, 101, 255, 179, 53, 33, 173, 119, 57,
    231, 241, 173, 109, 243, 227, 253, 161, 231, 165, 39, 49, 175, 53, 175, 181,
    191, 41, 101, 239, 233, 97, 45, 169, 121, 105, 57, 59, 229, 55, 189, 39,
    101, 103, 243, 163, 123, 37, 241, 51, 123, 115, 171, 177, 113, 233, 115, 45,
    243, 231, 99, 231, 233, 101, 35, 225, 175, 237, 167, 105, 51, 63, 109, 125,
    231, 45, 191, 165, 167, 41, 179, 43, 51, 225, 175, 247, 173, 249, 47, 111,
    33, 251, 49, 121, 171, 103, 241, 109, 225, 253, 45, 113, 225, 181, 117, 163,
    191, 227, 107, 187, 105, 171, 255, 103, 243, 59, 35, 225, 47, 55, 237, 63,
    251, 47, 117, 33, 235, 243, 239, 169, 127, 243, 253, 97, 173, 255, 243, 163,
    55, 99, 247, 47, 165, 99, 43, 51, 99, 111, 117, 39, 177, 165, 181, 125,
    255, 53, 255, 63, 161, 101, 255, 43,
];

const IMAGE14: [u16; 36] = [
    53, 8169, 16167, 16324, 8384, 16178, 15918, 14356, 16272, 12381, 10295, 38, 99, 12033, 12229, 16303,
    12787, 11349, 12943, 12285, 8992, 12514, 12167, 3722, 12347, 12260, 13997, 12377, 12281, 8340, 16275, 5453,
    12713, 4150, 8103, 12502,
];

const IMAGE16: [u16; 72] = [
    65120, 64308, 65341, 64518, 31461, 1102, 65392, 32596, 64560, 181, 269, 499, 48415, 58057, 65064, 57042,
    44132, 895, 40365, 21290, 64598, 1404, 424, 1498, 64309, 32311, 56789, 203, 1150, 51173, 65024, 32163,
    21591, 424, 1232, 399, 53927, 55660, 47603, 58418, 52788, 518, 41363, 54409, 48452, 65424, 17934, 627,
    54406, 55330, 16184, 56656, 54828, 17469, 41381, 45757, 17136, 50742, 34232, 827, 1111, 52681, 55060, 64974,
    262, 56331, 377, 21046, 47081, 343, 4, 44204,
];

const STRIP_WIDE: [u8; 400] = [
    149, 41, 217, 183, 99, 227, 241, 13, 171, 215, 253, 29, 51, 89, 185, 177,
    171, 219, 245, 93, 181, 59, 179, 51, 175, 55, 179, 249, 149, 55, 253, 185,
    179, 213, 17, 213, 27, 115, 113, 227, 177, 193, 99, 39, 255, 235, 111, 53,
    123, 179, 85, 227, 213, 211, 123, 217, 153, 145, 29, 171, 127, 41, 59, 241,
    139, 173, 29, 221, 31, 231, 169, 141, 123, 135, 115, 255, 137, 243, 163, 179,
    173, 211, 149, 245, 143, 213, 151, 189, 237, 143, 3, 133, 255, 149, 41, 103,
    75, 221, 185, 57, 21, 93, 85, 151, 151, 23, 167, 101, 63, 125, 251, 241,
    185, 159, 99, 227, 149, 235, 123, 107, 209, 29, 161, 241, 245, 125, 49, 245,
    237, 255, 219, 241, 221, 233, 201, 131, 145, 231, 155, 73, 237, 163, 243, 159,
    25, 101, 191, 145, 253, 173, 113, 49, 57, 129, 41, 145, 51, 139, 19, 53,
    91, 251, 105, 129, 151, 23, 87, 39, 213, 255, 233, 147, 85, 157, 89, 71,
    219, 87, 33, 51, 187, 183, 233, 171, 127, 189, 251, 81, 171, 49, 79, 191,
    147, 27, 167, 233, 173, 175, 245, 207, 193, 89, 13, 185, 55, 217, 241, 97,
    221, 137, 189, 37, 153, 249, 179, 211, 157, 59, 117, 217, 47, 147, 125, 203,
    165, 173, 241, 155, 161, 33, 65, 95, 255, 97, 87, 187, 151, 233, 145, 83,
    235, 23, 245, 185, 117, 99, 159, 57, 249, 169, 249, 217, 215, 59, 199, 209,
    155, 153, 127, 35, 231, 59, 211, 101, 109, 11, 125, 19, 243, 247, 115, 31,
    3, 31, 55, 127, 173, 137, 249, 23, 35, 243, 221, 161, 185, 249, 61, 179,
    191, 243, 123, 29, 167, 193, 113, 81, 231, 57, 229, 245, 167, 49, 49, 219,
    63, 85, 191, 87, 191, 209, 13, 227, 119, 183, 235, 247, 243, 231, 179, 179,
    173, 117, 115, 185, 41, 235, 125, 63, 19, 191, 115, 63, 195, 191, 163, 127,
    185, 255, 109, 139, 161, 121, 253, 115, 205, 241, 219, 135, 63, 45, 153, 139,
    193, 175, 191, 227, 179, 217, 247, 213, 67, 209, 181, 197, 55, 139, 139, 121,
    109, 185, 247, 143, 255, 213, 239, 225, 185, 39, 245, 73, 181, 59, 9, 107,
    229, 167, 81, 191, 119, 193, 241, 83, 189, 195, 251, 225, 189, 27, 183, 193,
];

const STRIP_NARROW: [u8; 300] = [
    123, 89, 221, 53, 165, 251, 51, 229, 251, 191, 179, 227, 229, 133, 211, 171,
    177, 107, 241, 3, 163, 151, 241, 177, 237, 147, 171, 27, 119, 127, 237, 233,
    23, 117, 109, 189, 123, 165, 231, 199, 177, 197, 147, 49, 209, 155, 253, 53,
    165, 191, 145, 111, 27, 253, 147, 61, 85, 97, 211, 189, 211, 249, 189, 203,
    63, 57, 175, 39, 207, 231, 163, 153, 175, 91, 145, 93, 163, 219, 111, 93,
    67, 55, 247, 209, 237, 129, 91, 85, 59, 183, 9, 111, 137, 147, 223, 49,
    59, 123, 163, 151, 185, 115, 101, 243, 245, 57, 59, 241, 191, 163, 187, 119,
    125, 177, 223, 121, 51, 245, 247, 39, 107, 159, 179, 129, 185, 23, 193, 91,
    219, 243, 235, 167, 151, 225, 253, 235, 187, 45, 51, 219, 211, 163, 173, 123,
    123, 37, 97, 249, 93, 113, 239, 55, 17, 103, 21, 41, 205, 121, 147, 17,
    119, 141, 243, 45, 237, 241, 147, 247, 187, 167, 129, 149, 221, 123, 141, 1,
    29, 7, 241, 215, 177, 133, 9, 103, 125, 31, 37, 149, 137, 163, 153, 237,
    37, 57, 53, 237, 139, 219, 181, 155, 239, 253, 89, 101, 127, 221, 165, 153,
    223, 155, 61, 151, 115, 97, 173, 137, 231, 213, 129, 179, 219, 213, 185, 237,
    195, 165, 161, 163, 79, 107, 205, 167, 71, 33, 145, 111, 253, 175, 49, 137,
    113, 139, 169, 245, 127, 191, 245, 79, 33, 137, 185, 129, 147, 191, 177, 135,
    203, 121, 99, 165, 129, 221, 159, 153, 17, 207, 49, 159, 17, 155, 183, 19,
    189, 191, 253, 237, 165, 131, 89, 185, 249, 255, 87, 169, 201, 137, 147, 31,
    159, 205, 123, 185, 185, 255, 89, 61, 71, 207, 101, 215,
];

const IMAGE_TWO_GROUPS: [u16; 216] = [
    21, 215, 16263, 167, 8482, 16020, 16306, 8633, 253, 236, 176, 16342, 16137, 109, 16130, 16177,
    8354, 219, 16195, 8292, 16145, 16331, 14481, 15781, 12684, 6427, 16280, 115, 43, 15699, 7920, 4624,
    16064, 10215, 6660, 319, 16096, 9001, 10112, 3689, 9939, 13785, 3902, 4105, 7139, 16226, 13310, 16249,
    15895, 11965, 6755, 16353, 4292, 5099, 12226, 11644, 13053, 14331, 13855, 8685, 13581, 7459, 10251, 1687,
    12646, 15730, 8253, 7572, 12241, 8234, 6000, 4044, 11610, 12032, 9573, 14219, 13912, 7229, 13859, 8399,
    6922, 2286, 7777, 8897, 8053, 7895, 6249, 7897, 5829, 5536, 16369, 7914, 12903, 4231, 5653, 13957,
    1020, 7243, 8426, 4528, 14524, 5627, 93, 5823, 7897, 1064, 6773, 6238, 11421, 12694, 7427, 14224,
    14358, 6032, 13905, 8539, 7900, 3667, 4618, 6981, 7947, 7838, 5756, 7994, 6328, 4851, 12072, 13130,
    8124, 14329, 14320, 4386, 13941, 8997, 6096, 3814, 4202, 14419, 7972, 8005, 7945, 7919, 6959, 7163,
    11515, 7888, 13130, 4389, 5799, 14116, 5024, 8032, 8841, 13735, 6055, 4155, 12322, 5007, 7796, 10517,
    5080, 6565, 12154, 13118, 8428, 14323, 14691, 3751, 13771, 8557, 5686, 3829, 3873, 13572, 8069, 7772,
    7563, 7665, 6681, 6384, 11701, 13164, 7569, 14431, 14538, 5766, 14137, 9098, 8473, 3914, 4070, 5546,
    7761, 7431, 4909, 7952, 6964, 5155, 11010, 8409, 13301, 5399, 3310, 13696, 2471, 5200, 8981, 5249,
    13299, 3779, 357, 7726, 8291, 2789, 6283, 6746,
];

#[test]
fn decodes_a_14_bit_strip() {
    let src = stream(14, 6, 6, 1, &[&STRIP14]);
    assert_eq!(src.len(), 32 + 120);
    let img = decode_fuji_compressed(&src, 6, 6, false).unwrap();
    assert_eq!(img, IMAGE14.to_vec());
    assert!(img.iter().all(|&v| v <= 0x3fff));
}

#[test]
fn decodes_two_16_bit_strips() {
    let src = stream(16, 6, 12, 1, &[&STRIP16_A, &STRIP16_B]);
    let img = decode_fuji_compressed(&src, 12, 6, false).unwrap();
    assert_eq!(img.len(), 72);
    assert_eq!(img, IMAGE16.to_vec());
}

#[test]
fn output_smaller_than_the_stream() {
    let src = stream(14, 6, 6, 1, &[&STRIP14]);
    // rows and columns past the output are dropped
    let img = decode_fuji_compressed(&src, 6, 3, false).unwrap();
    assert_eq!(img, IMAGE14[..18].to_vec());
    let img = decode_fuji_compressed(&src, 4, 6, false).unwrap();
    let expected: Vec<u16> = (0..6).flat_map(|y| IMAGE14[y * 6..y * 6 + 4].to_vec()).collect();
    assert_eq!(img, expected);
    // a larger output keeps zeros where nothing was decoded
    let img = decode_fuji_compressed(&src, 7, 7, false).unwrap();
    assert_eq!(img.len(), 49);
    assert_eq!(img[0..6], IMAGE14[0..6]);
    assert_eq!(img[6], 0);
    assert!(img[42..].iter().all(|&v| v == 0));
}

#[test]
fn dummy_decode() {
    let img = decode_fuji_compressed(&[], 4000, 3000, true).unwrap();
    assert_eq!(img, vec![0]);
}

#[test]
fn header_errors() {
    let good = stream(14, 6, 6, 1, &[&STRIP14]);
    assert!(decode_fuji_compressed(&good[..15], 6, 6, false).is_err());
    let mut bad = good.clone();
    bad[0] = 0x4a;
    assert!(decode_fuji_compressed(&bad, 6, 6, false).is_err());
    let mut bad = good.clone();
    bad[2] = 0;
    assert!(decode_fuji_compressed(&bad, 6, 6, false).is_err());
    // only X-Trans streams
    let mut bad = good.clone();
    bad[3] = 0;
    assert!(decode_fuji_compressed(&bad, 6, 6, false).is_err());
    // 12-bit samples are not supported
    let mut bad = good.clone();
    bad[4] = 12;
    assert!(decode_fuji_compressed(&bad, 6, 6, false).is_err());
}

#[test]
fn dimension_errors() {
    let good = stream(14, 6, 6, 1, &[&STRIP14]);
    for at in [12usize, 13, 15] {
        let mut bad = good.clone();
        bad[at] = 0;
        assert!(decode_fuji_compressed(&bad, 6, 6, false).is_err());
    }
}

#[test]
fn data_errors() {
    let good = stream(14, 6, 6, 1, &[&STRIP14]);
    // the strip size table does not fit
    let mut bad = good[..20].to_vec();
    bad[13] = 2;
    assert!(decode_fuji_compressed(&bad, 6, 6, false).is_err());
    // a strip running past the end of the data
    assert!(decode_fuji_compressed(&good[..good.len() - 1], 6, 6, false).is_err());
    // a stream that ends inside a run of zero bits
    let zeros = [0u8; 40];
    let src = stream(14, 6, 6, 1, &[&zeros]);
    assert!(decode_fuji_compressed(&src, 6, 6, false).is_err());
    // a last strip narrower than nothing
    let mut src = stream(16, 6, 12, 1, &[&STRIP16_A, &STRIP16_B]);
    src[10] = 3;
    assert!(decode_fuji_compressed(&src, 12, 6, false).is_err());
}

#[test]
fn decodes_two_line_groups_and_a_narrow_last_strip() {
    let src = stream(14, 12, 18, 2, &[&STRIP_WIDE, &STRIP_NARROW]);
    let img = decode_fuji_compressed(&src, 18, 12, false).unwrap();
    assert_eq!(img, IMAGE_TWO_GROUPS.to_vec());
}

#[test]
fn error_messages() {
    // strip table of one 4-byte strip, padded to 32, but only 24 bytes
    let src = [
        0x49u8, 0x53, 0x01, 0x10, 0x0E, 0x00, 0x06, 0x00, 0x00, 0x00, 0x06, 0x00, 0x06, 0x01, 0x00, 0x01,
        0x00, 0x00, 0x00, 0x04, 0x00, 0x00, 0x00, 0x00,
    ];
    assert_eq!(
        decode_fuji_compressed(&src, 6, 6, false),
        Err("RAF compressed: strip data extends beyond buffer".to_string())
    );
    let mut bits = src[..16].to_vec();
    bits[4] = 12;
    assert_eq!(
        decode_fuji_compressed(&bits, 6, 6, false),
        Err("Unsupported raw_bits for compression: 12".to_string())
    );
    let mut bad = src[..16].to_vec();
    bad[0] = 0x4a;
    bad[2] = 7;
    assert_eq!(
        decode_fuji_compressed(&bad, 6, 6, false),
        Err("RAF compressed: bad header sig=0x4a53 ver=7".to_string())
    );
    let mut bad = src[..16].to_vec();
    bad[3] = 0;
    assert_eq!(
        decode_fuji_compressed(&bad, 6, 6, false),
        Err("RAF compressed: only X-Trans supported, got raw_type=0".to_string())
    );
    assert_eq!(decode_fuji_compressed(&src[..10], 6, 6, false), Err("RAF compressed: data too short".to_string()));
    let zeros = [0u8; 40];
    let src = stream(14, 6, 6, 1, &[&zeros]);
    assert_eq!(
        decode_fuji_compressed(&src, 6, 6, false),
        Err("RAF compressed: strip data could not be decoded".to_string())
    );
}

#[test]
fn bad_headers_fail_before_the_image_size_matters() {
    let mut bad = stream(14, 6, 6, 1, &[&STRIP14]);
    bad[3] = 0;
    assert!(decode_fuji_compressed(&bad, usize::MAX, usize::MAX, false).is_err());
}

#[test]
fn params_line_width_is_two_thirds_of_the_block() {
    let header = |raw_bits: usize, block_size: usize| FujiHeader {
        raw_bits,
        raw_height: 0,
        raw_width: 0,
        block_size,
        blocks_in_row: 1,
        total_lines: 1,
    };
    let p = FujiParams::new(&header(14, 768)).unwrap();
    assert_eq!(p.line_width, 512);
    assert_eq!(p.q_point, [0, 0x12, 0x43, 0x114, 0x3FFF]);
    assert_eq!(FujiParams::new(&header(16, 7)).unwrap().line_width, 4);
    // no overflow for the largest block size
    assert_eq!(FujiParams::new(&header(16, usize::MAX)).unwrap().line_width, usize::MAX / 3 * 2);
    assert_eq!(
        FujiParams::new(&header(12, 768)).err(),
        Some("Unsupported raw_bits for compression: 12".to_string())
    );
}

#[test]
fn block_decoding_keeps_the_oldest_lines_and_the_range() {
    let header = FujiHeader {
        raw_bits: 14,
        raw_height: 6,
        raw_width: 12,
        block_size: 12,
        blocks_in_row: 1,
        total_lines: 1,
    };
    let params = FujiParams::new(&header).unwrap();
    let stride = params.line_width + 2;
    assert_eq!(stride, 10);
    let kept = [0usize, 1, 5, 6, 13, 14];
    for (data, expect_ok) in [(vec![0x5au8; 4096], true), (vec![], false), (vec![0x00u8; 3], false)] {
        let mut lines: Vec<i32> = (0..18 * stride as i32).map(|v| (v * 97) % 0x4000).collect();
        let before = lines.clone();
        let mut even = vec![GradPair { value1: 256, value2: 1 }; 123];
        let mut odd = even.clone();
        let mut pump = BitPumpMSB::new(&data);
        let ok = xtrans_decode_block(&mut pump, &params, &mut lines, stride, &mut even, &mut odd);
        assert_eq!(ok, expect_ok);
        assert_eq!(lines.len(), 18 * stride);
        assert!(lines.iter().all(|&v| (0..=0x3FFF).contains(&v)));
        for r in kept {
            assert_eq!(lines[r * stride..(r + 1) * stride], before[r * stride..(r + 1) * stride]);
        }
        if expect_ok {
            // the block wrote the lines it decodes
            assert_ne!(lines[2 * stride..5 * stride], before[2 * stride..5 * stride]);
        }
    }
}
