use rawloader::basics::{be_u16, be_u32, le_u16, le_u32, BitPumpMSB, Endian};

#[test]
fn big_endian_reads() {
    let buf = [0x12u8, 0x34, 0x56, 0x78, 0x9a];
    assert_eq!(be_u16(&buf, 0), 0x1234);
    assert_eq!(be_u16(&buf, 3), 0x789a);
    assert_eq!(be_u32(&buf, 0), 0x12345678);
    assert_eq!(be_u32(&buf, 1), 0x3456789a);
}

#[test]
fn little_endian_reads() {
    let buf = [0x12u8, 0x34, 0x56, 0x78, 0x9a];
    assert_eq!(le_u16(&buf, 0), 0x3412);
    assert_eq!(le_u16(&buf, 3), 0x9a78);
    assert_eq!(le_u32(&buf, 0), 0x78563412);
    assert_eq!(le_u32(&buf, 1), 0x9a785634);
}

#[test]
fn reads_past_the_end_give_zero() {
    let buf = [0xffu8, 0xff, 0xff, 0xff];
    assert_eq!(be_u16(&buf, 3), 0);
    assert_eq!(le_u16(&buf, 4), 0);
    assert_eq!(be_u32(&buf, 1), 0);
    assert_eq!(le_u32(&buf, usize::MAX), 0);
    assert_eq!(be_u16(&[], 0), 0);
}

#[test]
fn endian_dispatch() {
    let buf = [0x01u8, 0x02, 0x03, 0x04];
    assert!(Endian::Little.little());
    assert!(!Endian::Big.little());
    assert_eq!(Endian::Big.ru16(&buf, 0), 0x0102);
    assert_eq!(Endian::Little.ru16(&buf, 0), 0x0201);
    assert_eq!(Endian::Big.ru32(&buf, 0), 0x01020304);
    assert_eq!(Endian::Little.ru32(&buf, 0), 0x04030201);
    assert_eq!(Endian::Little.ru32(&buf, 2), 0);
}

#[test]
fn bit_pump_reads_msb_first() {
    let buf = [0b1011_0010u8, 0b0111_1111];
    let mut pump = BitPumpMSB::new(&buf);
    assert!(!pump.exhausted());
    assert_eq!(pump.next_bit(), 1);
    assert_eq!(pump.next_bit(), 0);
    assert_eq!(pump.get_bits(3), 0b110);
    assert_eq!(pump.get_bits(5), 0b010_01);
    assert_eq!(pump.get_bits(6), 0b111111);
    assert!(pump.exhausted());
}

#[test]
fn bit_pump_yields_zeros_past_the_end() {
    let buf = [0xffu8];
    let mut pump = BitPumpMSB::new(&buf);
    assert_eq!(pump.get_bits(4), 0xf);
    // four real bits then zero bits
    assert_eq!(pump.get_bits(8), 0xf0);
    assert!(pump.exhausted());
    assert_eq!(pump.next_bit(), 0);
    assert_eq!(pump.get_bits(32), 0);
}

#[test]
fn bit_pump_full_word() {
    let buf = [0xdeu8, 0xad, 0xbe, 0xef];
    let mut pump = BitPumpMSB::new(&buf);
    assert_eq!(pump.get_bits(32), 0xdeadbeef);
    assert_eq!(pump.get_bits(0), 0);
}

#[test]
fn split_reads_match_one_read() {
    let buf = [0xa5u8, 0x3c, 0x0f];
    for n in 0..=20u32 {
        let mut whole = BitPumpMSB::new(&buf);
        let all = whole.get_bits(20) as u64;
        let mut parts = BitPumpMSB::new(&buf);
        let hi = parts.get_bits(n) as u64;
        let lo = parts.get_bits(20 - n) as u64;
        assert_eq!((hi << (20 - n)) | lo, all);
    }
    // past the end too
    let mut whole = BitPumpMSB::new(&buf);
    whole.get_bits(20);
    let tail = whole.get_bits(12);
    let mut parts = BitPumpMSB::new(&buf);
    parts.get_bits(20);
    let a = parts.get_bits(2);
    let b = parts.get_bits(10);
    assert_eq!((a << 10) | b, tail);
    assert_eq!(tail, 0xf00);
}
