use flacenc::CrcOptions;

#[test]
fn sample_crc8_01() {
    let in_vec = vec![0x10];
    let ans = CrcOptions::new(0b0000_0111u8, 8).build_crc8(&in_vec);

    assert_eq!(ans, 0x70);
}

#[test]
fn sample_crc8_ietf_01() {
    let in_vec = vec![0xff, 0xf8, 0x69, 0x18, 0x00, 0x00];
    let ans = CrcOptions::new(0b0000_0111u8, 8).build_crc8(&in_vec);

    assert_eq!(ans, 0xbf);
}

#[test]
fn sample_crc16_01() {
    let in_vec = vec![0x10, 0x00];
    let ans = CrcOptions::new(0b1000_0000_0000_0101u16, 16).build_crc16(&in_vec);

    assert_eq!(ans, 0xe003);
}

#[test]
fn sample_crc16_ietf_01() {
    let in_vec = vec![
        0xff, 0xf8, 0x69, 0x18, 0x00, 0x00, 0xbf, 0x03, 0x58, 0xfd, 0x03, 0x12, 0x8b,
    ];
    let ans = CrcOptions::new(0b1000_0000_0000_0101u16, 16).build_crc16(&in_vec);

    assert_eq!(ans, 0xaa9a);
}

#[test]
fn crc8_of_empty_message_is_zero() {
    let ans = CrcOptions::new(0x07u8, 8).build_crc8(&vec![]);
    assert_eq!(ans, 0);
}

#[test]
fn crc16_of_empty_message_is_zero() {
    let ans = CrcOptions::new(0x8005u16, 16).build_crc16(&vec![]);
    assert_eq!(ans, 0);
}

#[test]
fn crc8_is_linear() {
    let a = vec![0xff, 0xf8, 0x69, 0x18, 0x00, 0x00];
    let b = vec![0x12, 0x34, 0x56, 0x78, 0x9a, 0xbc];
    let x: Vec<u8> = a.iter().zip(b.iter()).map(|(p, q)| p ^ q).collect();
    let opts = CrcOptions::new(0x07u8, 8);
    assert_eq!(opts.build_crc8(&x), opts.build_crc8(&a) ^ opts.build_crc8(&b));
}

#[test]
fn crc16_is_linear() {
    let a: Vec<u16> = vec![0xff, 0xf8, 0x69, 0x18];
    let b: Vec<u16> = vec![0x01, 0x80, 0x7f, 0x00];
    let x: Vec<u16> = a.iter().zip(b.iter()).map(|(p, q)| p ^ q).collect();
    let opts = CrcOptions::new(0x8005u16, 16);
    assert_eq!(opts.build_crc16(&x), opts.build_crc16(&a) ^ opts.build_crc16(&b));
}

#[test]
fn crc8_single_byte_is_table_entry() {
    let opts = CrcOptions::new(0x07u8, 8);
    assert_eq!(opts.build_crc8(&vec![0x01]), 0x07);
    assert_eq!(opts.build_crc8(&vec![0x80]), 0x89);
}

#[test]
fn crc_of_narrow_generator() {
    // x^3 + x + 1 over the byte 0b1101_0011 with three zero bits appended
    let opts = CrcOptions::new(0b011u8, 3);
    assert_eq!(opts.build_crc8(&vec![0b1101_0011]), 0b011);
}
