use flacenc::Utf8Encoder;

#[test]
fn utf8_tpl_sample_01() {
    let in_val = 0;
    let out_val_ans = vec![0u8];
    let out_val = Utf8Encoder::encode(in_val);

    assert_eq!(out_val_ans, out_val);
}

#[test]
fn utf8_tpl_sample_02() {
    let in_val = 0x164;
    let out_val_ans = vec![0xc5u8, 0xa4u8];
    let out_val = Utf8Encoder::encode(in_val);

    assert_eq!(out_val_ans, out_val);
}

#[test]
fn utf8_row_boundaries() {
    assert_eq!(Utf8Encoder::encode(0x7f), vec![0x7f]);
    assert_eq!(Utf8Encoder::encode(0x80), vec![0xc2, 0x80]);
    assert_eq!(Utf8Encoder::encode(0x7ff), vec![0xdf, 0xbf]);
    assert_eq!(Utf8Encoder::encode(0x800), vec![0xe0, 0xa0, 0x80]);
    assert_eq!(Utf8Encoder::encode(0xffff), vec![0xef, 0xbf, 0xbf]);
    assert_eq!(Utf8Encoder::encode(0x1_0000), vec![0xf0, 0x90, 0x80, 0x80]);
    assert_eq!(Utf8Encoder::encode(0x20_0000), vec![0xf8, 0x88, 0x80, 0x80, 0x80]);
    assert_eq!(Utf8Encoder::encode(0x400_0000), vec![0xfc, 0x84, 0x80, 0x80, 0x80, 0x80]);
    assert_eq!(
        Utf8Encoder::encode(0x8000_0000),
        vec![0xfe, 0x82, 0x80, 0x80, 0x80, 0x80, 0x80]
    );
    assert_eq!(
        Utf8Encoder::encode(0xf_ffff_ffff),
        vec![0xfe, 0xbf, 0xbf, 0xbf, 0xbf, 0xbf, 0xbf]
    );
}

fn decode(bytes: &[u8]) -> u64 {
    let lead = bytes[0];
    let n = bytes.len();
    let mut v: u64 = if n == 1 { lead as u64 } else { (lead & (0x7f >> n)) as u64 };
    for b in &bytes[1..] {
        assert_eq!(b & 0xc0, 0x80);
        v = (v << 6) | (b & 0x3f) as u64;
    }
    v
}

#[test]
fn utf8_round_trip() {
    for n in [0u64, 1, 0x7f, 0x80, 0x164, 0x7ff, 0x800, 0xffff, 0x1_0000, 0x1f_ffff, 0x20_0000,
        0x3ff_ffff, 0x400_0000, 0x7fff_ffff, 0x8000_0000, 0x1234_5678_9, 0xf_ffff_ffff]
    {
        assert_eq!(decode(&Utf8Encoder::encode(n)), n);
    }
}
