use flacenc::RiceEncoderOptions;

#[test]
fn encode_sample_ietf_02() {
    let in_vec = vec![
        3194, -1297, 1228, -943, 952, -696, 768, -524, 599, -401, -13172, -316, 274, -267, 134,
    ];

    let out_vec_ans = vec![
        0x11, 0xe8, 0xa2, 0x14, 0xcc, 0x7a, 0xef, 0xb8, 0x6b, 0x7f, 0x00, 0x60, 0xbe, 0x57, 0x59,
        0x08, 0x00, 0x77, 0x3d, 0x3b, 0xd1, 0x25, 0x0a, 0xc8, 0x60,
    ];

    let rice_enc_stream = RiceEncoderOptions::encode(11, &in_vec);

    assert_eq!(rice_enc_stream.stream, out_vec_ans);
    assert_eq!(rice_enc_stream.extra_bits_len, 3);
}

#[test]
fn encode_sample_ietf_03() {
    let in_vec = vec![3, -1, -13];

    let out_vec_ans = vec![0xe9, 0x12];

    let rice_enc_stream = RiceEncoderOptions::encode(3, &in_vec);

    assert_eq!(rice_enc_stream.stream, out_vec_ans);
    assert_eq!(rice_enc_stream.extra_bits_len, 1);
}

#[test]
fn encode_keeps_parameter() {
    let s = RiceEncoderOptions::encode(7, &vec![1, 2, 3]);
    assert_eq!(s.param, 7);
}

#[test]
fn encode_with_parameter_zero_is_unary() {
    // zigzag 0, 2, 0, 1 -> 1, 001, 1, 01 and one bit of padding
    let s = RiceEncoderOptions::encode(0, &vec![0, 1, 0, -1]);
    assert_eq!(s.stream, vec![0x9a]);
    assert_eq!(s.extra_bits_len, 1);
}

#[test]
fn encode_nothing() {
    let s = RiceEncoderOptions::encode(5, &vec![]);
    assert!(s.stream.is_empty());
    assert_eq!(s.extra_bits_len, 0);
}

#[test]
fn encode_whole_bytes_need_no_padding() {
    let s = RiceEncoderOptions::encode(0, &vec![0; 8]);
    assert_eq!(s.stream, vec![0xff]);
    assert_eq!(s.extra_bits_len, 0);
}

#[test]
fn zigzag_values() {
    assert_eq!(RiceEncoderOptions::zigzag(0), 0);
    assert_eq!(RiceEncoderOptions::zigzag(-1), 1);
    assert_eq!(RiceEncoderOptions::zigzag(1), 2);
    assert_eq!(RiceEncoderOptions::zigzag(-2), 3);
    assert_eq!(RiceEncoderOptions::zigzag(i64::MAX), u64::MAX - 1);
    assert_eq!(RiceEncoderOptions::zigzag(i64::MIN), u64::MAX);
}

#[test]
fn zigzag_round_trip() {
    for r in [-5i64, -1, 0, 1, 5, 123456, -123456] {
        let z = RiceEncoderOptions::zigzag(r);
        let back = if z % 2 == 0 { (z / 2) as i64 } else { -(((z + 1) / 2) as i64) };
        assert_eq!(back, r);
    }
}

fn decode(bytes: &[u8], m: u32, count: usize) -> Vec<i64> {
    let bit = |i: usize| (bytes[i / 8] >> (7 - i % 8)) & 1 == 1;
    let mut pos = 0;
    let mut out = Vec::new();
    for _ in 0..count {
        let mut q: u64 = 0;
        while !bit(pos) {
            q += 1;
            pos += 1;
        }
        pos += 1;
        let mut v: u64 = 0;
        for _ in 0..m {
            v = 2 * v + if bit(pos) { 1 } else { 0 };
            pos += 1;
        }
        let z = (q << m) + v;
        out.push(if z % 2 == 0 { (z / 2) as i64 } else { -(((z + 1) / 2) as i64) });
    }
    out
}

#[test]
fn rice_round_trip_and_bit_count() {
    let rs = vec![3194, -1297, 1228, -943, 952, -696, 768, -524, 599, -401, -13172];
    for m in [0u8, 3, 11, 20] {
        let s = RiceEncoderOptions::encode(m, &rs);
        assert_eq!(decode(&s.stream, m as u32, rs.len()), rs);
        let bits = RiceEncoderOptions::bits_in_partition_exact(m, rs.len() as u64, &rs);
        assert_eq!(8 * s.stream.len() as u64 - s.extra_bits_len as u64, bits);
    }
}

#[test]
fn exact_bits_formula() {
    // 1 + 3 + (6 >> 3), 1 + 3 + (1 >> 3), 1 + 3 + (25 >> 3)
    assert_eq!(RiceEncoderOptions::bits_in_partition_exact(3, 3, &vec![3, -1, -13]), 15);
}

#[test]
fn sum_estimate_formula() {
    assert_eq!(RiceEncoderOptions::bits_in_partition_sums(3, 3, 32), 16);
    assert_eq!(RiceEncoderOptions::bits_in_partition_sums(0, 4, 10), 14);
}

#[test]
fn partition_order_bounds() {
    assert_eq!(RiceEncoderOptions::min_rice_partition_order(), 0);
    assert_eq!(RiceEncoderOptions::max_rice_partition_order(4096), 8);
    assert_eq!(RiceEncoderOptions::max_rice_partition_order(192), 6);
    assert_eq!(RiceEncoderOptions::max_rice_partition_order(16), 4);
    assert_eq!(RiceEncoderOptions::max_rice_partition_order(15), 0);
    assert_eq!(RiceEncoderOptions::max_rice_partition_order(0), 0);
}

#[test]
fn best_parameters_per_partition() {
    let rs = vec![5000, -5000, 4999, 5000, 0, 1, 0, -1];
    let opts = RiceEncoderOptions::new(8, 0);
    let (ps, total) = opts.best_parameters(1, &rs).unwrap();
    assert_eq!(ps, vec![12, 0]);
    assert_eq!(total, 67);
    assert!(opts.best_parameters(4, &rs).is_none());
}

#[test]
fn best_parameters_reject_empty_first_partition() {
    let rs: Vec<i64> = (0..15).collect();
    let opts = RiceEncoderOptions::new(16, 1);
    assert!(opts.best_parameters(3, &rs).is_some());
    let opts = RiceEncoderOptions::new(16, 2);
    assert!(opts.best_parameters(3, &rs[..14].to_vec()).is_none());
    assert!(opts.best_parameters(0, &rs).is_none());
}

#[test]
fn partition_sample_counts_cover_block() {
    let rs: Vec<i64> = (0..13).collect();
    let opts = RiceEncoderOptions::new(16, 3);
    for p in 0..3u8 {
        let (ps, _) = opts.best_parameters(p, &rs).unwrap();
        assert_eq!(ps.len(), 1 << p);
    }
    assert!(opts.best_parameters(3, &rs).is_none());
}

#[test]
fn search_picks_cheapest_partition_order() {
    let rs = vec![5000, -5000, 4999, 5000, 0, 1, 0, -1];
    let opts = RiceEncoderOptions::new(8, 0);
    let (ps, p) = opts.best_partition_and_params(&rs);
    assert_eq!(p, 1);
    assert_eq!(ps, vec![12, 0]);
    let (streams, p) = opts.encode_by_partition(&rs);
    assert_eq!(p, 1);
    assert_eq!(streams.len(), 2);
    assert_eq!(streams[0].param, 12);
    assert_eq!(streams[0].stream, vec![0x2e, 0x20, 0x5c, 0x3c, 0xb8, 0x71, 0x71, 0x00]);
    assert_eq!(streams[0].extra_bits_len, 4);
    assert_eq!(streams[1].param, 0);
    assert_eq!(streams[1].stream, vec![0x9a]);
    assert_eq!(streams[1].extra_bits_len, 1);
}

#[test]
fn search_prefers_lower_order_on_tie() {
    let opts = RiceEncoderOptions::new(8, 0);
    let (ps, p) = opts.best_partition_and_params(&vec![0; 8]);
    assert_eq!(p, 0);
    assert_eq!(ps, vec![0]);
}

#[test]
fn search_on_flac_sample() {
    let rs = vec![
        3194, -1297, 1228, -943, 952, -696, 768, -524, 599, -401, -13172, -316, 274, -267, 134,
    ];
    let opts = RiceEncoderOptions::new(16, 1);
    let (streams, p) = opts.encode_by_partition(&rs);
    assert_eq!(p, 0);
    assert_eq!(streams.len(), 1);
    assert_eq!(streams[0].param, 11);
    assert_eq!(streams[0].extra_bits_len, 3);
}
