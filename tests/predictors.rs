use flacenc::{FixedPredictor, VarPredictor};

#[test]
fn sample_ietf_02a() {
    let in_vec = vec![
        4302, 7496, 6199, 7427, 6484, 7436, 6740, 7508, 6984, 7583, 7182, -5990, -6306, -6032,
        -6299, -6165,
    ];

    let out_vec_ans = vec![
        3194, -1297, 1228, -943, 952, -696, 768, -524, 599, -401, -13172, -316, 274, -267, 134,
    ];

    let ans = FixedPredictor::get_residuals(&in_vec, 1);

    assert!(ans.is_some());
    assert_eq!(ans.unwrap(), out_vec_ans);
}

#[test]
fn fixed_order_zero_is_identity() {
    let s = vec![-128, 127, 0, 5, -7];
    assert_eq!(FixedPredictor::get_residuals(&s, 0), Some(s.clone()));
    assert_eq!(FixedPredictor::get_residuals(&vec![42], 0), Some(vec![42]));
}

#[test]
fn fixed_residual_lengths() {
    let s: Vec<i64> = vec![1, 4, 9, 16, 25, 36, 49];
    for k in 1..=4u8 {
        let r = FixedPredictor::get_residuals(&s, k).unwrap();
        assert_eq!(r.len(), s.len() - k as usize);
    }
}

#[test]
fn fixed_higher_orders() {
    let s: Vec<i64> = vec![1, 4, 9, 16, 25, 36];
    assert_eq!(FixedPredictor::get_residuals(&s, 2), Some(vec![2, 2, 2, 2]));
    assert_eq!(FixedPredictor::get_residuals(&s, 3), Some(vec![0, 0, 0]));
    assert_eq!(FixedPredictor::get_residuals(&s, 4), Some(vec![0, 0]));
    let t: Vec<i64> = vec![0, 0, 0, 0, 1];
    assert_eq!(FixedPredictor::get_residuals(&t, 4), Some(vec![1]));
    let u: Vec<i64> = vec![1, 0, 0, 0, 0];
    assert_eq!(FixedPredictor::get_residuals(&u, 4), Some(vec![1]));
}

#[test]
fn fixed_infeasible_orders() {
    assert_eq!(FixedPredictor::get_residuals(&vec![7], 1), None);
    assert_eq!(FixedPredictor::get_residuals(&vec![7, 8], 2), None);
    assert_eq!(FixedPredictor::get_residuals(&vec![1, 2, 3, 4, 5, 6], 5), None);
    assert_eq!(FixedPredictor::get_residuals(&vec![], 0), None);
}

#[test]
fn best_order_prefers_lowest_on_tie() {
    assert_eq!(FixedPredictor::best_predictor_order(&vec![1, 2, 3, 4, 5, 6]), Some(2));
    assert_eq!(FixedPredictor::best_predictor_order(&vec![5, 5, 5, 5, 5, 5]), Some(1));
    assert_eq!(FixedPredictor::best_predictor_order(&vec![0, 0, 0]), Some(0));
}

#[test]
fn best_order_uses_absolute_values() {
    // order 1 residuals 10, -10, 10, -10 sum to zero but cost 40
    let s = vec![0, 10, 0, 10, 0];
    assert_eq!(FixedPredictor::best_predictor_order(&s), Some(0));
}

#[test]
fn best_order_short_blocks() {
    assert_eq!(FixedPredictor::best_predictor_order(&vec![]), None);
    assert_eq!(FixedPredictor::best_predictor_order(&vec![9]), Some(0));
}

#[test]
fn var_tpl_sample_01() {
    let out_val_ans = 12;
    let out_val = VarPredictor::get_best_precision(17, 384);

    assert_eq!(out_val_ans, out_val);
}

#[test]
fn var_tpl_sample_02() {
    let out_val_ans = 6;
    let out_val = VarPredictor::get_best_precision(8, 1152);

    assert_eq!(out_val_ans, out_val);
}

#[test]
fn sample_03() {
    let out_val_ans = 11;
    let out_val = VarPredictor::get_best_precision(16, 2304);

    assert_eq!(out_val_ans, out_val);
}

#[test]
fn best_precision_table() {
    assert_eq!(VarPredictor::get_best_precision(0, 100), 2);
    assert_eq!(VarPredictor::get_best_precision(12, 4096), 8);
    assert_eq!(VarPredictor::get_best_precision(16, 192), 7);
    assert_eq!(VarPredictor::get_best_precision(16, 384), 8);
    assert_eq!(VarPredictor::get_best_precision(16, 576), 9);
    assert_eq!(VarPredictor::get_best_precision(16, 1152), 10);
    assert_eq!(VarPredictor::get_best_precision(16, 4608), 12);
    assert_eq!(VarPredictor::get_best_precision(16, 4096), 13);
    assert_eq!(VarPredictor::get_best_precision(24, 1152), 13);
    assert_eq!(VarPredictor::get_best_precision(24, 4096), 14);
}

#[test]
fn lpc_residuals() {
    let data = vec![1, 2, 3, 4];
    let coefs = vec![2u32, (-1i32) as u32];
    assert_eq!(VarPredictor::get_residuals(&data, &coefs, 2, 0), Some(vec![0, 0]));
    let coefs = vec![4u32, (-2i32) as u32];
    assert_eq!(VarPredictor::get_residuals(&data, &coefs, 2, 1), Some(vec![0, 0]));
}

#[test]
fn lpc_shift_rounds_down() {
    // (-3) >> 1 is -2
    let data = vec![0, -3, 0];
    assert_eq!(VarPredictor::get_residuals(&data, &vec![1], 1, 1), Some(vec![-3, 2]));
}

#[test]
fn lpc_order_zero_and_infeasible() {
    let data = vec![5, -6, 7];
    assert_eq!(VarPredictor::get_residuals(&data, &vec![], 0, 0), Some(data.clone()));
    assert_eq!(VarPredictor::get_residuals(&vec![5], &vec![1], 1, 0), None);
    assert_eq!(VarPredictor::get_residuals(&data, &vec![1], 2, 0), None);
}

#[test]
fn lpc_residual_overflow() {
    let data = vec![i32::MAX, i32::MIN];
    assert_eq!(VarPredictor::get_residuals(&data, &vec![1], 1, 0), None);
}
