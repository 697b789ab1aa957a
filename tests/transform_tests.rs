use dwt::transform;
use dwt::wavelet::Wavelet;
use dwt::Operation;

fn unit_pair() -> Wavelet {
    Wavelet::new_orthogonal(&[1, 1], 0)
}

#[test]
fn filters_follow_quadrature_mirror_relations() {
    let w = Wavelet::new_orthogonal(&[1, 2, 3, 4], 3);
    assert_eq!(w.offset, 3);
    assert_eq!(w.dec_lo, vec![1, 2, 3, 4]);
    assert_eq!(w.rec_lo, vec![4, 3, 2, 1]);
    assert_eq!(w.rec_hi, vec![1, -2, 3, -4]);
    assert_eq!(w.dec_hi, vec![-4, 3, -2, 1]);
}

#[test]
fn filter_relations_hold_tap_by_tap() {
    let lo = [5, -7, 11, 13, -17, 19];
    let w = Wavelet::new_orthogonal(&lo, 0);
    let l = lo.len();
    for i in 0..l {
        assert_eq!(w.dec_lo[i], lo[i]);
        assert_eq!(w.rec_lo[i], w.dec_lo[l - 1 - i]);
        let sign = if i % 2 == 0 { 1 } else { -1 };
        assert_eq!(w.rec_hi[i], lo[i] * sign);
        assert_eq!(w.dec_hi[i], w.rec_hi[l - 1 - i]);
    }
}

#[test]
fn negating_the_smallest_tap_wraps() {
    let w = Wavelet::new_orthogonal(&[1, i64::MIN], 0);
    assert_eq!(w.rec_hi, vec![1, i64::MIN]);
}

#[test]
fn pair_filter_forward_one_level() {
    let w = unit_pair();
    let mut data = vec![3, 5];
    w.transform(&mut data, Operation::Forward, 1);
    assert_eq!(data, vec![8, 2]);
}

#[test]
fn forward_step_writes_sum_and_difference() {
    let w = unit_pair();
    let mut approx = vec![0, 99];
    let mut detail = vec![0, 98];
    w.forward_step(&[3, 5], 2, &mut approx, &mut detail);
    assert_eq!(approx, vec![8, 99]);
    assert_eq!(detail, vec![2, 98]);
}

#[test]
fn forward_step_wraps_round_the_block() {
    let w = Wavelet::new_orthogonal(&[1, 2, 3, 4], 1);
    let mut approx = vec![0];
    let mut detail = vec![0];
    w.forward_step(&[10, 20, 30], 2, &mut approx, &mut detail);
    assert_eq!(approx, vec![140]);
    assert_eq!(detail, vec![-80]);
}

#[test]
fn forward_step_arithmetic_wraps() {
    let w = unit_pair();
    let mut approx = vec![0];
    let mut detail = vec![0];
    w.forward_step(&[i64::MAX, 1], 2, &mut approx, &mut detail);
    assert_eq!(approx, vec![i64::MIN]);
    assert_eq!(detail, vec![i64::MIN + 2]);
}

#[test]
fn inverse_step_rebuilds_and_zeroes_the_rest() {
    let w = unit_pair();
    let mut work = vec![7, 7, 7];
    w.inverse_step(&[8], &[2], 2, &mut work);
    assert_eq!(work, vec![10, 6, 0]);
}

#[test]
fn forward_two_levels() {
    let w = unit_pair();
    let mut data = vec![1, 2, 3, 4];
    w.transform(&mut data, Operation::Forward, 2);
    assert_eq!(data, vec![10, 4, 1, 1]);
}

#[test]
fn forward_three_levels() {
    let w = unit_pair();
    let mut data = vec![1, 2, 3, 4, 5, 6, 7, 8];
    w.transform(&mut data, Operation::Forward, 3);
    assert_eq!(data, vec![36, 16, 4, 4, 1, 1, 1, 1]);
}

#[test]
fn inverse_two_levels() {
    let w = unit_pair();
    let mut data = vec![10, 4, 1, 1];
    w.transform(&mut data, Operation::Inverse, 2);
    assert_eq!(data, vec![15, 13, 7, 5]);
}

#[test]
fn level_zero_leaves_data_unchanged() {
    let w = Wavelet::new_orthogonal(&[1, 2, 3, 4], 2);
    for op in [Operation::Forward, Operation::Inverse] {
        let mut data = vec![9, -4, 17];
        w.transform(&mut data, op, 0);
        assert_eq!(data, vec![9, -4, 17]);
    }
}

#[test]
fn empty_signal_stays_empty() {
    let w = unit_pair();
    let mut data: Vec<i64> = vec![];
    w.transform(&mut data, Operation::Forward, 3);
    assert!(data.is_empty());
}

#[test]
fn repeated_runs_agree() {
    let w = Wavelet::new_orthogonal(&[3, -1, 4, 1, -5, 9], 2);
    let input: Vec<i64> = (0..16).map(|x| x * x - 7).collect();
    for op in [Operation::Forward, Operation::Inverse] {
        let mut first = input.clone();
        let mut second = input.clone();
        w.transform(&mut first, op, 3);
        w.transform(&mut second, op, 3);
        assert_eq!(first, second);
    }
}

#[test]
fn free_function_matches_method() {
    let w = Wavelet::new_orthogonal(&[2, -3, 5, 7], 1);
    let input: Vec<i64> = vec![4, 8, 15, 16, 23, 42, -1, 0];
    let mut by_method = input.clone();
    let mut by_function = input.clone();
    w.transform(&mut by_method, Operation::Forward, 2);
    transform(&mut by_function, Operation::Forward, &w, 2);
    assert_eq!(by_method, by_function);
}

#[test]
fn haar_shaped_bank_gives_sum_and_difference() {
    let w = Wavelet {
        offset: 0,
        dec_lo: vec![1, 1],
        dec_hi: vec![1, -1],
        rec_lo: vec![1, 1],
        rec_hi: vec![1, -1],
    };
    let mut data = vec![11, 4];
    transform(&mut data, Operation::Forward, &w, 1);
    assert_eq!(data, vec![15, 7]);
}
