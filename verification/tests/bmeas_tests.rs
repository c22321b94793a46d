use gorilla_skew::bmeas::{
    abs_arr1_bdistance, bounded_cheapest_add_target_i32_, calibrate_arr1_i32_in_bounds,
    pos_neg_add_vecs_target_i32, test_sample_bmeas_info_2,
};

#[test]
fn test_pos_neg_add_vecs_target_i32() {
    let (x, b, l) = test_sample_bmeas_info_2();
    let (pv, nv) = pos_neg_add_vecs_target_i32(x.clone(), b, l);
    assert_eq!(pv, vec![59, 380, 368, 166]);
    assert_eq!(nv, vec![-361, -40, -52, -254]);
}

#[test]
fn test_bounded_cheapest_add_target_i32_() {
    let (x, b, l) = test_sample_bmeas_info_2();
    let c2 = bounded_cheapest_add_target_i32_(x.clone(), b, l);
    let sum: Vec<i32> = x.iter().zip(c2.iter()).map(|(a, c)| a + c).collect();
    let x4 = calibrate_arr1_i32_in_bounds(sum, b);
    assert_eq!(0, abs_arr1_bdistance(x4, l, b));
}

#[test]
fn calibration_wraps_around_the_bounds() {
    let b = (0, 10);
    assert_eq!(calibrate_arr1_i32_in_bounds(vec![5, 0, 10, 13, -3, 25, -20, 20], b), vec![5, 0, 10, 3, 7, 5, -20, 20]);
    // a point bound leaves values in it as they are
    assert_eq!(calibrate_arr1_i32_in_bounds(vec![4, 4], (4, 4)), vec![4, 4]);
}

#[test]
fn bounded_distances() {
    // forward 2, or around: 10 - 7 + 5 - 0 = 8; the shorter forward way wins
    assert_eq!(abs_arr1_bdistance(vec![5], 7, (0, 10)), 2);
    // forward 8 or around 2: the way around, signed negative
    assert_eq!(abs_arr1_bdistance(vec![1], 9, (0, 10)), 2);
    assert_eq!(abs_arr1_bdistance(vec![1, 5, 9], 9, (0, 10)), 2 + 4 + 0);
    assert_eq!(abs_arr1_bdistance(vec![], 3, (0, 10)), 0);
}

#[test]
fn cheapest_add_picks_smaller_magnitude() {
    assert_eq!(bounded_cheapest_add_target_i32_(vec![1, 9, 5], (0, 10), 5), vec![4, -4, 0]);
    assert_eq!(bounded_cheapest_add_target_i32_(vec![9], (0, 10), 2), vec![3]);
}
