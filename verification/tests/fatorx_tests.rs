use gorilla_skew::fatorx::{
    max_satisfying_mult_additive_for_vec, sample_arr1_pair_1, sample_arr1_pair_3,
    closest_i32_to_median, factors_for_vec, factors_of_i32, factors_of_usize, gcf_add4mult_vec,
    gcf_for_vec, cheapest_add_vec, intersection_set_for_hashsetvec, is_factor_for_vec,
    median_of_iterable, median_of_iterable_, neg_double_vec, ranked_mult_additive_for_vec,
    ranked_additives_for_factors, ranked_mult_additives_for_i32, sort_by_distance_to_median,
};
use std::collections::{HashMap, HashSet};

/// The strings of `h`, sorted, joined by `_`.
fn stringized_srted_hash(h: HashSet<String>) -> String {
    let mut v: Vec<String> = h.into_iter().collect();
    v.sort();
    v.join("_")
}

#[test]
fn test_factors_for_vec() {
    let sol: Vec<String> = vec![
        "1_10_2_20_4_5".to_string(),
        "1_10_15_2_3_30_5_6".to_string(),
        "1_10_2_20_4_40_5_8".to_string(),
        "1_15_25_3_5_75".to_string(),
        "1_11_2_22_4_44_8_88".to_string(),
    ];
    let x: Vec<i32> = vec![20, 30, 40, 75, 88];
    let x2: Vec<HashSet<i32>> = factors_for_vec(x.clone());
    for (i, x_) in x2.iter().enumerate() {
        let x2_: HashSet<String> = x_.into_iter().map(|x| x.to_string()).collect();
        assert_eq!(stringized_srted_hash(x2_), sol[i]);
    }
}

#[test]
fn test_intersection_set_for_hashsetvec() {
    let x: Vec<i32> = vec![20, 30, 40, 75, 88];
    let x2: Vec<HashSet<i32>> = factors_for_vec(x.clone());
    let q: HashSet<i32> = intersection_set_for_hashsetvec(x2);
    let y: String = stringized_srted_hash(q.into_iter().map(|x| x.to_string()).collect());
    assert_eq!("1".to_string(), y);
}

#[test]
fn test_gcf_for_vec() {
    let x: Vec<i32> = vec![20, 30, 40, 75, 88];
    let y: i32 = gcf_for_vec(x.clone());
    assert_eq!(1, y);

    let x2: Vec<i32> = vec![8, 16, 40, 36, 88];
    let y2: i32 = gcf_for_vec(x2.clone());
    assert_eq!(4, y2);
}

#[test]
fn test_factors_of_usize() {
    let mut q: HashSet<usize> = factors_of_usize(30);
    let mut q2: HashSet<String> = q.iter().map(|y| y.to_string()).collect();
    let s = stringized_srted_hash(q2);
    let sol1 = "1_10_15_2_3_30_5_6".to_string();
    assert_eq!(sol1, s);

    q = factors_of_usize(60);
    q2 = q.iter().map(|y| y.to_string()).collect();
    let s2 = stringized_srted_hash(q2);
    let sol2 = "1_10_12_15_2_20_3_30_4_5_6_60".to_string();
    assert_eq!(sol2, s2);
}

#[test]
fn test_cheapest_add_vec() {
    let (v1, v2) = sample_arr1_pair_1();
    let cmv = cheapest_add_vec(v1.clone(), v2.clone());
    assert_eq!(cmv, vec![6, 8, 40, 171]);
}

#[test]
fn test_closest_i32_to_median() {
    let a: Vec<i32> = vec![-2, -2, 1, 1, 1, 4, 4, 4, 4, 5, 5, 6, 6];
    let x: i32 = closest_i32_to_median(a);
    assert_eq!(x, 4);
}

#[test]
fn test_sort_by_distance_to_median() {
    let v: Vec<usize> = vec![0, 0, 0, 0, 2, 2, 2, 3, 3, 4, 4, 4, 4, 4, 5, 5, 5, 5, 5, 5, 5];
    let vm: Vec<usize> = sort_by_distance_to_median(v);
    assert_eq!(vm, vec![4, 4, 4, 3, 4, 3, 4, 2, 5, 2, 5, 2, 5, 0, 5, 0, 5, 0, 5, 0, 5]);
}

#[test]
fn test_ranked_mult_additive_for_vec() {
    let (a, a2) = sample_arr1_pair_3();
    let b: Vec<Vec<i32>> = ranked_mult_additive_for_vec(a.clone(), a2.clone());
    let mut data: HashMap<String, i32> = HashMap::new();
    for b_ in b.into_iter() {
        for x in b_.into_iter() {
            *data.entry(x.to_string()).or_insert(0) += 1;
        }
    }
    let m: HashMap<String, i32> = HashMap::from_iter([
        ("-9".to_string(), 2),
        ("-6".to_string(), 1),
        ("-11".to_string(), 1),
        ("-10".to_string(), 1),
        ("-7".to_string(), 1),
        ("-4".to_string(), 1),
        ("-8".to_string(), 1),
        ("-12".to_string(), 2),
    ]);
    assert_eq!(data, m);
}

#[test]
fn factors_of_small_values_are_empty() {
    assert!(factors_of_usize(0).is_empty());
    assert!(factors_of_usize(1).is_empty());
    let f2: HashSet<usize> = factors_of_usize(2);
    assert_eq!(f2, HashSet::from([1, 2]));
}

#[test]
fn factors_of_negative_i32_hold_both_signs() {
    let f = factors_of_i32(-6);
    assert_eq!(f, HashSet::from([1, -1, 2, -2, 3, -3, 6, -6]));
    assert!(factors_of_i32(-1).is_empty());
}

#[test]
fn is_factor_for_vec_checks_every_element() {
    assert!(is_factor_for_vec(vec![4, -8, 12], 4));
    assert!(is_factor_for_vec(vec![4, -8, 12], -2));
    assert!(!is_factor_for_vec(vec![4, -8, 13], 4));
}

#[test]
fn gcf_of_one_element_is_its_absolute_value() {
    assert_eq!(gcf_for_vec(vec![-12]), 12);
    assert_eq!(gcf_for_vec(vec![7]), 7);
}

#[test]
fn gcf_is_bounded_by_the_smallest_gap() {
    // the gap 0 between the equal elements leaves only 1
    assert_eq!(gcf_for_vec(vec![6, 6]), 1);
    assert_eq!(gcf_for_vec(vec![6, 12, 18]), 6);
}

#[test]
fn gcf_add4mult_vec_subtracts_from_the_factor() {
    assert_eq!(gcf_add4mult_vec(vec![1, 5, 9], vec![6, 12, 18]), vec![5, 1, -3]);
}

#[test]
fn cheapest_add_vec_broadcasts_a_single_element() {
    assert_eq!(cheapest_add_vec(vec![1], vec![5, 6, 7]), vec![4, 5, 6]);
}

#[test]
fn median_of_iterable_picks_the_middle() {
    assert_eq!(median_of_iterable(vec![1, 2, 3]), (2, None));
    assert_eq!(median_of_iterable(vec![1, 2, 3, 4]), (2, Some(3)));
    assert_eq!(median_of_iterable_(vec!['a', 'b', 'c', 'd']), (1, Some(2)));
    assert_eq!(median_of_iterable_(vec!['a']), (0, None));
}

#[test]
fn neg_double_vec_interleaves_negations() {
    assert_eq!(neg_double_vec(vec![1, 5]), vec![1, -1, 5, -5]);
}

#[test]
fn ranked_mult_additives_of_prime() {
    let mut r = ranked_mult_additives_for_i32(7, 1);
    r.sort();
    assert_eq!(r, vec![-8, -2, 0, 6]);
}

#[test]
fn test_max_satisfying_mult_additive_for_vec() {
    let (a, a2): (Vec<i32>, Vec<i32>) = sample_arr1_pair_3();
    let i: i32 = max_satisfying_mult_additive_for_vec(a.clone(), a2.clone());
    assert!(i == -12 || i == -9);
}

#[test]
fn most_shared_additive_of_one_row() {
    // one row: each of the six additives occurs once, and one of them is chosen
    let i = max_satisfying_mult_additive_for_vec(vec![4], vec![0]);
    assert!([1, -1, 2, -2, 4, -4].contains(&i));
}

#[test]
fn additives_follow_the_factor_listing() {
    assert_eq!(ranked_additives_for_factors(vec![1, 7], 1), vec![-2, 6, 0, -8]);
    assert_eq!(ranked_additives_for_factors(vec![7, 1], 1), vec![-8, 0, 6, -2]);
    assert_eq!(ranked_additives_for_factors(vec![], 3), Vec::<i32>::new());
}

#[test]
fn ties_go_to_the_first_value_in_row_order() {
    // The rows hold 0, -2, 2, -4 and 0, -2, 4, -6, in an order that follows the
    // factor set; 0 and -2 each occur twice, and the one met first is returned.
    let r = max_satisfying_mult_additive_for_vec(vec![3, 5], vec![1, 1]);
    assert!(r == 0 || r == -2);
}
