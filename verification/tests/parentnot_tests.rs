use gorilla_skew::parentnot::{
    continuous_subvectors, decisionvec_to_rangevec, is_contiguous,
    longest_continuous_f_subvector_from_index, rangevec_to_parenthetical_string,
    sample_decision_vec_1, stringvec_to_usizevec, usize_to_choice_vector,
};

#[test]
fn test_decisionvec_to_rangevec() {
    let v2 = sample_decision_vec_1();
    let x = decisionvec_to_rangevec(v2);
    let sol: Vec<(usize, usize)> = vec![(0, 2), (7, 8), (15, 17)];
    assert_eq!(sol, x);
}

#[test]
fn test_rangevec_to_parenthetical_string() {
    let v2 = sample_decision_vec_1();
    let x = decisionvec_to_rangevec(v2.clone());
    let q = stringvec_to_usizevec(v2.clone());
    let res: String = rangevec_to_parenthetical_string(q.clone(), x.clone());
    assert_eq!(res, "(0_1_2)4_(7_8)(15_16_17)19".to_string());

    let res2: String = rangevec_to_parenthetical_string(q.clone(), Vec::new());
    assert_eq!(res2, "0_1_2_4_7_8_15_16_17_19".to_string());
}

#[test]
fn usize_to_choice_vector_counts_up() {
    assert_eq!(usize_to_choice_vector(3), vec!["0", "1", "2"]);
    assert!(usize_to_choice_vector(0).is_empty());
}

#[test]
fn stringvec_to_usizevec_accepts_a_plus_sign() {
    assert_eq!(stringvec_to_usizevec(vec!["+12".to_string(), "007".to_string()]), vec![12, 7]);
}

#[test]
fn continuous_subvectors_keeps_runs_of_two_or_more() {
    assert_eq!(continuous_subvectors(vec![1, 2, 4, 6, 7, 8]), vec![(1, 2), (6, 8)]);
    assert!(continuous_subvectors(vec![3]).is_empty());
    assert!(continuous_subvectors(vec![]).is_empty());
    assert!(continuous_subvectors(vec![2, 2, 2]).is_empty());
}

#[test]
fn is_contiguous_compares_with_the_previous_element() {
    let v = vec![3, 4, 6];
    assert!(is_contiguous(&v, 0));
    assert!(is_contiguous(&v, 1));
    assert!(!is_contiguous(&v, 2));
}

#[test]
fn longest_run_from_an_index() {
    let v = vec![3, 4, 5, 9];
    let (run, next) = longest_continuous_f_subvector_from_index(&v, 0, is_contiguous);
    assert_eq!(run, vec![3, 4, 5]);
    assert_eq!(next, 3);
}

#[test]
fn parenthetical_string_edge_cases() {
    assert_eq!(rangevec_to_parenthetical_string(vec![], vec![(0, 1)]), "");
    // a range that closes on the final element keeps its parenthesis
    assert_eq!(rangevec_to_parenthetical_string(vec![5], vec![(5, 5)]), "(5)");
    assert_eq!(rangevec_to_parenthetical_string(vec![0, 1], vec![(0, 1)]), "(0_1)");
    assert_eq!(rangevec_to_parenthetical_string(vec![3, 0, 1], vec![(0, 1)]), "3_(0_1)");
}

#[test]
fn placed_ranges_come_out_balanced() {
    let c: Vec<usize> = vec![0, 1, 2, 4, 7, 8, 15, 16, 17, 19];
    let q = continuous_subvectors(c.clone());
    let p = rangevec_to_parenthetical_string(c, q.clone());
    assert_eq!(p, "(0_1_2)4_(7_8)(15_16_17)19");
    assert_eq!(p.matches('(').count(), q.len());
    assert_eq!(p.matches(')').count(), q.len());
    let single = rangevec_to_parenthetical_string(vec![2, 5, 9], vec![(5, 5), (9, 9)]);
    assert_eq!(single, "2_(5)(9)");
    assert_eq!(single.matches('(').count(), 2);
    assert_eq!(single.matches(')').count(), 2);
}
