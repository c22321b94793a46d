use gorilla_skew::ohop::{
    build_order_of_operator, default_branch_identifier_seed, default_function_identifier_seed,
    is_branch_identifier, next_element, parse_OrderOfOperator__comma_format,
    sample_OrderOfOperator_soln1, sample_OrderOfOperator_soln2, sample_OrderOfOperator_soln3,
    str_alphabebetical_filter, Inc1String, StrMap,
};
use std::collections::HashMap;

/// The map that the insertions of `m` leave.
fn as_hashmap(m: &StrMap) -> HashMap<String, String> {
    let mut h = HashMap::new();
    for (k, v) in m.entries.iter() {
        h.insert(k.clone(), v.clone());
    }
    h
}

#[test]
fn test_OrderOfOperator_process() {
    // sample 1
    let mut x = build_order_of_operator("5(6_7)".to_string());
    x.process();
    let (vs, bi) = sample_OrderOfOperator_soln1();
    assert_eq!(x.branches, vs);
    assert_eq!(as_hashmap(&x.branch_identifiers), as_hashmap(&bi));

    // sample 2
    let mut x2 = build_order_of_operator("(8_5_1(2_3))(4(5_6)7)".to_string());
    x2.process();
    let (vs2, bi2) = sample_OrderOfOperator_soln2();
    assert_eq!(x2.branches, vs2);
    assert_eq!(as_hashmap(&x2.branch_identifiers), as_hashmap(&bi2));

    // sample 3
    let mut x3 = build_order_of_operator("(8_5_1(2_3))4(5_6)7".to_string());
    x3.process();
    let (vs3, bi3) = sample_OrderOfOperator_soln3();
    assert_eq!(x3.branches, vs3);
    assert_eq!(as_hashmap(&x3.branch_identifiers), as_hashmap(&bi3));

    // test equality of samples 4,5
    let x4 = build_order_of_operator("5_6".to_string());
    let x5 = build_order_of_operator("(5_6)".to_string());
    assert_eq!(x4.branches, x5.branches);
    assert_eq!(as_hashmap(&x4.branch_identifiers), as_hashmap(&x5.branch_identifiers));
}

#[test]
fn seeds_are_fixed() {
    assert_eq!(default_branch_identifier_seed(), "XX5A");
    assert_eq!(default_function_identifier_seed(), "YY67Z");
}

#[test]
fn branch_identifiers_start_with_the_seed() {
    assert!(is_branch_identifier("XX5A".to_string()));
    assert!(is_branch_identifier("XX5A_7".to_string()));
    assert!(!is_branch_identifier("XX5B".to_string()));
    assert!(!is_branch_identifier("XX5".to_string()));
}

#[test]
fn next_element_stops_at_delimiters() {
    assert_eq!(next_element("ab_c".to_string(), 0), Some(("ab".to_string(), 2)));
    assert_eq!(next_element("ab(c".to_string(), 3), Some(("c".to_string(), 4)));
    assert_eq!(next_element("(ab".to_string(), 0), None);
    assert_eq!(next_element("ab".to_string(), 5), None);
}

#[test]
fn inc_hands_out_successive_identifiers() {
    let mut s = Inc1String { value: "XX5Y".to_string() };
    assert_eq!(s.inc_(), "XX5Y");
    assert_eq!(s.inc_(), "XX5Z");
    assert_eq!(s.inc_(), "XX5ZA");
    assert_eq!(s.value, "XX5ZB");
}

#[test]
fn alphabetical_filter_keeps_letters() {
    assert_eq!(str_alphabebetical_filter("s1_t2,U3".to_string()), "stU");
}

#[test]
fn comma_format_expands_identifiers_once() {
    let mut x = build_order_of_operator("s1_t2(u3)".to_string());
    x.process();
    assert_eq!(parse_OrderOfOperator__comma_format(&x), vec!["s", "t", "u"]);
}

#[test]
fn unmatched_close_is_not_taken() {
    let mut x = build_order_of_operator("5_6".to_string());
    x.process();
    assert_eq!(x.branches, vec!["5_6".to_string()]);
    assert!(as_hashmap(&x.branch_identifiers).is_empty());
}
