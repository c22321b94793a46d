use gorilla_skew::implie::{
    build_ImpSetSource, merged_elements_string, set_source_string_increment, ImpSetSource,
};
use gorilla_skew::ohop::{build_order_of_operator, parse_OrderOfOperator__comma_format};

#[test]
fn test__ImpSetSource_increment() {
    // case 1
    let iss = ImpSetSource { idn: "lussian".to_string(), next_counter: 0, l: 1 };
    let mut iss_ = iss.clone();
    let iss2 = iss_.increment();
    let mut x2 = build_order_of_operator(iss2.idn.clone());
    x2.process();
    let cf = parse_OrderOfOperator__comma_format(&x2);
    assert_eq!(cf, vec!["lussian".to_string(), "lussian".to_string()]);

    // case 2
    let iss3 = iss.add(iss2.clone());
    assert_eq!(iss3.idn, "lussian_lussian(lussian,0)".to_string());
    assert_eq!(3, iss3.l);

    let iss4 = iss2.add(iss3);
    assert_eq!(iss4.idn, "lussian(lussian,0)_lussian_lussian(lussian,0)".to_string());
    assert_eq!(5, iss4.l);
}

#[test]
fn merged_elements_string_joins_letters() {
    let v = vec!["s1".to_string(), "t2".to_string(), "u3".to_string(), "v4".to_string(), "w5".to_string()];
    assert_eq!(merged_elements_string(v), "s_t_u_v_w");
}

#[test]
fn increment_suffix_lists_letters_and_counter() {
    assert_eq!(set_source_string_increment("s1_t2_u3".to_string(), 1), "(s,t,u,1)");
}

#[test]
fn increment_moves_the_counter() {
    let mut s = build_ImpSetSource("ab".to_string());
    let a = s.increment();
    let b = s.increment();
    assert_eq!(a.idn, "ab(ab,0)");
    assert_eq!(b.idn, "ab(ab,1)");
    assert_eq!(s.next_counter, 2);
    assert_eq!(a.l, 2);
}
