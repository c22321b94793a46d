use gorilla_skew::btchcorrctrc::{
    afactor_test_case_1, batch_5_a_refactor__10__soln, i32_pair_cmp1, m_refactor_skew_batch_type_a,
    mfactor_test_case_1, min_max_mean_of_skew_batch_type_a, multiple_on_reference_at_capacity,
    refactor_skew_batch_type_a, scale_skewf32_batch_type_a, skew_to_skewf32_batch_type_a,
    type_a_skew,
};
use gorilla_skew::seqe::{check_skew, skew_search_ordering, skew_vector_pair_case_1, skew_vector_pair_case_2};
use gorilla_skew::skew::{build_skew, Skew};
use gorilla_skew::skewf32::SkewF32;
use std::cmp::Ordering;

fn skew_size_f32(x: &SkewF32) -> f32 {
    let d = i32::pow(10, x.s as u32) as f32;
    x.sk.skew_size as f32 / d
}

#[test]
fn test_Skew_skew_value() {
    let x1: i32 = 2;
    let x2: i32 = 4;
    let ordering: Vec<usize> = vec![0, 1];
    let mut s: Skew = build_skew(Some(x1), Some(x2), None, None, ordering, None);
    let v: Vec<i32> = vec![0, 1, 2, 5];
    let r: Vec<i32> = s.skew_value(v);
    let v2: Vec<i32> = vec![8, 12, 16, 28];
    assert_eq!(r, v2);
}

#[test]
fn test__GorillaIns__scale_skewf32_batch_type_a() {
    let ta = afactor_test_case_1();
    let ps: f32 = ta.iter().map(skew_size_f32).sum::<f32>();
    assert!(ps > 0.0);
    let (ta2, _k) = scale_skewf32_batch_type_a(ta.clone());
    assert_eq!(ta2[0].to_string(), "+[1000, 1200, 2400, 1600, 4800]".to_string());
    assert_eq!(ta2[1].to_string(), "+[40, 400, 23, -412]".to_string());
    assert_eq!(ta2[2].to_string(), "+[130000, 30000, 10000, -230000, 200000]".to_string());
}

#[test]
fn test__GorillaIns__refactor_skew_batch_type_a() {
    let ta = afactor_test_case_1();
    let ps: f32 = ta.iter().map(skew_size_f32).sum::<f32>();
    let (ta2, k) = scale_skewf32_batch_type_a(ta.clone());

    let h1_ = build_skew(Some(400), None, None, None, vec![0], None);
    let _h1 = SkewF32 { sk: h1_.clone(), s: k };
    let (vsk, _) = refactor_skew_batch_type_a(h1_.clone(), ta2);
    let _vs: Vec<usize> = ta.into_iter().map(|x| x.s).collect();
    let sfv = skew_to_skewf32_batch_type_a(vsk, k);
    let ps2: f32 = sfv.iter().map(skew_size_f32).sum::<f32>();
    assert!(ps2 < ps);
}

#[test]
fn skew_text_and_size() {
    let s = build_skew(Some(2), Some(4), None, None, vec![0, 1], None);
    assert_eq!(s.to_string(), "+2*4");
    assert_eq!(s.skew_size, 6);
    let s2 = build_skew(None, Some(3), Some(vec![1, -1, 2]), None, vec![1, 2], None);
    assert_eq!(s2.to_string(), "*3+[1, -1, 2]");
    assert_eq!(s2.skew_size, 7);
    let s3 = build_skew(Some(-7), None, None, Some(vec![]), vec![3, 0], None);
    assert_eq!(s3.to_string(), "*[]+-7");
    let f = SkewF32 { sk: build_skew(Some(23), None, None, None, vec![0], None), s: 5 };
    assert_eq!(f.to_string(), "skalos 5+23");
}

#[test]
fn long_vectors_display_elided() {
    let v: Vec<i32> = (0..600).collect();
    let s = build_skew(None, None, Some(v), None, vec![2], None);
    assert_eq!(s.to_string(), "+[0, 1, 2, 3, 4, ..., 595, 596, 597, 598, 599]");
}

#[test]
fn skew_apply_each_element() {
    let mut s = build_skew(Some(1), Some(-2), Some(vec![1, 2, 3]), Some(vec![2, 0, -1]), vec![2, 3, 0, 1], None);
    assert_eq!(s.apply_at(vec![1, 1, 1], 0), vec![2, 3, 4]);
    assert_eq!(s.apply_at(vec![1, 2, 3], 1), vec![2, 0, -3]);
    assert_eq!(s.apply_at(vec![1, 2, 3], 2), vec![2, 3, 4]);
    assert_eq!(s.apply_at(vec![1, 2, 3], 3), vec![-2, -4, -6]);
    assert_eq!(s.skew_value(vec![0, 0, 0]), vec![-6, -2, 4]);
    let mut a = s.active();
    let mut got: Vec<usize> = a.drain().collect();
    got.sort();
    assert_eq!(got, vec![0, 1, 2, 3]);
    let mut e = build_skew(None, Some(5), None, None, vec![1], None);
    let mut got2: Vec<usize> = e.active().into_iter().collect();
    got2.sort();
    assert_eq!(got2, vec![1]);
}

#[test]
fn skew_addition() {
    let a = build_skew(Some(1), None, Some(vec![1, 2]), None, vec![0, 2], None);
    let b = build_skew(Some(2), Some(3), Some(vec![10]), None, vec![1], None);
    let c = a.clone().add(b.clone());
    assert_eq!(c.adder, Some(3));
    assert_eq!(c.multer, Some(3));
    assert_eq!(c.addit, Some(vec![11, 12]));
    assert_eq!(c.multit, None);
    assert_eq!(c.ordering, vec![0, 2]);
    assert_eq!(c.skew_size, 3 + 3 + 23);
    let d = b.add(a);
    assert_eq!(d.adder, c.adder);
    assert_eq!(d.multer, c.multer);
    assert_eq!(d.addit, c.addit);
    assert_eq!(d.ordering, vec![1]);
    let empty = build_skew(None, None, None, None, vec![], None);
    let e = empty.add(build_skew(Some(4), None, None, None, vec![0], None));
    assert_eq!(e.adder, Some(4));
    assert_eq!(e.skew_size, 4);
}

#[test]
fn check_skew_and_search_orderings() {
    let (v1, v2) = skew_vector_pair_case_1();
    let s = build_skew(None, Some(3), None, None, vec![1], None);
    assert!(check_skew(s.clone(), v1.clone(), v2.clone()));
    let (w1, w2) = skew_vector_pair_case_2();
    assert!(!check_skew(s, w1.clone(), w2.clone()));
    let s2 = build_skew(None, Some(3), Some(vec![1, -1, 2]), None, vec![1, 2], None);
    assert!(check_skew(s2, w1, w2));
    let o = skew_search_ordering();
    assert_eq!(o.len(), 11);
    assert_eq!(o[2], vec![0, 1, 2]);
    assert_eq!(o[10], vec![3]);
}

#[test]
fn pair_comparator_and_capacity() {
    assert_eq!(i32_pair_cmp1(&(5, 1), &(0, 1)), Ordering::Less);
    assert_eq!(i32_pair_cmp1(&(5, 2), &(0, 1)), Ordering::Greater);
    let r = vec![vec![1, 2], vec![10, -3]];
    assert!(multiple_on_reference_at_capacity(r.clone(), 2, 19));
    assert!(!multiple_on_reference_at_capacity(r.clone(), 2, 20));
    assert!(!multiple_on_reference_at_capacity(vec![], 2, 0));
}

#[test]
fn m_refactor_keeps_each_skew_value() {
    let (sb, reference) = mfactor_test_case_1();
    let (mut m, sb2) = m_refactor_skew_batch_type_a(sb.clone(), reference.clone(), 4);
    assert_eq!(m.to_string(), "*4");
    assert_eq!(sb2.len(), 4);
    for i in 0..4 {
        let mut orig = sb[i].clone();
        let mut new = sb2[i].clone();
        let before = orig.skew_value(reference[i].clone());
        let after = new.skew_value(m.skew_value(reference[i].clone()));
        assert_eq!(before, after);
    }
    // [32,20,26,3,81] - ([1,3,4,15,20] * 3) = [29, 11, 14, -42, 21]
    assert_eq!(sb2[0].addit, Some(vec![29, 11, 14, -42, 21]));
    assert_eq!(sb2[0].skew_size, 117);
}

#[test]
fn a_refactor_with_adder() {
    let sb = vec![type_a_skew(vec![410, 400, 390]), type_a_skew(vec![0, 800])];
    let head = build_skew(Some(400), None, None, None, vec![0], None);
    let (sb2, score) = refactor_skew_batch_type_a(head, sb);
    assert_eq!(sb2[0].addit, Some(vec![10, 0, -10]));
    assert_eq!(sb2[1].addit, Some(vec![-400, 400]));
    assert_eq!(score, 20 + 800);
}

#[test]
fn min_max_mean_of_batch() {
    let sb = vec![type_a_skew(vec![5, -2, 9]), type_a_skew(vec![2, -9, 4])];
    // least magnitude: -2 then 2 (the later among equals); greatest: 9 then -9
    assert_eq!(min_max_mean_of_skew_batch_type_a(sb), (2, -9, 2));
    let sb2 = vec![type_a_skew(vec![1, 2]), type_a_skew(vec![])];
    // mean 1.5 rounds to 2
    assert_eq!(min_max_mean_of_skew_batch_type_a(sb2), (1, 2, 2));
    let sb3 = vec![type_a_skew(vec![-1, -2])];
    assert_eq!(min_max_mean_of_skew_batch_type_a(sb3), (-1, -2, -2));
    let sb4 = vec![type_a_skew(vec![])];
    assert_eq!(min_max_mean_of_skew_batch_type_a(sb4), (i32::MAX, 0, 0));
}

#[test]
fn refactor_sample_batch_values() {
    let b = batch_5_a_refactor__10__soln();
    assert_eq!(b.len(), 3);
    assert_eq!(b[1].sk.addit, Some(vec![0, 200000, 800000, 1100000, 0]));
    assert_eq!(b[2].sk.skew_size, 3200000);
    assert_eq!(b[0].s, 5);
}
