use gorilla_skew::seq_encoder::{build_index_fraction_notation, FloorDiv};

#[test]
fn test_FloorDiv_value() {
    let mut x = FloorDiv { t: Some(3), b: 4, m: 1 };
    let mut x2 = FloorDiv { t: None, b: 4, m: 1 };
    let mut x3 = FloorDiv { t: None, b: 4, m: 4 };

    assert_eq!(0, x.value(8));
    assert_eq!(0, x.value(10));
    assert_eq!(0, x.value(1002));

    assert_eq!(2, x2.value(8));
    assert_eq!(2, x2.value(10));
    assert_eq!(250, x2.value(1002));

    assert_eq!(1000, x3.value(1002));
}

#[test]
fn test_IndexFractionNotation_output() {
    // case 1
    let q = vec![0, 5, 6, 8, 11, 14];
    let mut ifn = build_index_fraction_notation(q.clone());
    ifn.process();
    for i in 0..6 {
        let j = ifn.output(i);
        let g = q[i as usize];
        assert_eq!(j, g);
    }

    // case 2
    let q2 = vec![-3, 14, 7, 10, 18];
    let ans2 = vec![-3, 14, 7, 10, 18, 35, 14];
    let mut ifn2 = build_index_fraction_notation(q2.clone());
    ifn2.process();
    for i in 0..7 {
        let j = ifn2.output(i);
        let g = ans2[i as usize];
        assert_eq!(j, g);
    }

    // case 3
    let q3 = vec![5, 5, 5, 5, 5];
    let ans3 = vec![5, 5, 5, 5, 5, 5, 5];
    let mut ifn3 = build_index_fraction_notation(q3.clone());
    ifn3.process();
    for i in 0..7 {
        let j = ifn3.output(i);
        let g = ans3[i as usize];
        assert_eq!(j, g);
    }
}

#[test]
fn floordiv_rounds_down_and_truncates() {
    let mut down = FloorDiv { t: None, b: 4, m: 1 };
    assert_eq!(down.value(-1), -1);
    assert_eq!(down.value(-4), -1);
    assert_eq!(down.value(-5), -2);
    let mut neg = FloorDiv { t: None, b: -4, m: 1 };
    assert_eq!(neg.value(1), -1);
    assert_eq!(neg.value(-8), 2);
    let mut trunc = FloorDiv { t: Some(-7), b: 2, m: 3 };
    assert_eq!(trunc.value(100), -9);
}

#[test]
fn floordiv_by_zero_saturates() {
    let mut a = FloorDiv { t: None, b: 0, m: 1 };
    assert_eq!(a.value(5), i32::MAX);
    assert_eq!(a.value(-5), i32::MIN);
    assert_eq!(a.value(0), 0);
    let mut b = FloorDiv { t: Some(-2), b: 0, m: 1 };
    assert_eq!(b.value(7), i32::MIN);
}

#[test]
fn fresh_encoder_outputs_index_and_process_is_exact() {
    let mut e = build_index_fraction_notation(vec![]);
    assert_eq!(e.output(7), 7);
    let v = vec![4, -2, 9, 9, 0, 13];
    let mut e2 = build_index_fraction_notation(v.clone());
    e2.process();
    for i in 0..v.len() {
        assert_eq!(e2.output(i as i32), v[i]);
    }
    let mut d = e2.divs[0].clone();
    assert_eq!(d.t, Some(4));
    assert!(e2.get_floordiv(3, 0).is_none());
}
