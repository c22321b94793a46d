use gorilla_skew::ns::{Si32, RN};
use gorilla_skew::std_rng::{
    char_from_index, point_from_draw, random_char_in_range, random_i32_in_range,
};
use gorilla_skew::vreducer::{
    add_direction, body_schedule, check_directions, current_switch, sample_vred_adder_skew,
    sample_vred_multer_skew,
};

#[test]
fn sample_skews() {
    let a = sample_vred_adder_skew(-4, 3);
    assert_eq!(a.to_string(), "skalos 3+-4");
    assert_eq!(a.sk.skew_size, 4);
    let m = sample_vred_multer_skew(6);
    assert_eq!(m.to_string(), "skalos 1*6");
}

#[test]
fn body_runs_alternate() {
    // functions 0..2, then skews 0..1, then the remaining functions
    let s = body_schedule(0, &vec![0, 2, 3], 3, 1);
    assert_eq!(s, vec![(0, 0), (0, 1), (1, 0), (0, 2)]);
    // starting with skews, no direction after the first: all skews
    assert_eq!(body_schedule(1, &vec![0], 3, 2), vec![(1, 0), (1, 1)]);
    assert_eq!(body_schedule(0, &vec![], 2, 0), vec![(0, 0), (0, 1)]);
}

#[test]
fn directions_checked_against_sizes() {
    assert!(check_directions(0, &vec![0, 2, 3], 3, 4));
    assert!(!check_directions(0, &vec![0, 3], 3, 4));
    assert!(!check_directions(1, &vec![0, 1, 3], 5, 1));
    assert_eq!(current_switch(0, 3), 0);
    assert_eq!(current_switch(1, 3), 1);
    let mut d = vec![0, 2];
    add_direction(0, &mut d, 5);
    assert_eq!(d, vec![0, 2, 5]);
    add_direction(0, &mut d, 6);
    assert_eq!(d, vec![0, 2, 5]);
}

#[test]
fn random_values_stay_in_range() {
    for _ in 0..200 {
        let x = random_i32_in_range((-3, 7));
        assert!(-3 <= x && x <= 7);
        let y = random_i32_in_range((5, 1));
        assert!(1 <= y && y <= 5);
        let c = random_char_in_range();
        assert!(c.is_ascii_uppercase() || ('b'..='|').contains(&c));
    }
    let mut s = Si32 { r: (10, 12) };
    for _ in 0..50 {
        let v = s.r_next();
        assert!((10..=12).contains(&v));
    }
    assert_eq!(random_i32_in_range((4, 4)), 4);
}

#[test]
fn draws_map_to_points_in_range() {
    assert_eq!(point_from_draw((0, 10), 0), 0);
    // the largest draw lies just below the upper bound and rounds onto it
    assert_eq!(point_from_draw((0, 10), u32::MAX), 10);
    // half way: 2^31 >> 8 = 2^23, a fraction of one half
    assert_eq!(point_from_draw((0, 10), 1 << 31), 5);
    assert_eq!(point_from_draw((0, 3), 1 << 31), 2);
    assert_eq!(point_from_draw((0, -3), 1 << 31), -2);
    assert_eq!(point_from_draw((7, 1), 0), 7);
}

#[test]
fn indices_map_to_letters() {
    assert_eq!(char_from_index(0), 'A');
    assert_eq!(char_from_index(25), 'Z');
    assert_eq!(char_from_index(26), 'b');
    assert_eq!(char_from_index(50), 'z');
    assert_eq!(char_from_index(51), '{');
    assert_eq!(char_from_index(52), '|');
}
