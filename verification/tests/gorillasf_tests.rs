use gorilla_skew::gorillasf::{euclids_sequence, euclids_sequence_};

#[test]
fn euclid_on_positive_values() {
    // 48 = 2 * 18 + 12, 18 = 1 * 12 + 6, 12 = 2 * 6 + 0
    let (c, a) = euclids_sequence(18, 48);
    assert_eq!(c, vec![2, 1, 2]);
    assert_eq!(a, vec![12, 6, 0]);
}

#[test]
fn euclid_stops_on_zero_multiple() {
    let (c, a) = euclids_sequence(50, 7);
    assert_eq!(c, vec![0]);
    assert_eq!(a, vec![7]);
}

#[test]
fn euclid_truncates_toward_zero() {
    // -7 = -2 * 3 + -1, 3 = -3 * -1 + 0
    let (c, a) = euclids_sequence(3, -7);
    assert_eq!(c, vec![-2, -3]);
    assert_eq!(a, vec![-1, 0]);
    let v = euclids_sequence_(vec![18, 48]);
    assert_eq!(v, vec![vec![2, 1, 2], vec![12, 6, 0]]);
}
