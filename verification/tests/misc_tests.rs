use gorilla_skew::gorillajh::empty_GorillaHyp;
use gorilla_skew::mat2sort::{
    apply_shuffle_map_arr1, apply_shuffle_map_arr2, arr2_shuffle_map, vec_in_arr2, vec_to_arr2,
};
use gorilla_skew::vcsv::{batch_step, begin_batch, end_batch, LineRead};

#[test]
fn hypotheses_collect_labels() {
    let mut h = empty_GorillaHyp();
    h.add_sample(None, Some(3));
    h.add_sample(Some(vec![1, 2]), None);
    h.add_sample(None, Some(0));
    assert_eq!(h.y1, vec![3, 0]);
    assert_eq!(h.yn, vec![vec![1, 2]]);
}

#[test]
fn shuffles() {
    assert_eq!(apply_shuffle_map_arr1(vec![10, 20, 30], vec![2, 0, 0]), vec![30, 10, 10]);
    let a = vec![vec![1, 2, 3], vec![4, 5, 6]];
    assert_eq!(apply_shuffle_map_arr2(a.clone(), vec![1, 0], true), vec![vec![4, 5, 6], vec![1, 2, 3]]);
    assert_eq!(apply_shuffle_map_arr2(a.clone(), vec![2, 0], false), vec![vec![3, 6], vec![1, 4]]);
    assert_eq!(vec_to_arr2::<i32>(vec![]), None);
    assert_eq!(vec_to_arr2(a.clone()), Some(a));
}

fn read_all(lines: &[&str], batch_size: usize) -> Vec<Vec<String>> {
    let mut it = lines.iter();
    let mut done = false;
    let mut batches = Vec::new();
    while !done {
        let mut p = begin_batch(done);
        while !p.stopped {
            let ev = match it.next() {
                Some(s) => LineRead::Line(s.to_string()),
                None => LineRead::End,
            };
            batch_step(&mut p, ev, batch_size);
        }
        let (b, d) = end_batch(p, batch_size);
        done = d;
        batches.push(b);
    }
    batches
}

#[test]
fn batches_of_lines() {
    let b = read_all(&["1_2", "3_4", "5_6", "7_8"], 2);
    // two full batches, then an empty one that marks the end
    assert_eq!(b.len(), 3);
    assert_eq!(b[0], vec!["1_2".to_string(), "3_4".to_string()]);
    assert!(b[2].is_empty());
    let c = read_all(&["a", "b", "c"], 2);
    assert_eq!(c.len(), 2);
    assert_eq!(c[1], vec!["c".to_string()]);
    let mut p = begin_batch(false);
    batch_step(&mut p, LineRead::Failed, 2);
    assert!(p.stopped && p.done);
    let (v, d) = end_batch(p, 2);
    assert!(v.is_empty() && d);
}

#[test]
fn lines_found_in_matrices() {
    let a = vec![vec![1, 2], vec![3, 4]];
    assert_eq!(vec_in_arr2(a.clone(), vec![3, 4], true), Some(1));
    assert_eq!(vec_in_arr2(a.clone(), vec![2, 4], false), Some(1));
    assert_eq!(vec_in_arr2(a.clone(), vec![4, 3], true), None);
    let b = vec![vec![3, 4], vec![1, 2]];
    assert_eq!(arr2_shuffle_map(a, b), vec![1, 0]);
}
