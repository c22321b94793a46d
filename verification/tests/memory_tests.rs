use gorilla_skew::costillo::{build_Costillo, build_CostilloT};
use gorilla_skew::i_mem::{build_contrastruct, build_one_imem};
use std::collections::HashSet;

#[test]
fn contradictions_filtered_by_identifier() {
    let mut m = build_one_imem::<f32>();
    m.add_contradiction(build_contrastruct(vec![0, 1], Some(1.5), None));
    m.add_contradiction(build_contrastruct(vec![0, 2], Some(2.5), Some(3.0)));
    m.add_contradiction(build_contrastruct(vec![1, 2], None, Some(4.0)));
    let at0 = m.contrastructs_at_ii(vec![Some(0), None]);
    assert_eq!(at0.len(), 2);
    assert_eq!(at0[0].index_identifier, vec![0, 1]);
    assert_eq!(at0[1].expected, Some(2.5));
    let at2 = m.contrastructs_at_ii(vec![None, Some(2)]);
    assert_eq!(at2.len(), 2);
    assert_eq!(at2[1].got, Some(4.0));
    assert_eq!(m.contrastructs_at_ii(vec![]).len(), 3);
    assert_eq!(m.contrastructs_at_ii(vec![Some(5)]).len(), 0);
}

#[test]
fn solution_log_differences() {
    let mut m = build_one_imem::<i32>();
    m.add_soln(vec![Some(1), None, Some(3)]);
    m.add_soln(vec![None, Some(2), Some(3)]);
    assert_eq!(m.soln_log.len(), 2);
    let known = |v: &Vec<Option<i32>>| -> HashSet<usize> {
        (0..v.len()).filter(|i| v[*i].is_some()).collect()
    };
    let (d1, d2) = m.timestamp_differences(0, 1, known);
    assert_eq!(d1, HashSet::from([0]));
    assert_eq!(d2, HashSet::from([1]));
}

#[test]
fn costillo_updates_and_clears() {
    let mut c = build_Costillo(vec![Some(1), None, Some(3), None], vec![None, Some(20), None, Some(40)]);
    assert_eq!(c.xs[2].index_identifier, vec![1, 0]);
    assert_eq!(c.i_to_index((1, 1)), 3);
    c.mod_i((0, 1), Some(7), None);
    assert_eq!(c.xs[1].expected, Some(7));
    assert_eq!(c.xs[1].got, Some(20));
    c.clear_i((0, 1), (0, 1));
    assert_eq!(c.xs[1].expected, Some(7));
    assert_eq!(c.xs[1].got, None);
    c.clear_i((1, 0), (1, 1));
    assert_eq!(c.xs[2].expected, None);
    assert_eq!(c.xs[2].index_identifier, vec![1, 0]);
}

#[test]
fn costillo_table_cells() {
    let cells: Vec<_> = (0..6)
        .map(|k| build_Costillo(vec![Some(k); 4], vec![None; 4]))
        .collect();
    let mut t = build_CostilloT(cells, (2, 3));
    t.mod_i((1, 2, 1, 1), None, Some(99));
    t.clear_i((0, 1, 0, 0), (1, 0));
}
