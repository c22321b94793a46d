//! Search helpers for skews between two vectors: the orderings tried, a
//! check that a skew maps one vector onto another, and sample vector pairs.
use vstd::prelude::*;
use crate::skew::{Skew, skew_applies, skewed, vec_equal};

verus! {

/// The orderings of skew elements that a search tries, in turn.
pub fn skew_search_ordering() -> (r: Vec<Vec<usize>>)
    ensures
        r.len() == 11,
        r[0]@ == seq![0usize],
        r[1]@ == seq![0usize, 1],
        r[2]@ == seq![0usize, 1, 2],
        r[3]@ == seq![0usize, 2],
        r[4]@ == seq![0usize, 3],
        r[5]@ == seq![1usize],
        r[6]@ == seq![1usize, 0],
        r[7]@ == seq![1usize, 2],
        r[8]@ == seq![1usize, 3],
        r[9]@ == seq![2usize],
        r[10]@ == seq![3usize],
{
    vec![
        vec![0],
        vec![0, 1],
        vec![0, 1, 2],
        vec![0, 2],
        vec![0, 3],
        vec![1],
        vec![1, 0],
        vec![1, 2],
        vec![1, 3],
        vec![2],
        vec![3],
    ]
}

/// Does the skew `s` map `v1` onto `v2`?
pub fn check_skew(s: Skew, v1: Vec<i32>, v2: Vec<i32>) -> (r: bool)
    requires
        s.ordering.len() <= 4,
        skew_applies(s, v1@),
    ensures
        r == (skewed(s, v1@) == v2@),
{
    let mut s = s;
    let w = s.skew_value(v1);
    vec_equal(&w, &v2)
}

/// A chain of skews.
pub struct SkewEncoder {
    pub skewChain: Vec<Skew>,
}

/// The vectors `[5, 7, 9]` and `[15, 21, 27]`.
pub fn skew_vector_pair_case_1() -> (r: (Vec<i32>, Vec<i32>))
    ensures
        r.0@ == seq![5i32, 7, 9],
        r.1@ == seq![15i32, 21, 27],
{
    (vec![5, 7, 9], vec![15, 21, 27])
}

/// The vectors `[5, 7, 9]` and `[16, 20, 29]`.
pub fn skew_vector_pair_case_2() -> (r: (Vec<i32>, Vec<i32>))
    ensures
        r.0@ == seq![5i32, 7, 9],
        r.1@ == seq![16i32, 20, 29],
{
    (vec![5, 7, 9], vec![16, 20, 29])
}

} // verus!
