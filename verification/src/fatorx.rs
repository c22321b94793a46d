//! Factors, common factors, medians and orderings around the median.
use vstd::prelude::*;
use vstd::arithmetic::div_mod::{
    lemma_div_by_multiple, lemma_fundamental_div_mod, lemma_fundamental_div_mod_converse_mod,
    lemma_mod_multiples_basic, lemma_mod_self_0,
};
use vstd::relations::{sorted_by, total_ordering};
use vstd::std_specs::hash::obeys_key_model;
use std::collections::HashSet;
use std::hash::Hash;
use crate::arrops::{arr_sub, at, broadcast_len, compatible, mul_scalar, sub_scalar, abs_int};

verus! {

broadcast use {vstd::std_specs::hash::group_hash_axioms, vstd::seq_lib::group_to_multiset_ensures};

/// The factors of `v` that `factors_of_usize` reports: every `d` in
/// `1..=v` dividing `v`, for `v >= 2`; none for `0` and `1`.
pub open spec fn factor_set(v: usize) -> Set<usize> {
    Set::new(|d: usize| v >= 2 && 1 <= d <= v && v % d == 0)
}

/// The factors of `v` that `factors_of_i32` reports: those of `|v|` and,
/// for negative `v`, their negations too.
pub open spec fn factors_i32_spec(v: i32) -> Set<i32> {
    if v >= 0 {
        Set::new(|d: i32| v >= 2 && 1 <= d <= v && v % d == 0)
    } else {
        Set::new(|d: i32| v <= -2 && d != 0 && abs_int(d as int) <= -v && (-v) % abs_int(d as int) == 0)
    }
}

/// The factors found before index `i` of the search: those `d` with `d < i`
/// or `v / d < i`.
spec fn found_below(v: usize, i: int) -> Set<usize> {
    Set::new(|d: usize| 1 <= d <= v && v % d == 0 && (d < i || v / d < i))
}

proof fn lemma_divisor_pair(v: int, d: int)
    requires
        v >= 1,
        d >= 1,
        v % d == 0,
    ensures
        d * (v / d) == v,
        1 <= v / d <= v,
        d <= v,
        v % (v / d) == 0,
        v / (v / d) == d,
{
    lemma_fundamental_div_mod(v, d);
    let q = v / d;
    assert(q >= 1 && q <= v && d <= v) by (nonlinear_arith)
        requires
            v == d * q,
            v >= 1,
            d >= 1,
    ;
    lemma_mod_multiples_basic(d, q);
    lemma_div_by_multiple(d, q);
}

proof fn lemma_found_step(v: usize, i: int)
    requires
        v >= 1,
        1 <= i <= v,
    ensures
        (v as int) % i != 0 ==> found_below(v, i + 1) == found_below(v, i),
        (v as int) % i == 0 ==> found_below(v, i + 1) == found_below(v, i).insert(i as usize).insert(
            ((v as int) / i) as usize,
        ),
{
    if (v as int) % i == 0 {
        lemma_divisor_pair(v as int, i);
    }
    assert forall|d: usize| #[trigger] found_below(v, i + 1).contains(d) implies (if (v as int) % i == 0 {
        found_below(v, i).insert(i as usize).insert(((v as int) / i) as usize)
    } else {
        found_below(v, i)
    }).contains(d) by {
        if d as int != i && v / d == i {
            lemma_divisor_pair(v as int, d as int);
            if (v as int) % i != 0 {
                assert(false);
            } else {
                assert(d as int == (v as int) / i);
            }
        }
    }
    if (v as int) % i == 0 {
        let q = ((v as int) / i) as usize;
        assert(found_below(v, i + 1).contains(i as usize));
        assert((v as int) / (q as int) == i);
        assert(found_below(v, i + 1).contains(q));
    }
    assert(found_below(v, i + 1) =~= (if (v as int) % i == 0 {
        found_below(v, i).insert(i as usize).insert(((v as int) / i) as usize)
    } else {
        found_below(v, i)
    }));
}

proof fn lemma_found_break(v: usize, i: int)
    requires
        v >= 2,
        1 <= i,
        (v as int) % i == 0,
        (v as int) / i < i,
    ensures
        found_below(v, i) == factor_set(v),
{
    assert forall|d: usize| #[trigger] factor_set(v).contains(d) implies found_below(v, i).contains(d) by {
        lemma_divisor_pair(v as int, d as int);
        lemma_divisor_pair(v as int, i);
        let e = (v as int) / (d as int);
        let q = (v as int) / i;
        if d >= i && e >= i {
            assert(false) by (nonlinear_arith)
                requires
                    d * e == v,
                    i * q == v,
                    q < i,
                    d >= i,
                    e >= i,
                    q >= 1,
            ;
        }
    }
    assert(found_below(v, i) =~= factor_set(v));
}

proof fn lemma_found_end(v: usize, i: int)
    requires
        v >= 2,
        i == v / 2 + 1,
    ensures
        found_below(v, i) == factor_set(v),
{
    assert forall|d: usize| #[trigger] factor_set(v).contains(d) implies found_below(v, i).contains(d) by {
        lemma_divisor_pair(v as int, d as int);
        let e = (v as int) / (d as int);
        if d >= i && e >= i {
            assert(false) by (nonlinear_arith)
                requires
                    d * e == v,
                    d >= v / 2 + 1,
                    e >= v / 2 + 1,
                    v >= 2,
            ;
        }
    }
    assert(found_below(v, i) =~= factor_set(v));
}

/// The factors of `v`: every `d` in `1..=v` that divides `v`, when
/// `v >= 2`; the empty set for `0` and `1`.
pub fn factors_of_usize(v: usize) -> (sol: HashSet<usize>)
    ensures
        sol@ == factor_set(v),
{
    let cap = v / 2;
    let mut sol: HashSet<usize> = HashSet::new();
    if v < 2 {
        assert(sol@ =~= factor_set(v));
        return sol;
    }
    assert forall|d: usize| #[trigger] found_below(v, 1).contains(d) implies false by {
        lemma_divisor_pair(v as int, d as int);
    }
    assert(found_below(v, 1) =~= Set::<usize>::empty());
    let mut i: usize = 1;
    while i < cap + 1
        invariant
            v >= 2,
            cap == v / 2,
            1 <= i <= cap + 1,
            sol@ == found_below(v, i as int),
        decreases cap + 1 - i,
    {
        proof {
            lemma_found_step(v, i as int);
        }
        if v % i == 0 {
            if sol.contains(&i) {
                proof {
                    lemma_found_break(v, i as int);
                }
                return sol;
            } else {
                sol.insert(i);
                sol.insert(v / i);
            }
        }
        i += 1;
    }
    proof {
        lemma_found_end(v, i as int);
    }
    sol
}

/// The elements of `s`, each once, in the order the set hands them out.
pub fn set_elements<T: Copy + Hash + Eq>(s: &HashSet<T>) -> (v: Vec<T>)
    requires
        obeys_key_model::<T>(),
    ensures
        v@.to_set() == s@,
        v@.no_duplicates(),
{
    let mut v: Vec<T> = Vec::new();
    for x in it: s.iter()
        invariant
            obeys_key_model::<T>(),
            v@ == it.seq().take(it.index()).unref(),
            it.seq().unref().to_set() == s@,
            it.seq().unref().no_duplicates(),
            it.index() == it.seq().len() ==> (v@.to_set() == s@ && v@.no_duplicates()),
    {
        v.push(*x);
        assert(it.seq().take(it.index() + 1).unref() == v@);
        assert(it.index() + 1 == it.seq().len() ==> it.seq().take(it.index() + 1) =~= it.seq());
    }
    v
}

/// The factors of `v` and, for negative `v`, their negations.
pub fn factors_of_i32(v: i32) -> (sol: HashSet<i32>)
    requires
        v != i32::MIN,
    ensures
        sol@ == factors_i32_spec(v),
{
    if v >= 0 {
        let s = factors_of_usize(v as usize);
        let e = set_elements(&s);
        let mut sol: HashSet<i32> = HashSet::new();
        let n = e.len();
        for k in 0..n
            invariant
                n == e.len(),
                v >= 0,
                e@.to_set() == factor_set(v as usize),
                sol@ == Set::new(|d: i32| exists|j: int| 0 <= j < k && d == #[trigger] e@[j] as i32),
        {
            assert(e@.contains(e@[k as int]));
            sol.insert(e[k] as i32);
            assert(sol@ =~= Set::new(|d: i32| exists|j: int| 0 <= j < k + 1 && d == #[trigger] e@[j] as i32)) by {
                assert forall|d: i32| (exists|j: int| 0 <= j < k + 1 && d == #[trigger] e@[j] as i32) implies sol@.contains(d) by {
                    let j = choose|j: int| 0 <= j < k + 1 && d == #[trigger] e@[j] as i32;
                    if j < k {
                    }
                }
            }
        }
        assert forall|d: i32| #[trigger] sol@.contains(d) implies factors_i32_spec(v).contains(d) by {
            let j = choose|j: int| 0 <= j < n && d == #[trigger] e@[j] as i32;
            assert(e@.contains(e@[j]));
            assert(factor_set(v as usize).contains(e@[j]));
            assert(e@[j] <= v);
            assert(d == e@[j]);
        }
        assert forall|d: i32| #[trigger] factors_i32_spec(v).contains(d) implies sol@.contains(d) by {
            let du = d as usize;
            assert(du as int == d as int);
            assert(factor_set(v as usize).contains(du));
            assert(e@.to_set().contains(du));
            let j = choose|j: int| 0 <= j < e@.len() && e@[j] == du;
            assert(d == e@[j] as i32);
        }
        assert(sol@ =~= factors_i32_spec(v));
        return sol;
    }
    let nv: i32 = -v;
    assert(nv > 0);
    let v_: usize = nv as usize;
    assert(v_ as int == nv as int);
    assert(nv as int == -(v as int));
    assert(v_ as int == -(v as int));
    let sol_ = factors_of_usize(v_);
    let e = set_elements(&sol_);
    let mut sol: HashSet<i32> = HashSet::new();
    let n = e.len();
    for k in 0..n
        invariant
            n == e.len(),
            v < 0,
            v != i32::MIN,
            v_ as int == -(v as int),
            e@.to_set() == factor_set(v_),
            sol@ == Set::new(
                |d: i32|
                    exists|j: int|
                        0 <= j < k && (d == #[trigger] e@[j] as i32 || d == -(e@[j] as i32)),
            ),
    {
        assert(e@.contains(e@[k as int]));
        assert(factor_set(v_).contains(e@[k as int]));
        let s_: i32 = e[k] as i32;
        sol.insert(s_);
        sol.insert(s_ * -1);
        assert(sol@ =~= Set::new(
            |d: i32|
                exists|j: int|
                    0 <= j < k + 1 && (d == #[trigger] e@[j] as i32 || d == -(e@[j] as i32)),
        )) by {
            assert forall|d: i32|
                (exists|j: int|
                    0 <= j < k + 1 && (d == #[trigger] e@[j] as i32 || d == -(e@[j] as i32)))
                implies sol@.contains(d) by {
                let j = choose|j: int|
                    0 <= j < k + 1 && (d == #[trigger] e@[j] as i32 || d == -(e@[j] as i32));
                if j < k {
                }
            }
        }
    }
    assert forall|d: i32| sol@.contains(d) <==> factors_i32_spec(v).contains(d) by {
        if sol@.contains(d) {
            let j = choose|j: int|
                0 <= j < n && (d == #[trigger] e@[j] as i32 || d == -(e@[j] as i32));
            assert(e@.contains(e@[j]));
            assert(factor_set(v_).contains(e@[j]));
        }
        if factors_i32_spec(v).contains(d) {
            let du = abs_int(d as int) as usize;
            assert(factor_set(v_).contains(du));
            let j = choose|j: int| 0 <= j < e@.len() && e@[j] == du;
            assert(d == e@[j] as i32 || d == -(e@[j] as i32));
        }
    }
    assert(sol@ =~= factors_i32_spec(v));
    sol
}

/// The factors of each element of `v1`, in order.
pub fn factors_for_vec(v1: Vec<i32>) -> (sol: Vec<HashSet<i32>>)
    requires
        forall|i: int| 0 <= i < v1.len() ==> #[trigger] v1[i] != i32::MIN,
    ensures
        sol.len() == v1.len(),
        forall|i: int| 0 <= i < v1.len() ==> (#[trigger] sol[i])@ == factors_i32_spec(v1[i]),
{
    let mut sol: Vec<HashSet<i32>> = Vec::new();
    let n = v1.len();
    for i in 0..n
        invariant
            n == v1.len(),
            forall|j: int| 0 <= j < n ==> #[trigger] v1[j] != i32::MIN,
            sol.len() == i,
            forall|j: int| 0 <= j < i ==> (#[trigger] sol[j])@ == factors_i32_spec(v1[j]),
    {
        sol.push(factors_of_i32(v1[i]));
    }
    sol
}

/// Does `f` divide every element of `v`?
pub open spec fn common_factor(v: Seq<i32>, f: int) -> bool {
    forall|i: int| 0 <= i < v.len() ==> (#[trigger] v[i] as int) % f == 0
}

proof fn lemma_mod_neg_divisor(x: int, d: int)
    requires
        d > 0,
    ensures
        x % (-d) == x % d,
{
    lemma_fundamental_div_mod(x, -d);
    let r = x % (-d);
    let q = x / (-d);
    assert(x == (-q) * d + r) by (nonlinear_arith)
        requires
            x == (-d) * q + r,
    ;
    lemma_fundamental_div_mod_converse_mod(x, d, -q, r);
}

proof fn lemma_mod_neg_dividend_zero(x: int, d: int)
    requires
        d > 0,
        x % d == 0,
    ensures
        (-x) % d == 0,
{
    lemma_fundamental_div_mod(x, d);
    let q = x / d;
    assert(-x == (-q) * d + 0) by (nonlinear_arith)
        requires
            x == d * q + 0,
    ;
    lemma_fundamental_div_mod_converse_mod(-x, d, -q, 0);
}

/// `f` divides `x` exactly when `|f|` divides `|x|`.
proof fn lemma_mod_zero_abs(x: int, f: int)
    requires
        f != 0,
    ensures
        (x % f == 0) == (abs_int(x) % abs_int(f) == 0),
{
    let m = abs_int(f);
    if f < 0 {
        lemma_mod_neg_divisor(x, m);
    }
    assert(x % f == x % m);
    if x < 0 {
        if x % m == 0 {
            lemma_mod_neg_dividend_zero(x, m);
        }
        if (-x) % m == 0 {
            lemma_mod_neg_dividend_zero(-x, m);
        }
    }
}

/// Does `f` leave no remainder on every element of `v1`?
pub fn is_factor_for_vec(v1: Vec<i32>, f: i32) -> (b: bool)
    requires
        f != 0,
        f == -1 ==> forall|i: int| 0 <= i < v1.len() ==> #[trigger] v1[i] != i32::MIN,
    ensures
        b == common_factor(v1@, f as int),
{
    let n = v1.len();
    for i in 0..n
        invariant
            n == v1.len(),
            f != 0,
            f == -1 ==> forall|j: int| 0 <= j < n ==> #[trigger] v1[j] != i32::MIN,
            forall|j: int| 0 <= j < i ==> (#[trigger] v1[j] as int) % (f as int) == 0,
    {
        let x = v1[i];
        let xa: i64 = if x < 0 { -(x as i64) } else { x as i64 };
        let fa: i64 = if f < 0 { -(f as i64) } else { f as i64 };
        let r = xa % fa;
        proof {
            lemma_mod_zero_abs(x as int, f as int);
        }
        if r != 0 {
            return false;
        }
    }
    true
}

/// The ascending order on `i32`.
pub open spec fn ascending() -> spec_fn(i32, i32) -> bool {
    |a: i32, b: i32| a <= b
}

/// `v` in ascending order.
pub open spec fn sorted_i32(v: Seq<i32>) -> Seq<i32> {
    v.sort_by(ascending())
}

proof fn lemma_le_i32_total()
    ensures
        total_ordering(ascending()),
{
}

/// `slice::sort` of std: puts the elements of `v` in ascending order.
#[verifier::external_body]
fn sort_ascending(v: &mut Vec<i32>)
    ensures
        final(v)@.to_multiset() == old(v)@.to_multiset(),
        sorted_by(final(v)@, ascending()),
{
    v.sort();
}

/// A copy of `v` in ascending order.
pub fn sorted_copy(v: &Vec<i32>) -> (s: Vec<i32>)
    ensures
        s@ == sorted_i32(v@),
{
    let mut s = v.clone();
    assert(s@ == v@);
    sort_ascending(&mut s);
    proof {
        lemma_le_i32_total();
        v@.lemma_sort_by_ensures(ascending());
        vstd::seq_lib::lemma_sorted_unique(s@, sorted_i32(v@), ascending());
    }
    s
}

/// The smallest of the last element of `s` and the differences between
/// neighbours of `s[..k]`.
pub open spec fn min_neighbour_gap(s: Seq<i32>, k: int) -> int
    decreases k,
{
    if k <= 1 {
        s.last() as int
    } else {
        let m = min_neighbour_gap(s, k - 1);
        let d = s[k - 1] - s[k - 2];
        if d < m {
            d
        } else {
            m
        }
    }
}

/// The largest `f` in `2..=g` that divides every element of `v`, or 1.
pub open spec fn largest_common_factor_upto(v: Seq<i32>, g: int) -> int
    decreases g,
{
    if g < 2 {
        1
    } else if common_factor(v, g) {
        g
    } else {
        largest_common_factor_upto(v, g - 1)
    }
}

/// What `gcf_for_vec` gives: for one element its absolute value; else the
/// largest common factor of all elements that does not exceed the smallest
/// gap between neighbours in ascending order (nor the largest element).
pub open spec fn gcf_spec(v: Seq<i32>) -> int {
    if v.len() == 1 {
        abs_int(v[0] as int)
    } else {
        largest_common_factor_upto(v, min_neighbour_gap(sorted_i32(v), v.len() as int))
    }
}

/// Can `gcf_for_vec` run on `v` without a panic or an overflow?
pub open spec fn gcf_defined(v: Seq<i32>) -> bool {
    &&& v.len() > 0
    &&& v.len() == 1 ==> abs_int(v[0] as int) >= 2 && v[0] != i32::MIN
    &&& v.len() > 1 ==> {
        &&& forall|i: int|
            1 <= i < v.len() ==> #[trigger] sorted_i32(v)[i] - sorted_i32(v)[i - 1] <= i32::MAX
        &&& min_neighbour_gap(sorted_i32(v), v.len() as int) < i32::MAX
    }
}

proof fn lemma_common_factor_perm(v: Seq<i32>, s: Seq<i32>, f: int)
    requires
        v.to_multiset() == s.to_multiset(),
    ensures
        common_factor(v, f) == common_factor(s, f),
{
    if common_factor(v, f) {
        assert forall|j: int| 0 <= j < s.len() implies (#[trigger] s[j] as int) % f == 0 by {
            assert(s.contains(s[j]));
            assert(s.to_multiset().count(s[j]) > 0);
            assert(v.contains(s[j]));
        }
    }
    if common_factor(s, f) {
        assert forall|j: int| 0 <= j < v.len() implies (#[trigger] v[j] as int) % f == 0 by {
            assert(v.contains(v[j]));
            assert(v.to_multiset().count(v[j]) > 0);
            assert(s.contains(v[j]));
        }
    }
}

proof fn lemma_largest_common_factor_divides(v: Seq<i32>, g: int)
    ensures
        largest_common_factor_upto(v, g) >= 1,
        largest_common_factor_upto(v, g) == 1 || common_factor(v, largest_common_factor_upto(v, g)),
    decreases g,
{
    if g >= 2 && !common_factor(v, g) {
        lemma_largest_common_factor_divides(v, g - 1);
    }
}

/// The largest factor of `v`, which is `|v|`.
fn largest_factor(v: i32) -> (r: i32)
    requires
        abs_int(v as int) >= 2,
        v != i32::MIN,
    ensures
        r == abs_int(v as int),
{
    let fs = factors_of_i32(v);
    let mut f = set_elements(&fs);
    let ghost a = abs_int(v as int);
    proof {
        lemma_mod_self_0(a);
        if v < 0 {
            assert(abs_int((a as i32) as int) == -v);
        }
    }
    assert(factors_i32_spec(v).contains(a as i32));
    assert(fs@.contains(a as i32));
    assert(f@.to_set().contains(a as i32));
    let ghost fv = f@;
    sort_ascending(&mut f);
    assert(f@.to_multiset() == fv.to_multiset());
    assert(f@.len() > 0) by {
        assert(fv.contains(a as i32));
        assert(fv.to_multiset().count(a as i32) > 0);
    }
    let last = f[f.len() - 1];
    proof {
        let k = choose|k: int| 0 <= k < fv.len() && fv[k] == a as i32;
        assert(f@.to_multiset().count(a as i32) > 0);
        assert(f@.contains(a as i32));
        let j = choose|j: int| 0 <= j < f@.len() && f@[j] == a as i32;
        if j < f@.len() - 1 {
            assert(ascending()(f@[j], f@[f@.len() - 1]));
        }
        assert(f@.contains(last));
        assert(f@.to_multiset().count(last) > 0);
        assert(fv.contains(last));
        assert(fs@.contains(last));
        assert(factors_i32_spec(v).contains(last));
        assert(last <= a);
        assert(ascending()(f@[j], last) || j == f@.len() - 1);
    }
    last
}

proof fn lemma_min_neighbour_gap_bounds(s: Seq<i32>, k: int, f: int)
    requires
        1 <= k <= s.len(),
    ensures
        min_neighbour_gap(s, k) <= s.last(),
        forall|i: int| 1 <= i < k ==> min_neighbour_gap(s, k) <= #[trigger] s[i] - s[i - 1],
        (f <= s.last() && forall|i: int| 1 <= i < k ==> f <= #[trigger] s[i] - s[i - 1]) ==> f
            <= min_neighbour_gap(s, k),
    decreases k,
{
    if k > 1 {
        lemma_min_neighbour_gap_bounds(s, k - 1, f);
        let m1 = min_neighbour_gap(s, k - 1);
        let d = s[k - 1] - s[k - 2];
        let m = min_neighbour_gap(s, k);
        assert(m == if d < m1 {
            d
        } else {
            m1
        });
        assert(m <= m1 && m <= d);
        assert forall|i: int| 1 <= i < k implies m <= #[trigger] s[i] - s[i - 1] by {
            if i < k - 1 {
                assert(m1 <= s[i] - s[i - 1]);
            }
        }
        if f <= s.last() && forall|i: int| 1 <= i < k ==> f <= #[trigger] s[i] - s[i - 1] {
            assert(f <= d);
            assert(forall|i: int| 1 <= i < k - 1 ==> f <= #[trigger] s[i] - s[i - 1]);
            assert(f <= m1);
        }
    }
}

proof fn lemma_largest_common_factor_bounds(v: Seq<i32>, g: int, f: int)
    ensures
        largest_common_factor_upto(v, g) == 1 || largest_common_factor_upto(v, g) <= g,
        (2 <= f <= g && common_factor(v, f)) ==> f <= largest_common_factor_upto(v, g),
    decreases g,
{
    if g >= 2 && !common_factor(v, g) {
        lemma_largest_common_factor_bounds(v, g - 1, f);
    }
}

/// The common factor of several elements is the largest one within the
/// gaps: a value `f >= 2` that divides every element of `v`, is no larger
/// than some element, and is no larger than any gap between neighbours of
/// `v` in ascending order, is at most `gcf_spec(v)`; and `gcf_spec(v)`,
/// unless it is 1, is itself such a value.
pub proof fn lemma_gcf_largest_within_gaps(v: Seq<i32>, f: int)
    requires
        v.len() > 1,
    ensures
        (2 <= f && common_factor(v, f) && (exists|i: int| 0 <= i < v.len() && f <= #[trigger] v[i])
            && forall|i: int|
            1 <= i < v.len() ==> f <= #[trigger] sorted_i32(v)[i] - sorted_i32(v)[i - 1]) ==> f
            <= gcf_spec(v),
        gcf_spec(v) >= 1,
        gcf_spec(v) > 1 ==> {
            &&& common_factor(v, gcf_spec(v))
            &&& exists|i: int| 0 <= i < v.len() && gcf_spec(v) <= #[trigger] v[i]
            &&& forall|i: int|
                1 <= i < v.len() ==> gcf_spec(v) <= #[trigger] sorted_i32(v)[i] - sorted_i32(v)[i
                    - 1]
        },
{
    broadcast use vstd::seq_lib::group_to_multiset_ensures;

    let s = sorted_i32(v);
    let n = v.len() as int;
    lemma_le_i32_total();
    v.lemma_sort_by_ensures(ascending());
    assert(s.len() == n) by {
        assert(s.to_multiset().len() == v.to_multiset().len());
    }
    let m = min_neighbour_gap(s, n);
    lemma_min_neighbour_gap_bounds(s, n, f);
    lemma_largest_common_factor_bounds(v, m, f);
    lemma_largest_common_factor_divides(v, m);
    if 2 <= f && common_factor(v, f) && (exists|i: int| 0 <= i < v.len() && f <= #[trigger] v[i])
        && forall|i: int| 1 <= i < v.len() ==> f <= #[trigger] s[i] - s[i - 1] {
        let i = choose|i: int| 0 <= i < v.len() && f <= #[trigger] v[i];
        assert(v.to_multiset().count(v[i]) > 0);
        assert(s.contains(v[i]));
        let j = choose|j: int| 0 <= j < s.len() && s[j] == v[i];
        if j < n - 1 {
            assert(ascending()(s[j], s[n - 1]));
        }
        assert(f <= s.last());
        assert(f <= m);
    }
    if gcf_spec(v) > 1 {
        assert(s.to_multiset().count(s[n - 1]) > 0);
        assert(v.contains(s[n - 1]));
        let i = choose|i: int| 0 <= i < v.len() && v[i] == s[n - 1];
        assert(gcf_spec(v) <= v[i]);
    }
}

/// A common factor of all elements of `v1`: for a single element its
/// absolute value; otherwise the largest factor common to all elements that
/// is no larger than the smallest gap between neighbours once sorted (and
/// no larger than the largest element), or 1 when there is none.
pub fn gcf_for_vec(v1: Vec<i32>) -> (g: i32)
    requires
        gcf_defined(v1@),
    ensures
        g == gcf_spec(v1@),
        g >= 1,
        g == 1 || common_factor(v1@, g as int),
{
    if v1.len() == 1 {
        let r = largest_factor(v1[0]);
        proof {
            lemma_mod_self_0(r as int);
            lemma_mod_zero_abs(v1[0] as int, r as int);
        }
        return r;
    }
    let v2 = sorted_copy(&v1);
    proof {
        lemma_le_i32_total();
        v1@.lemma_sort_by_ensures(ascending());
        assert(v2@.len() == v1@.len()) by {
            assert(v2@.to_multiset().len() == v1@.to_multiset().len());
        }
    }
    let minDiff = smallest_neighbour_gap(&v2);
    let mut i: i32 = minDiff;
    while i >= 2
        invariant
            v1.len() > 1,
            i <= minDiff,
            minDiff < i32::MAX,
            v2@.to_multiset() == v1@.to_multiset(),
            gcf_spec(v1@) == largest_common_factor_upto(v1@, minDiff as int),
            largest_common_factor_upto(v1@, minDiff as int) == largest_common_factor_upto(
                v1@,
                i as int,
            ),
        decreases i,
    {
        let b = is_factor_for_vec(v2.clone(), i);
        proof {
            lemma_common_factor_perm(v1@, v2@, i as int);
        }
        if b {
            assert(largest_common_factor_upto(v1@, i as int) == i);
            return i;
        }
        i -= 1;
    }
    proof {
        lemma_largest_common_factor_divides(v1@, minDiff as int);
    }
    1
}

/// The smallest of the last element of the ascending `v2` and the gaps
/// between its neighbours.
fn smallest_neighbour_gap(v2: &Vec<i32>) -> (m: i32)
    requires
        v2.len() > 1,
        sorted_by(v2@, ascending()),
        forall|k: int| 1 <= k < v2.len() ==> #[trigger] v2@[k] - v2@[k - 1] <= i32::MAX,
    ensures
        m == min_neighbour_gap(v2@, v2.len() as int),
{
    let mut minDiff: i32 = v2[v2.len() - 1];
    let n = v2.len();
    for i in 1..n
        invariant
            n == v2.len(),
            n > 1,
            sorted_by(v2@, ascending()),
            forall|k: int| 1 <= k < n ==> #[trigger] v2@[k] - v2@[k - 1] <= i32::MAX,
            minDiff == min_neighbour_gap(v2@, i as int),
    {
        assert(ascending()(v2@[i - 1], v2@[i as int]));
        let d = v2[i] - v2[i - 1];
        if d < minDiff {
            minDiff = d;
        }
    }
    minDiff
}

/// `-1 * (v1 - m)` where `m` is the common factor `gcf_for_vec(v2)`.
pub fn gcf_add4mult_vec(v1: Vec<i32>, v2: Vec<i32>) -> (r: Vec<i32>)
    requires
        gcf_defined(v2@),
        forall|i: int| 0 <= i < v1.len() ==> i32::MIN < #[trigger] v1[i] - gcf_spec(v2@) <= i32::MAX,
    ensures
        r.len() == v1.len(),
        forall|i: int| 0 <= i < v1.len() ==> #[trigger] r[i] == gcf_spec(v2@) - v1[i],
{
    let m = gcf_for_vec(v2);
    let d = sub_scalar(&v1, m);
    mul_scalar(&d, -1)
}

/// `v2 - v1`, element-wise.
pub fn cheapest_add_vec(v1: Vec<i32>, v2: Vec<i32>) -> (r: Vec<i32>)
    requires
        compatible(v2.len() as nat, v1.len() as nat),
        forall|i: int|
            0 <= i < broadcast_len(v2.len() as nat, v1.len() as nat) ==> i32::MIN <= #[trigger] at(
                v2@,
                i,
            ) - at(v1@, i) <= i32::MAX,
    ensures
        r.len() == broadcast_len(v2.len() as nat, v1.len() as nat),
        forall|i: int| 0 <= i < r.len() ==> #[trigger] r[i] == at(v2@, i) - at(v1@, i),
{
    arr_sub(&v2, &v1)
}

/// The middle element of `v` (odd length), or the two middle elements
/// (even length).
pub fn median_of_iterable<T>(v: Vec<T>) -> (r: (T, Option<T>))
    requires
        v.len() > 0,
    ensures
        v.len() % 2 == 1 ==> r == (v@[(v.len() / 2) as int], None::<T>),
        v.len() % 2 == 0 ==> r == (v@[v.len() / 2 - 1], Some(v@[(v.len() / 2) as int])),
{
    let n = v.len();
    let mut w = v;
    if n % 2 == 1 {
        let x = w.swap_remove(n / 2);
        (x, None)
    } else {
        let b = w.swap_remove(n / 2);
        let a = w.swap_remove(n / 2 - 1);
        (a, Some(b))
    }
}

/// The index of the middle element of `v`, or the indices of its two middle
/// elements.
pub fn median_of_iterable_<T>(v: Vec<T>) -> (r: (usize, Option<usize>))
    requires
        v.len() > 0,
    ensures
        v.len() % 2 == 1 ==> r == (v.len() / 2, None::<usize>),
        v.len() % 2 == 0 ==> r == ((v.len() / 2 - 1) as usize, Some(v.len() / 2)),
{
    if v.len() % 2 == 1 {
        (v.len() / 2, None)
    } else {
        (v.len() / 2 - 1, Some(v.len() / 2))
    }
}

/// The elements of `s` taken from the middle outwards: the middle element
/// (or the two middle elements, lower first) and then the same order on
/// what remains.
pub open spec fn median_order<T>(s: Seq<T>) -> Seq<T>
    decreases s.len(),
{
    if s.len() == 0 {
        Seq::empty()
    } else if s.len() % 2 == 1 {
        let m = s.len() / 2;
        seq![s[m as int]] + median_order(s.remove(m as int))
    } else {
        let m = s.len() / 2;
        seq![s[m - 1], s[m as int]] + median_order(s.remove(m as int).remove(m - 1))
    }
}

/// Reorders `v` from the middle outwards, see `median_order`.
pub fn sort_by_distance_to_median<T>(v: Vec<T>) -> (sol: Vec<T>)
    ensures
        sol@ == median_order(v@),
{
    let mut sol: Vec<T> = Vec::new();
    let mut v2 = v;
    while v2.len() > 0
        invariant
            sol@ + median_order(v2@) == median_order(v@),
        decreases v2.len(),
    {
        let ghost before = v2@;
        let n = v2.len();
        if n % 2 == 1 {
            let x = v2.remove(n / 2);
            sol.push(x);
            assert(median_order(before) == seq![before[(n / 2) as int]] + median_order(v2@));
            assert(sol@ + median_order(v2@) == (sol@.drop_last() + seq![x]) + median_order(v2@));
        } else {
            let b = v2.remove(n / 2);
            let a = v2.remove(n / 2 - 1);
            sol.push(a);
            sol.push(b);
            assert(median_order(before) == seq![a, b] + median_order(v2@));
            assert(sol@ == sol@.drop_last().drop_last() + seq![a, b]);
        }
    }
    assert(median_order(v2@) == Seq::<T>::empty());
    assert(sol@ + Seq::<T>::empty() == sol@);
    sol
}

/// Each element of `v` as `i32`, followed by its negation.
pub fn neg_double_vec(v: Vec<usize>) -> (v2: Vec<i32>)
    requires
        forall|i: int| 0 <= i < v.len() ==> (#[trigger] v[i] as i32) != i32::MIN,
    ensures
        v2.len() == 2 * v.len(),
        forall|i: int|
            0 <= i < v.len() ==> #[trigger] v2[2 * i] == v[i] as i32 && v2[2 * i + 1] == -(
            v[i] as i32),
{
    let mut v2: Vec<i32> = Vec::new();
    let n = v.len();
    let mut k: usize = 0;
    while k < n
        invariant
            n == v.len(),
            k <= n,
            forall|i: int| 0 <= i < n ==> (#[trigger] v[i] as i32) != i32::MIN,
            v2.len() == 2 * k,
            forall|i: int|
                0 <= i < k ==> #[trigger] v2[2 * i] == v[i] as i32 && v2[2 * i + 1] == -(
                v[i] as i32),
        decreases n - k,
    {
        let x: i32 = v[k] as i32;
        let ghost before = v2@;
        let nx: i32 = -x;
        v2.push(x);
        v2.push(nx);
        assert(v2@ == before.push(x).push(nx));
        assert forall|i: int| 0 <= i < k + 1 implies #[trigger] v2[2 * i] == v[i] as i32 && v2[2
            * i + 1] == -(v[i] as i32) by {
            if i < k {
                assert(v2[2 * i] == before[2 * i]);
                assert(v2[2 * i + 1] == before[2 * i + 1]);
            } else {
                assert(2 * i == before.len());
            }
        }
        k += 1;
    }
    v2
}

/// Each element of `s` followed by its negation, as `i32`.
pub open spec fn neg_double(s: Seq<usize>) -> Seq<i32>
    decreases s.len(),
{
    if s.len() == 0 {
        Seq::empty()
    } else {
        neg_double(s.drop_last()) + seq![s.last() as i32, (-(s.last() as i32)) as i32]
    }
}

proof fn lemma_neg_double(s: Seq<usize>, r: Seq<i32>)
    requires
        r.len() == 2 * s.len(),
        forall|i: int|
            0 <= i < s.len() ==> #[trigger] r[2 * i] == s[i] as i32 && r[2 * i + 1] == -(
            s[i] as i32),
    ensures
        r == neg_double(s),
    decreases s.len(),
{
    if s.len() > 0 {
        let t = r.subrange(0, r.len() - 2);
        assert forall|i: int| 0 <= i < s.drop_last().len() implies #[trigger] t[2 * i]
            == s.drop_last()[i] as i32 && t[2 * i + 1] == -(s.drop_last()[i] as i32) by {
            assert(r[2 * i] == s[i] as i32);
        }
        lemma_neg_double(s.drop_last(), t);
        let k = s.len() - 1;
        assert(r[2 * k] == s[k] as i32);
        assert(r == t + seq![s.last() as i32, (-(s.last() as i32)) as i32]);
    }
}

/// `x - v2` for every `x` of `s`.
pub open spec fn minus_all(s: Seq<i32>, v2: i32) -> Seq<i32> {
    s.map_values(|x: i32| (x - v2) as i32)
}

/// The factors listed in `fv` and their negations, ordered from the middle
/// outwards, each minus `v2`.
pub fn ranked_additives_for_factors(fv: Vec<usize>, v2: i32) -> (fv3: Vec<i32>)
    requires
        forall|i: int|
            0 <= i < fv.len() ==> #[trigger] fv[i] <= i32::MAX && fv[i] - v2 <= i32::MAX && -fv[i]
                - v2 >= i32::MIN,
    ensures
        fv3@ == minus_all(median_order(neg_double(fv@)), v2),
{
    let fv_ = neg_double_vec(fv.clone());
    proof {
        lemma_neg_double(fv@, fv_@);
    }
    let fv2 = sort_by_distance_to_median(fv_);
    let mut fv3: Vec<i32> = Vec::new();
    let n = fv2.len();
    proof {
        assert forall|x: i32| median_order(neg_double(fv@)).contains(x) implies i32::MIN <= x - v2
            <= i32::MAX by {
            lemma_median_order_perm(neg_double(fv@));
            assert(median_order(neg_double(fv@)).to_multiset().count(x) > 0);
            assert(neg_double(fv@).contains(x));
            let j = choose|j: int| 0 <= j < neg_double(fv@).len() && neg_double(fv@)[j] == x;
            let k = j / 2;
            assert(fv_@[2 * k] == fv@[k] as i32);
            assert(fv[k] <= i32::MAX && fv[k] - v2 <= i32::MAX && -fv[k] - v2 >= i32::MIN);
        }
    }
    for i in 0..n
        invariant
            n == fv2.len(),
            fv2@ == median_order(neg_double(fv@)),
            forall|x: i32| median_order(neg_double(fv@)).contains(x) ==> i32::MIN <= x - v2 <= i32::MAX,
            fv3@ == minus_all(fv2@.take(i as int), v2),
    {
        assert(fv2@.contains(fv2@[i as int]));
        fv3.push(fv2[i] - v2);
        assert(fv2@.take(i + 1) == fv2@.take(i as int).push(fv2@[i as int]));
        assert(fv3@ =~= minus_all(fv2@.take(i + 1), v2));
    }
    assert(fv2@.take(n as int) == fv2@);
    fv3
}

/// The factors `d` of `v` and their negations `-d`, ordered from the middle
/// outwards, each minus `v2`. The factors come in the order in which the
/// factor set hands them out, which the contract leaves open; what follows
/// for each listing is `ranked_additives_for_factors`.
pub fn ranked_mult_additives_for_i32(v: i32, v2: i32) -> (fv3: Vec<i32>)
    requires
        v >= 0,
        v >= 2 ==> v - v2 <= i32::MAX && -v - v2 >= i32::MIN,
    ensures
        exists|e: Seq<usize>|
            e.no_duplicates() && e.to_set() == factor_set(v as usize) && fv3@ == minus_all(
                median_order(neg_double(e)),
                v2,
            ),
{
    let fs = factors_of_usize(v as usize);
    let fv = set_elements(&fs);
    assert forall|i: int| 0 <= i < fv.len() implies #[trigger] fv[i] <= i32::MAX && fv[i] - v2
        <= i32::MAX && -fv[i] - v2 >= i32::MIN by {
        assert(fv@.contains(fv@[i]));
        assert(factor_set(v as usize).contains(fv@[i]));
    }
    ranked_additives_for_factors(fv, v2)
}

/// Middle-out order keeps the elements and their multiplicities.
pub proof fn lemma_median_order_perm<T>(s: Seq<T>)
    ensures
        median_order(s).to_multiset() == s.to_multiset(),
        median_order(s).len() == s.len(),
    decreases s.len(),
{
    broadcast use vstd::seq_lib::group_to_multiset_ensures;
    broadcast use vstd::multiset::group_multiset_axioms;

    if s.len() == 0 {
    } else if s.len() % 2 == 1 {
        let m = (s.len() / 2) as int;
        lemma_median_order_perm(s.remove(m));
        vstd::seq_lib::to_multiset_remove(s, m);
        assert(s.remove(m).to_multiset() == s.to_multiset().remove(s[m]));
        assert((seq![s[m]] + median_order(s.remove(m))).to_multiset() =~= median_order(
            s.remove(m),
        ).to_multiset().insert(s[m])) by {
            vstd::seq_lib::lemma_multiset_commutative(seq![s[m]], median_order(s.remove(m)));
            assert(seq![s[m]].to_multiset() =~= vstd::multiset::Multiset::singleton(s[m])) by {
                assert(seq![s[m]] == Seq::<T>::empty().push(s[m]));
            }
        }
    } else {
        let m = (s.len() / 2) as int;
        let t = s.remove(m).remove(m - 1);
        lemma_median_order_perm(t);
        vstd::seq_lib::to_multiset_remove(s, m);
        vstd::seq_lib::to_multiset_remove(s.remove(m), m - 1);
        assert(s.remove(m)[m - 1] == s[m - 1]);
        vstd::seq_lib::lemma_multiset_commutative(seq![s[m - 1], s[m]], median_order(t));
        assert(seq![s[m - 1], s[m]] == Seq::<T>::empty().push(s[m - 1]).push(s[m]));
    }
}

/// Is `r` one of the outcomes of `ranked_mult_additives_for_i32(v, v2)`?
pub open spec fn ranked_additives(v: i32, v2: i32, r: Seq<i32>) -> bool {
    exists|e: Seq<usize>|
        e.no_duplicates() && e.to_set() == factor_set(v as usize) && r == minus_all(
            median_order(neg_double(e)),
            v2,
        )
}

/// Can `ranked_mult_additives_for_i32(v, v2)` run without overflow (and
/// finish in reasonable time, which rules out negative `v`)?
pub open spec fn ranked_additives_defined(v: i32, v2: i32) -> bool {
    v >= 0 && (v >= 2 ==> v - v2 <= i32::MAX && -v - v2 >= i32::MIN)
}

/// `ranked_mult_additives_for_i32(v[i], v2[i])` for every index of `v`.
pub fn ranked_mult_additive_for_vec(v: Vec<i32>, v2: Vec<i32>) -> (sol: Vec<Vec<i32>>)
    requires
        v2.len() >= v.len(),
        forall|i: int| 0 <= i < v.len() ==> ranked_additives_defined(#[trigger] v[i], v2[i]),
    ensures
        sol.len() == v.len(),
        forall|i: int| 0 <= i < v.len() ==> ranked_additives(v[i], v2[i], (#[trigger] sol[i])@),
{
    let mut sol: Vec<Vec<i32>> = Vec::new();
    let n = v.len();
    for i in 0..n
        invariant
            n == v.len(),
            v2.len() >= n,
            forall|j: int| 0 <= j < n ==> ranked_additives_defined(#[trigger] v[j], v2[j]),
            sol.len() == i,
            forall|j: int| 0 <= j < i ==> ranked_additives(v[j], v2[j], (#[trigger] sol[j])@),
    {
        assert(ranked_additives_defined(v[i as int], v2[i as int]));
        sol.push(ranked_mult_additives_for_i32(v[i], v2[i]));
    }
    sol
}

/// The lower middle element of `v` in ascending order, which is the value
/// that `closest_i32_to_median` picks.
pub open spec fn lower_median(v: Seq<i32>) -> i32 {
    sorted_i32(v)[(v.len() - 1) / 2]
}

/// The element of `v` at distance zero from the lower median of `v`: the
/// lower median itself.
pub fn closest_i32_to_median(v: Vec<i32>) -> (r: i32)
    requires
        v.len() > 0,
        forall|i: int|
            0 <= i < v.len() ==> i32::MIN < #[trigger] v[i] - lower_median(v@) <= i32::MAX,
    ensures
        r == lower_median(v@),
{
    let v_ = sorted_copy(&v);
    proof {
        lemma_le_i32_total();
        v@.lemma_sort_by_ensures(ascending());
        assert(v_@.len() == v@.len()) by {
            assert(v_@.to_multiset().len() == v@.to_multiset().len());
        }
    }
    let ghost n = v@.len();
    let (s1, _) = median_of_iterable(v_);
    assert(s1 == lower_median(v@));
    let mut diff: Vec<usize> = Vec::new();
    for i in 0..v.len()
        invariant
            s1 == lower_median(v@),
            forall|j: int| 0 <= j < v.len() ==> i32::MIN < #[trigger] v[j] - s1 <= i32::MAX,
            diff.len() == i,
            forall|j: int| 0 <= j < i ==> (#[trigger] diff[j] == 0) == (v[j] == s1),
    {
        let d = v[i] - s1;
        let a: i32 = if d < 0 { -d } else { d };
        diff.push(a as usize);
    }
    let mut mn: usize = 0;
    for i in 0..diff.len()
        invariant
            mn == 0,
    {
        if diff[i] < mn {
            mn = diff[i];
        }
    }
    proof {
        assert(sorted_i32(v@).contains(s1));
        assert(sorted_i32(v@).to_multiset().count(s1) > 0);
        assert(v@.contains(s1));
    }
    let ghost w = choose|j: int| 0 <= j < v@.len() && v@[j] == s1;
    let mut index: usize = 0;
    while index < diff.len()
        invariant
            0 <= w < diff.len(),
            diff.len() == v.len(),
            s1 == lower_median(v@),
            v@[w] == s1,
            index <= w,
            mn == 0,
            forall|j: int| 0 <= j < diff.len() ==> (#[trigger] diff[j] == 0) == (v[j] == s1),
        decreases diff.len() - index,
    {
        if diff[index] == mn {
            return v[index];
        }
        index += 1;
    }
    v[0]
}

/// The elements common to `a` and `b`.
fn set_intersection<T: Copy + Hash + Eq>(a: &HashSet<T>, b: &HashSet<T>) -> (r: HashSet<T>)
    requires
        obeys_key_model::<T>(),
    ensures
        r@ == a@.intersect(b@),
{
    let e = set_elements(a);
    let mut r: HashSet<T> = HashSet::new();
    let n = e.len();
    for k in 0..n
        invariant
            n == e.len(),
            obeys_key_model::<T>(),
            e@.to_set() == a@,
            r@ == Set::new(|y: T| b@.contains(y) && exists|j: int| 0 <= j < k && e@[j] == y),
    {
        let x = e[k];
        if b.contains(&x) {
            r.insert(x);
        }
        assert(r@ =~= Set::new(|y: T| b@.contains(y) && exists|j: int| 0 <= j < k + 1 && e@[j] == y)) by {
            assert forall|y: T| #[trigger] r@.contains(y) implies (b@.contains(y) && exists|j: int| 0 <= j < k + 1 && e@[j] == y) by {
                if y == x {
                    assert(e@[k as int] == y);
                } else {
                    let j = choose|j: int| 0 <= j < k && e@[j] == y;
                    assert(e@[j] == y);
                }
            }
            assert forall|y: T| (b@.contains(y) && exists|j: int| 0 <= j < k + 1 && e@[j] == y) implies #[trigger] r@.contains(y) by {
                let j = choose|j: int| 0 <= j < k + 1 && e@[j] == y;
                if j < k {
                    assert(e@[j] == y);
                }
            }
        }
    }
    assert forall|y: T| #[trigger] r@.contains(y) <==> a@.intersect(b@).contains(y) by {
        if a@.contains(y) {
            assert(e@.to_set().contains(y));
            let j = choose|j: int| 0 <= j < e@.len() && e@[j] == y;
            assert(e@[j] == y);
        }
        if r@.contains(y) {
            let j = choose|j: int| 0 <= j < n && e@[j] == y;
            assert(e@.contains(e@[j]));
        }
    }
    assert(r@ =~= a@.intersect(b@));
    r
}

/// The elements of all sets in `v`, for `v` of at least one set.
pub open spec fn common_elements<T>(v: Seq<HashSet<T>>) -> Set<T> {
    Set::new(|x: T| forall|i: int| 0 <= i < v.len() ==> (#[trigger] v[i])@.contains(x))
}

/// The intersection of all sets in `v`.
pub fn intersection_set_for_hashsetvec<T: Copy + Hash + Eq>(v: Vec<HashSet<T>>) -> (sol: HashSet<T>)
    requires
        v.len() > 0,
        obeys_key_model::<T>(),
    ensures
        sol@ == common_elements(v@),
{
    if v.len() == 1 {
        let sol = set_intersection(&v[0], &v[0]);
        assert(sol@ =~= common_elements(v@));
        return sol;
    }
    let mut sol = set_intersection(&v[1], &v[0]);
    let l = v.len();
    assert forall|x: T| #[trigger] sol@.contains(x) <==> common_elements(v@.take(2)).contains(x) by {
        assert(v@.take(2)[0] == v@[0]);
        assert(v@.take(2)[1] == v@[1]);
        if sol@.contains(x) {
            assert forall|i: int| 0 <= i < 2 implies (#[trigger] v@.take(2)[i])@.contains(x) by {
                if i == 0 {
                } else {
                }
            }
        }
    }
    assert(sol@ =~= common_elements(v@.take(2)));
    for i in 2..l
        invariant
            l == v.len(),
            obeys_key_model::<T>(),
            sol@ == common_elements(v@.take(i as int)),
    {
        let ghost prev = sol@;
        sol = set_intersection(&sol, &v[i]);
        assert forall|x: T| #[trigger] sol@.contains(x) <==> common_elements(v@.take(i + 1)).contains(x) by {
            assert forall|j: int| 0 <= j < i implies #[trigger] v@.take(i + 1)[j] == v@.take(i as int)[j] by {}
            assert(v@.take(i + 1)[i as int] == v@[i as int]);
            if sol@.contains(x) {
                assert forall|j: int| 0 <= j < i + 1 implies (#[trigger] v@.take(i + 1)[j])@.contains(x) by {
                    if j < i {
                        assert(v@.take(i as int)[j]@.contains(x));
                    }
                }
            }
            if common_elements(v@.take(i + 1)).contains(x) {
                assert forall|j: int| 0 <= j < i implies (#[trigger] v@.take(i as int)[j])@.contains(x) by {
                    assert(v@.take(i + 1)[j]@.contains(x));
                }
                assert(prev.contains(x));
                assert(v@.take(i + 1)[i as int]@.contains(x));
            }
        }
        assert(sol@ =~= common_elements(v@.take(i + 1)));
    }
    assert(v@.take(l as int) == v@);
    sol
}

/// The sample pair `[2, 4, 15, 19]`, `[8, 12, 55, 190]`.
pub fn sample_arr1_pair_1() -> (r: (Vec<i32>, Vec<i32>))
    ensures
        r.0@ == seq![2i32, 4, 15, 19],
        r.1@ == seq![8i32, 12, 55, 190],
{
    (vec![2, 4, 15, 19], vec![8, 12, 55, 190])
}

/// The sample pair `[2, 4, 2, 4, 20]`, `[4, 8, 4, 8, 200]`.
pub fn sample_arr1_pair_2() -> (r: (Vec<i32>, Vec<i32>))
    ensures
        r.0@ == seq![2i32, 4, 2, 4, 20],
        r.1@ == seq![4i32, 8, 4, 8, 200],
{
    (vec![2, 4, 2, 4, 20], vec![4, 8, 4, 8, 200])
}

/// The sample pair `[4, 2]`, `[8, 10]`.
pub fn sample_arr1_pair_3() -> (r: (Vec<i32>, Vec<i32>))
    ensures
        r.0@ == seq![4i32, 2],
        r.1@ == seq![8i32, 10],
{
    (vec![4, 2], vec![8, 10])
}

/// The values of the rows of `rows`, one row after the other.
pub open spec fn flatten(rows: Seq<Vec<i32>>) -> Seq<i32>
    decreases rows.len(),
{
    if rows.len() == 0 {
        Seq::empty()
    } else {
        flatten(rows.drop_last()) + rows.last()@
    }
}

/// How many times `x` occurs in `s`.
pub open spec fn occurrences(s: Seq<i32>, x: i32) -> nat
    decreases s.len(),
{
    if s.len() == 0 {
        0
    } else {
        occurrences(s.drop_last(), x) + if s.last() == x {
            1nat
        } else {
            0nat
        }
    }
}

proof fn lemma_occurrences_bound(s: Seq<i32>, x: i32)
    ensures
        occurrences(s, x) <= s.len(),
    decreases s.len(),
{
    if s.len() > 0 {
        lemma_occurrences_bound(s.drop_last(), x);
    }
}

proof fn lemma_flatten_len(rows: Seq<Vec<i32>>, i: int)
    requires
        0 <= i < rows.len(),
    ensures
        flatten(rows).len() >= rows[i]@.len(),
    decreases rows.len(),
{
    if i < rows.len() - 1 {
        lemma_flatten_len(rows.drop_last(), i);
    }
}

proof fn lemma_neg_double_len(s: Seq<usize>)
    ensures
        neg_double(s).len() == 2 * s.len(),
    decreases s.len(),
{
    if s.len() > 0 {
        lemma_neg_double_len(s.drop_last());
    }
}

/// For `v >= 2` the ranked additives are not empty: `v` is a factor of itself.
proof fn lemma_ranked_additives_nonempty(v: i32, v2: i32, r: Seq<i32>)
    requires
        v >= 2,
        ranked_additives(v, v2, r),
    ensures
        r.len() > 0,
{
    let e = choose|e: Seq<usize>|
        e.no_duplicates() && e.to_set() == factor_set(v as usize) && r == minus_all(
            median_order(neg_double(e)),
            v2,
        );
    assert(factor_set(v as usize).contains(v as usize));
    if e.len() == 0 {
        assert(e.to_set().contains(v as usize));
    }
    lemma_neg_double_len(e);
    lemma_median_order_perm(neg_double(e));
}

/// How many times `x` occurs in `s`.
fn count_of(s: &Vec<i32>, x: i32) -> (c: usize)
    ensures
        c == occurrences(s@, x),
{
    let n = s.len();
    let mut c: usize = 0;
    let mut k: usize = 0;
    while k < n
        invariant
            n == s.len(),
            k <= n,
            c == occurrences(s@.take(k as int), x),
        decreases n - k,
    {
        proof {
            assert(s@.take(k + 1).drop_last() =~= s@.take(k as int));
            lemma_occurrences_bound(s@.take(k as int), x);
        }
        if s[k] == x {
            c = c + 1;
        }
        k = k + 1;
    }
    assert(s@.take(n as int) =~= s@);
    c
}

/// The additive that the most factor rankings share: among the values of
/// `ranked_mult_additive_for_vec(v, v2)`, the first, in row order, of
/// those that occur most often.
pub fn max_satisfying_mult_additive_for_vec(v: Vec<i32>, v2: Vec<i32>) -> (r: i32)
    requires
        v2.len() >= v.len(),
        forall|i: int| 0 <= i < v.len() ==> ranked_additives_defined(#[trigger] v[i], v2[i]),
        exists|i: int| 0 <= i < v.len() && #[trigger] v[i] >= 2,
    ensures
        exists|rows: Seq<Vec<i32>>|
            {
                &&& rows.len() == v.len()
                &&& forall|i: int|
                    0 <= i < v.len() ==> ranked_additives(v[i], v2[i], (#[trigger] rows[i])@)
                &&& flatten(rows).contains(r)
                &&& forall|j: int|
                    0 <= j < flatten(rows).len() ==> occurrences(flatten(rows), #[trigger] flatten(
                        rows,
                    )[j]) <= occurrences(flatten(rows), r)
                &&& exists|f: int|
                    0 <= f < flatten(rows).len() && #[trigger] flatten(rows)[f] == r && forall|
                        j: int,
                    |
                        0 <= j < f ==> occurrences(flatten(rows), #[trigger] flatten(rows)[j])
                            < occurrences(flatten(rows), r)
            },
{
    let b = ranked_mult_additive_for_vec(v, v2);
    let mut flat: Vec<i32> = Vec::new();
    let nb = b.len();
    let mut i: usize = 0;
    while i < nb
        invariant
            nb == b.len(),
            i <= nb,
            flat@ == flatten(b@.take(i as int)),
        decreases nb - i,
    {
        let row = &b[i];
        let ghost before = flat@;
        let mut j: usize = 0;
        while j < row.len()
            invariant
                j <= row.len(),
                flat@ == before + row@.take(j as int),
            decreases row.len() - j,
        {
            flat.push(row[j]);
            assert(row@.take(j + 1) =~= row@.take(j as int).push(row@[j as int]));
            j = j + 1;
        }
        assert(row@.take(row.len() as int) =~= row@);
        assert(b@.take(i + 1).drop_last() =~= b@.take(i as int));
        i = i + 1;
    }
    assert(b@.take(nb as int) =~= b@);
    proof {
        let w = choose|i: int| 0 <= i < v.len() && #[trigger] v[i] >= 2;
        lemma_ranked_additives_nonempty(v[w], v2[w], b[w]@);
        lemma_flatten_len(b@, w);
    }
    let n = flat.len();
    let mut best: i32 = flat[0];
    let mut best_c: usize = count_of(&flat, best);
    let mut at: usize = 0;
    let mut k: usize = 1;
    while k < n
        invariant
            n == flat.len(),
            1 <= k <= n,
            at < k,
            flat@[at as int] == best,
            best_c == occurrences(flat@, best),
            forall|j: int| 0 <= j < k ==> occurrences(flat@, #[trigger] flat@[j]) <= best_c,
            forall|j: int| 0 <= j < at ==> occurrences(flat@, #[trigger] flat@[j]) < best_c,
        decreases n - k,
    {
        let c = count_of(&flat, flat[k]);
        if c > best_c {
            best = flat[k];
            best_c = c;
            at = k;
        }
        k = k + 1;
    }
    assert(flat@.contains(best));
    best
}

} // verus!
