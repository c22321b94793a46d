//! Re-factorisation of batches of skews to lower their cost. A type-a skew
//! holds an addit only; a type-m skew holds a multer only.
use vstd::prelude::*;
use std::cmp::Ordering;
use crate::arrops::{abs_int, arr_sub, mul_scalar, sub_scalar, at, broadcast_len, compatible, seq_sum};
use crate::skew::{
    Skew, abs_sum, abs_sum_fits, build_skew, is_adder_skew, is_type_a, is_type_m, opt_view,
    size_fits, times_const,
};
use crate::skewf32::SkewF32;

verus! {

/// Orders pairs by their second value: `Less` where the first pair's second
/// value is not above the second pair's, else `Greater`.
pub fn i32_pair_cmp1(s1: &(i32, i32), s2: &(i32, i32)) -> (r: Ordering)
    ensures
        r == (if s1.1 <= s2.1 {
            Ordering::Less
        } else {
            Ordering::Greater
        }),
{
    if s1.1 <= s2.1 {
        return Ordering::Less;
    }
    Ordering::Greater
}

/// Does some value of `r` multiplied by `mult` exceed `mx`?
pub open spec fn row_over(r: Seq<i32>, mult: i32, mx: i32) -> bool {
    exists|i: int| 0 <= i < r.len() && #[trigger] r[i] * mult > mx
}

/// Does each value of `r` multiplied by `mult` fit in an `i32`?
pub open spec fn row_fits(r: Seq<i32>, mult: i32) -> bool {
    forall|i: int| 0 <= i < r.len() ==> i32::MIN <= #[trigger] r[i] * mult <= i32::MAX
}

/// Does multiplying each vector of `reference` by `mult` stay within `i32`
/// up to the first vector that exceeds `mx`?
pub open spec fn capacity_fits(reference: Seq<Vec<i32>>, mult: i32, mx: i32) -> bool {
    forall|k: int|
        0 <= k < reference.len() ==> (forall|j: int|
            0 <= j < k ==> !row_over(#[trigger] reference[j]@, mult, mx)) ==> row_fits(
            #[trigger] reference[k]@,
            mult,
        )
}

/// Does multiplying any vector of `reference` by `mult` give a value above `mx`?
pub fn multiple_on_reference_at_capacity(reference: Vec<Vec<i32>>, mult: i32, mx: i32) -> (b: bool)
    requires
        capacity_fits(reference@, mult, mx),
    ensures
        b == exists|k: int| 0 <= k < reference.len() && row_over(#[trigger] reference[k]@, mult, mx),
{
    let n = reference.len();
    let mut k: usize = 0;
    while k < n
        invariant
            n == reference.len(),
            k <= n,
            capacity_fits(reference@, mult, mx),
            forall|j: int| 0 <= j < k ==> !row_over(#[trigger] reference[j]@, mult, mx),
        decreases n - k,
    {
        let r = &reference[k];
        assert(row_fits(reference[k as int]@, mult));
        let x = mul_scalar(r, mult);
        let mut i: usize = 0;
        while i < x.len()
            invariant
                n == reference.len(),
                k < n,
                r@ == reference[k as int]@,
                x.len() == r.len(),
                i <= x.len(),
                forall|j: int| 0 <= j < x.len() ==> #[trigger] x[j] == r[j] * mult,
                forall|j: int| 0 <= j < i ==> r[j] * mult <= mx,
            decreases x.len() - i,
        {
            if x[i] > mx {
                assert(r[i as int] * mult > mx);
                assert(row_over(reference[k as int]@, mult, mx));
                return true;
            }
            i = i + 1;
        }
        assert(!row_over(reference[k as int]@, mult, mx));
        k = k + 1;
    }
    false
}

/// `a - b` position by position, a one-value vector standing for every position.
pub open spec fn broadcast_minus(a: Seq<i32>, b: Seq<i32>) -> Seq<i32> {
    Seq::new(broadcast_len(a.len(), b.len()), |i: int| (at(a, i) - at(b, i)) as i32)
}

/// What multiplying `reference` by `m` adds to it: `reference * m - reference`.
pub open spec fn multiple_gain(reference: Seq<i32>, m: i32) -> Seq<i32> {
    Seq::new(reference.len(), |j: int| (reference[j] * m - reference[j]) as i32)
}

/// The addit `a` rewritten to follow the multer `m` on `reference`:
/// `a - (reference * m - reference)`.
pub open spec fn m_refactored(a: Seq<i32>, reference: Seq<i32>, m: i32) -> Seq<i32> {
    broadcast_minus(a, multiple_gain(reference, m))
}

/// Can the type-a skew `s` be rewritten for the multer `m` on `reference`
/// without overflow, lengths agreeing, and its new size computed?
pub open spec fn m_refactor_fits(s: Skew, reference: Seq<i32>, m: i32) -> bool {
    &&& s.addit is Some
    &&& forall|j: int|
        0 <= j < reference.len() ==> i32::MIN <= #[trigger] reference[j] * m <= i32::MAX
            && i32::MIN <= reference[j] * m - reference[j] <= i32::MAX
    &&& compatible(s.addit.unwrap()@.len(), reference.len())
    &&& forall|i: int|
        0 <= i < broadcast_len(s.addit.unwrap()@.len(), reference.len()) ==> i32::MIN <= #[trigger] at(
            s.addit.unwrap()@,
            i,
        ) - at(multiple_gain(reference, m), i) <= i32::MAX
    &&& size_fits(None, None, Some(m_refactored(s.addit.unwrap()@, reference, m)), None)
}

/// Splits a batch of type-a skews into the type-m skew of `m` and, for
/// each skew of `sb`, a type-a skew that applied after multiplying its
/// reference vector by `m` gives what the original skew gave.
pub fn m_refactor_skew_batch_type_a(sb: Vec<Skew>, reference: Vec<Vec<i32>>, m: i32) -> (r: (
    Skew,
    Vec<Skew>,
))
    requires
        m != i32::MIN,
        reference.len() >= sb.len(),
        forall|i: int| 0 <= i < sb.len() ==> m_refactor_fits(#[trigger] sb[i], reference[i]@, m),
    ensures
        is_type_m(r.0, m),
        r.1.len() == sb.len(),
        forall|i: int|
            0 <= i < sb.len() ==> is_type_a(
                #[trigger] r.1[i],
                m_refactored(sb[i].addit.unwrap()@, reference[i]@, m),
            ),
{
    let mut sol: Vec<Skew> = Vec::new();
    let l = sb.len();
    let mut i: usize = 0;
    while i < l
        invariant
            l == sb.len(),
            reference.len() >= l,
            i <= l,
            forall|k: int| 0 <= k < sb.len() ==> m_refactor_fits(#[trigger] sb[k], reference[k]@, m),
            sol.len() == i,
            forall|k: int|
                0 <= k < i ==> is_type_a(
                    #[trigger] sol[k],
                    m_refactored(sb[k].addit.unwrap()@, reference[k]@, m),
                ),
        decreases l - i,
    {
        assert(m_refactor_fits(sb[i as int], reference[i as int]@, m));
        let r = &reference[i];
        let rm = mul_scalar(r, m);
        let r2 = arr_sub(&rm, r);
        assert(r2@ =~= multiple_gain(r@, m));
        match &sb[i].addit {
            Some(a) => {
                let a2 = arr_sub(a, &r2);
                assert(a2@ =~= m_refactored(a@, r@, m));
                let sk = build_skew(None, None, Some(a2), None, vec![2], None);
                assert(sk.ordering@ == seq![2usize]);
                assert(is_type_a(sk, m_refactored(sb[i as int].addit.unwrap()@, reference[i as int]@, m)));
                sol.push(sk);
            },
            None => {},
        }
        i = i + 1;
    }
    let sk1 = build_skew(None, Some(m), None, None, vec![1], None);
    assert(sk1.ordering@ == seq![1usize]);
    assert(sk1.skew_size == abs_int(m as int));
    (sk1, sol)
}

/// Rewriting a type-a skew for the multer `m` keeps its effect: multiplying
/// `reference` by `m` and adding the rewritten addit gives `reference`
/// plus the original addit.
pub proof fn lemma_m_refactor_keeps_value(a: Seq<i32>, reference: Seq<i32>, m: i32)
    requires
        a.len() == reference.len(),
        forall|j: int|
            0 <= j < reference.len() ==> i32::MIN <= #[trigger] reference[j] * m <= i32::MAX
                && i32::MIN <= reference[j] * m - reference[j] <= i32::MAX && i32::MIN <= a[j] - (
            reference[j] * m - reference[j]) <= i32::MAX,
        forall|j: int| 0 <= j < a.len() ==> i32::MIN <= #[trigger] reference[j] + a[j] <= i32::MAX,
    ensures
        crate::skew::plus_vec(times_const(reference, m), m_refactored(a, reference, m))
            == crate::skew::plus_vec(reference, a),
{
    let lhs = crate::skew::plus_vec(times_const(reference, m), m_refactored(a, reference, m));
    let rhs = crate::skew::plus_vec(reference, a);
    assert forall|j: int| 0 <= j < reference.len() implies lhs[j] == rhs[j] by {
        assert(reference[j] * m - reference[j] == (reference[j] * m - reference[j]) as i32);
        assert(at(a, j) == a[j]);
        assert(at(multiple_gain(reference, m), j) == reference[j] * m - reference[j]);
    }
    assert(lhs =~= rhs);
}

/// `a` with `h` taken from each value.
pub open spec fn minus_const(a: Seq<i32>, h: i32) -> Seq<i32> {
    Seq::new(a.len(), |j: int| (a[j] - h) as i32)
}

/// The total size of the type-a skews of `sb` once `h` is taken from their addits.
pub open spec fn refactor_score(sb: Seq<Skew>, h: i32) -> int
    decreases sb.len(),
{
    if sb.len() == 0 {
        0
    } else {
        refactor_score(sb.drop_last(), h) + abs_sum(minus_const(sb.last().addit.unwrap()@, h))
    }
}

/// Can `h` be taken from the addit of `s` without overflow, and the new size computed?
pub open spec fn a_refactor_fits(s: Skew, h: i32) -> bool {
    &&& s.addit is Some
    &&& forall|j: int|
        0 <= j < s.addit.unwrap()@.len() ==> i32::MIN <= #[trigger] s.addit.unwrap()@[j] - h
            <= i32::MAX
    &&& size_fits(None, None, Some(minus_const(s.addit.unwrap()@, h)), None)
}

proof fn lemma_refactor_score_nonneg_prefix(sb: Seq<Skew>, h: i32, k: int)
    requires
        0 <= k <= sb.len(),
    ensures
        0 <= refactor_score(sb.take(k), h) <= refactor_score(sb, h),
    decreases sb.len(),
{
    if k < sb.len() {
        assert(sb.drop_last().take(k) =~= sb.take(k));
        lemma_refactor_score_nonneg_prefix(sb.drop_last(), h, k);
        crate::skew::lemma_abs_sum_nonneg(minus_const(sb.last().addit.unwrap()@, h));
    } else {
        assert(sb.take(k) =~= sb);
        lemma_refactor_score_nonneg(sb, h);
    }
}

proof fn lemma_refactor_score_nonneg(sb: Seq<Skew>, h: i32)
    ensures
        refactor_score(sb, h) >= 0,
    decreases sb.len(),
{
    if sb.len() > 0 {
        lemma_refactor_score_nonneg(sb.drop_last(), h);
        crate::skew::lemma_abs_sum_nonneg(minus_const(sb.last().addit.unwrap()@, h));
    }
}

/// Splits each type-a skew of `sb` into the adder of `head` and the rest:
/// the type-a skew of its addit minus that adder.
///
/// Returns the new skews and the sum of their sizes.
pub fn refactor_skew_batch_type_a(head: Skew, sb: Vec<Skew>) -> (r: (Vec<Skew>, usize))
    requires
        head.adder is Some,
        forall|i: int| 0 <= i < sb.len() ==> a_refactor_fits(#[trigger] sb[i], head.adder.unwrap()),
        refactor_score(sb@, head.adder.unwrap()) <= usize::MAX,
    ensures
        r.0.len() == sb.len(),
        forall|i: int|
            0 <= i < sb.len() ==> is_type_a(
                #[trigger] r.0[i],
                minus_const(sb[i].addit.unwrap()@, head.adder.unwrap()),
            ),
        r.1 == refactor_score(sb@, head.adder.unwrap()),
{
    let h = match head.adder {
        Some(h) => h,
        None => 0,
    };
    let mut sol: Vec<Skew> = Vec::new();
    let mut score: usize = 0;
    let l = sb.len();
    let mut i: usize = 0;
    while i < l
        invariant
            l == sb.len(),
            i <= l,
            head.adder == Some(h),
            forall|k: int| 0 <= k < sb.len() ==> a_refactor_fits(#[trigger] sb[k], h),
            refactor_score(sb@, h) <= usize::MAX,
            sol.len() == i,
            forall|k: int|
                0 <= k < i ==> is_type_a(#[trigger] sol[k], minus_const(sb[k].addit.unwrap()@, h)),
            score == refactor_score(sb@.take(i as int), h),
        decreases l - i,
    {
        assert(a_refactor_fits(sb[i as int], h));
        proof {
            assert(sb@.take(i + 1).drop_last() =~= sb@.take(i as int));
            lemma_refactor_score_nonneg_prefix(sb@, h, i + 1);
        }
        match &sb[i].addit {
            Some(a) => {
                let a2 = sub_scalar(a, h);
                assert(a2@ =~= minus_const(a@, h));
                let sk2 = build_skew(None, None, Some(a2), None, vec![2], None);
                assert(sk2.ordering@ == seq![2usize]);
                assert(is_type_a(sk2, minus_const(sb[i as int].addit.unwrap()@, h)));
                score = score + sk2.skew_size;
                sol.push(sk2);
            },
            None => {},
        }
        i = i + 1;
    }
    assert(sb@.take(l as int) =~= sb@);
    (sol, score)
}

/// Splitting off an adder keeps a type-a skew's effect: adding `h` and then
/// the addit minus `h` gives what adding the addit gave.
pub proof fn lemma_a_refactor_keeps_value(v: Seq<i32>, a: Seq<i32>, h: i32)
    requires
        a.len() == v.len(),
        forall|j: int| 0 <= j < v.len() ==> i32::MIN <= #[trigger] v[j] + h <= i32::MAX,
        forall|j: int| 0 <= j < a.len() ==> i32::MIN <= #[trigger] a[j] - h <= i32::MAX,
        forall|j: int| 0 <= j < a.len() ==> i32::MIN <= #[trigger] v[j] + a[j] <= i32::MAX,
    ensures
        crate::skew::plus_vec(crate::skew::plus_const(v, h), minus_const(a, h))
            == crate::skew::plus_vec(v, a),
{
    let lhs = crate::skew::plus_vec(crate::skew::plus_const(v, h), minus_const(a, h));
    let rhs = crate::skew::plus_vec(v, a);
    assert forall|j: int| 0 <= j < v.len() implies lhs[j] == rhs[j] by {
        assert(v[j] + h == (v[j] + h) as i32);
        assert(a[j] - h == (a[j] - h) as i32);
    }
    assert(lhs =~= rhs);
}

/// The largest scale of the skews of `sb`, zero for none.
pub open spec fn max_scale(sb: Seq<SkewF32>) -> nat
    decreases sb.len(),
{
    if sb.len() == 0 {
        0
    } else {
        let m = max_scale(sb.drop_last());
        if sb.last().s > m {
            sb.last().s as nat
        } else {
            m
        }
    }
}

proof fn lemma_max_scale_bounds(sb: Seq<SkewF32>)
    ensures
        forall|i: int| 0 <= i < sb.len() ==> #[trigger] sb[i].s <= max_scale(sb),
        sb.len() == 0 || exists|i: int| 0 <= i < sb.len() && #[trigger] sb[i].s == max_scale(sb),
    decreases sb.len(),
{
    if sb.len() > 0 {
        lemma_max_scale_bounds(sb.drop_last());
        assert forall|i: int| 0 <= i < sb.len() implies #[trigger] sb[i].s <= max_scale(sb) by {
            if i < sb.len() - 1 {
                assert(sb.drop_last()[i] == sb[i]);
            }
        }
        if sb.last().s > max_scale(sb.drop_last()) {
            assert(sb[sb.len() - 1].s == max_scale(sb));
        } else if sb.len() == 1 {
            assert(sb[0].s == max_scale(sb));
        } else {
            let i = choose|i: int|
                0 <= i < sb.drop_last().len() && #[trigger] sb.drop_last()[i].s == max_scale(
                    sb.drop_last(),
                );
            assert(sb[i].s == max_scale(sb));
        }
    }
}

/// `10^d`, the factor that moves a skew `d` decimal places up.
pub open spec fn pow10(d: nat) -> int {
    vstd::arithmetic::power::pow(10, d)
}

/// `10^d` computed for an `i32`.
fn pow10_i32(d: usize) -> (r: i32)
    requires
        pow10(d as nat) <= i32::MAX,
    ensures
        r == pow10(d as nat),
{
    let mut r: i32 = 1;
    let mut j: usize = 0;
    proof {
        vstd::arithmetic::power::lemma_pow0(10);
    }
    while j < d
        invariant
            j <= d,
            pow10(d as nat) <= i32::MAX,
            r == pow10(j as nat),
        decreases d - j,
    {
        proof {
            vstd::arithmetic::power::lemma_pow_adds(10, j as nat, 1);
            vstd::arithmetic::power::lemma_pow1(10);
            vstd::arithmetic::power::lemma_pow_increases(10, (j + 1) as nat, d as nat);
            assert(pow10((j + 1) as nat) == pow10(j as nat) * 10);
            assert(r * 10 <= i32::MAX);
            vstd::arithmetic::power::lemma_pow_positive(10, j as nat);
        }
        r = r * 10;
        j = j + 1;
    }
    r
}

/// The factor that brings the skew at place `i` of `sb` to the largest scale.
pub open spec fn scale_factor(sb: Seq<SkewF32>, i: int) -> int {
    pow10((max_scale(sb) - sb[i].s) as nat)
}

/// Can the skew `x` of `sb` be brought to the largest scale of `sb`: is it
/// type-a, and do the factor, its scaled values and their size fit?
pub open spec fn scale_fits(sb: Seq<SkewF32>, i: int) -> bool {
    &&& sb[i].sk.addit is Some
    &&& scale_factor(sb, i) <= i32::MAX
    &&& forall|j: int|
        0 <= j < sb[i].sk.addit.unwrap()@.len() ==> i32::MIN <= #[trigger] sb[i].sk.addit.unwrap()@[j]
            * scale_factor(sb, i) <= i32::MAX
    &&& size_fits(
        None,
        None,
        Some(times_const(sb[i].sk.addit.unwrap()@, scale_factor(sb, i) as i32)),
        None,
    )
}

/// Brings every type-a skew of `sb` to the largest scale `k` of the batch:
/// the addit of a skew of scale `s` is multiplied by `10^(k - s)`.
///
/// Returns the scaled skews and `k`.
pub fn scale_skewf32_batch_type_a(sb: Vec<SkewF32>) -> (r: (Vec<Skew>, usize))
    requires
        forall|i: int| 0 <= i < sb.len() ==> #[trigger] scale_fits(sb@, i),
    ensures
        r.1 == max_scale(sb@),
        r.0.len() == sb.len(),
        forall|i: int|
            0 <= i < sb.len() ==> is_type_a(
                #[trigger] r.0[i],
                times_const(sb[i].sk.addit.unwrap()@, scale_factor(sb@, i) as i32),
            ),
{
    let l = sb.len();
    let mut sol: Vec<Skew> = Vec::new();
    if l == 0 {
        return (sol, 0);
    }
    let mut k: usize = 0;
    let mut i: usize = 0;
    while i < l
        invariant
            l == sb.len(),
            i <= l,
            k == max_scale(sb@.take(i as int)),
        decreases l - i,
    {
        assert(sb@.take(i + 1).drop_last() =~= sb@.take(i as int));
        if sb[i].s > k {
            k = sb[i].s;
        }
        i = i + 1;
    }
    assert(sb@.take(l as int) =~= sb@);
    proof {
        lemma_max_scale_bounds(sb@);
    }
    let mut i: usize = 0;
    while i < l
        invariant
            l == sb.len(),
            i <= l,
            k == max_scale(sb@),
            forall|j: int| 0 <= j < sb.len() ==> #[trigger] sb[j].s <= max_scale(sb@),
            forall|j: int| 0 <= j < sb.len() ==> #[trigger] scale_fits(sb@, j),
            sol.len() == i,
            forall|j: int|
                0 <= j < i ==> is_type_a(
                    #[trigger] sol[j],
                    times_const(sb[j].sk.addit.unwrap()@, scale_factor(sb@, j) as i32),
                ),
        decreases l - i,
    {
        assert(scale_fits(sb@, i as int));
        assert(sb[i as int].s <= k);
        let d = k - sb[i].s;
        let x = pow10_i32(d);
        match &sb[i].sk.addit {
            Some(a) => {
                let r2 = mul_scalar(a, x);
                assert(r2@ =~= times_const(a@, x));
                let s2 = build_skew(None, None, Some(r2), None, vec![2], None);
                assert(s2.ordering@ == seq![2usize]);
                assert(is_type_a(s2, times_const(sb[i as int].sk.addit.unwrap()@, scale_factor(sb@, i as int) as i32)));
                sol.push(s2);
            },
            None => {},
        }
        i = i + 1;
    }
    (sol, k)
}

/// Each skew of `sk` read at the scale `bs`.
pub fn skew_to_skewf32_batch_type_a(sk: Vec<Skew>, bs: usize) -> (r: Vec<SkewF32>)
    ensures
        r.len() == sk.len(),
        forall|i: int| 0 <= i < sk.len() ==> #[trigger] r[i] == (SkewF32 { sk: sk[i], s: bs }),
{
    let mut sol: Vec<SkewF32> = Vec::new();
    let ghost orig = sk@;
    let mut rest = sk;
    let n = rest.len();
    let mut i: usize = 0;
    while i < n
        invariant
            n == orig.len(),
            i <= n,
            rest@ == orig.skip(i as int),
            sol.len() == i,
            forall|j: int| 0 <= j < i ==> #[trigger] sol[j] == (SkewF32 { sk: orig[j], s: bs }),
        decreases n - i,
    {
        let s = rest.remove(0);
        sol.push(SkewF32 { sk: s, s: bs });
        assert(rest@ =~= orig.skip(i + 1));
        i = i + 1;
    }
    sol
}

/// The values of the addits of `sb`, one skew after the other.
pub open spec fn collected(sb: Seq<Skew>) -> Seq<i32>
    decreases sb.len(),
{
    if sb.len() == 0 {
        Seq::empty()
    } else {
        collected(sb.drop_last()) + sb.last().addit.unwrap()@
    }
}

/// The value of least magnitude in `s`, the later one among equals;
/// `i32::MAX` for an empty `s`.
pub open spec fn least_magnitude(s: Seq<i32>) -> i32
    decreases s.len(),
{
    if s.len() == 0 {
        i32::MAX
    } else {
        let a = least_magnitude(s.drop_last());
        if abs_int(a as int) < abs_int(s.last() as int) {
            a
        } else {
            s.last()
        }
    }
}

/// The value of greatest magnitude in `s`, the later one among equals;
/// zero for an empty `s`.
pub open spec fn greatest_magnitude(s: Seq<i32>) -> i32
    decreases s.len(),
{
    if s.len() == 0 {
        0
    } else {
        let a = greatest_magnitude(s.drop_last());
        if abs_int(a as int) > abs_int(s.last() as int) {
            a
        } else {
            s.last()
        }
    }
}

/// `sum / n` rounded to the nearest integer, halves away from zero; zero
/// where `n` is zero.
pub open spec fn rounded_mean(sum: int, n: int) -> int {
    if n <= 0 {
        0
    } else if sum >= 0 {
        (2 * sum + n) / (2 * n)
    } else {
        -((-2 * sum + n) / (2 * n))
    }
}

/// Do the running sums of `s` stay within `i32`?
pub open spec fn running_sums_fit(s: Seq<i32>) -> bool {
    forall|k: int| 0 <= k <= s.len() ==> i32::MIN <= #[trigger] seq_sum(s.take(k)) <= i32::MAX
}

proof fn lemma_rounded_mean_bound(s: int, n: int)
    requires
        n >= 1,
        s >= 0,
    ensures
        0 <= (2 * s + n) / (2 * n) <= s,
{
    let q = (2 * s + n) / (2 * n);
    let r = (2 * s + n) % (2 * n);
    vstd::arithmetic::div_mod::lemma_fundamental_div_mod(2 * s + n, 2 * n);
    vstd::arithmetic::div_mod::lemma_div_pos_is_pos(2 * s + n, 2 * n);
    assert(q <= s) by (nonlinear_arith)
        requires
            2 * s + n == 2 * n * q + r,
            0 <= r < 2 * n,
            n >= 1,
            s >= 0,
    ;
}

/// `sum / n` rounded half away from zero.
fn mean_rounded(sum: i32, n: usize) -> (r: i32)
    ensures
        r == rounded_mean(sum as int, n as int),
{
    if n == 0 {
        return 0;
    }
    let nn: i128 = n as i128;
    if sum >= 0 {
        let num: i128 = 2 * (sum as i128) + nn;
        let q: i128 = num / (2 * nn);
        proof {
            lemma_rounded_mean_bound(sum as int, n as int);
        }
        q as i32
    } else {
        let neg: i128 = -(sum as i128);
        let num: i128 = 2 * neg + nn;
        let q: i128 = num / (2 * nn);
        proof {
            lemma_rounded_mean_bound(-(sum as int), n as int);
        }
        let r: i128 = -q;
        r as i32
    }
}

/// The addit values of a type-a batch: the one of least magnitude, the one
/// of greatest magnitude (each the later among equals) and their mean
/// rounded half away from zero.
///
/// The mean is rounded exactly: dividing the sum in `f32` can give another
/// value once the sum or the count exceeds `2^24`.
pub fn min_max_mean_of_skew_batch_type_a(sb: Vec<Skew>) -> (r: (i32, i32, i32))
    requires
        sb.len() > 0,
        forall|i: int| 0 <= i < sb.len() ==> (#[trigger] sb[i]).addit is Some,
        forall|j: int|
            0 <= j < collected(sb@).len() ==> #[trigger] collected(sb@)[j] != i32::MIN,
        running_sums_fit(collected(sb@)),
    ensures
        r.0 == least_magnitude(collected(sb@)),
        r.1 == greatest_magnitude(collected(sb@)),
        r.2 == rounded_mean(seq_sum(collected(sb@)), collected(sb@).len() as int),
{
    let mut coll: Vec<i32> = Vec::new();
    let n = sb.len();
    let mut i: usize = 0;
    while i < n
        invariant
            n == sb.len(),
            i <= n,
            forall|k: int| 0 <= k < sb.len() ==> (#[trigger] sb[k]).addit is Some,
            coll@ == collected(sb@.take(i as int)),
        decreases n - i,
    {
        assert(sb@.take(i + 1).drop_last() =~= sb@.take(i as int));
        assert(sb[i as int].addit is Some);
        match &sb[i].addit {
            Some(a) => {
                let ghost before = coll@;
                let mut j: usize = 0;
                while j < a.len()
                    invariant
                        j <= a.len(),
                        coll@ == before + a@.take(j as int),
                    decreases a.len() - j,
                {
                    coll.push(a[j]);
                    assert(a@.take(j + 1) =~= a@.take(j as int).push(a@[j as int]));
                    j = j + 1;
                }
                assert(a@.take(a.len() as int) =~= a@);
            },
            None => {},
        }
        i = i + 1;
    }
    assert(sb@.take(n as int) =~= sb@);
    let l = coll.len();
    let mut m1: i32 = i32::MAX;
    let mut m4: i32 = 0;
    let mut total: i32 = 0;
    let mut k: usize = 0;
    while k < l
        invariant
            l == coll.len(),
            k <= l,
            forall|j: int| 0 <= j < coll.len() ==> #[trigger] coll@[j] != i32::MIN,
            running_sums_fit(coll@),
            m1 == least_magnitude(coll@.take(k as int)),
            m4 == greatest_magnitude(coll@.take(k as int)),
            total == seq_sum(coll@.take(k as int)),
        decreases l - k,
    {
        let ghost t = coll@.take(k + 1);
        assert(t.drop_last() =~= coll@.take(k as int));
        assert(t.last() == coll@[k as int]);
        let x = coll[k];
        let ax: i32 = if x < 0 { -x } else { x };
        let a1: i32 = if m1 < 0 {
            if m1 == i32::MIN { i32::MAX } else { -m1 }
        } else { m1 };
        proof {
            lemma_least_magnitude_not_min(coll@.take(k as int));
            lemma_greatest_magnitude_not_min(coll@.take(k as int));
        }
        if !(a1 < ax) {
            m1 = x;
        }
        let a4: i32 = if m4 < 0 { -m4 } else { m4 };
        if !(a4 > ax) {
            m4 = x;
        }
        assert(seq_sum(t) == seq_sum(coll@.take(k as int)) + x);
        total = total + x;
        k = k + 1;
    }
    assert(coll@.take(l as int) =~= coll@);
    let mn = mean_rounded(total, l);
    (m1, m4, mn)
}

proof fn lemma_least_magnitude_not_min(s: Seq<i32>)
    requires
        forall|j: int| 0 <= j < s.len() ==> #[trigger] s[j] != i32::MIN,
    ensures
        least_magnitude(s) != i32::MIN,
    decreases s.len(),
{
    if s.len() > 0 {
        lemma_least_magnitude_not_min(s.drop_last());
    }
}

proof fn lemma_greatest_magnitude_not_min(s: Seq<i32>)
    requires
        forall|j: int| 0 <= j < s.len() ==> #[trigger] s[j] != i32::MIN,
    ensures
        greatest_magnitude(s) != i32::MIN,
    decreases s.len(),
{
    if s.len() > 0 {
        lemma_greatest_magnitude_not_min(s.drop_last());
    }
}

/// The type-a skew of `a`.
pub fn type_a_skew(a: Vec<i32>) -> (s: Skew)
    requires
        abs_sum(a@) <= i32::MAX,
    ensures
        is_type_a(s, a@),
{
    proof {
        crate::skew::lemma_abs_sum_nonneg(a@);
    }
    let s = build_skew(None, None, Some(a), None, vec![2], None);
    assert(s.ordering@ == seq![2usize]);
    s
}

/// A batch of three type-a skews at the scales 3, 5 and 1.
pub fn afactor_test_case_1() -> (r: Vec<SkewF32>)
    ensures
        r.len() == 3,
        is_type_a(r[0].sk, seq![10, 12, 24, 16, 48]) && r[0].s == 3,
        is_type_a(r[1].sk, seq![40, 400, 23, -412i32]) && r[1].s == 5,
        is_type_a(r[2].sk, seq![13, 3, 1, -23i32, 20]) && r[2].s == 1,
{
    let a1: Vec<i32> = vec![10, 12, 24, 16, 48];
    assert(a1@ =~= seq![10i32, 12, 24, 16, 48]);
    assert(abs_sum(seq![10i32, 12, 24, 16, 48]) == 110) by {
        reveal_with_fuel(abs_sum, 6);
    }
    let s1 = type_a_skew(a1);
    let a2: Vec<i32> = vec![40, 400, 23, -412];
    assert(a2@ =~= seq![40i32, 400, 23, -412i32]);
    assert(abs_sum(seq![40i32, 400, 23, -412i32]) == 875) by {
        reveal_with_fuel(abs_sum, 6);
    }
    let s2 = type_a_skew(a2);
    let a3: Vec<i32> = vec![13, 3, 1, -23, 20];
    assert(a3@ =~= seq![13i32, 3, 1, -23i32, 20]);
    assert(abs_sum(seq![13i32, 3, 1, -23i32, 20]) == 60) by {
        reveal_with_fuel(abs_sum, 6);
    }
    let s3 = type_a_skew(a3);
    vec![SkewF32 { sk: s1, s: 3 }, SkewF32 { sk: s2, s: 5 }, SkewF32 { sk: s3, s: 1 }]
}

/// Four type-a skews and their reference vectors.
pub fn mfactor_test_case_1() -> (r: (Vec<Skew>, Vec<Vec<i32>>))
    ensures
        r.0.len() == 4,
        is_type_a(r.0[0], seq![32, 20, 26, 3, 81]),
        is_type_a(r.0[1], seq![9, 9, 9, 9]),
        is_type_a(r.0[2], seq![45, 47]),
        is_type_a(r.0[3], seq![10, 11, 12, 13]),
        r.1.len() == 4,
        r.1[0]@ == seq![1i32, 3, 4, 15, 20],
        r.1[1]@ == seq![4i32, 5, 15, 16],
        r.1[2]@ == seq![22i32, 12],
        r.1[3]@ == seq![1i32, 2, 1, 2],
{
    let a1: Vec<i32> = vec![32, 20, 26, 3, 81];
    assert(a1@ =~= seq![32i32, 20, 26, 3, 81]);
    assert(abs_sum(seq![32i32, 20, 26, 3, 81]) == 162) by {
        reveal_with_fuel(abs_sum, 6);
    }
    let s1 = type_a_skew(a1);
    let a2: Vec<i32> = vec![9, 9, 9, 9];
    assert(a2@ =~= seq![9i32, 9, 9, 9]);
    assert(abs_sum(seq![9i32, 9, 9, 9]) == 36) by {
        reveal_with_fuel(abs_sum, 6);
    }
    let s2 = type_a_skew(a2);
    let a3: Vec<i32> = vec![45, 47];
    assert(a3@ =~= seq![45i32, 47]);
    assert(abs_sum(seq![45i32, 47]) == 92) by {
        reveal_with_fuel(abs_sum, 6);
    }
    let s3 = type_a_skew(a3);
    let a4: Vec<i32> = vec![10, 11, 12, 13];
    assert(a4@ =~= seq![10i32, 11, 12, 13]);
    assert(abs_sum(seq![10i32, 11, 12, 13]) == 46) by {
        reveal_with_fuel(abs_sum, 6);
    }
    let s4 = type_a_skew(a4);
    let v1: Vec<i32> = vec![1, 3, 4, 15, 20];
    let v2: Vec<i32> = vec![4, 5, 15, 16];
    let v3: Vec<i32> = vec![22, 12];
    let v4: Vec<i32> = vec![1, 2, 1, 2];
    (vec![s1, s2, s3, s4], vec![v1, v2, v3, v4])
}

/// The batch that refactoring the fifth sample batch with the adder 10 gives.
pub fn batch_5_a_refactor__10__soln() -> (r: Vec<SkewF32>)
    ensures
        r.len() == 3,
        is_type_a(r[0].sk, seq![0, 200000, 0, 200000, 0]) && r[0].s == 5,
        is_type_a(r[1].sk, seq![0, 200000, 800000, 1100000, 0]) && r[1].s == 5,
        is_type_a(r[2].sk, seq![0, 2000000, 600000, 200000, 400000]) && r[2].s == 5,
{
    let a1: Vec<i32> = vec![0, 200000, 0, 200000, 0];
    assert(a1@ =~= seq![0i32, 200000, 0, 200000, 0]);
    assert(abs_sum(seq![0i32, 200000, 0, 200000, 0]) == 400000) by {
        reveal_with_fuel(abs_sum, 6);
    }
    let s1 = type_a_skew(a1);
    let a2: Vec<i32> = vec![0, 200000, 800000, 1100000, 0];
    assert(a2@ =~= seq![0i32, 200000, 800000, 1100000, 0]);
    assert(abs_sum(seq![0i32, 200000, 800000, 1100000, 0]) == 2100000) by {
        reveal_with_fuel(abs_sum, 6);
    }
    let s2 = type_a_skew(a2);
    let a3: Vec<i32> = vec![0, 2000000, 600000, 200000, 400000];
    assert(a3@ =~= seq![0i32, 2000000, 600000, 200000, 400000]);
    assert(abs_sum(seq![0i32, 2000000, 600000, 200000, 400000]) == 3200000) by {
        reveal_with_fuel(abs_sum, 6);
    }
    let s3 = type_a_skew(a3);
    vec![SkewF32 { sk: s1, s: 5 }, SkewF32 { sk: s2, s: 5 }, SkewF32 { sk: s3, s: 5 }]
}

} // verus!
