//! Measures on integer bounds `(start, end)`: values are read on the
//! bounds as on a circle, so that going past one end comes back in at
//! the other.
use vstd::prelude::*;
use crate::arrops::abs_int;

verus! {

/// Is `f` within the bounds `[b0, b1]`?
pub open spec fn within(b0: int, b1: int, f: int) -> bool {
    b0 <= f <= b1
}

/// `f` brought into the bounds `[b0, b1]` by whole turns of their length:
/// unchanged where it is within them or where it is a whole number of
/// turns away from the end it passed.
pub open spec fn calibrated(b0: int, b1: int, f: int) -> int {
    if within(b0, b1, f) {
        f
    } else if f < b0 {
        let r = (b0 - f) % (b1 - b0);
        if r == 0 {
            f
        } else {
            b1 - r
        }
    } else {
        let r = (f - b1) % (b1 - b0);
        if r == 0 {
            f
        } else {
            b0 + r
        }
    }
}

/// The signed distance from `p0` to `p1` on the bounds: forward where that
/// is shorter than going around the ends, else minus the way around.
pub open spec fn bdistance(p0: int, p1: int, b0: int, b1: int) -> int {
    let d = p1 - p0;
    let d2 = (b1 - p1) + (p0 - b0);
    if d < d2 {
        d
    } else {
        -d2
    }
}

/// `f` brought into the bounds `b` (for `f` within them or bounds of positive length).
fn calibrate_i64(b0: i64, b1: i64, f: i64) -> (r: i64)
    requires
        b0 <= b1,
        within(b0 as int, b1 as int, f as int) || b0 < b1,
        -0x1_0000_0000 <= b0 <= 0x1_0000_0000,
        -0x1_0000_0000 <= b1 <= 0x1_0000_0000,
        -0x1_0000_0000 <= f <= 0x1_0000_0000,
    ensures
        r == calibrated(b0 as int, b1 as int, f as int),
{
    if b0 <= f && f <= b1 {
        return f;
    }
    let bl = b1 - b0;
    if f < b0 {
        let r = (b0 - f) % bl;
        if r == 0 {
            f
        } else {
            b1 - r
        }
    } else {
        let r = (f - b1) % bl;
        if r == 0 {
            f
        } else {
            b0 + r
        }
    }
}

proof fn lemma_calibrated_range(b0: int, b1: int, f: int)
    requires
        b0 <= b1,
        within(b0, b1, f) || b0 < b1,
    ensures
        within(b0, b1, calibrated(b0, b1, f)) || calibrated(b0, b1, f) == f,
{
    if !within(b0, b1, f) {
        if f < b0 {
            vstd::arithmetic::div_mod::lemma_mod_bound(b0 - f, b1 - b0);
        } else {
            vstd::arithmetic::div_mod::lemma_mod_bound(f - b1, b1 - b0);
        }
    }
}

/// Each value of `v1` brought into the bounds `b`.
pub fn calibrate_arr1_i32_in_bounds(v1: Vec<i32>, b: (i32, i32)) -> (r: Vec<i32>)
    requires
        b.0 <= b.1,
        b.0 < b.1 || forall|i: int| 0 <= i < v1.len() ==> within(b.0 as int, b.1 as int, #[trigger] v1[i] as int),
    ensures
        r.len() == v1.len(),
        forall|i: int| 0 <= i < v1.len() ==> #[trigger] r[i] == calibrated(b.0 as int, b.1 as int, v1[i] as int),
{
    let mut f: Vec<i32> = Vec::new();
    let n = v1.len();
    let mut i: usize = 0;
    while i < n
        invariant
            n == v1.len(),
            i <= n,
            b.0 <= b.1,
            b.0 < b.1 || forall|k: int| 0 <= k < v1.len() ==> within(b.0 as int, b.1 as int, #[trigger] v1[k] as int),
            f.len() == i,
            forall|k: int| 0 <= k < i ==> #[trigger] f[k] == calibrated(b.0 as int, b.1 as int, v1[k] as int),
        decreases n - i,
    {
        let v = v1[i];
        proof {
            lemma_calibrated_range(b.0 as int, b.1 as int, v as int);
        }
        let x = calibrate_i64(b.0 as i64, b.1 as i64, v as i64);
        f.push(x as i32);
        i = i + 1;
    }
    f
}

/// The signed distance on the bounds `b` from `p0` to `p1`, both within them.
fn bdistance_i64(p0: i64, p1: i64, b0: i64, b1: i64) -> (r: i64)
    requires
        within(b0 as int, b1 as int, p0 as int),
        within(b0 as int, b1 as int, p1 as int),
        -0x1_0000_0000 <= b0 <= 0x1_0000_0000,
        -0x1_0000_0000 <= b1 <= 0x1_0000_0000,
    ensures
        r == bdistance(p0 as int, p1 as int, b0 as int, b1 as int),
{
    let d = p1 - p0;
    let d2 = (b1 - p1) + (p0 - b0);
    if d < d2 {
        d
    } else {
        -d2
    }
}

/// The sum of the magnitudes of the distances on `b` from each value of `v` to `f`.
pub open spec fn total_bdistance(v: Seq<i32>, f: int, b0: int, b1: int) -> int
    decreases v.len(),
{
    if v.len() == 0 {
        0
    } else {
        total_bdistance(v.drop_last(), f, b0, b1) + abs_int(bdistance(v.last() as int, f, b0, b1))
    }
}

proof fn lemma_total_bdistance_prefix(v: Seq<i32>, f: int, b0: int, b1: int, k: int)
    requires
        0 <= k <= v.len(),
    ensures
        0 <= total_bdistance(v.take(k), f, b0, b1) <= total_bdistance(v, f, b0, b1),
    decreases v.len(),
{
    if k < v.len() {
        assert(v.drop_last().take(k) =~= v.take(k));
        lemma_total_bdistance_prefix(v.drop_last(), f, b0, b1, k);
    } else {
        assert(v.take(k) =~= v);
        lemma_total_bdistance_nonneg(v, f, b0, b1);
    }
}

proof fn lemma_total_bdistance_nonneg(v: Seq<i32>, f: int, b0: int, b1: int)
    ensures
        total_bdistance(v, f, b0, b1) >= 0,
    decreases v.len(),
{
    if v.len() > 0 {
        lemma_total_bdistance_nonneg(v.drop_last(), f, b0, b1);
    }
}

/// The sum of the magnitudes of the distances on the bounds `b` from each
/// value of `v1` to `f`.
pub fn abs_arr1_bdistance(v1: Vec<i32>, f: i32, b: (i32, i32)) -> (r: usize)
    requires
        within(b.0 as int, b.1 as int, f as int),
        forall|i: int| 0 <= i < v1.len() ==> within(b.0 as int, b.1 as int, #[trigger] v1[i] as int),
        total_bdistance(v1@, f as int, b.0 as int, b.1 as int) <= usize::MAX,
    ensures
        r == total_bdistance(v1@, f as int, b.0 as int, b.1 as int),
{
    let mut s: usize = 0;
    let n = v1.len();
    let mut i: usize = 0;
    while i < n
        invariant
            n == v1.len(),
            i <= n,
            within(b.0 as int, b.1 as int, f as int),
            forall|k: int| 0 <= k < v1.len() ==> within(b.0 as int, b.1 as int, #[trigger] v1[k] as int),
            total_bdistance(v1@, f as int, b.0 as int, b.1 as int) <= usize::MAX,
            s == total_bdistance(v1@.take(i as int), f as int, b.0 as int, b.1 as int),
        decreases n - i,
    {
        proof {
            assert(v1@.take(i + 1).drop_last() =~= v1@.take(i as int));
            lemma_total_bdistance_prefix(v1@, f as int, b.0 as int, b.1 as int, i + 1);
        }
        let d = bdistance_i64(v1[i] as i64, f as i64, b.0 as i64, b.1 as i64);
        let a: i64 = if d < 0 { -d } else { d };
        s = s + a as usize;
        i = i + 1;
    }
    assert(v1@.take(n as int) =~= v1@);
    s
}

/// What takes `v` to `li` going up on the bounds `b`.
pub open spec fn up_add(v: int, b0: int, b1: int, li: int) -> int {
    if v > li {
        b1 - v + li - b0
    } else {
        li - v
    }
}

/// What takes `v` to `li` going down on the bounds `b`.
pub open spec fn down_add(v: int, b0: int, b1: int, li: int) -> int {
    if v > li {
        li - v
    } else {
        -(v - b0 + b1 - li)
    }
}

/// Can both additions for each value of `v1` be computed in `i32`?
pub open spec fn adds_fit(v1: Seq<i32>, b0: int, b1: int, li: int) -> bool {
    forall|i: int|
        0 <= i < v1.len() ==> {
            &&& i32::MIN <= #[trigger] up_add(v1[i] as int, b0, b1, li) <= i32::MAX
            &&& i32::MIN <= down_add(v1[i] as int, b0, b1, li) <= i32::MAX
            &&& (v1[i] > li ==> i32::MIN <= b1 - v1[i] <= i32::MAX && i32::MIN <= b1 - v1[i] + li
                <= i32::MAX)
            &&& (v1[i] <= li ==> i32::MIN <= v1[i] - b0 <= i32::MAX && i32::MIN <= v1[i] - b0 + b1
                <= i32::MAX && i32::MIN <= v1[i] - b0 + b1 - li <= i32::MAX)
        }
}

/// For each value of `v1`, the addition that takes it up to `li` and the one
/// that takes it down to `li`, going around the ends of the bounds `b`.
pub fn pos_neg_add_vecs_target_i32(v1: Vec<i32>, b: (i32, i32), li: i32) -> (r: (Vec<i32>, Vec<i32>))
    requires
        adds_fit(v1@, b.0 as int, b.1 as int, li as int),
    ensures
        r.0.len() == v1.len(),
        r.1.len() == v1.len(),
        forall|i: int| 0 <= i < v1.len() ==> #[trigger] r.0[i] == up_add(v1[i] as int, b.0 as int, b.1 as int, li as int),
        forall|i: int| 0 <= i < v1.len() ==> #[trigger] r.1[i] == down_add(v1[i] as int, b.0 as int, b.1 as int, li as int),
{
    let mut pv: Vec<i32> = Vec::new();
    let mut nv: Vec<i32> = Vec::new();
    let n = v1.len();
    let mut i: usize = 0;
    while i < n
        invariant
            n == v1.len(),
            i <= n,
            adds_fit(v1@, b.0 as int, b.1 as int, li as int),
            pv.len() == i,
            nv.len() == i,
            forall|k: int| 0 <= k < i ==> #[trigger] pv[k] == up_add(v1[k] as int, b.0 as int, b.1 as int, li as int),
            forall|k: int| 0 <= k < i ==> #[trigger] nv[k] == down_add(v1[k] as int, b.0 as int, b.1 as int, li as int),
        decreases n - i,
    {
        let v = v1[i];
        assert(i32::MIN <= up_add(v1[i as int] as int, b.0 as int, b.1 as int, li as int) <= i32::MAX);
        if v > li {
            pv.push(b.1 - v + li - b.0);
            nv.push(li - v);
        } else {
            pv.push(li - v);
            nv.push(-(v - b.0 + b.1 - li));
        }
        i = i + 1;
    }
    (pv, nv)
}

/// The cheaper of the two additions: the one of smaller magnitude, the
/// downward one where they tie.
pub open spec fn cheapest_add(v: int, b0: int, b1: int, li: int) -> int {
    let p = up_add(v, b0, b1, li);
    let q = down_add(v, b0, b1, li);
    if abs_int(p) < abs_int(q) {
        p
    } else {
        q
    }
}

/// For each value of `v1`, the cheaper of the additions that take it to
/// `li` on the bounds `b`.
pub fn bounded_cheapest_add_target_i32_(v1: Vec<i32>, b: (i32, i32), li: i32) -> (r: Vec<i32>)
    requires
        adds_fit(v1@, b.0 as int, b.1 as int, li as int),
        forall|i: int|
            0 <= i < v1.len() ==> up_add(#[trigger] v1[i] as int, b.0 as int, b.1 as int, li as int)
                != i32::MIN && down_add(v1[i] as int, b.0 as int, b.1 as int, li as int) != i32::MIN,
    ensures
        r.len() == v1.len(),
        forall|i: int| 0 <= i < v1.len() ==> #[trigger] r[i] == cheapest_add(v1[i] as int, b.0 as int, b.1 as int, li as int),
{
    let (x1, x2) = pos_neg_add_vecs_target_i32(v1, b, li);
    let mut sol: Vec<i32> = Vec::new();
    let l = x1.len();
    let mut i: usize = 0;
    while i < l
        invariant
            l == x1.len(),
            l == x2.len(),
            l == v1.len(),
            i <= l,
            forall|k: int| 0 <= k < l ==> #[trigger] x1[k] == up_add(v1[k] as int, b.0 as int, b.1 as int, li as int),
            forall|k: int| 0 <= k < l ==> #[trigger] x2[k] == down_add(v1[k] as int, b.0 as int, b.1 as int, li as int),
            forall|k: int|
                0 <= k < v1.len() ==> up_add(#[trigger] v1[k] as int, b.0 as int, b.1 as int, li as int)
                    != i32::MIN && down_add(v1[k] as int, b.0 as int, b.1 as int, li as int) != i32::MIN,
            sol.len() == i,
            forall|k: int| 0 <= k < i ==> #[trigger] sol[k] == cheapest_add(v1[k] as int, b.0 as int, b.1 as int, li as int),
        decreases l - i,
    {
        let p = x1[i];
        let q = x2[i];
        assert(p != i32::MIN && q != i32::MIN);
        let ap: i32 = if p < 0 { -p } else { p };
        let aq: i32 = if q < 0 { -q } else { q };
        if ap < aq {
            sol.push(p);
        } else {
            sol.push(q);
        }
        i = i + 1;
    }
    sol
}

/// The cheapest addition reaches its target: for a value `v` within the
/// bounds and a target `li` strictly inside them, `v` plus the cheaper
/// addition, brought into the bounds, is `li`.
pub proof fn lemma_cheapest_add_reaches_target(v: int, b0: int, b1: int, li: int)
    requires
        b0 <= v <= b1,
        b0 < li < b1,
    ensures
        calibrated(b0, b1, v + cheapest_add(v, b0, b1, li)) == li,
{
    let bl = b1 - b0;
    let f = v + cheapest_add(v, b0, b1, li);
    if v > li {
        if f != li {
            // the upward addition takes v past b1 by li - b0
            assert(f == li + bl);
            vstd::arithmetic::div_mod::lemma_small_mod((li - b0) as nat, bl as nat);
        }
    } else {
        if f != li {
            // the downward addition takes v below b0 by b1 - li
            assert(f == li - bl);
            vstd::arithmetic::div_mod::lemma_small_mod((b1 - li) as nat, bl as nat);
        }
    }
}

/// Sample values, bounds and target.
pub fn test_sample_bmeas_info_2() -> (r: (Vec<i32>, (i32, i32), i32))
    ensures
        r.0@ == seq![1i32, 100, 112, 314],
        r.1 == (-20i32, 400i32),
        r.2 == 60,
{
    let x: Vec<i32> = vec![1, 100, 112, 314];
    let b: (i32, i32) = (-20, 400);
    let l: i32 = 60;
    (x, b, l)
}

} // verus!
