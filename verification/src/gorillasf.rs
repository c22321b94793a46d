//! Euclid's algorithm as a sequence of (multiple, additive) pairs.
use vstd::prelude::*;
use crate::arrops::abs_int;

verus! {

/// `a / b` rounded toward zero.
pub open spec fn tquot(a: int, b: int) -> int {
    let q = abs_int(a) / abs_int(b);
    if (a < 0) != (b < 0) {
        -q
    } else {
        q
    }
}

/// The additive of a division rounded toward zero is smaller in magnitude
/// than the divisor.
pub proof fn lemma_trem(v: int, u: int)
    requires
        u != 0,
    ensures
        abs_int(v - tquot(v, u) * u) == abs_int(v) % abs_int(u),
        abs_int(v) % abs_int(u) < abs_int(u),
        abs_int(tquot(v, u) * u) <= abs_int(v),
{
    let av = abs_int(v);
    let au = abs_int(u);
    let q = av / au;
    let r = av % au;
    vstd::arithmetic::div_mod::lemma_fundamental_div_mod(av, au);
    vstd::arithmetic::div_mod::lemma_mod_bound(av, au);
    vstd::arithmetic::div_mod::lemma_div_pos_is_pos(av, au);
    assert(av == au * q + r);
    assert(q * au >= 0) by (nonlinear_arith)
        requires
            q >= 0,
            au > 0,
    ;
    if (v < 0) != (u < 0) {
        assert(tquot(v, u) * u == -(q * u)) by (nonlinear_arith)
            requires
                tquot(v, u) == -q,
        ;
    } else {
        assert(tquot(v, u) * u == q * u);
    }
    if u < 0 {
        assert(q * u == -(q * au)) by (nonlinear_arith)
            requires
                au == -u,
        ;
    } else {
        assert(q * u == q * au);
    }
    assert(au * q == q * au) by (nonlinear_arith);
}

/// Euclid's algorithm on `v` by `u`: the multiple and the additive of each
/// division, `v = c * u + e`, continued on `u` by `e` until a multiple or
/// an additive is zero.
pub open spec fn euclid_seq(v: int, u: int) -> (Seq<int>, Seq<int>)
    decreases abs_int(u),
    when u != 0
{
    let c = tquot(v, u);
    let e = v - c * u;
    if c == 0 || e == 0 {
        (seq![c], seq![e])
    } else {
        proof {
            lemma_trem(v, u);
        }
        let r = euclid_seq(u, e);
        (seq![c] + r.0, seq![e] + r.1)
    }
}

/// The two sequences of Euclid's algorithm have the same length, at least one.
pub proof fn lemma_euclid_equal_lengths(v: int, u: int)
    requires
        u != 0,
    ensures
        euclid_seq(v, u).0.len() == euclid_seq(v, u).1.len(),
        euclid_seq(v, u).0.len() >= 1,
    decreases abs_int(u),
{
    let c = tquot(v, u);
    let e = v - c * u;
    if !(c == 0 || e == 0) {
        lemma_trem(v, u);
        lemma_euclid_equal_lengths(u, e);
    }
}

/// The values of `s` as integers.
pub open spec fn ints(s: Seq<i32>) -> Seq<int> {
    s.map_values(|x: i32| x as int)
}

/// `a / b` rounded toward zero, as `i32` division gives it.
fn tdiv(a: i32, b: i32) -> (q: i32)
    requires
        b != 0,
        !(a == i32::MIN && b == -1),
    ensures
        q == tquot(a as int, b as int),
{
    let na: i64 = if a < 0 { -(a as i64) } else { a as i64 };
    let nb: i64 = if b < 0 { -(b as i64) } else { b as i64 };
    let q: i64 = na / nb;
    proof {
        vstd::arithmetic::div_mod::lemma_div_is_ordered_by_denominator(na as int, 1, nb as int);
        vstd::arithmetic::div_mod::lemma_div_pos_is_pos(na as int, nb as int);
        if nb >= 2 {
            vstd::arithmetic::div_mod::lemma_div_is_ordered_by_denominator(na as int, 2, nb as int);
        }
    }
    if (a < 0) != (b < 0) {
        let r: i64 = -q;
        r as i32
    } else {
        q as i32
    }
}

/// Euclid's algorithm on `v` by `u`: the multiples and the additives of
/// the successive divisions, as two vectors of equal length.
pub fn euclids_sequence(u: i32, v: i32) -> (r: (Vec<i32>, Vec<i32>))
    requires
        u != 0,
        !(v == i32::MIN && u == -1),
    ensures
        ints(r.0@) == euclid_seq(v as int, u as int).0,
        ints(r.1@) == euclid_seq(v as int, u as int).1,
        r.0.len() == r.1.len(),
        r.0.len() >= 1,
{
    let ghost full = euclid_seq(v as int, u as int);
    proof {
        lemma_trem(v as int, u as int);
        lemma_euclid_equal_lengths(v as int, u as int);
    }
    let mut c: i32 = tdiv(v, u);
    let mut e: i32 = v - c * u;
    let mut sol1: Vec<i32> = vec![c];
    let mut sol2: Vec<i32> = vec![e];
    let mut v_: i32 = u;
    let mut u_: i32 = e;
    proof {
        if c != 0 && e != 0 {
            assert(full.0 == seq![c as int] + euclid_seq(v_ as int, u_ as int).0);
            assert(ints(sol1@) =~= seq![c as int]);
            assert(ints(sol2@) =~= seq![e as int]);
            if u == i32::MIN {
                // a non-zero multiple of i32::MIN leaves no additive
                assert(abs_int(v as int) >= abs_int(u as int));
            }
            assert(abs_int(e as int) < abs_int(u as int));
        } else {
            assert(ints(sol1@) =~= full.0);
            assert(ints(sol2@) =~= full.1);
        }
    }
    while c != 0 && e != 0
        invariant
            c != 0 && e != 0 ==> {
                &&& u_ != 0
                &&& u_ != i32::MIN
                &&& v_ != i32::MIN
                &&& ints(sol1@) + euclid_seq(v_ as int, u_ as int).0 == full.0
                &&& ints(sol2@) + euclid_seq(v_ as int, u_ as int).1 == full.1
            },
            !(c != 0 && e != 0) ==> ints(sol1@) == full.0 && ints(sol2@) == full.1,
        decreases abs_int(u_ as int),
    {
        proof {
            lemma_trem(v_ as int, u_ as int);
        }
        let ghost pv = v_;
        let ghost pu = u_;
        c = tdiv(v_, u_);
        e = v_ - c * u_;
        let ghost s1 = sol1@;
        let ghost s2 = sol2@;
        sol1.push(c);
        sol2.push(e);
        assert(ints(sol1@) =~= ints(s1).push(c as int));
        assert(ints(sol2@) =~= ints(s2).push(e as int));
        v_ = u_;
        u_ = e;
        proof {
            let rest = euclid_seq(pv as int, pu as int);
            if c != 0 && e != 0 {
                assert(rest.0 == seq![c as int] + euclid_seq(v_ as int, u_ as int).0);
                assert(ints(sol1@) + euclid_seq(v_ as int, u_ as int).0 =~= ints(s1) + rest.0);
                assert(ints(sol2@) + euclid_seq(v_ as int, u_ as int).1 =~= ints(s2) + rest.1);
                // the new divisor is a remainder, smaller in magnitude than the old one
                assert(abs_int(e as int) < abs_int(pu as int));
            } else {
                assert(rest.0 == seq![c as int]);
                assert(ints(sol1@) =~= ints(s1) + rest.0);
                assert(ints(sol2@) =~= ints(s2) + rest.1);
            }
        }
    }
    (sol1, sol2)
}

/// Euclid's algorithm on the second value of `v` by its first, as a
/// vector of the two sequences.
pub fn euclids_sequence_(v: Vec<i32>) -> (r: Vec<Vec<i32>>)
    requires
        v.len() == 2,
        v[0] != 0,
        !(v[1] == i32::MIN && v[0] == -1),
    ensures
        r.len() == 2,
        ints(r[0]@) == euclid_seq(v[1] as int, v[0] as int).0,
        ints(r[1]@) == euclid_seq(v[1] as int, v[0] as int).1,
{
    let es = euclids_sequence(v[0], v[1]);
    vec![es.0, es.1]
}

} // verus!
