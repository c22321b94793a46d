//! Random values drawn from the thread-local generator of `rand`.
use vstd::prelude::*;

verus! {

/// `rand::random::<u32>()`: the next value of the thread-local generator.
/// Nothing is claimed of the value: it depends on the generator's state.
#[verifier::external_body]
fn random_u32() -> (r: u32) {
    rand::random::<u32>()
}

/// The scale of a random fraction: `2^24`, the number of values that a
/// 24-bit fraction of the unit interval can take.
pub open spec fn fraction_scale() -> int {
    0x100_0000
}

/// `num / den` rounded to the nearest integer, halves away from zero (`den > 0`).
pub open spec fn rounded_quotient(num: int, den: int) -> int {
    if num >= 0 {
        (2 * num + den) / (2 * den)
    } else {
        -((-2 * num + den) / (2 * den))
    }
}

/// The point at the fraction `k / 2^24` of the way from `a` to `b`, rounded.
pub open spec fn point_in_range(a: int, b: int, k: int) -> int {
    rounded_quotient(a * fraction_scale() + k * (b - a), fraction_scale())
}

proof fn lemma_rounded_exact(m: int, d: int)
    requires
        d > 0,
    ensures
        rounded_quotient(m * d, d) == m,
{
    if m >= 0 {
        assert(2 * (m * d) + d == (2 * d) * m + d) by (nonlinear_arith);
        assert(m * d >= 0) by (nonlinear_arith)
            requires
                m >= 0,
                d > 0,
        ;
        vstd::arithmetic::div_mod::lemma_fundamental_div_mod_converse(2 * (m * d) + d, 2 * d, m, d);
    } else {
        assert(-2 * (m * d) + d == (2 * d) * (-m) + d) by (nonlinear_arith);
        assert(m * d < 0) by (nonlinear_arith)
            requires
                m < 0,
                d > 0,
        ;
        vstd::arithmetic::div_mod::lemma_fundamental_div_mod_converse(-2 * (m * d) + d, 2 * d, -m, d);
    }
}

proof fn lemma_rounded_monotone(a: int, b: int, d: int)
    requires
        d > 0,
        a <= b,
    ensures
        rounded_quotient(a, d) <= rounded_quotient(b, d),
{
    if a >= 0 {
        vstd::arithmetic::div_mod::lemma_div_is_ordered(2 * a + d, 2 * b + d, 2 * d);
    } else if b < 0 {
        vstd::arithmetic::div_mod::lemma_div_is_ordered(-2 * b + d, -2 * a + d, 2 * d);
    } else {
        vstd::arithmetic::div_mod::lemma_div_pos_is_pos(-2 * a + d, 2 * d);
        vstd::arithmetic::div_mod::lemma_div_pos_is_pos(2 * b + d, 2 * d);
    }
}

proof fn lemma_point_in_range(a: int, b: int, k: int)
    requires
        0 <= k < fraction_scale(),
    ensures
        a <= b ==> a <= point_in_range(a, b, k) <= b,
        b < a ==> b <= point_in_range(a, b, k) <= a,
{
    let d = fraction_scale();
    let num = a * d + k * (b - a);
    lemma_rounded_exact(a, d);
    lemma_rounded_exact(b, d);
    if a <= b {
        assert(a * d <= num <= b * d) by (nonlinear_arith)
            requires
                num == a * d + k * (b - a),
                0 <= k < d,
                a <= b,
        ;
        lemma_rounded_monotone(a * d, num, d);
        lemma_rounded_monotone(num, b * d, d);
    } else {
        assert(b * d <= num <= a * d) by (nonlinear_arith)
            requires
                num == a * d + k * (b - a),
                0 <= k < d,
                b < a,
        ;
        lemma_rounded_monotone(b * d, num, d);
        lemma_rounded_monotone(num, a * d, d);
    }
}

/// The integer that the draw `u` of the generator gives in the range `r`:
/// the point at the fraction `(u >> 8) / 2^24` of the way from `r.0` to
/// `r.1` (the 24-bit fraction that `rand` makes of a `u32` for an `f32`),
/// rounded half away from zero.
///
/// The rounding is exact: the same point computed in `f32` can round
/// differently where the bounds exceed `2^24` in magnitude.
pub fn point_from_draw(r: (i32, i32), u: u32) -> (x: i32)
    ensures
        x == point_in_range(r.0 as int, r.1 as int, (u / 256) as int),
        r.0 <= r.1 ==> r.0 <= x <= r.1,
        r.1 < r.0 ==> r.1 <= x <= r.0,
{
    let k: u32 = u / 256;
    let d: i128 = 0x100_0000;
    let a0: i128 = r.0 as i128;
    let a1: i128 = r.1 as i128;
    let kk: i128 = k as i128;
    assert(-0x80_0000_0000_0000 <= a0 * d <= 0x80_0000_0000_0000) by (nonlinear_arith)
        requires
            -0x8000_0000 <= a0 <= 0x8000_0000,
            d == 0x100_0000,
    ;
    assert(-0x100_0000_0000_0000 <= kk * (a1 - a0) <= 0x100_0000_0000_0000) by (nonlinear_arith)
        requires
            -0x8000_0000 <= a0 <= 0x8000_0000,
            -0x8000_0000 <= a1 <= 0x8000_0000,
            0 <= kk < 0x100_0000,
    ;
    let num: i128 = (r.0 as i128) * d + (k as i128) * ((r.1 as i128) - (r.0 as i128));
    proof {
        lemma_point_in_range(r.0 as int, r.1 as int, k as int);
    }
    let q: i128 = if num >= 0 {
        (2 * num + d) / (2 * d)
    } else {
        let neg: i128 = -num;
        -((2 * neg + d) / (2 * d))
    };
    assert(q == point_in_range(r.0 as int, r.1 as int, k as int));
    q as i32
}


/// A random integer between `r.0` and `r.1`: `point_from_draw` of the next
/// value of the generator.
pub fn random_i32_in_range(r: (i32, i32)) -> (x: i32)
    ensures
        exists|k: int| 0 <= k < fraction_scale() && x == point_in_range(r.0 as int, r.1 as int, k),
        r.0 <= r.1 ==> r.0 <= x <= r.1,
        r.1 < r.0 ==> r.1 <= x <= r.0,
{
    let u = random_u32();
    point_from_draw(r, u)
}

/// The letter for the random index `i`: `A` to `Z` for 0 to 25, then the
/// characters from `b` on for 26 to 52.
pub open spec fn char_for(i: int) -> int {
    if 65 + i > 90 {
        72 + i
    } else {
        65 + i
    }
}

/// The character for the index `i`: `A` to `Z` for 0 to 25, then `b` to
/// `z`, `{` and `|` for 26 to 52.
pub fn char_from_index(i: i32) -> (c: char)
    requires
        0 <= i <= 52,
    ensures
        c as int == char_for(i as int),
{
    let mut x: i32 = 65 + i;
    if x > 90 {
        x += 7;
    }
    let b: u8 = x as u8;
    let c = b as char;
    assert(c as int == char_for(i as int));
    c
}

/// A random character: `char_from_index` of a random index in `0..=52`.
pub fn random_char_in_range() -> (c: char)
    ensures
        exists|i: int| 0 <= i <= 52 && c as int == char_for(i),
{
    let i = random_i32_in_range((0, 52));
    char_from_index(i)
}

} // verus!
