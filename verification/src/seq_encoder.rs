//! A sequence encoder: a vector of `i32` is described by a list of
//! floor-division terms whose sum at index `i` gives back the `i`-th value.
use vstd::prelude::*;
use crate::arrops::abs_int;

verus! {

/// `x` pushed into the range of `i32`, as a saturating cast does.
pub open spec fn clamp_i32(x: int) -> int {
    if x > i32::MAX {
        i32::MAX as int
    } else if x < i32::MIN {
        i32::MIN as int
    } else {
        x
    }
}

/// The quotient of a division by zero after a saturating cast:
/// the largest value for a positive dividend, the smallest for a negative
/// one and zero for zero.
pub open spec fn zero_division(a: int) -> int {
    if a > 0 {
        i32::MAX as int
    } else if a < 0 {
        i32::MIN as int
    } else {
        0
    }
}

/// `a / b` rounded down, cast into `i32`.
pub open spec fn floor_quotient(a: int, b: int) -> int {
    if b > 0 {
        clamp_i32(a / b)
    } else if b < 0 {
        clamp_i32((-a) / (-b))
    } else {
        zero_division(a)
    }
}

/// `a / b` rounded toward zero, cast into `i32`.
pub open spec fn trunc_quotient(a: int, b: int) -> int {
    if b == 0 {
        zero_division(a)
    } else {
        let q = abs_int(a) / abs_int(b);
        clamp_i32(if (a < 0) != (b < 0) { -q } else { q })
    }
}

/// One term of an `IndexFractionNotation`: with `t` empty it is
/// `floor(i / b) * m`; with `t` set it is the constant `trunc(t / b) * m`.
#[derive(Clone, Copy)]
pub struct FloorDiv {
    pub t: Option<i32>,
    pub b: i32,
    pub m: i32,
}

/// The quotient that a term multiplies by `m` at index `i`.
pub open spec fn floordiv_quotient(d: FloorDiv, i: int) -> int {
    match d.t {
        None => floor_quotient(i, d.b as int),
        Some(t) => trunc_quotient(t as int, d.b as int),
    }
}

/// The value of a term at index `i`.
pub open spec fn floordiv_value(d: FloorDiv, i: int) -> int {
    floordiv_quotient(d, i) * d.m
}

/// Does the value of the term at `i` fit in an `i32`?
pub open spec fn floordiv_fits(d: FloorDiv, i: int) -> bool {
    i32::MIN <= floordiv_value(d, i) <= i32::MAX
}

/// The quotient `a / b`, both non-negative and `b` positive.
fn nonneg_div(a: i64, b: i64) -> (q: i64)
    requires
        a >= 0,
        b > 0,
    ensures
        q == a / b,
        q >= 0,
        q <= a,
{
    proof {
        vstd::arithmetic::div_mod::lemma_div_is_ordered_by_denominator(a as int, 1, b as int);
        vstd::arithmetic::div_mod::lemma_div_pos_is_pos(a as int, b as int);
    }
    a / b
}

fn clamp_to_i32(x: i64) -> (r: i32)
    ensures
        r == clamp_i32(x as int),
{
    if x > i32::MAX as i64 {
        i32::MAX
    } else if x < i32::MIN as i64 {
        i32::MIN
    } else {
        x as i32
    }
}

fn zero_division_quotient(a: i32) -> (r: i32)
    ensures
        r == zero_division(a as int),
{
    if a > 0 {
        i32::MAX
    } else if a < 0 {
        i32::MIN
    } else {
        0
    }
}

/// `a / b` rounded down, cast into `i32`.
fn floor_div_i32(a: i32, b: i32) -> (r: i32)
    ensures
        r == floor_quotient(a as int, b as int),
{
    if b == 0 {
        return zero_division_quotient(a);
    }
    // dividing by a negative number is dividing the negated dividend by its magnitude
    let (n, d): (i64, i64) = if b > 0 {
        (a as i64, b as i64)
    } else {
        (-(a as i64), -(b as i64))
    };
    if n >= 0 {
        let q = nonneg_div(n, d);
        clamp_to_i32(q)
    } else {
        let q = nonneg_div(-n + d - 1, d);
        proof {
            lemma_floor_of_negative(n as int, d as int);
        }
        clamp_to_i32(-q)
    }
}

/// For a negative `n` and a positive `d`, `n / d` rounded down is
/// minus the rounded-up quotient of `-n` by `d`.
proof fn lemma_floor_of_negative(n: int, d: int)
    requires
        n < 0,
        d > 0,
    ensures
        n / d == -((-n + d - 1) / d),
{
    let q = n / d;
    let r = n % d;
    vstd::arithmetic::div_mod::lemma_fundamental_div_mod(n, d);
    assert(n == d * q + r && 0 <= r < d);
    // -n + d - 1 == d * (-q) + (d - 1 - r), with 0 <= d - 1 - r < d
    let m = -n + d - 1;
    assert(m == d * (-q) + (d - 1 - r)) by (nonlinear_arith)
        requires
            n == d * q + r,
            m == -n + d - 1,
    ;
    vstd::arithmetic::div_mod::lemma_fundamental_div_mod_converse(m, d, -q, d - 1 - r);
}

/// `a / b` rounded toward zero, cast into `i32`.
fn trunc_div_i32(a: i32, b: i32) -> (r: i32)
    ensures
        r == trunc_quotient(a as int, b as int),
{
    if b == 0 {
        return zero_division_quotient(a);
    }
    let na: i64 = if a < 0 { -(a as i64) } else { a as i64 };
    let nb: i64 = if b < 0 { -(b as i64) } else { b as i64 };
    let q = nonneg_div(na, nb);
    if (a < 0) != (b < 0) {
        clamp_to_i32(-q)
    } else {
        clamp_to_i32(q)
    }
}

impl FloorDiv {
    /// The value of this term at index `i`.
    pub fn value(&mut self, i: i32) -> (r: i32)
        requires
            floordiv_fits(*old(self), i as int),
        ensures
            r == floordiv_value(*old(self), i as int),
            *final(self) == *old(self),
    {
        let q = match self.t {
            None => floor_div_i32(i, self.b),
            Some(t) => trunc_div_i32(t, self.b),
        };
        q * self.m
    }

    /// A copy of this term.
    pub fn clone(&mut self) -> (c: FloorDiv)
        ensures
            c == *old(self),
            *final(self) == *old(self),
    {
        FloorDiv { t: self.t, b: self.b, m: self.m }
    }
}

/// The sum of the terms' values at index `i`.
pub open spec fn divs_sum(divs: Seq<FloorDiv>, i: int) -> int
    decreases divs.len(),
{
    if divs.len() == 0 {
        0
    } else {
        divs_sum(divs.drop_last(), i) + floordiv_value(divs.last(), i)
    }
}

/// What an encoder with the terms `divs` gives at index `i`: the index
/// itself while there is no term, else the sum of the terms' values.
pub open spec fn output_value(divs: Seq<FloorDiv>, i: int) -> int {
    if divs.len() == 0 {
        i
    } else {
        divs_sum(divs, i)
    }
}

/// Do each term's value at `i`, and each running sum of them, fit in an `i32`?
pub open spec fn output_fits(divs: Seq<FloorDiv>, i: int) -> bool {
    &&& forall|k: int| 0 <= k < divs.len() ==> floordiv_fits(#[trigger] divs[k], i)
    &&& forall|k: int|
        0 < k <= divs.len() ==> i32::MIN <= #[trigger] divs_sum(divs.take(k), i) <= i32::MAX
}

/// The term that encodes the difference `y` at index `i`: the constant
/// `y` at index 0, nothing where `y` is zero, else `floor(x / i) * y`.
pub open spec fn floordiv_for(i: i32, y: i32) -> Option<FloorDiv> {
    if i == 0 {
        Some(FloorDiv { t: Some(y), b: 1, m: 1 })
    } else if y == 0 {
        None
    } else {
        Some(FloorDiv { t: None, b: i, m: y })
    }
}

/// The terms after the first `k` values of `v` were encoded, starting from `divs`.
pub open spec fn processed(divs: Seq<FloorDiv>, v: Seq<i32>, k: nat) -> Seq<FloorDiv>
    decreases k,
{
    if k == 0 {
        divs
    } else {
        let j = (k - 1) as nat;
        let d = processed(divs, v, j);
        let y = (v[j as int] - output_value(d, j as int)) as i32;
        match floordiv_for(j as i32, y) {
            Some(f) => d.push(f),
            None => d,
        }
    }
}

/// Does encoding the first `k` values of `v` stay within `i32` at every step?
pub open spec fn process_fits(divs: Seq<FloorDiv>, v: Seq<i32>, k: nat) -> bool {
    forall|j: nat|
        j < k ==> {
            let d = #[trigger] processed(divs, v, j);
            &&& output_fits(d, j as int)
            &&& i32::MIN <= v[j as int] - output_value(d, j as int) <= i32::MAX
        }
}

/// An encoder of the values `v` by floor-division terms.
pub struct IndexFractionNotation {
    pub v: Vec<i32>,
    pub divs: Vec<FloorDiv>,
}

/// An encoder of `v_` with no term yet.
pub fn build_index_fraction_notation(v_: Vec<i32>) -> (r: IndexFractionNotation)
    ensures
        r.v@ == v_@,
        r.divs@.len() == 0,
{
    IndexFractionNotation { v: v_, divs: Vec::new() }
}

impl IndexFractionNotation {
    /// Encodes each value of `v` in turn, adding the term that makes the
    /// encoder give back that value at its index.
    pub fn process(&mut self)
        requires
            old(self).v.len() <= i32::MAX,
            process_fits(old(self).divs@, old(self).v@, old(self).v.len() as nat),
        ensures
            final(self).v@ == old(self).v@,
            final(self).divs@ == processed(old(self).divs@, old(self).v@, old(self).v.len() as nat),
    {
        let n = self.v.len();
        let ghost divs0 = self.divs@;
        let mut i: usize = 0;
        while i < n
            invariant
                n == self.v.len(),
                n <= i32::MAX,
                i <= n,
                self.v@ == old(self).v@,
                divs0 == old(self).divs@,
                self.divs@ == processed(divs0, self.v@, i as nat),
                process_fits(divs0, self.v@, n as nat),
            decreases n - i,
        {
            assert(processed(divs0, self.v@, i as nat) == self.divs@);
            let x = self.output(i as i32);
            let y = self.v[i] - x;
            let ft = self.get_floordiv(i as i32, y);
            if let Some(f) = ft {
                self.divs.push(f);
            }
            i = i + 1;
        }
    }

    /// The term that encodes the difference `y` at index `i`, if any.
    pub fn get_floordiv(&mut self, i: i32, y: i32) -> (r: Option<FloorDiv>)
        ensures
            r == floordiv_for(i, y),
            *final(self) == *old(self),
    {
        if i == 0 {
            return Some(FloorDiv { t: Some(y), b: 1, m: 1 });
        }
        if y == 0 {
            return None;
        }
        Some(FloorDiv { t: None, b: i, m: y })
    }

    /// The value that the encoder gives at index `i`.
    pub fn output(&mut self, i: i32) -> (r: i32)
        requires
            output_fits(old(self).divs@, i as int),
        ensures
            r == output_value(old(self).divs@, i as int),
            *final(self) == *old(self),
    {
        let n = self.divs.len();
        if n == 0 {
            return i;
        }
        let mut x: i32 = 0;
        let mut k: usize = 0;
        while k < n
            invariant
                n == self.divs.len(),
                k <= n,
                *self == *old(self),
                output_fits(self.divs@, i as int),
                x == divs_sum(self.divs@.take(k as int), i as int),
            decreases n - k,
        {
            let mut d = self.divs[k];
            assert(floordiv_fits(self.divs@[k as int], i as int));
            let r2 = d.value(i);
            proof {
                let t = self.divs@.take(k as int + 1);
                assert(t.drop_last() =~= self.divs@.take(k as int));
                assert(i32::MIN <= divs_sum(t, i as int) <= i32::MAX);
            }
            x = x + r2;
            k = k + 1;
        }
        assert(self.divs@.take(n as int) =~= self.divs@);
        x
    }
}

proof fn lemma_divs_sum_push(d: Seq<FloorDiv>, f: FloorDiv, i: int)
    ensures
        divs_sum(d.push(f), i) == divs_sum(d, i) + floordiv_value(f, i),
{
    assert(d.push(f).drop_last() =~= d);
}

/// A term `floor(x / j) * y` with `j > 0` gives zero before index `j` and `y` at `j`.
proof fn lemma_step_term(j: i32, y: i32, i: int)
    requires
        j > 0,
        0 <= i <= j,
    ensures
        floordiv_value(FloorDiv { t: None, b: j, m: y }, i) == if i == j { y as int } else { 0 },
{
    if i < j {
        vstd::arithmetic::div_mod::lemma_basic_div(i, j as int);
        assert(floor_quotient(i, j as int) == 0);
    } else {
        vstd::arithmetic::div_mod::lemma_div_by_self(j as int);
        assert(floor_quotient(i, j as int) == 1);
    }
}

/// Encoding is exact: once the first `k` values of `v` were processed by
/// a fresh encoder, the encoder gives back each of them at its index.
pub proof fn lemma_process_reproduces(v: Seq<i32>, k: nat)
    requires
        k <= v.len(),
        v.len() <= i32::MAX,
        process_fits(Seq::empty(), v, k),
    ensures
        forall|i: int| 0 <= i < k ==> output_value(processed(Seq::empty(), v, k), i) == v[i],
    decreases k,
{
    let e = Seq::<FloorDiv>::empty();
    if k > 0 {
        let j = (k - 1) as nat;
        assert(process_fits(e, v, j)) by {
            assert forall|jj: nat| jj < j implies {
                let d = #[trigger] processed(e, v, jj);
                &&& output_fits(d, jj as int)
                &&& i32::MIN <= v[jj as int] - output_value(d, jj as int) <= i32::MAX
            } by {
                assert(jj < k);
            }
        }
        lemma_process_reproduces(v, j);
        lemma_processed_nonempty(v, j);
        let d = processed(e, v, j);
        let x = output_value(d, j as int);
        assert(j < k);
        assert(i32::MIN <= v[j as int] - x <= i32::MAX);
        let y = (v[j as int] - x) as i32;
        assert(y == v[j as int] - x);
        if j == 0 {
            let f = FloorDiv { t: Some(y), b: 1, m: 1 };
            assert(processed(e, v, k) == d.push(f));
            assert(d =~= e);
            lemma_divs_sum_push(d, f, 0);
            assert(x == 0);
            assert(abs_int(y as int) / 1 == abs_int(y as int));
            assert(trunc_quotient(y as int, 1) == y);
            assert(floordiv_value(f, 0) == y);
        } else if y == 0 {
            assert(processed(e, v, k) == d);
            assert(output_value(d, j as int) == v[j as int]);
        } else {
            let f = FloorDiv { t: None, b: j as i32, m: y };
            assert(processed(e, v, k) == d.push(f));
            assert forall|i: int| 0 <= i < k implies output_value(
                processed(e, v, k),
                i,
            ) == v[i] by {
                lemma_divs_sum_push(d, f, i);
                lemma_step_term(j as i32, y, i);
            }
        }
    }
}

/// Once a value was processed, the encoder holds at least one term.
proof fn lemma_processed_nonempty(v: Seq<i32>, k: nat)
    ensures
        k > 0 ==> processed(Seq::empty(), v, k).len() > 0,
    decreases k,
{
    if k > 1 {
        lemma_processed_nonempty(v, (k - 1) as nat);
    }
}

} // verus!
