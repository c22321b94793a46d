//! Skews: maps of an `i32` vector onto another one of equal length, made of
//! an added constant, a multiplying constant, an added vector and a
//! multiplying vector, applied in a chosen order.
use vstd::prelude::*;
use std::collections::HashSet;
use crate::arrops::{abs_int, arr_add, arr_mul, add_scalar, mul_scalar, at, broadcast_len, compatible};
use crate::text::{decimal_int, i32_to_string};

verus! {

/// The sum of the magnitudes of the values of `s`.
pub open spec fn abs_sum(s: Seq<i32>) -> int
    decreases s.len(),
{
    if s.len() == 0 {
        0
    } else {
        abs_sum(s.drop_last()) + abs_int(s.last() as int)
    }
}

/// Does the sum of the magnitudes of the values of `s` fit in an `i32`?
pub open spec fn abs_sum_fits(s: Seq<i32>) -> bool {
    abs_sum(s) <= i32::MAX
}

/// The magnitude of a constant element, zero where it is absent.
pub open spec fn opt_size(o: Option<i32>) -> int {
    match o {
        Some(x) => abs_int(x as int),
        None => 0,
    }
}

/// The values of a vector element, where it is present.
pub open spec fn opt_view(o: Option<Vec<i32>>) -> Option<Seq<i32>> {
    match o {
        Some(v) => Some(v@),
        None => None,
    }
}

/// The summed magnitudes of a vector element, zero where it is absent.
pub open spec fn opt_seq_size(o: Option<Seq<i32>>) -> int {
    match o {
        Some(v) => abs_sum(v),
        None => 0,
    }
}

/// The size of a skew: the summed magnitudes of all its values.
pub open spec fn size_of(a: Option<i32>, m: Option<i32>, ad: Option<Seq<i32>>, am: Option<Seq<i32>>) -> int {
    opt_size(a) + opt_size(m) + opt_seq_size(ad) + opt_seq_size(am)
}

/// Can the size of a skew with these elements be computed without overflow?
pub open spec fn size_fits(a: Option<i32>, m: Option<i32>, ad: Option<Seq<i32>>, am: Option<Seq<i32>>) -> bool {
    &&& a != Some(i32::MIN)
    &&& m != Some(i32::MIN)
    &&& (ad matches Some(v) ==> abs_sum_fits(v))
    &&& (am matches Some(v) ==> abs_sum_fits(v))
    &&& size_of(a, m, ad, am) <= usize::MAX
}

/// Is `s` the type-a skew of the addit `a`: that element alone, applied
/// by the ordering `[2]`, with its size?
pub open spec fn is_type_a(s: Skew, a: Seq<i32>) -> bool {
    &&& s.adder is None
    &&& s.multer is None
    &&& opt_view(s.addit) == Some(a)
    &&& s.multit is None
    &&& s.ordering@ == seq![2usize]
    &&& s.skew_size == abs_sum(a)
}

/// Is `s` the type-m skew of the multer `m`: that element alone, applied
/// by the ordering `[1]`, with its size?
pub open spec fn is_type_m(s: Skew, m: i32) -> bool {
    &&& s.adder is None
    &&& s.multer == Some(m)
    &&& s.addit is None
    &&& s.multit is None
    &&& s.ordering@ == seq![1usize]
    &&& s.skew_size == abs_int(m as int)
}

/// Is `s` the skew of the adder `h` alone, applied by the ordering `[0]`?
pub open spec fn is_adder_skew(s: Skew, h: i32) -> bool {
    &&& s.adder == Some(h)
    &&& s.multer is None
    &&& s.addit is None
    &&& s.multit is None
    &&& s.ordering@ == seq![0usize]
}

/// A map of an `i32` vector onto another: the elements present are applied
/// in the order that `ordering` gives (0 the adder, 1 the multer, 2 the
/// addit, any other the multit).
#[derive(Debug, Clone, PartialEq, Eq)]
pub struct Skew {
    /// added constant
    pub adder: Option<i32>,
    /// multiplying constant
    pub multer: Option<i32>,
    /// added vector
    pub addit: Option<Vec<i32>>,
    /// multiplying vector
    pub multit: Option<Vec<i32>>,
    /// the summed magnitudes of all values of the skew
    pub skew_size: usize,
    /// the order in which the elements are applied
    pub ordering: Vec<usize>,
}

proof fn lemma_abs_sum_prefix(s: Seq<i32>, k: int)
    requires
        0 <= k <= s.len(),
    ensures
        0 <= abs_sum(s.take(k)) <= abs_sum(s),
    decreases s.len(),
{
    lemma_abs_sum_nonneg(s.take(k));
    if k < s.len() {
        assert(s.drop_last().take(k) =~= s.take(k));
        lemma_abs_sum_prefix(s.drop_last(), k);
    } else {
        assert(s.take(k) =~= s);
    }
}

pub proof fn lemma_abs_sum_nonneg(s: Seq<i32>)
    ensures
        abs_sum(s) >= 0,
    decreases s.len(),
{
    if s.len() > 0 {
        lemma_abs_sum_nonneg(s.drop_last());
    }
}

proof fn lemma_opt_seq_size_nonneg(o: Option<Seq<i32>>)
    ensures
        opt_seq_size(o) >= 0,
{
    if let Some(v) = o {
        lemma_abs_sum_nonneg(v);
    }
}

/// The summed magnitudes of the values of `v`.
fn abs_total(v: &Vec<i32>) -> (t: i32)
    requires
        abs_sum_fits(v@),
    ensures
        t == abs_sum(v@),
        t >= 0,
{
    let n = v.len();
    let mut t: i32 = 0;
    let mut k: usize = 0;
    while k < n
        invariant
            n == v.len(),
            k <= n,
            abs_sum_fits(v@),
            t == abs_sum(v@.take(k as int)),
        decreases n - k,
    {
        proof {
            assert(v@.take(k + 1).drop_last() =~= v@.take(k as int));
            lemma_abs_sum_prefix(v@, k + 1);
            lemma_abs_sum_nonneg(v@.take(k as int));
        }
        let x = v[k];
        let a: i32 = if x < 0 { -x } else { x };
        t = t + a;
        k = k + 1;
    }
    proof {
        assert(v@.take(n as int) =~= v@);
        lemma_abs_sum_nonneg(v@);
    }
    t
}

/// A skew of the given elements and ordering, with its size computed.
pub fn build_skew(
    a: Option<i32>,
    m: Option<i32>,
    ad: Option<Vec<i32>>,
    am: Option<Vec<i32>>,
    o: Vec<usize>,
    sg: Option<Vec<Vec<usize>>>,
) -> (r: Skew)
    requires
        size_fits(a, m, opt_view(ad), opt_view(am)),
    ensures
        r.adder == a,
        r.multer == m,
        r.addit == ad,
        r.multit == am,
        r.skew_size == size_of(a, m, opt_view(ad), opt_view(am)),
        r.ordering == o,
{
    let mut ss: usize = 0;
    if let Some(x) = a {
        let y: i32 = if x < 0 { -x } else { x };
        ss = ss + y as usize;
    }
    if let Some(x) = m {
        let y: i32 = if x < 0 { -x } else { x };
        ss = ss + y as usize;
    }
    proof {
        lemma_opt_seq_size_nonneg(opt_view(ad));
        lemma_opt_seq_size_nonneg(opt_view(am));
    }
    assert(ss == opt_size(a) + opt_size(m));
    if let Some(v) = &ad {
        let t = abs_total(v);
        ss = ss + t as usize;
    }
    assert(ss == opt_size(a) + opt_size(m) + opt_seq_size(opt_view(ad)));
    if let Some(v) = &am {
        let t = abs_total(v);
        ss = ss + t as usize;
    }
    Skew { adder: a, multer: m, addit: ad, multit: am, skew_size: ss, ordering: o }
}

/// `v` with `x` added to each value.
pub open spec fn plus_const(v: Seq<i32>, x: i32) -> Seq<i32> {
    Seq::new(v.len(), |i: int| (v[i] + x) as i32)
}

/// `v` with each value multiplied by `x`.
pub open spec fn times_const(v: Seq<i32>, x: i32) -> Seq<i32> {
    Seq::new(v.len(), |i: int| (v[i] * x) as i32)
}

/// `v` and `w` added position by position.
pub open spec fn plus_vec(v: Seq<i32>, w: Seq<i32>) -> Seq<i32> {
    Seq::new(v.len(), |i: int| (v[i] + w[i]) as i32)
}

/// `v` and `w` multiplied position by position.
pub open spec fn times_vec(v: Seq<i32>, w: Seq<i32>) -> Seq<i32> {
    Seq::new(v.len(), |i: int| (v[i] * w[i]) as i32)
}

/// The element `o` of the skew `s` applied to `v`.
pub open spec fn apply_element(s: Skew, v: Seq<i32>, o: usize) -> Seq<i32> {
    if o == 0 {
        plus_const(v, s.adder.unwrap())
    } else if o == 1 {
        times_const(v, s.multer.unwrap())
    } else if o == 2 {
        plus_vec(v, s.addit.unwrap()@)
    } else {
        times_vec(v, s.multit.unwrap()@)
    }
}

/// Can the element `o` of `s` be applied to `v`: is it present, of the
/// length of `v` where it is a vector, and does each result fit in an `i32`?
pub open spec fn element_applies(s: Skew, v: Seq<i32>, o: usize) -> bool {
    if o == 0 {
        s.adder matches Some(x) && forall|i: int|
            0 <= i < v.len() ==> i32::MIN <= #[trigger] v[i] + x <= i32::MAX
    } else if o == 1 {
        s.multer matches Some(x) && forall|i: int|
            0 <= i < v.len() ==> i32::MIN <= #[trigger] v[i] * x <= i32::MAX
    } else if o == 2 {
        s.addit matches Some(w) && w.len() == v.len() && forall|i: int|
            0 <= i < v.len() ==> i32::MIN <= #[trigger] v[i] + w[i] <= i32::MAX
    } else {
        s.multit matches Some(w) && w.len() == v.len() && forall|i: int|
            0 <= i < v.len() ==> i32::MIN <= #[trigger] v[i] * w[i] <= i32::MAX
    }
}

/// `v` after the first `k` elements of the ordering of `s` were applied.
pub open spec fn skew_prefix(s: Skew, v: Seq<i32>, k: nat) -> Seq<i32>
    decreases k,
{
    if k == 0 {
        v
    } else {
        apply_element(s, skew_prefix(s, v, (k - 1) as nat), s.ordering[k - 1])
    }
}

/// `v` mapped by the skew `s`.
pub open spec fn skewed(s: Skew, v: Seq<i32>) -> Seq<i32> {
    skew_prefix(s, v, s.ordering.len() as nat)
}

/// Can each element of the ordering of `s` be applied in turn to `v`?
pub open spec fn skew_applies(s: Skew, v: Seq<i32>) -> bool {
    forall|k: nat|
        k < s.ordering.len() ==> element_applies(
            s,
            #[trigger] skew_prefix(s, v, k),
            s.ordering[k as int],
        )
}

impl Skew {
    /// Applies the element at place `i` of the ordering to `v`.
    pub fn apply_at(&mut self, v: Vec<i32>, i: usize) -> (r: Vec<i32>)
        requires
            i <= 3,
            i < old(self).ordering.len(),
            element_applies(*old(self), v@, old(self).ordering[i as int]),
        ensures
            r@ == apply_element(*old(self), v@, old(self).ordering[i as int]),
            *final(self) == *old(self),
    {
        let o = self.ordering[i];
        if o == 0 {
            match self.adder {
                Some(x) => {
                    let r = add_scalar(&v, x);
                    assert(r@ =~= plus_const(v@, x));
                    r
                },
                None => v,
            }
        } else if o == 1 {
            match self.multer {
                Some(x) => {
                    let r = mul_scalar(&v, x);
                    assert(r@ =~= times_const(v@, x));
                    r
                },
                None => v,
            }
        } else if o == 2 {
            match &self.addit {
                Some(w) => {
                    let r = arr_add(&v, w);
                    assert(r@ =~= plus_vec(v@, w@));
                    r
                },
                None => v,
            }
        } else {
            match &self.multit {
                Some(w) => {
                    let r = arr_mul(&v, w);
                    assert(r@ =~= times_vec(v@, w@));
                    r
                },
                None => v,
            }
        }
    }

    /// Applies the elements in the order of `ordering` to `v`.
    pub fn skew_value(&mut self, v: Vec<i32>) -> (r: Vec<i32>)
        requires
            old(self).ordering.len() <= 4,
            skew_applies(*old(self), v@),
        ensures
            r@ == skewed(*old(self), v@),
            *final(self) == *old(self),
    {
        let l = self.ordering.len();
        let ghost v0 = v@;
        let mut v = v;
        let mut i: usize = 0;
        while i < l
            invariant
                l == self.ordering.len(),
                l <= 4,
                i <= l,
                *self == *old(self),
                skew_applies(*self, v0),
                v@ == skew_prefix(*self, v0, i as nat),
            decreases l - i,
        {
            assert(element_applies(*self, skew_prefix(*self, v0, i as nat), self.ordering[i as int]));
            v = self.apply_at(v, i);
            i = i + 1;
        }
        v
    }
}

/// Do `a` and `b` hold the same values?
pub fn vec_equal(a: &Vec<i32>, b: &Vec<i32>) -> (r: bool)
    ensures
        r == (a@ == b@),
{
    if a.len() != b.len() {
        return false;
    }
    let n = a.len();
    let mut k: usize = 0;
    while k < n
        invariant
            n == a.len(),
            n == b.len(),
            k <= n,
            forall|j: int| 0 <= j < k ==> a@[j] == b@[j],
        decreases n - k,
    {
        if a[k] != b[k] {
            return false;
        }
        k = k + 1;
    }
    assert(a@ =~= b@);
    true
}

/// The decimal renderings of the values of `v`, separated by `", "`.
pub open spec fn elems_text(v: Seq<i32>) -> Seq<char>
    decreases v.len(),
{
    if v.len() == 0 {
        Seq::empty()
    } else if v.len() == 1 {
        decimal_int(v[0] as int)
    } else {
        elems_text(v.drop_last()) + seq![',', ' '] + decimal_int(v.last() as int)
    }
}

/// How a one-dimensional array of `v` is displayed: its values between
/// brackets, or, from 500 values on, the first five and the last five
/// around an ellipsis.
pub open spec fn array_text(v: Seq<i32>) -> Seq<char> {
    seq!['['] + (if v.len() < 500 {
        elems_text(v)
    } else {
        elems_text(v.take(5)) + seq![',', ' ', '.', '.', '.', ',', ' '] + elems_text(
            v.skip(v.len() - 5),
        )
    }) + seq![']']
}

/// `ndarray`'s `Display` of an `Array1<i32>` holding the values of `v`:
/// trusted to give `array_text`, which writes out the one-dimensional case
/// of `ndarray`'s array formatting (`"[1, -2, 3]"`, elided from 500 values on).
#[verifier::external_body]
fn array1_text(v: &Vec<i32>) -> (s: String)
    ensures
        s@ == array_text(v@),
{
    let a = ndarray::Array1::from(v.clone());
    format!("{}", a)
}

/// Is the element `o` of `s` present?
pub open spec fn element_present(s: Skew, o: usize) -> bool {
    if o == 0 {
        s.adder is Some
    } else if o == 1 {
        s.multer is Some
    } else if o == 2 {
        s.addit is Some
    } else {
        s.multit is Some
    }
}

/// Is every element that the ordering of `s` names present?
pub open spec fn elements_present(s: Skew) -> bool {
    forall|k: int| 0 <= k < s.ordering.len() ==> element_present(s, #[trigger] s.ordering[k])
}

/// How the element `o` of `s` is written: `+` before an added element,
/// `*` before a multiplying one, then its value.
pub open spec fn element_text(s: Skew, o: usize) -> Seq<char> {
    if o == 0 {
        seq!['+'] + decimal_int(s.adder.unwrap() as int)
    } else if o == 1 {
        seq!['*'] + decimal_int(s.multer.unwrap() as int)
    } else if o == 2 {
        seq!['+'] + array_text(s.addit.unwrap()@)
    } else {
        seq!['*'] + array_text(s.multit.unwrap()@)
    }
}

/// The texts of the first `k` elements of the ordering of `s`.
pub open spec fn skew_text(s: Skew, k: nat) -> Seq<char>
    decreases k,
{
    if k == 0 {
        Seq::empty()
    } else {
        skew_text(s, (k - 1) as nat) + element_text(s, s.ordering[k - 1])
    }
}

/// The indices of the elements present in `s`.
pub open spec fn active_set(s: Skew) -> Set<usize> {
    Set::new(
        |i: usize|
            (i == 0 && s.adder is Some) || (i == 1 && s.multer is Some) || (i == 2
                && s.addit is Some) || (i == 3 && s.multit is Some),
    )
}

/// `a + b` where both are present, else the one present, if any.
pub open spec fn combine_const(a: Option<i32>, b: Option<i32>) -> Option<i32> {
    match (a, b) {
        (Some(x), Some(y)) => Some((x + y) as i32),
        (Some(x), None) => Some(x),
        (None, o) => o,
    }
}

/// `a + b` position by position, a one-value vector standing for every position.
pub open spec fn broadcast_plus(a: Seq<i32>, b: Seq<i32>) -> Seq<i32> {
    Seq::new(broadcast_len(a.len(), b.len()), |i: int| (at(a, i) + at(b, i)) as i32)
}

/// The vector sum where both are present, else the one present, if any.
pub open spec fn combine_vec(a: Option<Seq<i32>>, b: Option<Seq<i32>>) -> Option<Seq<i32>> {
    match (a, b) {
        (Some(x), Some(y)) => Some(broadcast_plus(x, y)),
        (Some(x), None) => Some(x),
        (None, o) => o,
    }
}

/// Can two constant elements be added without overflow?
pub open spec fn const_sum_fits(a: Option<i32>, b: Option<i32>) -> bool {
    match (a, b) {
        (Some(x), Some(y)) => i32::MIN <= x + y <= i32::MAX,
        _ => true,
    }
}

/// Can two vector elements be added: of agreeing lengths, without overflow?
pub open spec fn vec_sum_fits(a: Option<Seq<i32>>, b: Option<Seq<i32>>) -> bool {
    match (a, b) {
        (Some(x), Some(y)) => {
            &&& compatible(x.len(), y.len())
            &&& forall|i: int|
                0 <= i < broadcast_len(x.len(), y.len()) ==> i32::MIN <= #[trigger] at(x, i) + at(
                    y,
                    i,
                ) <= i32::MAX
        },
        _ => true,
    }
}

/// Can the skews `a` and `b` be added: each pair of elements, and the size of the sum?
pub open spec fn add_fits(a: Skew, b: Skew) -> bool {
    &&& const_sum_fits(a.adder, b.adder)
    &&& const_sum_fits(a.multer, b.multer)
    &&& vec_sum_fits(opt_view(a.addit), opt_view(b.addit))
    &&& vec_sum_fits(opt_view(a.multit), opt_view(b.multit))
    &&& size_fits(
        combine_const(a.adder, b.adder),
        combine_const(a.multer, b.multer),
        combine_vec(opt_view(a.addit), opt_view(b.addit)),
        combine_vec(opt_view(a.multit), opt_view(b.multit)),
    )
}

/// The sum of two constant elements.
fn add_consts(a: Option<i32>, b: Option<i32>) -> (r: Option<i32>)
    requires
        const_sum_fits(a, b),
    ensures
        r == combine_const(a, b),
{
    match (a, b) {
        (Some(x), Some(y)) => Some(x + y),
        (Some(x), None) => Some(x),
        (None, o) => o,
    }
}

/// The sum of two vector elements.
fn add_vecs(a: Option<Vec<i32>>, b: Option<Vec<i32>>) -> (r: Option<Vec<i32>>)
    requires
        vec_sum_fits(opt_view(a), opt_view(b)),
    ensures
        opt_view(r) == combine_vec(opt_view(a), opt_view(b)),
{
    match (a, b) {
        (Some(x), Some(y)) => {
            let r = arr_add(&x, &y);
            assert(r@ =~= broadcast_plus(x@, y@));
            Some(r)
        },
        (Some(x), None) => Some(x),
        (None, o) => o,
    }
}

impl Skew {
    /// The indices (0 adder, 1 multer, 2 addit, 3 multit) of the elements present.
    pub fn active(&mut self) -> (hs: HashSet<usize>)
        ensures
            hs@ == active_set(*old(self)),
            *final(self) == *old(self),
    {
        let mut hs: HashSet<usize> = HashSet::new();
        if self.adder.is_some() {
            hs.insert(0);
        }
        if self.multer.is_some() {
            hs.insert(1);
        }
        if self.addit.is_some() {
            hs.insert(2);
        }
        if self.multit.is_some() {
            hs.insert(3);
        }
        assert(hs@ =~= active_set(*self));
        hs
    }

    /// The skew written out: for each element of the ordering in turn,
    /// `+` or `*` and its value (`"+2*4"`, `"*3+[1, -1, 2]"`).
    pub fn to_string(&self) -> (r: String)
        requires
            elements_present(*self),
        ensures
            r@ == skew_text(*self, self.ordering.len() as nat),
    {
        let mut s = String::new();
        let n = self.ordering.len();
        let mut k: usize = 0;
        while k < n
            invariant
                n == self.ordering.len(),
                k <= n,
                elements_present(*self),
                s@ == skew_text(*self, k as nat),
            decreases n - k,
        {
            let o = self.ordering[k];
            assert(element_present(*self, o));
            let part: String = if o == 0 {
                let mut p = String::new();
                crate::text::push_char(&mut p, '+');
                let d = i32_to_string(self.adder.unwrap());
                p.append(d.as_str());
                p
            } else if o == 1 {
                let mut p = String::new();
                crate::text::push_char(&mut p, '*');
                let d = i32_to_string(self.multer.unwrap());
                p.append(d.as_str());
                p
            } else if o == 2 {
                let mut p = String::new();
                crate::text::push_char(&mut p, '+');
                match &self.addit {
                    Some(w) => {
                        let d = array1_text(w);
                        p.append(d.as_str());
                    },
                    None => {},
                }
                p
            } else {
                let mut p = String::new();
                crate::text::push_char(&mut p, '*');
                match &self.multit {
                    Some(w) => {
                        let d = array1_text(w);
                        p.append(d.as_str());
                    },
                    None => {},
                }
                p
            };
            assert(part@ == element_text(*self, o));
            s.append(part.as_str());
            k = k + 1;
        }
        s
    }

    /// The sum of two skews with the ordering of `self`: each element is the
    /// sum of the two where both are present, else the one present, if any.
    pub fn add(self, other: Skew) -> (r: Skew)
        requires
            add_fits(self, other),
        ensures
            r.adder == combine_const(self.adder, other.adder),
            r.multer == combine_const(self.multer, other.multer),
            opt_view(r.addit) == combine_vec(opt_view(self.addit), opt_view(other.addit)),
            opt_view(r.multit) == combine_vec(opt_view(self.multit), opt_view(other.multit)),
            r.skew_size == size_of(r.adder, r.multer, opt_view(r.addit), opt_view(r.multit)),
            r.ordering == self.ordering,
    {
        let a1 = add_consts(self.adder, other.adder);
        let a2 = add_vecs(self.addit, other.addit);
        let m1 = add_consts(self.multer, other.multer);
        let m2 = add_vecs(self.multit, other.multit);
        build_skew(a1, m1, a2, m2, self.ordering, None)
    }
}

/// Adding skews is commutative in their elements: `a.add(b)` and `b.add(a)`
/// may both be computed or neither, and then hold the same adder, multer,
/// addit and multit (the ordering is that of the left operand).
pub proof fn lemma_add_commutes(a: Skew, b: Skew)
    ensures
        add_fits(a, b) == add_fits(b, a),
        add_fits(a, b) ==> combine_const(a.adder, b.adder) == combine_const(b.adder, a.adder),
        add_fits(a, b) ==> combine_const(a.multer, b.multer) == combine_const(b.multer, a.multer),
        add_fits(a, b) ==> combine_vec(opt_view(a.addit), opt_view(b.addit)) == combine_vec(
            opt_view(b.addit),
            opt_view(a.addit),
        ),
        add_fits(a, b) ==> combine_vec(opt_view(a.multit), opt_view(b.multit)) == combine_vec(
            opt_view(b.multit),
            opt_view(a.multit),
        ),
{
    lemma_vec_sum_fits_commutes(opt_view(a.addit), opt_view(b.addit));
    lemma_vec_sum_fits_commutes(opt_view(a.multit), opt_view(b.multit));
    if vec_sum_fits(opt_view(a.addit), opt_view(b.addit)) {
        lemma_combine_vec_commutes(opt_view(a.addit), opt_view(b.addit));
    }
    if vec_sum_fits(opt_view(a.multit), opt_view(b.multit)) {
        lemma_combine_vec_commutes(opt_view(a.multit), opt_view(b.multit));
    }
    if add_fits(a, b) {
        assert(combine_vec(opt_view(a.addit), opt_view(b.addit)) == combine_vec(
            opt_view(b.addit),
            opt_view(a.addit),
        ));
        assert(combine_vec(opt_view(a.multit), opt_view(b.multit)) == combine_vec(
            opt_view(b.multit),
            opt_view(a.multit),
        ));
    }
}

proof fn lemma_combine_vec_commutes(a: Option<Seq<i32>>, b: Option<Seq<i32>>)
    requires
        vec_sum_fits(a, b),
    ensures
        combine_vec(a, b) == combine_vec(b, a),
{
    if let (Some(x), Some(y)) = (a, b) {
        assert(broadcast_plus(x, y) =~= broadcast_plus(y, x));
    }
}

proof fn lemma_vec_sum_fits_commutes(a: Option<Seq<i32>>, b: Option<Seq<i32>>)
    ensures
        vec_sum_fits(a, b) == vec_sum_fits(b, a),
{
    if let (Some(x), Some(y)) = (a, b) {
        if compatible(x.len(), y.len()) {
            assert(broadcast_len(x.len(), y.len()) == broadcast_len(y.len(), x.len()));
        }
    }
}

/// A skew with no element is neutral for addition: on either side it leaves
/// the adder, multer, addit and multit of the other operand as they are.
pub proof fn lemma_add_empty(a: Skew, e: Skew)
    requires
        e.adder is None,
        e.multer is None,
        e.addit is None,
        e.multit is None,
    ensures
        combine_const(a.adder, e.adder) == a.adder,
        combine_const(e.adder, a.adder) == a.adder,
        combine_const(a.multer, e.multer) == a.multer,
        combine_const(e.multer, a.multer) == a.multer,
        combine_vec(opt_view(a.addit), opt_view(e.addit)) == opt_view(a.addit),
        combine_vec(opt_view(e.addit), opt_view(a.addit)) == opt_view(a.addit),
        combine_vec(opt_view(a.multit), opt_view(e.multit)) == opt_view(a.multit),
        combine_vec(opt_view(e.multit), opt_view(a.multit)) == opt_view(a.multit),
{
}

} // verus!
