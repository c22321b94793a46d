//! Parenthetical notation: ranges of consecutive values in an ordered
//! index vector, and their rendering as `(a_b_c)d_(e_f)` strings.
use vstd::prelude::*;
use crate::text::{
    char_range, chars_to_string, decimal, digit_char, parse_usize, parsed_usize, push_char, substring,
    usize_to_string,
};

verus! {

/// The rendering of `c` with every element followed by `_`, where `q[x]`
/// opens a `(` before its first element and closes it with `)` in place of
/// the `_` after its last element; also gives how many ranges were closed.
pub open spec fn paren_prefix(c: Seq<usize>, q: Seq<(usize, usize)>, k: nat) -> (Seq<char>, nat)
    decreases k,
{
    if k == 0 {
        (Seq::empty(), 0)
    } else {
        let prev = paren_prefix(c, q, (k - 1) as nat);
        let p = prev.0;
        let x = prev.1;
        let e = c[k - 1];
        let p1 = if x < q.len() && q[x as int].0 == e { p.push('(') } else { p };
        let p2 = p1 + decimal(e as nat).push('_');
        if x < q.len() && q[x as int].1 == e {
            (p2.drop_last().push(')'), x + 1)
        } else {
            (p2, x)
        }
    }
}

/// `s` without a trailing `_`, where it has one.
pub open spec fn trim_underscore(s: Seq<char>) -> Seq<char> {
    if s.len() > 0 && s.last() == '_' {
        s.drop_last()
    } else {
        s
    }
}

/// The parenthetical string of `c` under the ranges `q`: the rendering
/// without the `_` after its last element, so that a `)` that closes on
/// the last element stays.
pub open spec fn parenthetical_string(c: Seq<usize>, q: Seq<(usize, usize)>) -> Seq<char> {
    trim_underscore(paren_prefix(c, q, c.len()).0)
}

/// The decimal renderings of the elements of `c` joined by `_`.
pub open spec fn underscore_join(c: Seq<usize>) -> Seq<char>
    decreases c.len(),
{
    if c.len() == 0 {
        Seq::empty()
    } else if c.len() == 1 {
        decimal(c[0] as nat)
    } else {
        underscore_join(c.drop_last()) + seq!['_'] + decimal(c.last() as nat)
    }
}

/// End (exclusive) of the run of values increasing by exactly one that
/// starts at index `i` of `v`.
pub open spec fn run_end(v: Seq<usize>, i: int) -> int
    decreases v.len() - i,
{
    if i + 1 >= v.len() || v[i + 1] != v[i] + 1 {
        i + 1
    } else {
        run_end(v, i + 1)
    }
}

/// The (first, last) values of every run of length at least two in
/// `v[i..]`, in order.
pub open spec fn runs_from(v: Seq<usize>, i: int) -> Seq<(usize, usize)>
    decreases v.len() - i,
{
    if i < 0 || i >= v.len() {
        Seq::empty()
    } else {
        let k = run_end(v, i);
        let head: Seq<(usize, usize)> = if k - i >= 2 {
            seq![(v[i], v[k - 1])]
        } else {
            Seq::empty()
        };
        if i < k <= v.len() {
            head + runs_from(v, k)
        } else {
            head
        }
    }
}

/// Is `v` ordered so that no element is smaller than the one before it?
pub open spec fn non_decreasing(v: Seq<usize>) -> bool {
    forall|i: int| 1 <= i < v.len() ==> v[i - 1] <= #[trigger] v[i]
}

pub proof fn lemma_run_end_bounds(v: Seq<usize>, i: int)
    requires
        0 <= i < v.len(),
    ensures
        i < run_end(v, i) <= v.len(),
        forall|j: int| i < j < run_end(v, i) ==> #[trigger] v[j] == v[j - 1] + 1,
        run_end(v, i) < v.len() ==> v[run_end(v, i)] != v[run_end(v, i) - 1] + 1,
    decreases v.len() - i,
{
    if i + 1 >= v.len() || v[i + 1] != v[i] + 1 {
    } else {
        lemma_run_end_bounds(v, i + 1);
    }
}

pub proof fn lemma_run_end_unique(v: Seq<usize>, i: int, s: int)
    requires
        0 <= i < s <= v.len(),
        forall|j: int| i < j < s ==> #[trigger] v[j] == v[j - 1] + 1,
        s < v.len() ==> v[s] != v[s - 1] + 1,
    ensures
        run_end(v, i) == s,
    decreases s - i,
{
    if i + 1 < s {
        assert(v[i + 1] == v[i] + 1);
        lemma_run_end_unique(v, i + 1, s);
    }
}

proof fn lemma_paren_prefix_no_ranges(c: Seq<usize>, k: nat)
    requires
        1 <= k <= c.len(),
    ensures
        paren_prefix(c, Seq::empty(), k) == (underscore_join(c.take(k as int)).push('_'), 0nat),
    decreases k,
{
    let q: Seq<(usize, usize)> = Seq::empty();
    if k == 1 {
        assert(paren_prefix(c, q, 0) == (Seq::<char>::empty(), 0nat));
        assert(c.take(1).len() == 1);
        assert(Seq::<char>::empty() + decimal(c[0] as nat).push('_') == decimal(c[0] as nat).push(
            '_',
        ));
    } else {
        lemma_paren_prefix_no_ranges(c, (k - 1) as nat);
        let t = c.take(k as int);
        assert(t.drop_last() == c.take(k - 1));
        assert(t.last() == c[k - 1]);
        assert(underscore_join(t) == underscore_join(c.take(k - 1)) + seq!['_'] + decimal(
            c[k - 1] as nat,
        ));
        assert(underscore_join(c.take(k - 1)).push('_') + decimal(c[k - 1] as nat).push('_')
            == underscore_join(t).push('_'));
    }
}

/// Without ranges, the parenthetical string of `c` is its elements in
/// decimal joined by `_`.
pub proof fn lemma_parenthetical_without_ranges(c: Seq<usize>)
    ensures
        parenthetical_string(c, Seq::empty()) == underscore_join(c),
{
    if c.len() > 0 {
        lemma_paren_prefix_no_ranges(c, c.len());
        assert(c.take(c.len() as int) == c);
        assert(underscore_join(c).push('_').drop_last() == underscore_join(c));
    }
}

/// The rendering ends in a `)` wherever the last element closes a range.
pub proof fn lemma_close_on_last_kept(c: Seq<usize>, q: Seq<(usize, usize)>)
    requires
        c.len() > 0,
        paren_prefix(c, q, (c.len() - 1) as nat).1 < q.len(),
        q[paren_prefix(c, q, (c.len() - 1) as nat).1 as int].1 == c.last(),
    ensures
        parenthetical_string(c, q).len() > 0,
        parenthetical_string(c, q).last() == ')',
{
}

/// Number of occurrences of `ch` in `s`.
pub open spec fn count_char(s: Seq<char>, ch: char) -> nat
    decreases s.len(),
{
    if s.len() == 0 {
        0
    } else {
        count_char(s.drop_last(), ch) + if s.last() == ch {
            1nat
        } else {
            0nat
        }
    }
}

/// Are the ranges `q` placed on the strictly increasing `c`: both ends of
/// each range are elements of `c`, a range opens no later than it closes,
/// and it closes before the next one opens?
pub open spec fn ranges_placed(c: Seq<usize>, q: Seq<(usize, usize)>) -> bool {
    &&& forall|i: int, j: int| 0 <= i < j < c.len() ==> c[i] < c[j]
    &&& forall|x: int|
        0 <= x < q.len() ==> #[trigger] q[x].0 <= q[x].1 && c.contains(q[x].0) && c.contains(
            q[x].1,
        )
    &&& forall|x: int, y: int| 0 <= x < y < q.len() ==> #[trigger] q[x].1 < #[trigger] q[y].0
}

proof fn lemma_count_concat(a: Seq<char>, b: Seq<char>, ch: char)
    ensures
        count_char(a + b, ch) == count_char(a, ch) + count_char(b, ch),
    decreases b.len(),
{
    if b.len() == 0 {
        assert(a + b == a);
    } else {
        lemma_count_concat(a, b.drop_last(), ch);
        assert((a + b).drop_last() == a + b.drop_last());
    }
}

proof fn lemma_count_push(a: Seq<char>, c: char, ch: char)
    ensures
        count_char(a.push(c), ch) == count_char(a, ch) + if c == ch {
            1nat
        } else {
            0nat
        },
{
    assert(a.push(c).drop_last() == a);
}

proof fn lemma_decimal_has_no_parens(n: nat)
    ensures
        count_char(decimal(n), '(') == 0,
        count_char(decimal(n), ')') == 0,
    decreases n,
{
    if n < 10 {
        assert(seq![digit_char(n)] == Seq::<char>::empty().push(digit_char(n)));
        lemma_count_push(Seq::<char>::empty(), digit_char(n), '(');
        lemma_count_push(Seq::<char>::empty(), digit_char(n), ')');
    } else {
        lemma_decimal_has_no_parens(n / 10);
        lemma_count_push(decimal(n / 10), digit_char(n % 10), '(');
        lemma_count_push(decimal(n / 10), digit_char(n % 10), ')');
    }
}

/// An element of the strictly increasing `c` that is larger than `c[k - 1]`
/// is at least `c[k]`.
proof fn lemma_member_after(c: Seq<usize>, k: int, v: usize)
    requires
        forall|i: int, j: int| 0 <= i < j < c.len() ==> c[i] < c[j],
        0 <= k < c.len(),
        c.contains(v),
        k > 0 ==> c[k - 1] < v,
    ensures
        c[k] <= v,
{
    let j = choose|j: int| 0 <= j < c.len() && c[j] == v;
    if j < k {
        if j < k - 1 {
            assert(c[j] < c[k - 1]);
        }
    } else if j > k {
        assert(c[k] < c[j]);
    }
}

/// The counts of `(` and `)` in the rendering of the first `k` elements:
/// one `)` for each range closed, and one `(` more while a range is open.
proof fn lemma_paren_counts(c: Seq<usize>, q: Seq<(usize, usize)>, k: nat)
    requires
        ranges_placed(c, q),
        k <= c.len(),
    ensures
        ({
            let p = paren_prefix(c, q, k).0;
            let x = paren_prefix(c, q, k).1;
            let open = k > 0 && x < q.len() && q[x as int].0 <= c[k - 1];
            &&& x <= q.len()
            &&& count_char(p, ')') == x
            &&& count_char(p, '(') == x + if open {
                1nat
            } else {
                0nat
            }
            &&& (k > 0 && x < q.len()) ==> c[k - 1] < q[x as int].1
            &&& (k > 0 && x < q.len() && !open) ==> c[k - 1] < q[x as int].0
        }),
    decreases k,
{
    if k > 0 {
        let k1 = (k - 1) as nat;
        lemma_paren_counts(c, q, k1);
        let p = paren_prefix(c, q, k1).0;
        let x = paren_prefix(c, q, k1).1;
        let e = c[k - 1];
        let open = k1 > 0 && x < q.len() && q[x as int].0 <= c[k1 - 1];
        if x < q.len() {
            assert(q[x as int].0 <= q[x as int].1 && c.contains(q[x as int].0) && c.contains(
                q[x as int].1,
            ));
            lemma_member_after(c, k1 as int, q[x as int].1);
            if !open {
                lemma_member_after(c, k1 as int, q[x as int].0);
            } else {
                assert(c[k1 - 1] < e);
            }
            if x + 1 < q.len() {
                assert(q[x as int].1 < q[x + 1int].0);
                assert(q[x + 1int].0 <= q[x + 1int].1);
            }
        }
        let p1 = if x < q.len() && q[x as int].0 == e {
            p.push('(')
        } else {
            p
        };
        lemma_count_push(p, '(', '(');
        lemma_count_push(p, '(', ')');
        let d = decimal(e as nat);
        lemma_decimal_has_no_parens(e as nat);
        lemma_count_push(d, '_', '(');
        lemma_count_push(d, '_', ')');
        lemma_count_concat(p1, d.push('_'), '(');
        lemma_count_concat(p1, d.push('_'), ')');
        let p2 = p1 + d.push('_');
        if x < q.len() && q[x as int].1 == e {
            assert(p2.drop_last() == p1 + d);
            lemma_count_concat(p1, d, '(');
            lemma_count_concat(p1, d, ')');
            lemma_count_push(p2.drop_last(), ')', '(');
            lemma_count_push(p2.drop_last(), ')', ')');
        }
    }
}

/// Ranges placed on the strictly increasing elements come out balanced:
/// the parenthetical string holds one `(` and one `)` for every range.
pub proof fn lemma_parentheses_balanced(c: Seq<usize>, q: Seq<(usize, usize)>)
    requires
        ranges_placed(c, q),
    ensures
        count_char(parenthetical_string(c, q), '(') == q.len(),
        count_char(parenthetical_string(c, q), ')') == q.len(),
{
    let n = c.len();
    lemma_paren_counts(c, q, n);
    let p = paren_prefix(c, q, n).0;
    let x = paren_prefix(c, q, n).1;
    if x < q.len() {
        assert(q[x as int].0 <= q[x as int].1 && c.contains(q[x as int].0) && c.contains(
            q[x as int].1,
        ));
        let j = choose|j: int| 0 <= j < c.len() && c[j] == q[x as int].1;
        if j < n - 1 {
            assert(c[j] < c[n - 1]);
        }
        assert(false);
    }
    if p.len() > 0 && p.last() == '_' {
        lemma_count_push(p.drop_last(), '_', '(');
        lemma_count_push(p.drop_last(), '_', ')');
        assert(p.drop_last().push('_') == p);
    }
}

/// The decimal renderings of `0..v`, in order.
pub fn usize_to_choice_vector(v: usize) -> (sol: Vec<String>)
    ensures
        sol.len() == v,
        forall|i: int| 0 <= i < v ==> (#[trigger] sol[i])@ == decimal(i as nat),
{
    let mut sol: Vec<String> = Vec::new();
    for i in 0..v
        invariant
            sol.len() == i,
            forall|j: int| 0 <= j < i ==> (#[trigger] sol[j])@ == decimal(j as nat),
    {
        sol.push(usize_to_string(i));
    }
    sol
}

/// Renders the ordered elements `c` joined by `_`, where each range
/// `q[x] = (open, close)`, taken in order, puts a `(` before the element
/// equal to `open` and a `)` after the element equal to `close`.
pub fn rangevec_to_parenthetical_string(c: Vec<usize>, q: Vec<(usize, usize)>) -> (p: String)
    ensures
        p@ == parenthetical_string(c@, q@),
{
    if c.len() == 0 {
        return String::new();
    }
    let mut p = String::new();
    let mut x: usize = 0;
    assert(p@ == Seq::<char>::empty());
    let l = q.len();
    let n = c.len();
    for i in 0..n
        invariant
            n == c.len(),
            l == q.len(),
            n > 0,
            (p@, x as nat) == paren_prefix(c@, q@, i as nat),
            x <= i,
            x <= l,
    {
        let e = c[i];
        let ghost prev = p@;
        if x < l {
            if q[x].0 == e {
                push_char(&mut p, '(');
            }
        }
        let ghost p1 = p@;
        let d = usize_to_string(e);
        p.append(d.as_str());
        push_char(&mut p, '_');
        assert(p@ == p1 + decimal(e as nat).push('_'));
        if x < l {
            if q[x].1 == e {
                let lp = p.unicode_len();
                let last = substring(p.as_str(), lp - 1, lp);
                if last.unicode_len() == 1 && last.get_char(0) == '_' {
                    let trimmed = substring(p.as_str(), 0, lp - 1);
                    assert(trimmed@ == p@.drop_last());
                    p = trimmed.to_owned();
                } else {
                    assert(last@ == seq!['_']);
                }
                push_char(&mut p, ')');
                x += 1;
            }
        }
    }
    let lp = p.unicode_len();
    if lp > 0 && p.get_char(lp - 1) == '_' {
        let r = substring(p.as_str(), 0, lp - 1);
        assert(r@ == p@.drop_last());
        r.to_owned()
    } else {
        p
    }
}

/// The ranges of consecutive values in `v`, after reading each element as a
/// decimal `usize`.
pub fn decisionvec_to_rangevec(v: Vec<String>) -> (csv: Vec<(usize, usize)>)
    requires
        forall|i: int| 0 <= i < v.len() ==> parsed_usize((#[trigger] v[i])@) is Some,
        non_decreasing(Seq::new(v.len() as nat, |i: int| parsed_usize(v[i]@)->0 as usize)),
    ensures
        csv@ == runs_from(Seq::new(v.len() as nat, |i: int| parsed_usize(v[i]@)->0 as usize), 0),
{
    let uv = stringvec_to_usizevec(v);
    assert(uv@ == Seq::new(v.len() as nat, |i: int| parsed_usize(v[i]@)->0 as usize));
    continuous_subvectors(uv)
}

/// Reads each element of `v` as a decimal `usize`.
pub fn stringvec_to_usizevec(v: Vec<String>) -> (uv: Vec<usize>)
    requires
        forall|i: int| 0 <= i < v.len() ==> parsed_usize((#[trigger] v[i])@) is Some,
    ensures
        uv.len() == v.len(),
        forall|i: int| 0 <= i < v.len() ==> #[trigger] uv[i] == parsed_usize(v[i]@)->0,
{
    let mut uv: Vec<usize> = Vec::new();
    let n = v.len();
    for i in 0..n
        invariant
            n == v.len(),
            forall|j: int| 0 <= j < n ==> parsed_usize((#[trigger] v[j])@) is Some,
            uv.len() == i,
            forall|j: int| 0 <= j < i ==> #[trigger] uv[j] == parsed_usize(v[j]@)->0,
    {
        let x = parse_usize(v[i].as_str());
        assert(parsed_usize(v[i as int]@) is Some);
        match x {
            Some(x_) => uv.push(x_),
            None => {
                assert(false);
            },
        }
    }
    uv
}

/// All runs of length at least two of values increasing by one in the
/// ordered vector `v`, each as its (first, last) value.
#[verifier::spinoff_prover]
#[verifier::rlimit(40)]
pub fn continuous_subvectors(v: Vec<usize>) -> (sol: Vec<(usize, usize)>)
    requires
        non_decreasing(v@),
    ensures
        sol@ == runs_from(v@, 0),
{
    let l = v.len();
    let mut i: usize = 0;
    let mut sol: Vec<(usize, usize)> = Vec::new();
    while i < l
        invariant
            l == v.len(),
            i <= l,
            non_decreasing(v@),
            sol@ + runs_from(v@, i as int) == runs_from(v@, 0),
        decreases l - i,
    {
        let (v1, s) = longest_continuous_f_subvector_from_index(&v, i, is_contiguous);
        proof {
            lemma_run_end_bounds(v@, i as int);
        }
        assert forall|j: int| i < j < s implies #[trigger] v@[j] == v@[j - 1] + 1 by {
            assert(is_contiguous.ensures((&v, j as usize), true));
        }
        if s < l {
            assert(is_contiguous.ensures((&v, s), false));
        }
        proof {
            lemma_run_end_unique(v@, i as int, s as int);
        }
        assert(s == run_end(v@, i as int));
        let l2 = v1.len();
        let ghost old_sol = sol@;
        let ghost k = run_end(v@, i as int);
        let ghost head: Seq<(usize, usize)> = if k - i >= 2 {
            seq![(v@[i as int], v@[k - 1])]
        } else {
            Seq::empty()
        };
        assert(runs_from(v@, i as int) == head + runs_from(v@, k));
        i = s;
        if v1.len() < 2 {
            assert(head == Seq::<(usize, usize)>::empty());
            assert(old_sol + runs_from(v@, i as int) == runs_from(v@, 0));
            continue;
        }
        sol.push((v1[0], v1[l2 - 1]));
        assert(sol@ == old_sol + head);
        assert(sol@ + runs_from(v@, i as int) == old_sol + (head + runs_from(v@, i as int)));
    }
    sol
}

/// Is `v[i]` exactly one more than `v[i - 1]` (always, for `i == 0`)?
pub fn is_contiguous(v: &Vec<usize>, i: usize) -> (b: bool)
    requires
        i < v.len(),
        i > 0 ==> v[i - 1] <= v[i as int],
    ensures
        b == (i == 0 || v[i as int] == v[i - 1] + 1),
{
    if i == 0 {
        return true;
    }
    let b1 = v[i - 1];
    let b2 = v[i];
    b2 - b1 == 1
}

/// Collects `v[i]` and the elements after it for as long as `x(v, j)`
/// holds, and returns them with the index after the last one taken.
pub fn longest_continuous_f_subvector_from_index<T: Copy>(
    v: &Vec<T>,
    i: usize,
    x: impl Fn(&Vec<T>, usize) -> bool,
) -> (r: (Vec<T>, usize))
    requires
        i < v.len(),
        forall|j: usize| i < j < v.len() ==> #[trigger] x.requires((v, j)),
    ensures
        i < r.1 <= v.len(),
        r.0@ == v@.subrange(i as int, r.1 as int),
        forall|j: usize| i < j < r.1 ==> #[trigger] x.ensures((v, j), true),
        r.1 < v.len() ==> x.ensures((v, r.1), false),
{
    let mut sol: Vec<T> = Vec::new();
    sol.push(v[i]);
    let l = v.len();
    let mut j_ = i;
    let mut k = i + 1;
    while k < l
        invariant
            i <= j_ < l,
            k == j_ + 1,
            l == v.len(),
            forall|j: usize| i < j < v.len() ==> #[trigger] x.requires((v, j)),
            sol@ == v@.subrange(i as int, k as int),
            forall|j: usize| i < j < k ==> #[trigger] x.ensures((v, j), true),
        ensures
            i <= j_ < l,
            sol@ == v@.subrange(i as int, j_ + 1),
            forall|j: usize| i < j <= j_ ==> #[trigger] x.ensures((v, j), true),
            j_ + 1 < l ==> x.ensures((v, (j_ + 1) as usize), false),
        decreases l - k,
    {
        if x(v, k) {
            sol.push(v[k]);
            j_ = k;
            k += 1;
            continue;
        }
        break;
    }
    (sol, j_ + 1)
}

/// The sample decision vector `0 1 2 4 7 8 15 16 17 19`, in decimal.
pub fn sample_decision_vec_1() -> (v: Vec<String>)
    ensures
        v.len() == 10,
        v[0]@ == decimal(0) && v[1]@ == decimal(1) && v[2]@ == decimal(2) && v[3]@ == decimal(4)
            && v[4]@ == decimal(7) && v[5]@ == decimal(8) && v[6]@ == decimal(15) && v[7]@
            == decimal(16) && v[8]@ == decimal(17) && v[9]@ == decimal(19),
{
    let mut v: Vec<String> = Vec::new();
    v.push(usize_to_string(0));
    v.push(usize_to_string(1));
    v.push(usize_to_string(2));
    v.push(usize_to_string(4));
    v.push(usize_to_string(7));
    v.push(usize_to_string(8));
    v.push(usize_to_string(15));
    v.push(usize_to_string(16));
    v.push(usize_to_string(17));
    v.push(usize_to_string(19));
    v
}

} // verus!
