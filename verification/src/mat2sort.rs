//! Shuffles of vectors and of matrices kept as vectors of rows.
use vstd::prelude::*;
use vstd::std_specs::cmp::PartialEqSpec;

verus! {

/// Are all rows of `m` of the length of the first?
pub open spec fn rectangular<T>(m: Seq<Vec<T>>) -> bool {
    forall|i: int| 0 <= i < m.len() ==> (#[trigger] m[i]).len() == m[0].len()
}

/// `a` shuffled by the index vector `s`: the `i`-th value is `a[s[i]]`.
pub fn apply_shuffle_map_arr1<T: Copy>(a: Vec<T>, s: Vec<usize>) -> (r: Vec<T>)
    requires
        a.len() == s.len(),
        forall|i: int| 0 <= i < s.len() ==> #[trigger] s[i] < a.len(),
    ensures
        r.len() == s.len(),
        forall|i: int| 0 <= i < s.len() ==> #[trigger] r[i] == a[s[i] as int],
{
    let mut sol: Vec<T> = Vec::new();
    let l = a.len();
    let mut i: usize = 0;
    while i < l
        invariant
            l == a.len(),
            l == s.len(),
            i <= l,
            forall|k: int| 0 <= k < s.len() ==> #[trigger] s[k] < a.len(),
            sol.len() == i,
            forall|k: int| 0 <= k < i ==> #[trigger] sol[k] == a[s[k] as int],
        decreases l - i,
    {
        sol.push(a[s[i]]);
        i = i + 1;
    }
    sol
}

/// A copy of the row `r`.
fn copy_row<T: Copy>(r: &Vec<T>) -> (c: Vec<T>)
    ensures
        c@ == r@,
{
    let mut c: Vec<T> = Vec::new();
    let n = r.len();
    let mut k: usize = 0;
    while k < n
        invariant
            n == r.len(),
            k <= n,
            c@ == r@.take(k as int),
        decreases n - k,
    {
        c.push(r[k]);
        assert(r@.take(k + 1) =~= r@.take(k as int).push(r@[k as int]));
        k = k + 1;
    }
    assert(r@.take(n as int) =~= r@);
    c
}

/// The column `j` of the rows `a`.
fn column_of<T: Copy>(a: &Vec<Vec<T>>, j: usize) -> (c: Vec<T>)
    requires
        forall|i: int| 0 <= i < a.len() ==> j < (#[trigger] a[i]).len(),
    ensures
        c.len() == a.len(),
        forall|i: int| 0 <= i < a.len() ==> #[trigger] c[i] == a[i][j as int],
{
    let mut c: Vec<T> = Vec::new();
    let n = a.len();
    let mut i: usize = 0;
    while i < n
        invariant
            n == a.len(),
            i <= n,
            forall|k: int| 0 <= k < a.len() ==> j < (#[trigger] a[k]).len(),
            c.len() == i,
            forall|k: int| 0 <= k < i ==> #[trigger] c[k] == a[k][j as int],
        decreases n - i,
    {
        c.push(a[i][j]);
        i = i + 1;
    }
    c
}

/// The rows `v` as a matrix, or `None` where there is no row.
pub fn vec_to_arr2<T: Copy>(v: Vec<Vec<T>>) -> (r: Option<Vec<Vec<T>>>)
    requires
        rectangular(v@),
    ensures
        v.len() == 0 ==> r is None,
        v.len() > 0 ==> (r matches Some(m) && m@ == v@),
{
    if v.len() == 0 {
        return None;
    }
    Some(v)
}

/// The rows (or, where `is_row` is false, the columns) of `a` picked by
/// the index vector `s`, as the rows of a new matrix.
pub fn apply_shuffle_map_arr2<T: Copy>(a: Vec<Vec<T>>, s: Vec<usize>, is_row: bool) -> (r: Vec<Vec<T>>)
    requires
        rectangular(a@),
        s.len() > 0,
        is_row ==> forall|i: int| 0 <= i < s.len() ==> #[trigger] s[i] < a.len(),
        !is_row ==> a.len() > 0 && forall|i: int| 0 <= i < s.len() ==> #[trigger] s[i] < a[0].len(),
    ensures
        r.len() == s.len(),
        is_row ==> forall|i: int| 0 <= i < s.len() ==> (#[trigger] r[i])@ == a[s[i] as int]@,
        !is_row ==> forall|i: int|
            0 <= i < s.len() ==> (#[trigger] r[i]).len() == a.len() && forall|k: int|
                0 <= k < a.len() ==> r[i][k] == a[k][s[i] as int],
{
    let mut sol: Vec<Vec<T>> = Vec::new();
    let n = s.len();
    let mut i: usize = 0;
    while i < n
        invariant
            n == s.len(),
            i <= n,
            rectangular(a@),
            is_row ==> forall|k: int| 0 <= k < s.len() ==> #[trigger] s[k] < a.len(),
            !is_row ==> a.len() > 0 && forall|k: int| 0 <= k < s.len() ==> #[trigger] s[k] < a[0].len(),
            sol.len() == i,
            forall|k: int| 0 <= k < i ==> (#[trigger] sol[k]).len() == (if is_row { a[0].len() } else { a.len() }),
            is_row ==> forall|k: int| 0 <= k < i ==> (#[trigger] sol[k])@ == a[s[k] as int]@,
            !is_row ==> forall|k: int|
                0 <= k < i ==> forall|m: int| 0 <= m < a.len() ==> (#[trigger] sol[k])[m] == a[m][s[k] as int],
        decreases n - i,
    {
        let q: Vec<T> = if is_row {
            copy_row(&a[s[i]])
        } else {
            assert(forall|m: int| 0 <= m < a.len() ==> s[i as int] < (#[trigger] a[m]).len());
            column_of(&a, s[i])
        };
        sol.push(q);
        i = i + 1;
    }
    assert(rectangular(sol@));
    match vec_to_arr2(sol) {
        Some(m) => m,
        None => Vec::new(),
    }
}

/// The number of columns of the rows `a` (zero where there is no row).
pub open spec fn cols<T>(a: Seq<Vec<T>>) -> int {
    if a.len() > 0 {
        a[0].len() as int
    } else {
        0
    }
}

/// Are `x` and `y` of one length and equal value by value?
pub open spec fn same_values<T: PartialEq>(x: Seq<T>, y: Seq<T>) -> bool {
    x.len() == y.len() && forall|k: int| 0 <= k < x.len() ==> (#[trigger] x[k]).eq_spec(&y[k])
}

/// The line `i` of `a`: its row `i`, or its column `i` where `is_row` is false.
pub open spec fn line_of<T>(a: Seq<Vec<T>>, i: int, is_row: bool) -> Seq<T> {
    if is_row {
        a[i]@
    } else {
        Seq::new(a.len(), |r: int| a[r]@[i])
    }
}

/// Do `x` and `y` hold equal values, compared one by one?
fn values_equal<T: Copy + PartialEq + PartialEqSpec>(x: &Vec<T>, y: &Vec<T>) -> (r: bool)
    requires
        T::obeys_eq_spec(),
    ensures
        r == same_values(x@, y@),
{
    if x.len() != y.len() {
        return false;
    }
    let n = x.len();
    let mut k: usize = 0;
    while k < n
        invariant
            n == x.len(),
            n == y.len(),
            k <= n,
            T::obeys_eq_spec(),
            forall|j: int| 0 <= j < k ==> (#[trigger] x@[j]).eq_spec(&y@[j]),
        decreases n - k,
    {
        if !(x[k] == y[k]) {
            return false;
        }
        k = k + 1;
    }
    true
}

/// The first line of `a` (a row, or a column where `is_row` is false) that
/// holds the values of `a2`, where the number of such lines is the length
/// of `a2`.
pub fn vec_in_arr2<T: Copy + PartialEq + PartialEqSpec>(a: Vec<Vec<T>>, a2: Vec<T>, is_row: bool) -> (r: Option<usize>)
    requires
        T::obeys_eq_spec(),
        rectangular(a@),
        (if is_row { a.len() as int } else { cols(a@) }) == a2.len(),
    ensures
        match r {
            Some(i) => {
                &&& i < a2.len()
                &&& same_values(line_of(a@, i as int, is_row), a2@)
                &&& forall|j: int| 0 <= j < i ==> !same_values(line_of(a@, j, is_row), a2@)
            },
            None => forall|j: int| 0 <= j < a2.len() ==> !same_values(line_of(a@, j, is_row), a2@),
        },
{
    let l = a2.len();
    let mut i: usize = 0;
    while i < l
        invariant
            l == a2.len(),
            i <= l,
            T::obeys_eq_spec(),
            rectangular(a@),
            (if is_row { a.len() as int } else { cols(a@) }) == a2.len(),
            forall|j: int| 0 <= j < i ==> !same_values(line_of(a@, j, is_row), a2@),
        decreases l - i,
    {
        let line: Vec<T> = if is_row {
            copy_row(&a[i])
        } else {
            assert(forall|m: int| 0 <= m < a.len() ==> i < (#[trigger] a[m]).len());
            column_of(&a, i)
        };
        assert(line@ =~= line_of(a@, i as int, is_row));
        if values_equal(&line, &a2) {
            return Some(i);
        }
        i = i + 1;
    }
    None
}

/// Does some row of `m` hold the values of `x`?
pub open spec fn row_present<T: PartialEq>(m: Seq<Vec<T>>, x: Seq<T>) -> bool {
    exists|j: int| 0 <= j < m.len() && same_values(#[trigger] m[j]@, x)
}

/// For each row of `a`, the first row of `a2` that holds its values.
pub fn arr2_shuffle_map<T: Copy + PartialEq + PartialEqSpec>(a: Vec<Vec<T>>, a2: Vec<Vec<T>>) -> (r: Vec<usize>)
    requires
        T::obeys_eq_spec(),
        rectangular(a@),
        rectangular(a2@),
        a.len() * cols(a@) == a2.len() * cols(a2@),
        a2.len() == cols(a@),
        forall|i: int| 0 <= i < a.len() ==> row_present(a2@, #[trigger] a[i]@),
    ensures
        r.len() == a.len(),
        forall|i: int|
            0 <= i < a.len() ==> {
                &&& #[trigger] r[i] < a2.len()
                &&& same_values(a2[r[i] as int]@, a[i]@)
                &&& forall|j: int| 0 <= j < r[i] ==> !same_values(a2[j]@, a[i]@)
            },
{
    let mut sol: Vec<usize> = Vec::new();
    let l = a.len();
    let mut i: usize = 0;
    while i < l
        invariant
            l == a.len(),
            i <= l,
            T::obeys_eq_spec(),
            rectangular(a@),
            rectangular(a2@),
            a2.len() == cols(a@),
            forall|k: int| 0 <= k < a.len() ==> row_present(a2@, #[trigger] a[k]@),
            sol.len() == i,
            forall|k: int|
                0 <= k < i ==> {
                    &&& #[trigger] sol[k] < a2.len()
                    &&& same_values(a2[sol[k] as int]@, a[k]@)
                    &&& forall|j: int| 0 <= j < sol[k] ==> !same_values(a2[j]@, a[k]@)
                },
        decreases l - i,
    {
        let r1 = copy_row(&a[i]);
        assert(a[i as int].len() == cols(a@));
        let mut a2c: Vec<Vec<T>> = Vec::new();
        let mut k: usize = 0;
        while k < a2.len()
            invariant
                k <= a2.len(),
                a2c.len() == k,
                forall|m: int| 0 <= m < k ==> (#[trigger] a2c[m])@ == a2[m]@,
            decreases a2.len() - k,
        {
            a2c.push(copy_row(&a2[k]));
            k = k + 1;
        }
        assert(a2c@.len() == a2@.len());
        assert(forall|m: int| 0 <= m < a2c.len() ==> (#[trigger] line_of(a2c@, m, true)) == a2[m]@);
        assert(rectangular(a2c@));
        let found = vec_in_arr2(a2c, r1, true);
        assert(row_present(a2@, a[i as int]@));
        let ghost w = choose|j: int| 0 <= j < a2.len() && same_values(a2[j]@, a[i as int]@);
        match found {
            Some(x) => {
                assert(x < a2.len());
                assert(line_of(a2c@, x as int, true) == a2[x as int]@);
                assert(same_values(a2[x as int]@, a[i as int]@));
                assert forall|j: int| 0 <= j < x implies !same_values(a2[j]@, a[i as int]@) by {
                    assert(line_of(a2c@, j, true) == a2[j]@);
                }
                sol.push(x);
            },
            None => {
                assert(line_of(a2c@, w, true) == a2[w]@);
                assert(false);
            },
        }
        i = i + 1;
    }
    sol
}

} // verus!
