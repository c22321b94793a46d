//! Element-wise arithmetic on integer vectors with the broadcasting rule of
//! one-dimensional arrays: two lengths agree when they are equal or when one
//! of them is one, and a length-one operand stands for every position.
use vstd::prelude::*;

verus! {

/// Can vectors of lengths `a` and `b` be combined element-wise?
pub open spec fn compatible(a: nat, b: nat) -> bool {
    a == b || a == 1 || b == 1
}

/// Length of the element-wise combination of vectors of lengths `a`, `b`.
pub open spec fn broadcast_len(a: nat, b: nat) -> nat {
    if a == b {
        a
    } else if a == 1 {
        b
    } else {
        a
    }
}

/// The element of `s` that stands at position `i` of a broadcast result.
pub open spec fn at(s: Seq<i32>, i: int) -> int {
    if s.len() == 1 {
        s[0] as int
    } else {
        s[i] as int
    }
}

/// The sum of the vector `s`.
pub open spec fn seq_sum(s: Seq<i32>) -> int
    decreases s.len(),
{
    if s.len() == 0 {
        0
    } else {
        seq_sum(s.drop_last()) + s.last()
    }
}

/// `a + b`, element-wise.
pub fn arr_add(a: &Vec<i32>, b: &Vec<i32>) -> (r: Vec<i32>)
    requires
        compatible(a.len() as nat, b.len() as nat),
        forall|i: int|
            0 <= i < broadcast_len(a.len() as nat, b.len() as nat) ==> i32::MIN <= #[trigger] at(
                a@,
                i,
            ) + at(b@, i) <= i32::MAX,
    ensures
        r.len() == broadcast_len(a.len() as nat, b.len() as nat),
        forall|i: int| 0 <= i < r.len() ==> #[trigger] r[i] == at(a@, i) + at(b@, i),
{
    let n: usize = if a.len() == b.len() {
        a.len()
    } else if a.len() == 1 {
        b.len()
    } else {
        a.len()
    };
    let mut r: Vec<i32> = Vec::new();
    for i in 0..n
        invariant
            n == broadcast_len(a.len() as nat, b.len() as nat),
            compatible(a.len() as nat, b.len() as nat),
            r.len() == i,
            forall|j: int| 0 <= j < n ==> i32::MIN <= #[trigger] at(a@, j) + at(b@, j) <= i32::MAX,
            forall|j: int| 0 <= j < i ==> #[trigger] r[j] == at(a@, j) + at(b@, j),
    {
        let x = if a.len() == 1 { a[0] } else { a[i] };
        let y = if b.len() == 1 { b[0] } else { b[i] };
        assert(i32::MIN <= at(a@, i as int) + at(b@, i as int) <= i32::MAX);
        r.push(x + y);
    }
    r
}

/// `a - b`, element-wise.
pub fn arr_sub(a: &Vec<i32>, b: &Vec<i32>) -> (r: Vec<i32>)
    requires
        compatible(a.len() as nat, b.len() as nat),
        forall|i: int|
            0 <= i < broadcast_len(a.len() as nat, b.len() as nat) ==> i32::MIN <= #[trigger] at(
                a@,
                i,
            ) - at(b@, i) <= i32::MAX,
    ensures
        r.len() == broadcast_len(a.len() as nat, b.len() as nat),
        forall|i: int| 0 <= i < r.len() ==> #[trigger] r[i] == at(a@, i) - at(b@, i),
{
    let n: usize = if a.len() == b.len() {
        a.len()
    } else if a.len() == 1 {
        b.len()
    } else {
        a.len()
    };
    let mut r: Vec<i32> = Vec::new();
    for i in 0..n
        invariant
            n == broadcast_len(a.len() as nat, b.len() as nat),
            compatible(a.len() as nat, b.len() as nat),
            r.len() == i,
            forall|j: int| 0 <= j < n ==> i32::MIN <= #[trigger] at(a@, j) - at(b@, j) <= i32::MAX,
            forall|j: int| 0 <= j < i ==> #[trigger] r[j] == at(a@, j) - at(b@, j),
    {
        let x = if a.len() == 1 { a[0] } else { a[i] };
        let y = if b.len() == 1 { b[0] } else { b[i] };
        assert(i32::MIN <= at(a@, i as int) - at(b@, i as int) <= i32::MAX);
        r.push(x - y);
    }
    r
}

/// `a * b`, element-wise.
pub fn arr_mul(a: &Vec<i32>, b: &Vec<i32>) -> (r: Vec<i32>)
    requires
        compatible(a.len() as nat, b.len() as nat),
        forall|i: int|
            0 <= i < broadcast_len(a.len() as nat, b.len() as nat) ==> i32::MIN <= #[trigger] (at(
                a@,
                i,
            ) * at(b@, i)) <= i32::MAX,
    ensures
        r.len() == broadcast_len(a.len() as nat, b.len() as nat),
        forall|i: int| 0 <= i < r.len() ==> #[trigger] r[i] == at(a@, i) * at(b@, i),
{
    let n: usize = if a.len() == b.len() {
        a.len()
    } else if a.len() == 1 {
        b.len()
    } else {
        a.len()
    };
    let mut r: Vec<i32> = Vec::new();
    for i in 0..n
        invariant
            n == broadcast_len(a.len() as nat, b.len() as nat),
            compatible(a.len() as nat, b.len() as nat),
            r.len() == i,
            forall|j: int|
                0 <= j < n ==> i32::MIN <= #[trigger] (at(a@, j) * at(b@, j)) <= i32::MAX,
            forall|j: int| 0 <= j < i ==> #[trigger] r[j] == at(a@, j) * at(b@, j),
    {
        let x = if a.len() == 1 { a[0] } else { a[i] };
        let y = if b.len() == 1 { b[0] } else { b[i] };
        assert(i32::MIN <= at(a@, i as int) * at(b@, i as int) <= i32::MAX);
        r.push(x * y);
    }
    r
}

/// `a + x` for every element `a` of `v`.
pub fn add_scalar(v: &Vec<i32>, x: i32) -> (r: Vec<i32>)
    requires
        forall|i: int| 0 <= i < v.len() ==> i32::MIN <= #[trigger] v[i] + x <= i32::MAX,
    ensures
        r.len() == v.len(),
        forall|i: int| 0 <= i < r.len() ==> #[trigger] r[i] == v[i] + x,
{
    let mut r: Vec<i32> = Vec::new();
    for i in 0..v.len()
        invariant
            r.len() == i,
            forall|j: int| 0 <= j < v.len() ==> i32::MIN <= #[trigger] v[j] + x <= i32::MAX,
            forall|j: int| 0 <= j < i ==> #[trigger] r[j] == v[j] + x,
    {
        r.push(v[i] + x);
    }
    r
}

/// `a - x` for every element `a` of `v`.
pub fn sub_scalar(v: &Vec<i32>, x: i32) -> (r: Vec<i32>)
    requires
        forall|i: int| 0 <= i < v.len() ==> i32::MIN <= #[trigger] v[i] - x <= i32::MAX,
    ensures
        r.len() == v.len(),
        forall|i: int| 0 <= i < r.len() ==> #[trigger] r[i] == v[i] - x,
{
    let mut r: Vec<i32> = Vec::new();
    for i in 0..v.len()
        invariant
            r.len() == i,
            forall|j: int| 0 <= j < v.len() ==> i32::MIN <= #[trigger] v[j] - x <= i32::MAX,
            forall|j: int| 0 <= j < i ==> #[trigger] r[j] == v[j] - x,
    {
        r.push(v[i] - x);
    }
    r
}

/// `a * x` for every element `a` of `v`.
pub fn mul_scalar(v: &Vec<i32>, x: i32) -> (r: Vec<i32>)
    requires
        forall|i: int| 0 <= i < v.len() ==> i32::MIN <= #[trigger] (v[i] * x) <= i32::MAX,
    ensures
        r.len() == v.len(),
        forall|i: int| 0 <= i < r.len() ==> #[trigger] r[i] == v[i] * x,
{
    let mut r: Vec<i32> = Vec::new();
    for i in 0..v.len()
        invariant
            r.len() == i,
            forall|j: int| 0 <= j < v.len() ==> i32::MIN <= #[trigger] (v[j] * x) <= i32::MAX,
            forall|j: int| 0 <= j < i ==> #[trigger] r[j] == v[j] * x,
    {
        r.push(v[i] * x);
    }
    r
}

/// The absolute values of `v`.
pub fn abs_values(v: &Vec<i32>) -> (r: Vec<i32>)
    requires
        forall|i: int| 0 <= i < v.len() ==> #[trigger] v[i] != i32::MIN,
    ensures
        r.len() == v.len(),
        forall|i: int| 0 <= i < r.len() ==> #[trigger] r[i] == abs_int(v[i] as int),
{
    let mut r: Vec<i32> = Vec::new();
    for i in 0..v.len()
        invariant
            r.len() == i,
            forall|j: int| 0 <= j < v.len() ==> #[trigger] v[j] != i32::MIN,
            forall|j: int| 0 <= j < i ==> #[trigger] r[j] == abs_int(v[j] as int),
    {
        let x = v[i];
        r.push(if x < 0 { -x } else { x });
    }
    r
}

/// The absolute value of `x`.
pub open spec fn abs_int(x: int) -> int {
    if x < 0 {
        -x
    } else {
        x
    }
}

} // verus!
