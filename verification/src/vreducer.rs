//! The control of a chained reducer: a body of functions of two kinds, run
//! in alternating runs whose bounds `directions` gives, and the scaled
//! skews that serve as its simplest elements.
use vstd::prelude::*;
use crate::skew::{build_skew, is_adder_skew, is_type_m};
use crate::skewf32::SkewF32;
use crate::arrops::abs_int;

verus! {

/// The adder skew of `a` at the scale `t`.
pub fn sample_vred_adder_skew(a: i32, t: usize) -> (r: SkewF32)
    requires
        a != i32::MIN,
    ensures
        is_adder_skew(r.sk, a),
        r.sk.skew_size == abs_int(a as int),
        r.s == t,
{
    let sk = build_skew(Some(a), None, None, None, vec![0], None);
    assert(sk.ordering@ == seq![0usize]);
    SkewF32 { sk: sk, s: t }
}

/// The multer skew of `m` at the scale 1.
pub fn sample_vred_multer_skew(m: i32) -> (r: SkewF32)
    requires
        m != i32::MIN,
    ensures
        is_type_m(r.sk, m),
        r.s == 1,
{
    let sk = build_skew(None, Some(m), None, None, vec![1], None);
    assert(sk.ordering@ == seq![1usize]);
    SkewF32 { sk: sk, s: 1 }
}

/// The kind of run (0 for functions, otherwise skews) at the `i`-th
/// direction, counting from 1, starting from `s`.
pub open spec fn switch_at(s: int, i: int) -> int
    decreases i,
{
    if i <= 1 {
        s
    } else {
        (switch_at(s, i - 1) + 1) % 2
    }
}

/// Does every direction after the first lie below the number of functions
/// of the kind of its run (`ls` for runs of kind 1, `lf` otherwise)?
pub open spec fn directions_valid(s: int, dirs: Seq<usize>, lf: int, ls: int) -> bool {
    forall|i: int|
        1 <= i < dirs.len() ==> (dirs[i] as int) < (if switch_at(s, i) == 1 {
            ls
        } else {
            lf
        })
}

/// Can the kind be advanced past each direction without overflow?
pub open spec fn switch_fits(s: int, n: int) -> bool {
    s < usize::MAX || n <= 1
}

proof fn lemma_switch_at_small(s: int, i: int)
    requires
        i >= 2,
    ensures
        0 <= switch_at(s, i) <= 1,
    decreases i,
{
    if i > 2 {
        lemma_switch_at_small(s, i - 1);
    }
}

/// Are the directions valid for `lf` functions and `ls` skews?
pub fn check_directions(switch_f: usize, directions: &Vec<usize>, lf: usize, ls: usize) -> (r: bool)
    requires
        switch_fits(switch_f as int, directions.len() as int),
    ensures
        r == directions_valid(switch_f as int, directions@, lf as int, ls as int),
{
    let mut q = switch_f;
    let l = directions.len();
    let mut i: usize = 1;
    while i < l
        invariant
            l == directions.len(),
            1 <= i,
            i <= l || l == 0,
            switch_fits(switch_f as int, l as int),
            q == switch_at(switch_f as int, i as int),
            forall|k: int|
                1 <= k < i ==> (directions@[k] as int) < (if switch_at(switch_f as int, k) == 1 {
                    ls as int
                } else {
                    lf as int
                }),
        decreases l - i,
    {
        let x2 = directions[i];
        let qr: usize = if q == 1 { ls } else { lf };
        if x2 >= qr {
            return false;
        }
        proof {
            if i >= 2 {
                lemma_switch_at_small(switch_f as int, i as int);
            }
        }
        q = (q + 1) % 2;
        i = i + 1;
    }
    true
}

proof fn lemma_switch_at_closed(s: int, i: int)
    requires
        i >= 2,
    ensures
        switch_at(s, i) == (s + i - 1) % 2,
    decreases i,
{
    if i > 2 {
        lemma_switch_at_closed(s, i - 1);
        let x = s + i - 2;
        assert(((x % 2) + 1) % 2 == (x + 1) % 2);
    } else {
        assert(switch_at(s, 1) == s);
        assert(switch_at(s, 2) == (switch_at(s, 1) + 1) % 2);
    }
}

/// The directions pass the check exactly when each direction after the
/// first, taken itself, lies below the number of skews (for a run of
/// skews) or of functions (for a run of functions): the first run is of
/// skews when `s == 1`, and the runs after it alternate, the `i`-th one
/// being of skews when `s + i - 1` is odd.
pub proof fn lemma_directions_valid_bounds(s: int, dirs: Seq<usize>, lf: int, ls: int)
    ensures
        directions_valid(s, dirs, lf, ls) <==> forall|i: int|
            1 <= i < dirs.len() ==> (#[trigger] dirs[i] as int) < (if (i == 1 && s == 1) || (i >= 2
                && (s + i - 1) % 2 == 1) {
                ls
            } else {
                lf
            }),
{
    let bound = |i: int|
        if (i == 1 && s == 1) || (i >= 2 && (s + i - 1) % 2 == 1) {
            ls
        } else {
            lf
        };
    assert forall|i: int| 1 <= i < dirs.len() implies (if switch_at(s, i) == 1 {
        ls
    } else {
        lf
    }) == bound(i) by {
        if i >= 2 {
            lemma_switch_at_closed(s, i);
        }
    }
    if directions_valid(s, dirs, lf, ls) {
        assert forall|i: int| 1 <= i < dirs.len() implies (#[trigger] dirs[i] as int) < bound(i) by {
            assert((dirs[i] as int) < (if switch_at(s, i) == 1 {
                ls
            } else {
                lf
            }));
        }
    }
    if forall|i: int| 1 <= i < dirs.len() ==> (#[trigger] dirs[i] as int) < bound(i) {
        assert forall|i: int| 1 <= i < dirs.len() implies (#[trigger] dirs[i] as int) < (if switch_at(
            s,
            i,
        ) == 1 {
            ls
        } else {
            lf
        }) by {
            assert((dirs[i] as int) < bound(i));
        }
    }
}

/// The kind of the last run: `(switch_f + n - 1) % 2` for `n` directions.
pub fn current_switch(switch_f: usize, n: usize) -> (r: usize)
    requires
        switch_f + n >= 1,
        switch_f + n <= usize::MAX,
    ensures
        r == (switch_f + n - 1) % 2,
{
    (switch_f + n - 1) % 2
}

/// Adds a function to a body with the directions `directions` and `size`
/// functions so far: a new run starts at `size` where the last run is not
/// of functions.
pub fn add_direction(switch_f: usize, directions: &mut Vec<usize>, size: usize)
    requires
        switch_f + old(directions).len() >= 1,
        switch_f + old(directions).len() <= usize::MAX,
    ensures
        final(directions)@ == if (switch_f + old(directions).len() - 1) % 2 != 0 {
            old(directions)@.push(size)
        } else {
            old(directions)@
        },
{
    let cs = current_switch(switch_f, directions.len());
    if cs != 0 {
        directions.push(size);
    }
}

/// `d` consecutive applications of the functions of kind `k` from `start` on.
pub open spec fn run_steps(k: usize, start: int, d: int) -> Seq<(usize, usize)> {
    Seq::new(d as nat, |j: int| (k, (start + j) as usize))
}

/// The state of a body run after its first `m` runs: the kind of the next
/// run, how many functions and skews were applied, and which, in order.
pub open spec fn body_run(s: int, dirs: Seq<usize>, m: int) -> (int, int, int, Seq<(usize, usize)>)
    decreases m,
{
    if m <= 0 {
        (s, 0, 0, Seq::empty())
    } else {
        let (q, fi, si, st) = body_run(s, dirs, m - 1);
        let d = dirs[m] - dirs[m - 1];
        if q == 0 {
            ((q + 1) % 2, fi + d, si, st + run_steps(0, fi, d))
        } else {
            ((q + 1) % 2, fi, si + d, st + run_steps(1, si, d))
        }
    }
}

/// The number of runs that the directions mark out.
pub open spec fn run_count(dirs: Seq<usize>) -> int {
    if dirs.len() == 0 {
        0
    } else {
        dirs.len() - 1
    }
}

/// The applications, in order, that a body with `lf` functions and `ls`
/// skews makes: the runs the directions mark out, then the rest of the
/// kind that comes next.
pub open spec fn body_schedule_spec(s: int, dirs: Seq<usize>, lf: int, ls: int) -> Seq<(usize, usize)> {
    let (q, fi, si, st) = body_run(s, dirs, run_count(dirs));
    if q == 0 {
        st + run_steps(0, fi, lf - fi)
    } else {
        st + run_steps(1, si, ls - si)
    }
}

/// Can the body run: are the directions non-decreasing, and does each run
/// stay within the functions or skews that there are?
pub open spec fn body_fits(s: int, dirs: Seq<usize>, lf: int, ls: int) -> bool {
    &&& switch_fits(s, dirs.len() as int)
    &&& forall|j: int|
        0 <= j < run_count(dirs) ==> {
            let (q, fi, si, st) = #[trigger] body_run(s, dirs, j);
            &&& dirs[j] <= dirs[j + 1]
            &&& q == 0 ==> fi + dirs[j + 1] - dirs[j] <= lf
            &&& q != 0 ==> si + dirs[j + 1] - dirs[j] <= ls
        }
}

proof fn lemma_body_run_counts(s: int, dirs: Seq<usize>, m: int, lf: int, ls: int)
    requires
        body_fits(s, dirs, lf, ls),
        0 <= m <= run_count(dirs),
        lf >= 0,
        ls >= 0,
    ensures
        0 <= body_run(s, dirs, m).1 <= lf,
        0 <= body_run(s, dirs, m).2 <= ls,
        m >= 1 ==> 0 <= body_run(s, dirs, m).0 <= 1,
        body_run(s, dirs, m).3.len() == body_run(s, dirs, m).1 + body_run(s, dirs, m).2,
    decreases m,
{
    if m > 0 {
        lemma_body_run_counts(s, dirs, m - 1, lf, ls);
        let t = body_run(s, dirs, m - 1);
        assert(dirs[m - 1] <= dirs[m]);
    }
}

/// The applications of kind `k` in `r`, in order.
pub open spec fn of_kind(r: Seq<(usize, usize)>, k: usize) -> Seq<(usize, usize)> {
    r.filter(|p: (usize, usize)| p.0 == k)
}

/// The first `n` ones of kind `k`: `(k, 0), (k, 1), ..., (k, n - 1)`.
pub open spec fn first_of_kind(k: usize, n: int) -> Seq<(usize, usize)> {
    Seq::new(n as nat, |j: int| (k, j as usize))
}

proof fn lemma_run_steps_kinds(k: usize, start: int, d: int)
    requires
        0 <= d,
    ensures
        of_kind(run_steps(k, start, d), k) == run_steps(k, start, d),
        forall|o: usize| o != k ==> #[trigger] of_kind(run_steps(k, start, d), o) == Seq::<
            (usize, usize),
        >::empty(),
    decreases d,
{
    reveal(Seq::filter);
    let r = run_steps(k, start, d);
    if d > 0 {
        lemma_run_steps_kinds(k, start, d - 1);
        let r1 = run_steps(k, start, d - 1);
        assert(r.drop_last() =~= r1);
        assert(r =~= r1.push(r.last()));
        assert(r.last().0 == k);
        assert forall|o: usize| o != k implies #[trigger] of_kind(r, o) == Seq::<(usize, usize)>::empty() by {
            assert(of_kind(r1, o) == Seq::<(usize, usize)>::empty());
            assert(of_kind(r, o) == of_kind(r.drop_last(), o));
        }
    } else {
        assert(r =~= Seq::<(usize, usize)>::empty());
    }
}

proof fn lemma_first_of_kind_extends(k: usize, n: int, d: int)
    requires
        0 <= n,
        0 <= d,
        n + d <= usize::MAX,
    ensures
        first_of_kind(k, n) + run_steps(k, n, d) == first_of_kind(k, n + d),
{
    assert(first_of_kind(k, n) + run_steps(k, n, d) =~= first_of_kind(k, n + d));
}

proof fn lemma_body_run_kinds(s: int, dirs: Seq<usize>, m: int, lf: int, ls: int)
    requires
        body_fits(s, dirs, lf, ls),
        0 <= m <= run_count(dirs),
        0 <= lf <= usize::MAX,
        0 <= ls <= usize::MAX,
    ensures
        of_kind(body_run(s, dirs, m).3, 0) == first_of_kind(0, body_run(s, dirs, m).1),
        of_kind(body_run(s, dirs, m).3, 1) == first_of_kind(1, body_run(s, dirs, m).2),
        forall|k: int|
            0 <= k < body_run(s, dirs, m).3.len() ==> (#[trigger] body_run(s, dirs, m).3[k]).0 == 0
                || body_run(s, dirs, m).3[k].0 == 1,
    decreases m,
{
    broadcast use Seq::filter_distributes_over_add;

    if m <= 0 {
        reveal(Seq::filter);
        assert(first_of_kind(0, 0) =~= Seq::<(usize, usize)>::empty());
        assert(first_of_kind(1, 0) =~= Seq::<(usize, usize)>::empty());
    } else {
        lemma_body_run_kinds(s, dirs, m - 1, lf, ls);
        lemma_body_run_counts(s, dirs, m - 1, lf, ls);
        let (q, fi, si, st) = body_run(s, dirs, m - 1);
        assert(0 <= m - 1 < run_count(dirs));
        let t = body_run(s, dirs, m - 1);
        assert(dirs[m - 1] <= dirs[m]);
        let d = dirs[m] - dirs[m - 1];
        if q == 0 {
            lemma_run_steps_kinds(0, fi, d);
            assert(of_kind(run_steps(0, fi, d), 1) == Seq::<(usize, usize)>::empty());
            lemma_first_of_kind_extends(0, fi, d);
            assert(of_kind(st + run_steps(0, fi, d), 1) =~= of_kind(st, 1));
        } else {
            lemma_run_steps_kinds(1, si, d);
            assert(of_kind(run_steps(1, si, d), 0) == Seq::<(usize, usize)>::empty());
            lemma_first_of_kind_extends(1, si, d);
            assert(of_kind(st + run_steps(1, si, d), 0) =~= of_kind(st, 0));
        }
    }
}

/// A body applies its functions in order from the first and its skews in
/// order from the first, whatever the directions: the functions in the
/// schedule, in order, are functions `0, 1, 2, ...`, the skews are skews
/// `0, 1, 2, ...`, none beyond the ones there are, and the kind that comes
/// last is applied to its end.
pub proof fn lemma_schedule_counts_up(s: int, dirs: Seq<usize>, lf: int, ls: int)
    requires
        body_fits(s, dirs, lf, ls),
        0 <= lf <= usize::MAX,
        0 <= ls <= usize::MAX,
    ensures
        forall|k: int|
            0 <= k < body_schedule_spec(s, dirs, lf, ls).len() ==> (#[trigger] body_schedule_spec(
                s,
                dirs,
                lf,
                ls,
            )[k]).0 == 0 || body_schedule_spec(s, dirs, lf, ls)[k].0 == 1,
        exists|nf: int, ns: int|
            0 <= nf <= lf && 0 <= ns <= ls && (nf == lf || ns == ls) && of_kind(
                body_schedule_spec(s, dirs, lf, ls),
                0,
            ) == first_of_kind(0, nf) && of_kind(body_schedule_spec(s, dirs, lf, ls), 1)
                == first_of_kind(1, ns),
{
    broadcast use Seq::filter_distributes_over_add;

    let m = run_count(dirs);
    lemma_body_run_kinds(s, dirs, m, lf, ls);
    lemma_body_run_counts(s, dirs, m, lf, ls);
    let (q, fi, si, st) = body_run(s, dirs, m);
    let r = body_schedule_spec(s, dirs, lf, ls);
    if q == 0 {
        lemma_run_steps_kinds(0, fi, lf - fi);
        assert(of_kind(run_steps(0, fi, lf - fi), 1) == Seq::<(usize, usize)>::empty());
        lemma_first_of_kind_extends(0, fi, lf - fi);
        assert(r == st + run_steps(0, fi, lf - fi));
        assert(of_kind(r, 1) =~= of_kind(st, 1));
        assert(of_kind(r, 0) == first_of_kind(0, lf));
        assert(forall|k: int| 0 <= k < r.len() ==> (#[trigger] r[k]).0 == 0 || r[k].0 == 1) by {
            assert forall|k: int| 0 <= k < r.len() implies (#[trigger] r[k]).0 == 0 || r[k].0 == 1 by {
                if k >= st.len() {
                    assert(r[k] == run_steps(0, fi, lf - fi)[k - st.len()]);
                } else {
                    assert(r[k] == st[k]);
                }
            }
        }
    } else {
        lemma_run_steps_kinds(1, si, ls - si);
        assert(of_kind(run_steps(1, si, ls - si), 0) == Seq::<(usize, usize)>::empty());
        lemma_first_of_kind_extends(1, si, ls - si);
        assert(r == st + run_steps(1, si, ls - si));
        assert(of_kind(r, 0) =~= of_kind(st, 0));
        assert(of_kind(r, 1) == first_of_kind(1, ls));
        assert forall|k: int| 0 <= k < r.len() implies (#[trigger] r[k]).0 == 0 || r[k].0 == 1 by {
            if k >= st.len() {
                assert(r[k] == run_steps(1, si, ls - si)[k - st.len()]);
            } else {
                assert(r[k] == st[k]);
            }
        }
    }
}

proof fn lemma_body_run_shape(s: int, dirs: Seq<usize>, m: int, lf: int, ls: int)
    requires
        body_fits(s, dirs, lf, ls),
        0 <= m <= run_count(dirs),
        s == 0 || s == 1,
        lf >= 0,
        ls >= 0,
    ensures
        body_run(s, dirs, m).0 == (s + m) % 2,
        m >= 1 ==> body_run(s, dirs, m).3.len() == dirs[m] - dirs[0],
        m == 0 ==> body_run(s, dirs, m).3.len() == 0,
        forall|p: int, k: int|
            #![trigger body_run(s, dirs, m).3[k], dirs[p]]
            1 <= p <= m && dirs[p - 1] - dirs[0] <= k < dirs[p] - dirs[0] ==> body_run(
                s,
                dirs,
                m,
            ).3[k].0 == (s + p - 1) % 2,
    decreases m,
{
    if m > 0 {
        lemma_body_run_shape(s, dirs, m - 1, lf, ls);
        lemma_body_run_counts(s, dirs, m - 1, lf, ls);
        let (q, fi, si, st) = body_run(s, dirs, m - 1);
        assert(0 <= m - 1 < run_count(dirs));
        let t = body_run(s, dirs, m - 1);
        assert(dirs[m - 1] <= dirs[m]);
        let d = dirs[m] - dirs[m - 1];
        let st2 = body_run(s, dirs, m).3;
        if m - 1 >= 1 {
            assert(st.len() == dirs[m - 1] - dirs[0]);
        } else {
            assert(st.len() == 0);
        }
        assert(st2 == if q == 0 {
            st + run_steps(0, fi, d)
        } else {
            st + run_steps(1, si, d)
        });
        assert(st2.len() == st.len() + d);
        assert forall|p: int, k: int|
            #![trigger st2[k], dirs[p]]
            1 <= p <= m && dirs[p - 1] - dirs[0] <= k < dirs[p] - dirs[0] implies st2[k].0 == (s
                + p - 1) % 2 by {
            if p < m {
                lemma_dirs_ordered(s, dirs, lf, ls, 0, p - 1);
                if m - 1 >= 1 {
                    assert(dirs[p] <= dirs[m - 1]) by {
                        lemma_dirs_ordered(s, dirs, lf, ls, p, m - 1);
                    }
                }
                assert(k < st.len());
                assert(st2[k] == st[k]);
            } else {
                assert(k >= st.len());
                if q == 0 {
                    assert(st2[k] == run_steps(0, fi, d)[k - st.len()]);
                } else {
                    assert(st2[k] == run_steps(1, si, d)[k - st.len()]);
                }
            }
        }
    }
}

proof fn lemma_dirs_ordered(s: int, dirs: Seq<usize>, lf: int, ls: int, a: int, b: int)
    requires
        body_fits(s, dirs, lf, ls),
        0 <= a <= b <= run_count(dirs),
    ensures
        dirs[a] <= dirs[b],
    decreases b - a,
{
    if a < b {
        lemma_dirs_ordered(s, dirs, lf, ls, a, b - 1);
        assert(0 <= b - 1 < run_count(dirs));
        let t = body_run(s, dirs, b - 1);
        assert(dirs[b - 1] <= dirs[b]);
    }
}

/// The runs come in the order the directions give, starting with the kind
/// `s` and alternating: the entries of the `p`-th run, which fill the
/// places from `dirs[p - 1] - dirs[0]` up to `dirs[p] - dirs[0]`, are all
/// of the kind `(s + p - 1) % 2`, and what follows the last run is all of
/// the kind after it.
pub proof fn lemma_schedule_runs_alternate(s: int, dirs: Seq<usize>, lf: int, ls: int)
    requires
        body_fits(s, dirs, lf, ls),
        s == 0 || s == 1,
        0 <= lf <= usize::MAX,
        0 <= ls <= usize::MAX,
    ensures
        forall|p: int, k: int|
            #![trigger body_schedule_spec(s, dirs, lf, ls)[k], dirs[p]]
            1 <= p <= run_count(dirs) && dirs[p - 1] - dirs[0] <= k < dirs[p] - dirs[0]
                ==> body_schedule_spec(s, dirs, lf, ls)[k].0 == (s + p - 1) % 2,
        forall|k: int|
            (if run_count(dirs) >= 1 {
                dirs[run_count(dirs)] - dirs[0]
            } else {
                0
            }) <= k < body_schedule_spec(s, dirs, lf, ls).len() ==> (
            #[trigger] body_schedule_spec(s, dirs, lf, ls)[k]).0 == (s + run_count(dirs)) % 2,
{
    let m = run_count(dirs);
    lemma_body_run_shape(s, dirs, m, lf, ls);
    lemma_body_run_counts(s, dirs, m, lf, ls);
    let (q, fi, si, st) = body_run(s, dirs, m);
    let r = body_schedule_spec(s, dirs, lf, ls);
    let tail = if q == 0 {
        run_steps(0, fi, lf - fi)
    } else {
        run_steps(1, si, ls - si)
    };
    assert(r == st + tail);
    let start = if m >= 1 {
        dirs[m] - dirs[0]
    } else {
        0
    };
    assert(st.len() == start);
    assert forall|p: int, k: int|
        #![trigger r[k], dirs[p]]
        1 <= p <= m && dirs[p - 1] - dirs[0] <= k < dirs[p] - dirs[0] implies r[k].0 == (s + p
            - 1) % 2 by {
        lemma_dirs_ordered(s, dirs, lf, ls, p, m);
        lemma_dirs_ordered(s, dirs, lf, ls, 0, p - 1);
        assert(k < st.len());
        assert(r[k] == st[k]);
        assert((st[k]).0 == (s + p - 1) % 2);
    }
    assert forall|k: int| start <= k < r.len() implies (#[trigger] r[k]).0 == (s + m) % 2 by {
        assert(r[k] == tail[k - start]);
    }
}

/// The applications, in order, that a body with `lf` functions and `ls`
/// skews makes for the directions `directions` and the first kind
/// `switch_f`: each pair is the kind (0 a function, 1 a skew) and the
/// index of the one applied.
pub fn body_schedule(switch_f: usize, directions: &Vec<usize>, lf: usize, ls: usize) -> (r: Vec<(usize, usize)>)
    requires
        body_fits(switch_f as int, directions@, lf as int, ls as int),
    ensures
        r@ == body_schedule_spec(switch_f as int, directions@, lf as int, ls as int),
{
    let ghost s = switch_f as int;
    let mut q = switch_f;
    let l = directions.len();
    let mut sol: Vec<(usize, usize)> = Vec::new();
    let mut fi: usize = 0;
    let mut si: usize = 0;
    let mut i: usize = 1;
    while i < l
        invariant
            l == directions.len(),
            1 <= i,
            i <= l || l == 0,
            l == 0 ==> i == 1,
            body_fits(s, directions@, lf as int, ls as int),
            body_run(s, directions@, i - 1) == (q as int, fi as int, si as int, sol@),
            fi <= lf,
            si <= ls,
        decreases l - i,
    {
        proof {
            lemma_body_run_counts(s, directions@, i - 1, lf as int, ls as int);
            assert(0 <= i - 1 < run_count(directions@));
            let t = body_run(s, directions@, i - 1);
            assert(directions@[i - 1] <= directions@[i as int]);
        }
        let d = directions[i] - directions[i - 1];
        let ghost before = sol@;
        if q == 0 {
            let mut j: usize = 0;
            while j < d
                invariant
                    j <= d,
                    fi as int + d <= lf,
                    sol@ == before + run_steps(0, fi as int, j as int),
                decreases d - j,
            {
                sol.push((0, fi + j));
                assert(sol@ =~= before + run_steps(0, fi as int, j + 1));
                j = j + 1;
            }
            fi = fi + d;
        } else {
            let mut j: usize = 0;
            while j < d
                invariant
                    j <= d,
                    si as int + d <= ls,
                    sol@ == before + run_steps(1, si as int, j as int),
                decreases d - j,
            {
                sol.push((1, si + j));
                assert(sol@ =~= before + run_steps(1, si as int, j + 1));
                j = j + 1;
            }
            si = si + d;
        }
        proof {
            if i >= 2 {
                lemma_body_run_counts(s, directions@, i - 1, lf as int, ls as int);
            }
        }
        q = (q + 1) % 2;
        i = i + 1;
    }
    proof {
        assert(i - 1 == run_count(directions@));
        lemma_body_run_counts(s, directions@, run_count(directions@), lf as int, ls as int);
    }
    let ghost before = sol@;
    if q == 0 {
        let mut j: usize = fi;
        while j < lf
            invariant
                fi <= j <= lf,
                sol@ == before + run_steps(0, fi as int, j - fi),
            decreases lf - j,
        {
            sol.push((0, j));
            assert(sol@ =~= before + run_steps(0, fi as int, j + 1 - fi));
            j = j + 1;
        }
    } else {
        let mut j: usize = si;
        while j < ls
            invariant
                si <= j <= ls,
                sol@ == before + run_steps(1, si as int, j - si),
            decreases ls - j,
        {
            sol.push((1, j));
            assert(sol@ =~= before + run_steps(1, si as int, j + 1 - si));
            j = j + 1;
        }
    }
    sol
}

} // verus!
