//! Memory of an interpolator: a log of solutions and a log of
//! contradictions, each contradiction tagged by an index identifier.
//! The values are kept generic; the interpolator stores `f32` values.
use vstd::prelude::*;
use std::collections::HashSet;

verus! {

/// A contradiction: what was expected and what was got at an index.
pub struct ContraStruct<T> {
    /// timestamp, element
    pub index_identifier: Vec<usize>,
    pub expected: Option<T>,
    pub got: Option<T>,
}

/// A contradiction of the given fields.
pub fn build_contrastruct<T>(index_identifier: Vec<usize>, expected: Option<T>, got: Option<T>) -> (r:
    ContraStruct<T>)
    ensures
        r.index_identifier@ == index_identifier@,
        r.expected == expected,
        r.got == got,
{
    ContraStruct { index_identifier: index_identifier, expected: expected, got: got }
}

/// A copy of the contradiction `c`.
pub fn copy_contrastruct<T: Copy>(c: &ContraStruct<T>) -> (r: ContraStruct<T>)
    ensures
        r.index_identifier@ == c.index_identifier@,
        r.expected == c.expected,
        r.got == c.got,
{
    let mut ii: Vec<usize> = Vec::new();
    let n = c.index_identifier.len();
    let mut k: usize = 0;
    while k < n
        invariant
            n == c.index_identifier.len(),
            k <= n,
            ii@ == c.index_identifier@.take(k as int),
        decreases n - k,
    {
        ii.push(c.index_identifier[k]);
        assert(c.index_identifier@.take(k + 1) =~= c.index_identifier@.take(k as int).push(
            c.index_identifier@[k as int],
        ));
        k = k + 1;
    }
    assert(c.index_identifier@.take(n as int) =~= c.index_identifier@);
    ContraStruct { index_identifier: ii, expected: c.expected, got: c.got }
}

/// The memory: the solutions in the order they were added, the
/// contradictions in the order they were added, and a step counter.
pub struct IMem<T> {
    pub soln_log: Vec<Vec<Option<T>>>,
    pub contradiction_log: Vec<ContraStruct<T>>,
    pub i: usize,
}

/// An empty memory at step 0.
pub fn build_one_imem<T>() -> (r: IMem<T>)
    ensures
        r.soln_log@.len() == 0,
        r.contradiction_log@.len() == 0,
        r.i == 0,
{
    IMem { soln_log: Vec::new(), contradiction_log: Vec::new(), i: 0 }
}

/// Does the identifier `id` agree with `ii` wherever `ii` names a value?
pub open spec fn matches_ii(id: Seq<usize>, ii: Seq<Option<usize>>) -> bool {
    forall|j: int|
        0 <= j < ii.len() ==> (#[trigger] ii[j] matches Some(x) ==> j < id.len() && id[j] == x)
}

/// Can `id` be compared with `ii` up to the first disagreement: is every
/// place that `ii` names, before any disagreement, within `id`?
pub open spec fn comparable_ii(id: Seq<usize>, ii: Seq<Option<usize>>) -> bool {
    forall|j: int|
        0 <= j < ii.len() ==> (#[trigger] ii[j] is Some && matches_ii(id, ii.take(j))) ==> j
            < id.len()
}

/// The contradictions of `log` whose identifiers agree with `ii`, in order.
pub open spec fn matching<T>(log: Seq<ContraStruct<T>>, ii: Seq<Option<usize>>) -> Seq<
    ContraStruct<T>,
>
    decreases log.len(),
{
    if log.len() == 0 {
        Seq::empty()
    } else {
        let rest = matching(log.drop_last(), ii);
        if matches_ii(log.last().index_identifier@, ii) {
            rest.push(log.last())
        } else {
            rest
        }
    }
}

/// Does the contradiction `c` carry, at every place where `ii` names a
/// value, exactly that value in its identifier?
pub open spec fn agrees_at_named_places<T>(c: ContraStruct<T>, ii: Seq<Option<usize>>) -> bool {
    forall|j: int|
        0 <= j < ii.len() && (#[trigger] ii[j]) is Some ==> j < c.index_identifier@.len()
            && c.index_identifier@[j] == ii[j]->0
}

/// The contradictions found for `ii` are exactly those of the log, in the
/// order they were logged, whose identifier equals `ii` at every place
/// where `ii` names a value; places that `ii` leaves `None` are not looked
/// at.
pub proof fn lemma_matching_keeps_agreeing<T>(log: Seq<ContraStruct<T>>, ii: Seq<Option<usize>>)
    ensures
        matching(log, ii) == log.filter(|c: ContraStruct<T>| agrees_at_named_places(c, ii)),
    decreases log.len(),
{
    reveal(Seq::filter);
    if log.len() > 0 {
        lemma_matching_keeps_agreeing(log.drop_last(), ii);
        let c = log.last();
        assert(matches_ii(c.index_identifier@, ii) == agrees_at_named_places(c, ii)) by {
            if matches_ii(c.index_identifier@, ii) {
                assert forall|j: int|
                    0 <= j < ii.len() && (#[trigger] ii[j]) is Some implies j
                    < c.index_identifier@.len() && c.index_identifier@[j] == ii[j]->0 by {
                    assert(ii[j] matches Some(x) ==> j < c.index_identifier@.len()
                        && c.index_identifier@[j] == x);
                }
            }
            if agrees_at_named_places(c, ii) {
                assert forall|j: int| 0 <= j < ii.len() implies (#[trigger] ii[j] matches Some(x)
                    ==> j < c.index_identifier@.len() && c.index_identifier@[j] == x) by {
                    if ii[j] is Some {
                        assert(j < c.index_identifier@.len() && c.index_identifier@[j] == ii[j]->0);
                    }
                }
            }
        }
    }
}

/// A contradiction whose identifier differs from `ii` at some place that
/// `ii` names is never found, whatever the other places hold.
pub proof fn lemma_disagreement_excludes<T>(log: Seq<ContraStruct<T>>, ii: Seq<Option<usize>>, k: int, j: int)
    requires
        0 <= k < log.len(),
        0 <= j < ii.len(),
        ii[j] is Some,
        j >= log[k].index_identifier@.len() || log[k].index_identifier@[j] != ii[j]->0,
    ensures
        !matching(log, ii).contains(log[k]),
{
    lemma_matching_keeps_agreeing(log, ii);
    broadcast use vstd::seq_lib::group_filter_ensures;

    let pred = |c: ContraStruct<T>| agrees_at_named_places(c, ii);
    if log.filter(pred).contains(log[k]) {
        assert(pred(log[k]));
        assert(!agrees_at_named_places(log[k], ii));
    }
}

/// The same contradiction: equal identifiers and values.
pub open spec fn same_contra<T>(a: ContraStruct<T>, b: ContraStruct<T>) -> bool {
    a.index_identifier@ == b.index_identifier@ && a.expected == b.expected && a.got == b.got
}

/// Does `id` agree with `ii`?
fn agrees_with(id: &Vec<usize>, ii: &Vec<Option<usize>>) -> (r: bool)
    requires
        comparable_ii(id@, ii@),
    ensures
        r == matches_ii(id@, ii@),
{
    let n = ii.len();
    let mut j: usize = 0;
    while j < n
        invariant
            n == ii.len(),
            j <= n,
            comparable_ii(id@, ii@),
            matches_ii(id@, ii@.take(j as int)),
        decreases n - j,
    {
        match ii[j] {
            Some(x) => {
                assert(ii@[j as int] is Some);
                if x != id[j] {
                    return false;
                }
            },
            None => {},
        }
        assert(matches_ii(id@, ii@.take(j + 1))) by {
            assert forall|k: int| 0 <= k < j + 1 implies (#[trigger] ii@.take(j + 1)[k] matches Some(
                y,
            ) ==> k < id@.len() && id@[k] == y) by {
                if k < j {
                    assert(ii@.take(j + 1)[k] == ii@.take(j as int)[k]);
                }
            }
        }
        j = j + 1;
    }
    assert(ii@.take(n as int) =~= ii@);
    true
}

impl<T: Copy> IMem<T> {
    /// Adds a solution to the log.
    pub fn add_soln(&mut self, soln: Vec<Option<T>>)
        ensures
            final(self).soln_log@ == old(self).soln_log@.push(soln),
            final(self).contradiction_log@ == old(self).contradiction_log@,
            final(self).i == old(self).i,
    {
        self.soln_log.push(soln);
    }

    /// Adds a contradiction to the log.
    pub fn add_contradiction(&mut self, c: ContraStruct<T>)
        ensures
            final(self).contradiction_log@ == old(self).contradiction_log@.push(c),
            final(self).soln_log@ == old(self).soln_log@,
            final(self).i == old(self).i,
    {
        self.contradiction_log.push(c);
    }

    /// The logged contradictions whose identifiers agree with `ii` at every
    /// place where `ii` names a value, in the order they were logged.
    pub fn contrastructs_at_ii(&mut self, ii: Vec<Option<usize>>) -> (sol: Vec<ContraStruct<T>>)
        requires
            forall|k: int|
                0 <= k < old(self).contradiction_log.len() ==> comparable_ii(
                    (#[trigger] old(self).contradiction_log[k]).index_identifier@,
                    ii@,
                ),
        ensures
            sol.len() == matching(old(self).contradiction_log@, ii@).len(),
            forall|k: int|
                0 <= k < sol.len() ==> same_contra(
                    #[trigger] sol[k],
                    matching(old(self).contradiction_log@, ii@)[k],
                ),
            *final(self) == *old(self),
    {
        let mut sol: Vec<ContraStruct<T>> = Vec::new();
        let n = self.contradiction_log.len();
        let mut k: usize = 0;
        while k < n
            invariant
                n == self.contradiction_log.len(),
                k <= n,
                *self == *old(self),
                forall|j: int|
                    0 <= j < self.contradiction_log.len() ==> comparable_ii(
                        (#[trigger] self.contradiction_log[j]).index_identifier@,
                        ii@,
                    ),
                sol.len() == matching(self.contradiction_log@.take(k as int), ii@).len(),
                forall|j: int|
                    0 <= j < sol.len() ==> same_contra(
                        #[trigger] sol[j],
                        matching(self.contradiction_log@.take(k as int), ii@)[j],
                    ),
            decreases n - k,
        {
            let ghost t = self.contradiction_log@.take(k + 1);
            assert(t.drop_last() =~= self.contradiction_log@.take(k as int));
            assert(t.last() == self.contradiction_log@[k as int]);
            let c = &self.contradiction_log[k];
            assert(comparable_ii(c.index_identifier@, ii@));
            if agrees_with(&c.index_identifier, &ii) {
                let cc = copy_contrastruct(c);
                sol.push(cc);
            }
            k = k + 1;
        }
        assert(self.contradiction_log@.take(n as int) =~= self.contradiction_log@);
        sol
    }

    /// The places that `f` picks from the solution at `t1` but not from the
    /// one at `t2`, and those it picks at `t2` but not at `t1`.
    pub fn timestamp_differences(
        &mut self,
        t1: usize,
        t2: usize,
        f: impl Fn(&Vec<Option<T>>) -> HashSet<usize>,
    ) -> (r: (HashSet<usize>, HashSet<usize>))
        requires
            t1 < old(self).soln_log.len(),
            t2 < old(self).soln_log.len(),
            call_requires(f, (&old(self).soln_log[t1 as int],)),
            call_requires(f, (&old(self).soln_log[t2 as int],)),
        ensures
            exists|s1: HashSet<usize>, s2: HashSet<usize>|
                call_ensures(f, (&old(self).soln_log[t1 as int],), s1) && call_ensures(
                    f,
                    (&old(self).soln_log[t2 as int],),
                    s2,
                ) && r.0@ == s1@.difference(s2@) && r.1@ == s2@.difference(s1@),
            *final(self) == *old(self),
    {
        let a = f(&self.soln_log[t1]);
        let b = f(&self.soln_log[t2]);
        let d1 = set_difference(&a, &b);
        let d2 = set_difference(&b, &a);
        (d1, d2)
    }
}

/// The members of `a` that are not members of `b`.
fn set_difference(a: &HashSet<usize>, b: &HashSet<usize>) -> (r: HashSet<usize>)
    ensures
        r@ == a@.difference(b@),
{
    proof {
        broadcast use vstd::std_specs::hash::group_hash_axioms;
    }
    let e = crate::fatorx::set_elements(a);
    let mut r: HashSet<usize> = HashSet::new();
    let n = e.len();
    for k in 0..n
        invariant
            n == e.len(),
            e@.to_set() == a@,
            r@ == Set::new(|y: usize| !b@.contains(y) && exists|j: int| 0 <= j < k && e@[j] == y),
    {
        let x = e[k];
        if !b.contains(&x) {
            r.insert(x);
        }
        assert(r@ =~= Set::new(
            |y: usize| !b@.contains(y) && exists|j: int| 0 <= j < k + 1 && e@[j] == y,
        )) by {
            assert forall|y: usize| #[trigger] r@.contains(y) implies (!b@.contains(y) && exists|
                j: int,
            | 0 <= j < k + 1 && e@[j] == y) by {
                if y == x {
                    assert(e@[k as int] == y);
                } else {
                    let j = choose|j: int| 0 <= j < k && e@[j] == y;
                    assert(e@[j] == y);
                }
            }
            assert forall|y: usize|
                (!b@.contains(y) && exists|j: int| 0 <= j < k + 1 && e@[j] == y) implies #[trigger] r@.contains(
                y,
            ) by {
                let j = choose|j: int| 0 <= j < k + 1 && e@[j] == y;
                if j < k {
                    assert(e@[j] == y);
                }
            }
        }
    }
    assert forall|y: usize| #[trigger] r@.contains(y) <==> a@.difference(b@).contains(y) by {
        if a@.contains(y) {
            assert(e@.to_set().contains(y));
            let j = choose|j: int| 0 <= j < e@.len() && e@[j] == y;
            assert(e@[j] == y);
        }
        if r@.contains(y) {
            let j = choose|j: int| 0 <= j < n && e@[j] == y;
            assert(e@.contains(e@[j]));
        }
    }
    assert(r@ =~= a@.difference(b@));
    r
}

} // verus!
