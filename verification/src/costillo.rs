//! Costillos: the four contradictions of a pair of binary indices
//! `00, 01, 10, 11`, and tables of them.
use vstd::prelude::*;
use crate::i_mem::{ContraStruct, build_contrastruct};

verus! {

/// The place of the binary pair `i` among `00, 01, 10, 11`.
pub open spec fn pair_index(i: (usize, usize)) -> int {
    2 * i.0 + i.1
}

/// Is `i` a pair of binary indices?
pub open spec fn binary_pair(i: (usize, usize)) -> bool {
    i.0 <= 1 && i.1 <= 1
}

/// Is `xs` the four contradictions of a costillo, each carrying its own pair
/// as identifier?
pub open spec fn costillo_wf<T>(xs: Seq<ContraStruct<T>>) -> bool {
    &&& xs.len() == 4
    &&& xs[0].index_identifier@ == seq![0usize, 0]
    &&& xs[1].index_identifier@ == seq![0usize, 1]
    &&& xs[2].index_identifier@ == seq![1usize, 0]
    &&& xs[3].index_identifier@ == seq![1usize, 1]
}

/// The four contradictions `00, 01, 10, 11`.
pub struct Costillo<T> {
    pub xs: Vec<ContraStruct<T>>,
}

/// A costillo of the expected and got values given for `00, 01, 10, 11`.
pub fn build_Costillo<T: Copy>(ex: Vec<Option<T>>, got: Vec<Option<T>>) -> (r: Costillo<T>)
    requires
        ex.len() == 4,
        got.len() == 4,
    ensures
        costillo_wf(r.xs@),
        forall|k: int| 0 <= k < 4 ==> (#[trigger] r.xs[k]).expected == ex[k] && r.xs[k].got == got[k],
{
    let x0 = build_contrastruct(vec![0, 0], ex[0], got[0]);
    let x1 = build_contrastruct(vec![0, 1], ex[1], got[1]);
    let x2 = build_contrastruct(vec![1, 0], ex[2], got[2]);
    let x3 = build_contrastruct(vec![1, 1], ex[3], got[3]);
    let r = Costillo { xs: vec![x0, x1, x2, x3] };
    assert(r.xs[0].index_identifier@ == seq![0usize, 0]);
    r
}

impl<T: Copy> Costillo<T> {
    /// Sets the expected and the got value at the pair `i`, each only where given.
    pub fn mod_i(&mut self, i: (usize, usize), e: Option<T>, g: Option<T>)
        requires
            binary_pair(i),
            old(self).xs.len() == 4,
        ensures
            costillo_wf(old(self).xs@) ==> costillo_wf(final(self).xs@),
            final(self).xs.len() == 4,
            forall|k: int|
                0 <= k < 4 && k != pair_index(i) ==> #[trigger] final(self).xs[k] == old(self).xs[k],
            final(self).xs[pair_index(i)].index_identifier == old(self).xs[pair_index(i)].index_identifier,
            final(self).xs[pair_index(i)].expected == (if e is Some {
                e
            } else {
                old(self).xs[pair_index(i)].expected
            }),
            final(self).xs[pair_index(i)].got == (if g is Some {
                g
            } else {
                old(self).xs[pair_index(i)].got
            }),
    {
        let i_ = self.i_to_index(i);
        let mut c = self.xs.remove(i_);
        if e.is_some() {
            c.expected = e;
        }
        if g.is_some() {
            c.got = g;
        }
        self.xs.insert(i_, c);
    }

    /// The place of the binary pair `i` among `00, 01, 10, 11`.
    pub fn i_to_index(&mut self, i: (usize, usize)) -> (r: usize)
        requires
            binary_pair(i),
        ensures
            r == pair_index(i),
            *final(self) == *old(self),
    {
        if i.0 == 0 && i.1 == 0 {
            0
        } else if i.0 == 0 && i.1 == 1 {
            1
        } else if i.0 == 1 && i.1 == 0 {
            2
        } else {
            3
        }
    }

    /// Rebuilds the contradiction at the pair `i` with the identifier `i`,
    /// dropping its expected value where `c.0` is 1 and its got value where
    /// `c.1` is 1.
    pub fn clear_i(&mut self, i: (usize, usize), c: (usize, usize))
        requires
            binary_pair(i),
            binary_pair(c),
            old(self).xs.len() == 4,
        ensures
            costillo_wf(old(self).xs@) ==> costillo_wf(final(self).xs@),
            final(self).xs.len() == 4,
            forall|k: int|
                0 <= k < 4 && k != pair_index(i) ==> #[trigger] final(self).xs[k] == old(self).xs[k],
            final(self).xs[pair_index(i)].index_identifier@ == seq![i.0, i.1],
            final(self).xs[pair_index(i)].expected == (if c.0 == 1 {
                None
            } else {
                old(self).xs[pair_index(i)].expected
            }),
            final(self).xs[pair_index(i)].got == (if c.1 == 1 {
                None
            } else {
                old(self).xs[pair_index(i)].got
            }),
    {
        let i_ = self.i_to_index(i);
        let mut q = (self.xs[i_].expected, self.xs[i_].got);
        if c.0 == 1 {
            q = (None, q.1);
        }
        if c.1 == 1 {
            q = (q.0, None);
        }
        let nc = build_contrastruct(vec![i.0, i.1], q.0, q.1);
        self.xs.set(i_, nc);
    }
}

/// The place of the cell `(r, c)` in a row-major table with `cols` columns.
pub open spec fn cell_index(r: int, c: int, cols: int) -> int {
    r * cols + c
}

/// The place of the cell `i` in a row-major table of `rows` by `cols`.
pub fn two_index_to_one_index(i: (usize, usize), rows: usize, cols: usize) -> (r: usize)
    requires
        i.0 < rows,
        i.1 < cols,
        rows * cols <= usize::MAX,
    ensures
        r == cell_index(i.0 as int, i.1 as int, cols as int),
        r < rows * cols,
{
    proof {
        assert(i.0 * cols + i.1 < rows * cols) by (nonlinear_arith)
            requires
                i.0 < rows,
                i.1 < cols,
        ;
    }
    i.0 * cols + i.1
}

/// A table of costillos, `dimn.0` rows by `dimn.1` columns, row by row.
pub struct CostilloT<T> {
    csvec: Vec<Costillo<T>>,
    dimn: (usize, usize),
}

impl<T> CostilloT<T> {
    /// The costillos of the table, row by row.
    pub closed spec fn cells(self) -> Seq<Costillo<T>> {
        self.csvec@
    }

    /// The numbers of rows and of columns.
    pub closed spec fn dims(self) -> (usize, usize) {
        self.dimn
    }
}

/// A table of the costillos `csvec` laid out in `dimn.0` rows of `dimn.1`.
pub fn build_CostilloT<T>(csvec: Vec<Costillo<T>>, dimn: (usize, usize)) -> (r: CostilloT<T>)
    requires
        dimn.0 * dimn.1 <= usize::MAX,
        csvec.len() == dimn.0 * dimn.1,
    ensures
        r.cells() == csvec@,
        r.dims() == dimn,
{
    CostilloT { csvec: csvec, dimn: dimn }
}

impl<T: Copy> CostilloT<T> {
    /// Sets the expected and the got value at the pair `(i.2, i.3)` of the
    /// costillo in cell `(i.0, i.1)`, each only where given.
    pub fn mod_i(&mut self, i: (usize, usize, usize, usize), e: Option<T>, g: Option<T>)
        requires
            i.0 < old(self).dims().0,
            i.1 < old(self).dims().1,
            old(self).dims().0 * old(self).dims().1 <= usize::MAX,
            old(self).cells().len() == old(self).dims().0 * old(self).dims().1,
            binary_pair((i.2, i.3)),
            old(self).cells()[cell_index(i.0 as int, i.1 as int, old(self).dims().1 as int)].xs.len()
                == 4,
        ensures
            final(self).dims() == old(self).dims(),
            final(self).cells().len() == old(self).cells().len(),
            forall|k: int|
                0 <= k < old(self).cells().len() && k != cell_index(
                    i.0 as int,
                    i.1 as int,
                    old(self).dims().1 as int,
                ) ==> #[trigger] final(self).cells()[k] == old(self).cells()[k],
            ({
                let ix = cell_index(i.0 as int, i.1 as int, old(self).dims().1 as int);
                let a = old(self).cells()[ix].xs@;
                let b = final(self).cells()[ix].xs@;
                let p = pair_index((i.2, i.3));
                &&& b.len() == 4
                &&& forall|k: int| 0 <= k < 4 && k != p ==> #[trigger] b[k] == a[k]
                &&& b[p].index_identifier == a[p].index_identifier
                &&& b[p].expected == (if e is Some { e } else { a[p].expected })
                &&& b[p].got == (if g is Some { g } else { a[p].got })
            }),
    {
        let ix = two_index_to_one_index((i.0, i.1), self.dimn.0, self.dimn.1);
        let mut c = self.csvec.remove(ix);
        c.mod_i((i.2, i.3), e, g);
        self.csvec.insert(ix, c);
    }

    /// Rebuilds the contradiction at the pair `(i.2, i.3)` of the costillo in
    /// cell `(i.0, i.1)` as `Costillo::clear_i` does.
    pub fn clear_i(&mut self, i: (usize, usize, usize, usize), c: (usize, usize))
        requires
            i.0 < old(self).dims().0,
            i.1 < old(self).dims().1,
            old(self).dims().0 * old(self).dims().1 <= usize::MAX,
            old(self).cells().len() == old(self).dims().0 * old(self).dims().1,
            binary_pair((i.2, i.3)),
            binary_pair(c),
            old(self).cells()[cell_index(i.0 as int, i.1 as int, old(self).dims().1 as int)].xs.len()
                == 4,
        ensures
            final(self).dims() == old(self).dims(),
            final(self).cells().len() == old(self).cells().len(),
            forall|k: int|
                0 <= k < old(self).cells().len() && k != cell_index(
                    i.0 as int,
                    i.1 as int,
                    old(self).dims().1 as int,
                ) ==> #[trigger] final(self).cells()[k] == old(self).cells()[k],
            ({
                let ix = cell_index(i.0 as int, i.1 as int, old(self).dims().1 as int);
                let a = old(self).cells()[ix].xs@;
                let b = final(self).cells()[ix].xs@;
                let p = pair_index((i.2, i.3));
                &&& b.len() == 4
                &&& forall|k: int| 0 <= k < 4 && k != p ==> #[trigger] b[k] == a[k]
                &&& b[p].index_identifier@ == seq![i.2, i.3]
                &&& b[p].expected == (if c.0 == 1 { None } else { a[p].expected })
                &&& b[p].got == (if c.1 == 1 { None } else { a[p].got })
            }),
    {
        let ix = two_index_to_one_index((i.0, i.1), self.dimn.0, self.dimn.1);
        let mut cs = self.csvec.remove(ix);
        cs.clear_i((i.2, i.3), c);
        self.csvec.insert(ix, cs);
    }
}

} // verus!
