//! Hypotheses of a judge: labels for single values and label vectors.
use vstd::prelude::*;

verus! {

/// The labels collected: label vectors `yn` and single labels `y1`.
pub struct GorillaHyp {
    pub yn: Vec<Vec<usize>>,
    pub y1: Vec<usize>,
}

/// A hypothesis container with no label.
pub fn empty_GorillaHyp() -> (r: GorillaHyp)
    ensures
        r.yn@.len() == 0,
        r.y1@.len() == 0,
{
    GorillaHyp { yn: Vec::new(), y1: Vec::new() }
}

impl GorillaHyp {
    /// Adds a sample: its single label, or its label vector (exactly one is given).
    pub fn add_sample(&mut self, yn_: Option<Vec<usize>>, y1_: Option<usize>)
        requires
            yn_ is Some != y1_ is Some,
        ensures
            final(self).y1@ == (match y1_ {
                Some(y) => old(self).y1@.push(y),
                None => old(self).y1@,
            }),
            final(self).yn@ == (match yn_ {
                Some(v) => old(self).yn@.push(v),
                None => old(self).yn@,
            }),
    {
        match yn_ {
            None => {
                if let Some(y) = y1_ {
                    self.y1.push(y);
                }
            },
            Some(v) => {
                self.yn.push(v);
            },
        }
    }
}

} // verus!
