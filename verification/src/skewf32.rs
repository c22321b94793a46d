//! A skew whose values are read at a decimal scale: the integer values of
//! the skew stand for the values divided by `10^s`.
use vstd::prelude::*;
use crate::skew::{Skew, elements_present, skew_text};
use crate::text::{decimal, usize_to_string};

verus! {

/// A skew scaled by `10^s`.
#[derive(Clone)]
pub struct SkewF32 {
    pub sk: Skew,
    pub s: usize,
}

/// How a scaled skew is written: `skalos`, the scale, then the skew.
pub open spec fn skewf32_text(x: SkewF32) -> Seq<char> {
    seq!['s', 'k', 'a', 'l', 'o', 's', ' '] + decimal(x.s as nat) + skew_text(
        x.sk,
        x.sk.ordering.len() as nat,
    )
}

impl SkewF32 {
    /// The scaled skew written out (`"skalos 5+23"`).
    pub fn to_string(&self) -> (r: String)
        requires
            elements_present(self.sk),
        ensures
            r@ == skewf32_text(*self),
    {
        proof {
            reveal_strlit("skalos ");
        }
        let mut r = String::new();
        r.append("skalos ");
        let d = usize_to_string(self.s);
        r.append(d.as_str());
        let t = self.sk.to_string();
        r.append(t.as_str());
        r
    }
}

} // verus!
