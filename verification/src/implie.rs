//! Sources of elements that generate new elements in parenthetical
//! notation: merging sources joins them with `_`, and incrementing a source
//! appends `(pieces,counter)` made of the letters of its pieces.
use vstd::prelude::*;
use crate::ohop::{
    branch_seed, build_order_of_operator, byte_len, comma_format, letters_of,
    parse_OrderOfOperator__comma_format, run_ok, run_spec, str_alphabebetical_filter, OooView,
};
use crate::text::{decimal, join_seqs, join_with, push_char, usize_to_string, views};

verus! {

/// The letters of each string of `s`, joined by `_`.
pub fn merged_elements_string(s: Vec<String>) -> (r: String)
    ensures
        r@ == join_seqs(views(s@).map_values(|x: Seq<char>| letters_of(x)), '_'),
{
    let mut s2: Vec<String> = Vec::new();
    let n = s.len();
    for i in 0..n
        invariant
            n == s.len(),
            views(s2@) == views(s@.take(i as int)).map_values(|x: Seq<char>| letters_of(x)),
    {
        let ghost before = s2@;
        let c = s[i].clone();
        assert(c@ == s@[i as int]@);
        let f = str_alphabebetical_filter(c);
        s2.push(f);
        assert(views(s2@) =~= views(before).push(letters_of(s@[i as int]@)));
        assert(views(s@.take(i + 1)) =~= views(s@.take(i as int)).push(s@[i as int]@));
        assert(views(s2@) =~= views(s@.take(i + 1)).map_values(|x: Seq<char>| letters_of(x)));
    }
    assert(s@.take(n as int) == s@);
    join_with(&s2, '_')
}

/// The parse of `s` with no step taken yet.
pub open spec fn fresh_parse(s: Seq<char>) -> OooView {
    OooView { str_repr: s, branches: Seq::empty(), ids: Map::empty(), counter: branch_seed() }
}

/// Can the string `s` be parsed to the end without a failing step?
pub open spec fn parses(s: Seq<char>) -> bool {
    byte_len(s) < usize::MAX && run_ok(fresh_parse(s), byte_len(s), 0)
}

/// The comma format of the full parse of `s`.
pub open spec fn parsed_comma_format(s: Seq<char>) -> Seq<Seq<char>> {
    comma_format(run_spec(fresh_parse(s), byte_len(s), 0))
}

/// The suffix that incrementing `s` with counter `i` appends:
/// `(` the comma format of `s` joined by `,`, then `,i)`.
pub open spec fn increment_suffix(s: Seq<char>, i: nat) -> Seq<char> {
    seq!['('] + join_seqs(parsed_comma_format(s), ',') + seq![','] + decimal(i) + seq![')']
}

/// `(p1,p2,...,i)` where `p1, p2, ...` is the comma format of `s`.
pub fn set_source_string_increment(s: String, i: usize) -> (r: String)
    requires
        parses(s@),
    ensures
        r@ == increment_suffix(s@, i as nat),
{
    let mut x2 = build_order_of_operator(s);
    x2.process();
    let cf = parse_OrderOfOperator__comma_format(&x2);
    let mut w1 = String::new();
    push_char(&mut w1, '(');
    let joined = join_with(&cf, ',');
    w1.append(joined.as_str());
    push_char(&mut w1, ',');
    let d = usize_to_string(i);
    w1.append(d.as_str());
    push_char(&mut w1, ')');
    w1
}

/// A source of elements: its identifier, the counter of its next
/// increment, and the number of elements it merges.
#[derive(Clone)]
pub struct ImpSetSource {
    pub idn: String,
    pub next_counter: usize,
    pub l: usize,
}

/// A source of one element named `s`.
pub fn build_ImpSetSource(s: String) -> (r: ImpSetSource)
    ensures
        r.idn@ == s@,
        r.next_counter == 0,
        r.l == 1,
{
    ImpSetSource { idn: s, next_counter: 0, l: 1 }
}

impl ImpSetSource {
    /// The merge of `self` and `other`: identifiers joined by `_`, counter
    /// reset, sizes added.
    pub fn add(self, other: Self) -> (r: Self)
        requires
            self.l + other.l <= usize::MAX,
        ensures
            r.idn@ == self.idn@ + seq!['_'] + other.idn@,
            r.next_counter == 0,
            r.l == self.l + other.l,
    {
        let mut s1 = self.idn.clone();
        push_char(&mut s1, '_');
        s1.append(other.idn.as_str());
        ImpSetSource { idn: s1, next_counter: 0, l: self.l + other.l }
    }

    /// A new source whose identifier is this one followed by the increment
    /// suffix for the current counter; the counter moves on by one.
    pub fn increment(&mut self) -> (r: ImpSetSource)
        requires
            parses(old(self).idn@),
            old(self).next_counter < usize::MAX,
            old(self).l < usize::MAX,
        ensures
            final(self).idn == old(self).idn,
            final(self).l == old(self).l,
            final(self).next_counter == old(self).next_counter + 1,
            r.idn@ == old(self).idn@ + increment_suffix(old(self).idn@, old(self).next_counter as nat),
            r.next_counter == 0,
            r.l == old(self).l + 1,
    {
        let q = set_source_string_increment(self.idn.clone(), self.next_counter);
        self.next_counter += 1;
        let mut idn = self.idn.clone();
        idn.append(q.as_str());
        ImpSetSource { idn, next_counter: 0, l: self.l + 1 }
    }
}

} // verus!
