//! Order of operations over parenthetical strings such as `(8_5_1(2_3))4`:
//! every closed parenthesis becomes a branch identifier that stands for
//! its contents.
use vstd::prelude::*;
use vstd::utf8::encode_utf8;
use crate::text::{
    char_range, chars_to_string, is_single_char, push_char, str_equal, string_to_chars, substring,
    views,
};

verus! {

/// The first branch identifier, `XX5A`.
pub open spec fn branch_seed() -> Seq<char> {
    seq!['X', 'X', '5', 'A']
}

/// The first function identifier, `YY67Z`.
pub open spec fn function_seed() -> Seq<char> {
    seq!['Y', 'Y', '6', '7', 'Z']
}

/// The seed of branch identifiers.
pub fn default_branch_identifier_seed() -> (r: &'static str)
    ensures
        r@ == branch_seed(),
{
    proof {
        reveal_strlit("XX5A");
    }
    "XX5A"
}

/// The seed of function identifiers.
pub fn default_function_identifier_seed() -> (r: &'static str)
    ensures
        r@ == function_seed(),
{
    proof {
        reveal_strlit("YY67Z");
    }
    "YY67Z"
}

/// The length of `s` in UTF-8 bytes, which is what `str::len` counts.
pub open spec fn byte_len(s: Seq<char>) -> int {
    encode_utf8(s).len() as int
}

/// Is `s` taken for a branch identifier: does it start with the
/// characters of the branch seed?
pub open spec fn is_branch_id(s: Seq<char>) -> bool {
    char_range(s, 0, 4) == branch_seed()
}

/// Does `s` start with the branch seed? (A string of fewer than four
/// characters never does.)
pub fn is_branch_identifier(s: String) -> (b: bool)
    ensures
        b == is_branch_id(s@),
{
    let q = substring(s.as_str(), 0, 4);
    str_equal(q, default_branch_identifier_seed())
}

/// The identifier after `s`: its last character moves one letter on when
/// it lies in `A..Y`; otherwise an `A` is appended.
pub open spec fn next_identifier(s: Seq<char>) -> Seq<char> {
    if s.len() > 0 && 65 <= (s.last() as u32) && (s.last() as u32) <= 89 {
        s.drop_last().push(((s.last() as u32) + 1) as char)
    } else {
        s.push('A')
    }
}

/// A generator of successive identifiers, starting from `value`.
#[derive(Clone)]
pub struct Inc1String {
    pub value: String,
}

impl Inc1String {
    /// Hands out the current identifier and moves on to the next one.
    pub fn inc_(&mut self) -> (r: String)
        ensures
            r@ == old(self).value@,
            final(self).value@ == next_identifier(old(self).value@),
    {
        let mut v = string_to_chars(self.value.as_str());
        let n = v.len();
        let current = chars_to_string(&v);
        if n > 0 && 65 <= (v[n - 1] as u32) && (v[n - 1] as u32) <= 89 {
            let c = v[n - 1];
            let code: u32 = (c as u32) + 1;
            let b: u8 = code as u8;
            assert(b as u32 == code);
            let next = b as char;
            assert(next as u32 == code);
            assert(next == ((c as u32) + 1) as char);
            v.set(n - 1, next);
            assert(v@ == next_identifier(old(self).value@));
        } else {
            v.push('A');
        }
        self.value = chars_to_string(&v);
        current
    }
}

/// A map from strings to strings kept as the list of its insertions; a
/// later insertion of a key replaces the value of an earlier one.
#[derive(Clone)]
pub struct StrMap {
    pub entries: Vec<(String, String)>,
}

/// The map that the insertions `e`, made in order, leave.
pub open spec fn map_of(e: Seq<(String, String)>) -> Map<Seq<char>, Seq<char>>
    decreases e.len(),
{
    if e.len() == 0 {
        Map::empty()
    } else {
        map_of(e.drop_last()).insert(e.last().0@, e.last().1@)
    }
}

impl View for StrMap {
    type V = Map<Seq<char>, Seq<char>>;

    open spec fn view(&self) -> Map<Seq<char>, Seq<char>> {
        map_of(self.entries@)
    }
}

impl StrMap {
    /// The empty map.
    pub fn new() -> (m: StrMap)
        ensures
            m@ == Map::<Seq<char>, Seq<char>>::empty(),
    {
        StrMap { entries: Vec::new() }
    }

    /// Maps `k` to `v`.
    pub fn insert(&mut self, k: String, v: String)
        ensures
            final(self)@ == old(self)@.insert(k@, v@),
    {
        let ghost e = self.entries@;
        self.entries.push((k, v));
        assert(self.entries@.drop_last() == e);
    }

    /// The value that `k` maps to, if any.
    pub fn get(&self, k: &str) -> (r: Option<String>)
        ensures
            match r {
                Some(v) => self@.contains_key(k@) && v@ == self@[k@],
                None => !self@.contains_key(k@),
            },
    {
        let mut i = self.entries.len();
        assert(self.entries@.take(i as int) == self.entries@);
        while i > 0
            invariant
                i <= self.entries.len(),
                forall|j: int|
                    i <= j < self.entries.len() ==> (#[trigger] self.entries@[j]).0@ != k@,
                map_of(self.entries@).contains_key(k@) == map_of(
                    self.entries@.take(i as int),
                ).contains_key(k@),
                map_of(self.entries@).contains_key(k@) ==> map_of(self.entries@)[k@] == map_of(
                    self.entries@.take(i as int),
                )[k@],
            decreases i,
        {
            let ghost t = self.entries@.take(i as int);
            assert(t.drop_last() == self.entries@.take(i - 1));
            if str_equal(self.entries[i - 1].0.as_str(), k) {
                return Some(self.entries[i - 1].1.clone());
            }
            i -= 1;
        }
        assert(self.entries@.take(0) == Seq::<(String, String)>::empty());
        None
    }
}

/// The state of an order-of-operations parse: the string, the branches
/// found so far, what each branch identifier stands for, and the next
/// identifier.
pub struct OooView {
    pub str_repr: Seq<char>,
    pub branches: Seq<Seq<char>>,
    pub ids: Map<Seq<char>, Seq<char>>,
    pub counter: Seq<char>,
}

/// Order-of-operations parser of a parenthetical string.
#[derive(Clone)]
pub struct OrderOfOperator {
    pub str_repr: String,
    pub branches: Vec<String>,
    pub branch_identifiers: StrMap,
    pub incstring: Inc1String,
}

impl View for OrderOfOperator {
    type V = OooView;

    open spec fn view(&self) -> OooView {
        OooView {
            str_repr: self.str_repr@,
            branches: views(self.branches@),
            ids: self.branch_identifiers@,
            counter: self.incstring.value@,
        }
    }
}

/// A parser of `sr` with no branches yet.
pub fn build_order_of_operator(sr: String) -> (o: OrderOfOperator)
    ensures
        o@ == (OooView {
            str_repr: sr@,
            branches: Seq::empty(),
            ids: Map::empty(),
            counter: branch_seed(),
        }),
{
    let seed = default_branch_identifier_seed();
    let is1 = Inc1String { value: seed.to_owned() };
    let o = OrderOfOperator {
        str_repr: sr,
        branches: Vec::new(),
        branch_identifiers: StrMap::new(),
        incstring: is1,
    };
    assert(views(o.branches@) =~= Seq::<Seq<char>>::empty());
    o
}

/// Is `c` one of the delimiters `(`, `)`, `_`?
pub open spec fn is_delimiter(c: Seq<char>) -> bool {
    c == seq!['('] || c == seq![')'] || c == seq!['_']
}

/// Scans `s` from position `x` up to `l` (positions past the end of `s`
/// read as empty) and collects characters until a delimiter; gives what was
/// collected and the position after the last step that collected.
pub open spec fn element_scan(s: Seq<char>, l: int, x: int, acc: Seq<char>, u: int) -> (Seq<char>, int)
    decreases l - x,
{
    if x >= l {
        (acc, u)
    } else {
        let c = char_range(s, x as nat, (x + 1) as nat);
        if is_delimiter(c) {
            (acc, x)
        } else {
            element_scan(s, l, x + 1, acc + c, x + 1)
        }
    }
}

/// The element of `s` that starts at position `i`, when the scan runs up to
/// `l`, and the position after it; `None` for an empty element.
pub open spec fn next_element_spec(s: Seq<char>, l: int, i: int) -> Option<(Seq<char>, int)> {
    let r = element_scan(s, l, i, Seq::empty(), i);
    if r.0.len() == 0 {
        None
    } else {
        Some(r)
    }
}

proof fn lemma_element_scan(s: Seq<char>, l: int, x: int, acc: Seq<char>, u: int)
    requires
        u <= x || x >= l,
        u <= l || x >= l,
    ensures
        element_scan(s, l, x, acc, u).1 <= (if x >= l { u } else { l }),
        element_scan(s, l, x, acc, u).0.len() > acc.len() ==> element_scan(s, l, x, acc, u).1 > x,
        element_scan(s, l, x, acc, u).0.len() >= acc.len(),
        element_scan(s, l, x, acc, u).1 >= u,
    decreases l - x,
{
    if x < l {
        let c = char_range(s, x as nat, (x + 1) as nat);
        if !is_delimiter(c) {
            lemma_element_scan(s, l, x + 1, acc + c, x + 1);
            if c.len() == 0 {
                assert(acc + c == acc);
            }
        }
    }
}

/// Collects the characters of `s` from position `i` until the next `(`,
/// `)` or `_`; gives them with the position where the scan stopped, or
/// `None` when nothing was collected.
pub fn next_element(s: String, i: usize) -> (r: Option<(String, usize)>)
    requires
        byte_len(s@) <= usize::MAX,
    ensures
        match next_element_spec(s@, byte_len(s@), i as int) {
            Some(p) => r matches Some(q) && q.0@ == p.0 && q.1 == p.1,
            None => r is None,
        },
{
    let l = s.as_str().len();
    let mut new_element = String::new();
    let mut u: usize = i;
    let mut x: usize = i;
    while x < l
        invariant
            l == byte_len(s@),
            i <= x || x >= l,
            element_scan(s@, l as int, i as int, Seq::empty(), i as int) == element_scan(
                s@,
                l as int,
                x as int,
                new_element@,
                u as int,
            ),
        ensures
            element_scan(s@, l as int, i as int, Seq::empty(), i as int) == (
                new_element@,
                u as int,
            ),
        decreases l - x,
    {
        u = x;
        let x3 = substring(s.as_str(), x, x + 1);
        if !is_single_char(x3, '(') && !is_single_char(x3, ')') && !is_single_char(x3, '_') {
            new_element.append(x3);
            u = x + 1;
            x += 1;
            continue;
        }
        break;
    }
    if new_element.as_str().unicode_len() == 0 {
        None
    } else {
        Some((new_element, u))
    }
}

/// The parse state `st` after a new branch made of the element at `i`.
pub open spec fn new_branch_spec(st: OooView, l: int, i: int) -> (OooView, Option<int>) {
    match next_element_spec(st.str_repr, l, i) {
        None => (st, None),
        Some(p) => (OooView { branches: st.branches.push(p.0), ..st }, Some(p.1)),
    }
}

/// The parse state `st` after closing the last branch at position `i`.
pub open spec fn close_branch_spec(st: OooView, i: int) -> (OooView, Option<int>) {
    let q = st.counter;
    let n = st.branches.len();
    let b = st.branches[n - 1];
    if is_branch_id(b) {
        let b3 = st.branches[n - 2] + seq!['_'] + b;
        (
            OooView {
                branches: st.branches.take(n - 2).push(q),
                ids: st.ids.insert(q, b3),
                counter: next_identifier(q),
                ..st
            },
            Some(i + 1),
        )
    } else {
        (
            OooView {
                branches: st.branches.update(n - 1, q),
                ids: st.ids.insert(q, b),
                counter: next_identifier(q),
                ..st
            },
            Some(i + 1),
        )
    }
}

/// Would closing a branch fail: no branch, or an identifier as the only
/// branch?
pub open spec fn close_branch_fails(st: OooView) -> bool {
    st.branches.len() == 0 || (is_branch_id(st.branches.last()) && st.branches.len() < 2)
}

/// One step of the parse at position `i`, where `l` is the byte length of
/// the string.
pub open spec fn step_spec(st: OooView, l: int, i: int) -> (OooView, Option<int>) {
    if i >= l {
        (st, None)
    } else {
        let c = char_range(st.str_repr, i as nat, (i + 1) as nat);
        if c == seq!['('] {
            new_branch_spec(st, l, i + 1)
        } else if c == seq![')'] {
            close_branch_spec(st, i)
        } else if c == seq!['_'] {
            (st, Some(i + 1))
        } else if st.branches.len() == 0 {
            new_branch_spec(st, l, i)
        } else {
            match next_element_spec(st.str_repr, l, i) {
                None => (st, None),
                Some(p) => {
                    let n = st.branches.len();
                    (
                        OooView {
                            branches: st.branches.update(n - 1, st.branches[n - 1] + seq!['_'] + p.0),
                            ..st
                        },
                        Some(p.1),
                    )
                },
            }
        }
    }
}

/// Does the step at position `i` close a branch that cannot be closed?
pub open spec fn step_fails(st: OooView, l: int, i: int) -> bool {
    i < l && char_range(st.str_repr, i as nat, (i + 1) as nat) == seq![')'] && close_branch_fails(st)
}

/// An element that is not a delimiter joins the last branch whatever that
/// branch holds (an identifier of a closed group included): after the step
/// there are as many branches as before, all but the last unchanged, and
/// the last is the old one followed by `_` and the element at `i`; the
/// identifiers and the counter are untouched and the next position is the
/// one after the element.
pub proof fn lemma_element_joins_last_branch(st: OooView, l: int, i: int)
    requires
        0 <= i < l,
        st.branches.len() > 0,
        !is_delimiter(char_range(st.str_repr, i as nat, (i + 1) as nat)),
    ensures
        ({
            let r = step_spec(st, l, i);
            let n = st.branches.len();
            match next_element_spec(st.str_repr, l, i) {
                None => r.0 == st && r.1 is None,
                Some(p) => {
                    &&& r.1 == Some(p.1)
                    &&& r.0.branches.len() == n
                    &&& forall|k: int| 0 <= k < n - 1 ==> #[trigger] r.0.branches[k] == st.branches[k]
                    &&& r.0.branches[n - 1] == st.branches[n - 1] + seq!['_'] + p.0
                    &&& r.0.ids == st.ids
                    &&& r.0.counter == st.counter
                    &&& r.0.str_repr == st.str_repr
                },
            }
        }),
{
}

/// A step adds a branch only at `(` or when there is no branch yet, and
/// then exactly one.
pub proof fn lemma_new_branch_only_at_open(st: OooView, l: int, i: int)
    requires
        0 <= i < l,
        !step_fails(st, l, i),
    ensures
        step_spec(st, l, i).0.branches.len() > st.branches.len() ==> (char_range(
            st.str_repr,
            i as nat,
            (i + 1) as nat,
        ) == seq!['('] || st.branches.len() == 0) && step_spec(st, l, i).0.branches.len()
            == st.branches.len() + 1,
{
    let c = char_range(st.str_repr, i as nat, (i + 1) as nat);
    if c == seq![')'] {
        let n = st.branches.len();
        if is_branch_id(st.branches[n - 1]) {
            assert(st.branches.take(n - 2).push(st.counter).len() == n - 1);
        }
    }
}

/// A `)` closes the last branch into a fresh identifier: the identifier is
/// the counter before the step, it becomes the last branch, and it stands
/// for the old last branch, or, when that was itself an identifier, for the
/// branch before it, `_` and that identifier, both replaced by the new one;
/// the other branches stay, other identifiers keep their meaning, the
/// counter moves on, and the parse goes on after the `)`.
pub proof fn lemma_close_names_the_group(st: OooView, l: int, i: int)
    requires
        0 <= i < l,
        char_range(st.str_repr, i as nat, (i + 1) as nat) == seq![')'],
        !close_branch_fails(st),
    ensures
        ({
            let r = step_spec(st, l, i);
            let n = st.branches.len();
            let q = st.counter;
            let merged = is_branch_id(st.branches[n - 1]);
            let kept = if merged { n - 2 } else { n - 1 };
            let meaning = if merged {
                st.branches[n - 2] + seq!['_'] + st.branches[n - 1]
            } else {
                st.branches[n - 1]
            };
            &&& r.1 == Some(i + 1)
            &&& r.0.branches.len() == kept + 1
            &&& forall|k: int| 0 <= k < kept ==> #[trigger] r.0.branches[k] == st.branches[k]
            &&& r.0.branches[kept] == q
            &&& r.0.ids.contains_key(q) && r.0.ids[q] == meaning
            &&& forall|k: Seq<char>| k != q ==> #[trigger] r.0.ids.contains_key(k)
                == st.ids.contains_key(k) && (st.ids.contains_key(k) ==> r.0.ids[k] == st.ids[k])
            &&& r.0.counter == next_identifier(q)
            &&& r.0.str_repr == st.str_repr
        }),
{
    let r = step_spec(st, l, i);
    let n = st.branches.len();
    let q = st.counter;
    let c = char_range(st.str_repr, i as nat, (i + 1) as nat);
    assert(c[0] == ')');
    assert(c != seq!['(']) by {
        assert(seq!['('][0] == '(');
    }
    assert(r == close_branch_spec(st, i));
    if is_branch_id(st.branches[n - 1]) {
        assert(n >= 2);
        assert(r.0.branches == st.branches.take(n - 2).push(q));
        assert(r.0.ids == st.ids.insert(q, st.branches[n - 2] + seq!['_'] + st.branches[n - 1]));
    } else {
        assert(r.0.branches == st.branches.update(n - 1, q));
        assert(r.0.ids == st.ids.insert(q, st.branches[n - 1]));
    }
}

/// The parse state after all steps from position `i` on.
pub open spec fn run_spec(st: OooView, l: int, i: int) -> OooView
    decreases l - i,
{
    if i >= l {
        st
    } else {
        let r = step_spec(st, l, i);
        match r.1 {
            None => r.0,
            Some(j) => if i < j <= l {
                run_spec(r.0, l, j)
            } else {
                r.0
            },
        }
    }
}

/// Can the steps from position `i` on all be taken?
pub open spec fn run_ok(st: OooView, l: int, i: int) -> bool
    decreases l - i,
{
    if i >= l {
        true
    } else {
        let r = step_spec(st, l, i);
        !step_fails(st, l, i) && match r.1 {
            None => true,
            Some(j) => if i < j <= l {
                run_ok(r.0, l, j)
            } else {
                true
            },
        }
    }
}

impl OrderOfOperator {
    /// Parses the whole string from position 0.
    pub fn process(&mut self)
        requires
            byte_len(old(self).str_repr@) < usize::MAX,
            run_ok(old(self)@, byte_len(old(self).str_repr@) as int, 0),
        ensures
            final(self)@ == run_spec(old(self)@, byte_len(old(self).str_repr@) as int, 0),
    {
        let ghost l = byte_len(self.str_repr@);
        let ghost st0 = self@;
        let mut i: usize = 0;
        loop
            invariant
                byte_len(self.str_repr@) == l,
                self.str_repr@ == st0.str_repr,
                l < usize::MAX,
                i <= l,
                run_ok(self@, l, i as int),
                run_spec(st0, l, 0) == run_spec(self@, l, i as int),
            ensures
                run_spec(st0, l, 0) == self@,
            decreases l - i,
        {
            let ghost before = self@;
            let x = self.process_next(i);
            match x {
                None => {
                    assert(run_spec(before, l, i as int) == self@);
                    break;
                },
                Some(j) => {
                    i = j;
                },
            }
        }
    }

    /// Takes the step at position `i`: opens a branch at `(`, closes one at
    /// `)`, skips `_`, and otherwise adds the element at `i` to the last
    /// branch (or starts the first one). Gives the next position, or
    /// `None` at the end.
    pub fn process_next(&mut self, i: usize) -> (r: Option<usize>)
        requires
            i < usize::MAX,
            byte_len(old(self).str_repr@) <= usize::MAX,
            !step_fails(old(self)@, byte_len(old(self).str_repr@) as int, i as int),
        ensures
            final(self).str_repr == old(self).str_repr,
            (final(self)@, match r {
                Some(j) => Some(j as int),
                None => None::<int>,
            }) == step_spec(old(self)@, byte_len(old(self).str_repr@) as int, i as int),
            r is Some ==> i < r->0 <= byte_len(old(self).str_repr@),
    {
        let l = self.str_repr.as_str().len();
        let s = substring(self.str_repr.as_str(), i, i + 1);
        if i >= l {
            return None;
        }
        if is_single_char(s, '(') {
            return self.new_branch(i + 1);
        } else if is_single_char(s, ')') {
            return self.close_branch(i);
        } else if is_single_char(s, '_') {
            return Some(i + 1);
        } else {
            if self.branches.len() == 0 {
                return self.new_branch(i);
            }
            let m = next_element(self.str_repr.clone(), i);
            match m {
                None => {
                    return None;
                },
                Some((e, u)) => {
                    proof {
                        lemma_element_scan(self.str_repr@, l as int, i as int, Seq::empty(), i as int);
                    }
                    self.add_to_last_branch(e);
                    return Some(u);
                },
            }
        }
    }

    /// Appends `_` and `s` to the last branch.
    pub fn add_to_last_branch(&mut self, s: String)
        requires
            old(self).branches.len() > 0,
        ensures
            final(self)@ == (OooView {
                branches: old(self)@.branches.update(
                    old(self).branches.len() - 1,
                    old(self)@.branches.last() + seq!['_'] + s@,
                ),
                ..old(self)@
            }),
            final(self).str_repr == old(self).str_repr,
    {
        let l2 = self.branches.len() - 1;
        let ghost old_b = self.branches@;
        let mut q = self.branches[l2].clone();
        assert(q@ == old_b[l2 as int]@);
        push_char(&mut q, '_');
        q.append(s.as_str());
        assert(q@ == old_b[l2 as int]@ + seq!['_'] + s@);
        self.branches.set(l2, q);
        assert(self.branches@ == old_b.update(l2 as int, q));
        assert(views(self.branches@) =~= views(old(self).branches@).update(
            l2 as int,
            views(old(self).branches@).last() + seq!['_'] + s@,
        ));
    }

    /// Starts a new branch made of the element at position `i`; gives the
    /// position after it, or `None` when there is no element there.
    pub fn new_branch(&mut self, i: usize) -> (r: Option<usize>)
        requires
            byte_len(old(self).str_repr@) <= usize::MAX,
        ensures
            final(self).str_repr == old(self).str_repr,
            (final(self)@, match r {
                Some(j) => Some(j as int),
                None => None::<int>,
            }) == new_branch_spec(old(self)@, byte_len(old(self).str_repr@) as int, i as int),
            r is Some ==> i < r->0 && r->0 <= (if i >= byte_len(old(self).str_repr@) { i as int } else { byte_len(old(self).str_repr@) as int }),
    {
        let x = next_element(self.str_repr.clone(), i);
        proof {
            lemma_element_scan(self.str_repr@, byte_len(self.str_repr@), i as int, Seq::empty(), i as int);
        }
        match x {
            None => None,
            Some((q, q2)) => {
                let ghost before = self.branches@;
                self.branches.push(q);
                assert(views(self.branches@) =~= views(before).push(q@));
                Some(q2)
            },
        }
    }

    /// Closes the last branch at position `i`: it becomes the next branch
    /// identifier, which stands for the branch (merged with the branch
    /// before when the last one is itself an identifier).
    fn close_branch(&mut self, i: usize) -> (r: Option<usize>)
        requires
            i < usize::MAX,
            !close_branch_fails(old(self)@),
        ensures
            final(self).str_repr == old(self).str_repr,
            (final(self)@, match r {
                Some(j) => Some(j as int),
                None => None::<int>,
            }) == close_branch_spec(old(self)@, i as int),
    {
        let ghost st = self@;
        let q = self.incstring.inc_();
        assert(q@ == st.counter);
        let n = self.branches.len();
        let b = self.branches[n - 1].clone();
        assert(b@ == st.branches[n - 1]);
        if is_branch_identifier(b.clone()) {
            let mut b3 = self.branches[n - 2].clone();
            assert(b3@ == st.branches[n - 2]);
            push_char(&mut b3, '_');
            b3.append(b.as_str());
            assert(b3@ == st.branches[n - 2] + seq!['_'] + st.branches[n - 1]);
            self.branch_identifiers.insert(q.clone(), b3);
            let ghost before = self.branches@;
            self.branches.truncate(n - 2);
            self.branches.push(q);
            assert(views(self.branches@) =~= views(before).take(n - 2).push(st.counter));
            assert(self@ == close_branch_spec(st, i as int).0);
        } else {
            self.branch_identifiers.insert(q.clone(), b);
            let ghost before = self.branches@;
            self.branches.set(n - 1, q);
            assert(views(self.branches@) =~= views(before).update(n - 1, st.counter));
            assert(self@ == close_branch_spec(st, i as int).0);
        }
        Some(i + 1)
    }
}

/// The expected parse of `5(6_7)`: branches and identifiers.
pub fn sample_OrderOfOperator_soln1() -> (r: (Vec<String>, StrMap))
    ensures
        views(r.0@) == seq!["5"@, "XX5A"@],
        r.1@ == map!["XX5A"@ => "6_7"@],
{
    let mut vs: Vec<String> = Vec::new();
    vs.push("5".to_owned());
    vs.push("XX5A".to_owned());
    let mut bi = StrMap::new();
    bi.insert("XX5A".to_owned(), "6_7".to_owned());
    assert(views(vs@) =~= seq!["5"@, "XX5A"@]);
    assert(bi@ =~= map!["XX5A"@ => "6_7"@]);
    (vs, bi)
}

/// The expected parse of `(8_5_1(2_3))(4(5_6)7)`.
pub fn sample_OrderOfOperator_soln2() -> (r: (Vec<String>, StrMap))
    ensures
        views(r.0@) == seq!["XX5B"@, "4"@, "XX5D"@],
        r.1@ == map![
            "XX5B"@ => "8_5_1_XX5A"@,
            "XX5D"@ => "XX5C_7"@,
            "XX5A"@ => "2_3"@,
            "XX5C"@ => "5_6"@
        ],
{
    let mut vs: Vec<String> = Vec::new();
    vs.push("XX5B".to_owned());
    vs.push("4".to_owned());
    vs.push("XX5D".to_owned());
    let mut bi = StrMap::new();
    bi.insert("XX5B".to_owned(), "8_5_1_XX5A".to_owned());
    bi.insert("XX5D".to_owned(), "XX5C_7".to_owned());
    bi.insert("XX5A".to_owned(), "2_3".to_owned());
    bi.insert("XX5C".to_owned(), "5_6".to_owned());
    assert(views(vs@) =~= seq!["XX5B"@, "4"@, "XX5D"@]);
    (vs, bi)
}

/// The expected parse of `(8_5_1(2_3))4(5_6)7`.
pub fn sample_OrderOfOperator_soln3() -> (r: (Vec<String>, StrMap))
    ensures
        views(r.0@) == seq!["XX5B_4"@, "XX5C_7"@],
        r.1@ == map!["XX5B"@ => "8_5_1_XX5A"@, "XX5A"@ => "2_3"@, "XX5C"@ => "5_6"@],
{
    let mut vs: Vec<String> = Vec::new();
    vs.push("XX5B_4".to_owned());
    vs.push("XX5C_7".to_owned());
    let mut bi = StrMap::new();
    bi.insert("XX5B".to_owned(), "8_5_1_XX5A".to_owned());
    bi.insert("XX5A".to_owned(), "2_3".to_owned());
    bi.insert("XX5C".to_owned(), "5_6".to_owned());
    assert(views(vs@) =~= seq!["XX5B_4"@, "XX5C_7"@]);
    (vs, bi)
}

/// Is `c` an ASCII letter?
pub open spec fn is_letter(c: char) -> bool {
    ('a' as u32 <= c as u32 && c as u32 <= 'z' as u32) || ('A' as u32 <= c as u32 && c as u32
        <= 'Z' as u32)
}

/// The letters of `s`, in order.
pub open spec fn letters_of(s: Seq<char>) -> Seq<char>
    decreases s.len(),
{
    if s.len() == 0 {
        Seq::empty()
    } else if is_letter(s.last()) {
        letters_of(s.drop_last()).push(s.last())
    } else {
        letters_of(s.drop_last())
    }
}

/// Keeps only the ASCII letters of `s`.
pub fn str_alphabebetical_filter(s: String) -> (r: String)
    ensures
        r@ == letters_of(s@),
{
    let v = string_to_chars(s.as_str());
    let mut r = String::new();
    let n = v.len();
    for i in 0..n
        invariant
            n == v.len(),
            v@ == s@,
            r@ == letters_of(v@.take(i as int)),
    {
        let c = v[i];
        assert(v@.take(i + 1).drop_last() == v@.take(i as int));
        let code = c as u32;
        if (97 <= code && code <= 122) || (65 <= code && code <= 90) {
            push_char(&mut r, c);
        }
    }
    assert(v@.take(n as int) == v@);
    r
}

/// The pieces of `s` between the separators `sep` (one more piece than
/// there are separators).
pub open spec fn split_on(s: Seq<char>, sep: char) -> Seq<Seq<char>>
    decreases s.len(),
{
    if s.len() == 0 {
        seq![Seq::empty()]
    } else {
        let r = split_on(s.drop_last(), sep);
        if s.last() == sep {
            r.push(Seq::empty())
        } else {
            r.update(r.len() - 1, r.last().push(s.last()))
        }
    }
}

proof fn lemma_split_on_nonempty(s: Seq<char>, sep: char)
    ensures
        split_on(s, sep).len() >= 1,
    decreases s.len(),
{
    if s.len() > 0 {
        lemma_split_on_nonempty(s.drop_last(), sep);
    }
}

/// The pieces of `s` between its `_` characters.
pub fn split_underscore(s: &str) -> (r: Vec<String>)
    ensures
        views(r@) == split_on(s@, '_'),
{
    let v = string_to_chars(s);
    let mut done: Vec<String> = Vec::new();
    let mut cur: Vec<char> = Vec::new();
    let n = v.len();
    for i in 0..n
        invariant
            n == v.len(),
            v@ == s@,
            views(done@).push(cur@) == split_on(v@.take(i as int), '_'),
    {
        let c = v[i];
        assert(v@.take(i + 1).drop_last() == v@.take(i as int));
        proof {
            lemma_split_on_nonempty(v@.take(i as int), '_');
        }
        if c == '_' {
            let piece = chars_to_string(&cur);
            done.push(piece);
            cur = Vec::new();
            assert(views(done@).push(cur@) =~= split_on(v@.take(i + 1), '_'));
        } else {
            cur.push(c);
            assert(views(done@).push(cur@) =~= split_on(v@.take(i + 1), '_'));
        }
    }
    assert(v@.take(n as int) == v@);
    let last = chars_to_string(&cur);
    done.push(last);
    assert(views(done@) =~= split_on(s@, '_'));
    done
}

/// The pieces that the element `e` of a branch stands for: the pieces of
/// what it identifies when it is a branch identifier, else `e` itself.
pub open spec fn expand_element(ids: Map<Seq<char>, Seq<char>>, e: Seq<char>) -> Seq<Seq<char>> {
    if ids.contains_key(e) {
        split_on(ids[e], '_')
    } else {
        seq![e]
    }
}

/// The pieces of the elements `es`, in order.
pub open spec fn expand_elements(ids: Map<Seq<char>, Seq<char>>, es: Seq<Seq<char>>) -> Seq<Seq<char>>
    decreases es.len(),
{
    if es.len() == 0 {
        Seq::empty()
    } else {
        expand_elements(ids, es.drop_last()) + expand_element(ids, es.last())
    }
}

/// The pieces of all branches `bs`, in order.
pub open spec fn branch_pieces(ids: Map<Seq<char>, Seq<char>>, bs: Seq<Seq<char>>) -> Seq<Seq<char>>
    decreases bs.len(),
{
    if bs.len() == 0 {
        Seq::empty()
    } else {
        branch_pieces(ids, bs.drop_last()) + expand_elements(ids, split_on(bs.last(), '_'))
    }
}

/// The letters of each piece of `ps`, leaving out pieces without letters.
pub open spec fn lettered(ps: Seq<Seq<char>>) -> Seq<Seq<char>>
    decreases ps.len(),
{
    if ps.len() == 0 {
        Seq::empty()
    } else if letters_of(ps.last()).len() > 0 {
        lettered(ps.drop_last()).push(letters_of(ps.last()))
    } else {
        lettered(ps.drop_last())
    }
}

/// The comma format of a parse: the letters of every piece of every
/// branch, where a branch identifier stands for the pieces it identifies.
pub open spec fn comma_format(st: OooView) -> Seq<Seq<char>> {
    lettered(branch_pieces(st.ids, st.branches))
}

/// The pieces that `e` stands for in `ids`.
fn expand_one(ids: &StrMap, e: &String) -> (r: Vec<String>)
    ensures
        views(r@) == expand_element(ids@, e@),
{
    match ids.get(e.as_str()) {
        Some(v) => split_underscore(v.as_str()),
        None => {
            let mut r: Vec<String> = Vec::new();
            r.push(e.clone());
            assert(views(r@) =~= seq![e@]);
            r
        },
    }
}

/// Appends the strings of `b` to `a`.
fn extend_strings(a: &mut Vec<String>, b: Vec<String>)
    ensures
        views(final(a)@) == views(old(a)@) + views(b@),
{
    let n = b.len();
    for i in 0..n
        invariant
            n == b.len(),
            views(a@) == views(old(a)@) + views(b@.take(i as int)),
    {
        let ghost before = a@;
        let c = b[i].clone();
        assert(c@ == b@[i as int]@);
        a.push(c);
        assert(views(a@) =~= views(before).push(c@));
        assert(views(b@.take(i + 1)) =~= views(b@.take(i as int)).push(b@[i as int]@));
        assert(views(a@) =~= views(old(a)@) + views(b@.take(i + 1)));
    }
    assert(b@.take(n as int) == b@);
}

/// The comma format of the parse `oo`: the letters of every `_`-piece of
/// every branch, where a branch identifier stands for the pieces of what it
/// identifies; pieces without letters are left out.
pub fn parse_OrderOfOperator__comma_format(oo: &OrderOfOperator) -> (r: Vec<String>)
    ensures
        views(r@) == comma_format(oo@),
{
    let mut pieces: Vec<String> = Vec::new();
    let nb = oo.branches.len();
    for i in 0..nb
        invariant
            nb == oo.branches.len(),
            views(pieces@) == branch_pieces(oo.branch_identifiers@, views(oo.branches@.take(i as int))),
    {
        let es = split_underscore(oo.branches[i].as_str());
        let mut part: Vec<String> = Vec::new();
        let ne = es.len();
        for j in 0..ne
            invariant
                ne == es.len(),
                views(part@) == expand_elements(oo.branch_identifiers@, views(es@.take(j as int))),
        {
            let ex = expand_one(&oo.branch_identifiers, &es[j]);
            assert(views(es@.take(j + 1)).drop_last() =~= views(es@.take(j as int)));
            extend_strings(&mut part, ex);
        }
        assert(es@.take(ne as int) == es@);
        assert(views(oo.branches@.take(i + 1)).drop_last() =~= views(oo.branches@.take(i as int)));
        extend_strings(&mut pieces, part);
    }
    assert(oo.branches@.take(nb as int) == oo.branches@);
    let mut r: Vec<String> = Vec::new();
    let np = pieces.len();
    for k in 0..np
        invariant
            np == pieces.len(),
            views(r@) == lettered(views(pieces@.take(k as int))),
    {
        let f = str_alphabebetical_filter(pieces[k].clone());
        assert(views(pieces@.take(k + 1)).drop_last() =~= views(pieces@.take(k as int)));
        if f.as_str().unicode_len() > 0 {
            r.push(f);
            assert(views(r@) =~= lettered(views(pieces@.take(k + 1))));
        }
    }
    assert(pieces@.take(np as int) == pieces@);
    r
}

} // verus!
