//! Graph structures over string-named nodes: an undirected graph kept as
//! each node's set of neighbours, and an entity made of nodes and edges.
use vstd::prelude::*;
use crate::text::{str_equal, views};

verus! {

/// The strings of `s`, as character sequences.
pub open spec fn str_set_of(s: Seq<String>) -> Set<Seq<char>> {
    Set::new(|x: Seq<char>| views(s).contains(x))
}

/// A set of strings, kept as a list that holds each string once.
pub struct StrSet {
    pub items: Vec<String>,
}

impl View for StrSet {
    type V = Set<Seq<char>>;

    open spec fn view(&self) -> Set<Seq<char>> {
        str_set_of(self.items@)
    }
}

impl StrSet {
    /// Is each string held once?
    pub open spec fn wf(&self) -> bool {
        views(self.items@).no_duplicates()
    }

    /// The empty set.
    pub fn new() -> (r: StrSet)
        ensures
            r.wf(),
            r@ == Set::<Seq<char>>::empty(),
    {
        let r = StrSet { items: Vec::new() };
        assert(views(r.items@) =~= Seq::<Seq<char>>::empty());
        assert(r@ =~= Set::<Seq<char>>::empty());
        r
    }

    /// The place of `s` in the list, if it is held.
    pub fn find(&self, s: &str) -> (r: Option<usize>)
        ensures
            match r {
                Some(i) => i < self.items.len() && self.items@[i as int]@ == s@,
                None => !self@.contains(s@),
            },
    {
        let n = self.items.len();
        let mut i: usize = 0;
        while i < n
            invariant
                n == self.items.len(),
                i <= n,
                forall|j: int| 0 <= j < i ==> (#[trigger] self.items@[j])@ != s@,
            decreases n - i,
        {
            if str_equal(self.items[i].as_str(), s) {
                return Some(i);
            }
            i = i + 1;
        }
        assert(!views(self.items@).contains(s@)) by {
            if views(self.items@).contains(s@) {
                let j = choose|j: int| 0 <= j < views(self.items@).len() && views(self.items@)[j] == s@;
                assert(self.items@[j]@ == s@);
            }
        }
        None
    }

    /// Is `s` held?
    pub fn contains(&self, s: &str) -> (r: bool)
        ensures
            r == self@.contains(s@),
    {
        match self.find(s) {
            Some(i) => {
                assert(views(self.items@)[i as int] == s@);
                true
            },
            None => false,
        }
    }

    /// Adds `s`.
    pub fn insert(&mut self, s: String)
        requires
            old(self).wf(),
        ensures
            final(self).wf(),
            final(self)@ == old(self)@.insert(s@),
    {
        if !self.contains(s.as_str()) {
            let ghost before = self.items@;
            self.items.push(s);
            assert(views(self.items@) =~= views(before).push(s@));
            assert forall|x: Seq<char>| self@.contains(x) <==> old(self)@.insert(s@).contains(x) by {
                let w = views(before).push(s@);
                if w.contains(x) {
                    let j = choose|j: int| 0 <= j < w.len() && w[j] == x;
                    if j < views(before).len() {
                        assert(views(before)[j] == x);
                    }
                }
                if views(before).contains(x) {
                    let j = choose|j: int| 0 <= j < views(before).len() && views(before)[j] == x;
                    assert(w[j] == x);
                }
                assert(w[views(before).len() as int] == s@);
            }
            assert(self@ =~= old(self)@.insert(s@));
        } else {
            assert(self@ =~= old(self)@.insert(s@));
        }
    }

    /// Takes `s` out.
    pub fn remove(&mut self, s: &str)
        requires
            old(self).wf(),
        ensures
            final(self).wf(),
            final(self)@ == old(self)@.remove(s@),
    {
        match self.find(s) {
            Some(i) => {
                let ghost before = self.items@;
                self.items.remove(i);
                assert(views(self.items@) =~= views(before).remove(i as int));
                assert(self@ =~= old(self)@.remove(s@)) by {
                    assert forall|x: Seq<char>| self@.contains(x) <==> old(self)@.remove(s@).contains(
                        x,
                    ) by {
                        if self@.contains(x) {
                            let j = choose|j: int|
                                0 <= j < views(self.items@).len() && views(self.items@)[j] == x;
                            if j < i {
                                assert(views(before)[j] == x);
                                assert(views(before)[j] != views(before)[i as int]);
                            } else {
                                assert(views(before)[j + 1] == x);
                                assert(views(before)[j + 1] != views(before)[i as int]);
                            }
                        }
                        if old(self)@.remove(s@).contains(x) {
                            let j = choose|j: int| 0 <= j < views(before).len() && views(before)[j] == x;
                            assert(j != i);
                            if j < i {
                                assert(views(self.items@)[j] == x);
                            } else {
                                assert(views(self.items@)[j - 1] == x);
                            }
                        }
                    }
                }
            },
            None => {
                assert(self@ =~= old(self)@.remove(s@));
            },
        }
    }
}

/// The node names of the entries `d`.
pub open spec fn keys_of(d: Seq<(String, StrSet)>) -> Seq<Seq<char>> {
    d.map_values(|e: (String, StrSet)| e.0@)
}

/// Are the node names of `d` distinct and each neighbour set well formed?
pub open spec fn graph_wf(d: Seq<(String, StrSet)>) -> bool {
    &&& keys_of(d).no_duplicates()
    &&& forall|i: int| 0 <= i < d.len() ==> (#[trigger] d[i]).1.wf()
}

/// The neighbour sets of the entries `d`, by node name.
pub open spec fn graph_view(d: Seq<(String, StrSet)>) -> Map<Seq<char>, Set<Seq<char>>> {
    Map::new(
        |k: Seq<char>| keys_of(d).contains(k),
        |k: Seq<char>| d[choose|i: int| 0 <= i < d.len() && d[i].0@ == k].1@,
    )
}

/// Does each edge go both ways: is every node named as a neighbour a node
/// whose neighbours name the first one back?
pub open spec fn symmetric(m: Map<Seq<char>, Set<Seq<char>>>) -> bool {
    forall|a: Seq<char>, b: Seq<char>|
        #![trigger m[a].contains(b)]
        m.contains_key(a) && m[a].contains(b) ==> m.contains_key(b) && m[b].contains(a)
}

/// `m` with the node `n`, with no neighbour where it is new.
pub open spec fn with_node(m: Map<Seq<char>, Set<Seq<char>>>, n: Seq<char>) -> Map<
    Seq<char>,
    Set<Seq<char>>,
> {
    if m.contains_key(n) {
        m
    } else {
        m.insert(n, Set::empty())
    }
}

/// `m` with `b` among the neighbours of `a`.
pub open spec fn with_neighbor(m: Map<Seq<char>, Set<Seq<char>>>, a: Seq<char>, b: Seq<char>) -> Map<
    Seq<char>,
    Set<Seq<char>>,
> {
    m.insert(a, m[a].insert(b))
}

/// `m` with the nodes `a`, `b` and the edge between them, both ways.
pub open spec fn with_edge(m: Map<Seq<char>, Set<Seq<char>>>, a: Seq<char>, b: Seq<char>) -> Map<
    Seq<char>,
    Set<Seq<char>>,
> {
    with_neighbor(with_neighbor(with_node(with_node(m, a), b), a, b), b, a)
}

/// `m` without the node `n` and without `n` among any node's neighbours.
pub open spec fn without_node(m: Map<Seq<char>, Set<Seq<char>>>, n: Seq<char>) -> Map<
    Seq<char>,
    Set<Seq<char>>,
> {
    Map::new(|k: Seq<char>| m.contains_key(k) && k != n, |k: Seq<char>| m[k].remove(n))
}

/// `m` without the edge between `a` and `b`, both ways.
pub open spec fn without_edge(m: Map<Seq<char>, Set<Seq<char>>>, a: Seq<char>, b: Seq<char>) -> Map<
    Seq<char>,
    Set<Seq<char>>,
> {
    let m1 = m.insert(a, m[a].remove(b));
    m1.insert(b, m1[b].remove(a))
}

/// Has the name `n` no `'_'` in it?
pub open spec fn proper_node(n: Seq<char>) -> bool {
    forall|i: int| 0 <= i < n.len() ==> n[i] != '_'
}

proof fn lemma_view_at(d: Seq<(String, StrSet)>, i: int)
    requires
        graph_wf(d),
        0 <= i < d.len(),
    ensures
        graph_view(d).contains_key(d[i].0@),
        graph_view(d)[d[i].0@] == d[i].1@,
{
    assert(keys_of(d)[i] == d[i].0@);
    let j = choose|j: int| 0 <= j < d.len() && d[j].0@ == d[i].0@;
    assert(keys_of(d)[j] == keys_of(d)[i]);
}

proof fn lemma_update_entry(d: Seq<(String, StrSet)>, i: int, e: (String, StrSet))
    requires
        graph_wf(d),
        0 <= i < d.len(),
        e.0@ == d[i].0@,
        e.1.wf(),
    ensures
        graph_wf(d.update(i, e)),
        graph_view(d.update(i, e)) == graph_view(d).insert(e.0@, e.1@),
{
    let d2 = d.update(i, e);
    assert(keys_of(d2) =~= keys_of(d));
    lemma_view_at(d2, i);
    assert forall|k: Seq<char>| #[trigger] graph_view(d2).contains_key(k) implies graph_view(d2)[k]
        == graph_view(d).insert(e.0@, e.1@)[k] by {
        let j = choose|j: int| 0 <= j < keys_of(d2).len() && keys_of(d2)[j] == k;
        lemma_view_at(d2, j);
        lemma_view_at(d, j);
        if j != i {
            assert(keys_of(d)[j] != keys_of(d)[i]);
        }
    }
    assert(graph_view(d2) =~= graph_view(d).insert(e.0@, e.1@));
}

proof fn lemma_with_node_keeps(m: Map<Seq<char>, Set<Seq<char>>>, a: Seq<char>, b: Seq<char>)
    ensures
        with_neighbor(with_node(with_node(m, a), b), a, b).contains_key(b),
        with_node(with_node(m, a), b).contains_key(a),
{
}

/// Adding an edge keeps every edge going both ways.
pub proof fn lemma_add_edge_symmetric(m: Map<Seq<char>, Set<Seq<char>>>, a: Seq<char>, b: Seq<char>)
    ensures
        symmetric(m) ==> symmetric(with_edge(m, a, b)),
{
    if symmetric(m) {
        let m1 = with_node(with_node(m, a), b);
        assert(symmetric(m1)) by {
            assert forall|x: Seq<char>, y: Seq<char>| m1.contains_key(x) && #[trigger] m1[x].contains(y) implies m1.contains_key(y) && m1[y].contains(x) by {
                if m.contains_key(x) {
                    assert(m1[x] == m[x]);
                    assert(m[x].contains(y));
                    assert(m1[y] == m[y]);
                }
            }
        }
        let m2 = with_neighbor(m1, a, b);
        let m3 = with_neighbor(m2, b, a);
        assert forall|x: Seq<char>, y: Seq<char>| m3.contains_key(x) && #[trigger] m3[x].contains(y) implies m3.contains_key(y) && m3[y].contains(x) by {
            if x == b {
                if y != a {
                    assert(m2[b].contains(y));
                    if b == a {
                        assert(m1[a].contains(y) || y == b);
                    }
                }
            } else if x == a {
                assert(m2[a].contains(y));
                if y != b {
                    assert(m1[a].contains(y));
                }
            } else {
                assert(m1[x].contains(y));
            }
        }
    }
}

proof fn lemma_remove_entry(d: Seq<(String, StrSet)>, i: int)
    requires
        graph_wf(d),
        0 <= i < d.len(),
    ensures
        graph_wf(d.remove(i)),
        graph_view(d.remove(i)) == graph_view(d).remove(d[i].0@),
{
    let d2 = d.remove(i);
    assert(keys_of(d2) =~= keys_of(d).remove(i));
    assert(keys_of(d2).no_duplicates()) by {
        assert forall|a: int, b: int|
            0 <= a < keys_of(d2).len() && 0 <= b < keys_of(d2).len() && a != b implies keys_of(
            d2,
        )[a] != keys_of(d2)[b] by {
            let a1 = if a < i { a } else { a + 1 };
            let b1 = if b < i { b } else { b + 1 };
            assert(keys_of(d2)[a] == keys_of(d)[a1]);
            assert(keys_of(d2)[b] == keys_of(d)[b1]);
        }
    }
    assert forall|p: int| 0 <= p < d2.len() implies (#[trigger] d2[p]).1.wf() by {
        if p < i {
            assert(d2[p] == d[p]);
        } else {
            assert(d2[p] == d[p + 1]);
        }
    }
    assert forall|k: Seq<char>| #[trigger] graph_view(d2).contains_key(k) <==> graph_view(d).remove(d[i].0@).contains_key(k) by {
        if graph_view(d2).contains_key(k) {
            let j = choose|j: int| 0 <= j < keys_of(d2).len() && keys_of(d2)[j] == k;
            let j1 = if j < i { j } else { j + 1 };
            assert(keys_of(d)[j1] == k);
            assert(keys_of(d)[j1] != keys_of(d)[i]);
        }
        if graph_view(d).remove(d[i].0@).contains_key(k) {
            let j = choose|j: int| 0 <= j < keys_of(d).len() && keys_of(d)[j] == k;
            assert(j != i);
            if j < i {
                assert(keys_of(d2)[j] == k);
            } else {
                assert(keys_of(d2)[j - 1] == k);
            }
        }
    }
    assert forall|k: Seq<char>| #[trigger] graph_view(d2).contains_key(k) implies graph_view(d2)[k]
        == graph_view(d)[k] by {
        let j = choose|j: int| 0 <= j < keys_of(d2).len() && keys_of(d2)[j] == k;
        let j1 = if j < i { j } else { j + 1 };
        lemma_view_at(d2, j);
        lemma_view_at(d, j1);
    }
    assert(graph_view(d2) =~= graph_view(d).remove(d[i].0@));
}

proof fn lemma_without_node_view(
    m0: Map<Seq<char>, Set<Seq<char>>>,
    base: Seq<(String, StrSet)>,
    fin: Seq<(String, StrSet)>,
    n: Seq<char>,
)
    requires
        graph_wf(base),
        graph_wf(fin),
        graph_view(base) == m0.remove(n),
        keys_of(fin) == keys_of(base),
        fin.len() == base.len(),
        forall|p: int| 0 <= p < fin.len() ==> (#[trigger] fin[p]).1@ == base[p].1@.remove(n),
    ensures
        graph_view(fin) == without_node(m0, n),
{
    assert forall|k: Seq<char>| #[trigger] graph_view(fin).contains_key(k) <==> without_node(m0, n).contains_key(k) by {
        assert(graph_view(fin).contains_key(k) == graph_view(base).contains_key(k));
    }
    assert forall|k: Seq<char>| #[trigger] graph_view(fin).contains_key(k) implies graph_view(fin)[k]
        == without_node(m0, n)[k] by {
        let j = choose|j: int| 0 <= j < keys_of(fin).len() && keys_of(fin)[j] == k;
        lemma_view_at(fin, j);
        lemma_view_at(base, j);
        assert(keys_of(base)[j] == k);
    }
    assert(graph_view(fin) =~= without_node(m0, n));
}

/// Taking out a node keeps every edge going both ways.
pub proof fn lemma_without_node_symmetric(m: Map<Seq<char>, Set<Seq<char>>>, n: Seq<char>)
    ensures
        symmetric(m) ==> symmetric(without_node(m, n)),
{
    if symmetric(m) {
        let w = without_node(m, n);
        assert forall|x: Seq<char>, y: Seq<char>| w.contains_key(x) && #[trigger] w[x].contains(y) implies w.contains_key(y) && w[y].contains(x) by {
            assert(m[x].contains(y));
        }
    }
}

/// Taking out an edge keeps every edge going both ways.
pub proof fn lemma_delete_edge_symmetric(m: Map<Seq<char>, Set<Seq<char>>>, a: Seq<char>, b: Seq<char>)
    requires
        m.contains_key(a),
        m.contains_key(b),
    ensures
        symmetric(m) ==> symmetric(without_edge(m, a, b)),
{
    if symmetric(m) {
        let m1 = m.insert(a, m[a].remove(b));
        let w = without_edge(m, a, b);
        assert forall|x: Seq<char>, y: Seq<char>| w.contains_key(x) && #[trigger] w[x].contains(y) implies w.contains_key(y) && w[y].contains(x) by {
            if x == b {
                assert(m1[b].contains(y));
                if b == a {
                    assert(m[a].contains(y));
                } else {
                    assert(m[b].contains(y));
                }
            } else if x == a {
                assert(m[a].contains(y));
            } else {
                assert(m[x].contains(y));
            }
        }
    }
}

/// Does `n` contain no `'_'`?
pub fn is_proper_node(n1: String) -> (r: bool)
    ensures
        r == proper_node(n1@),
{
    let n = n1.unicode_len();
    let mut i: usize = 0;
    while i < n
        invariant
            n == n1@.len(),
            i <= n,
            forall|j: int| 0 <= j < i ==> n1@[j] != '_',
        decreases n - i,
    {
        if n1.get_char(i) == '_' {
            return false;
        }
        i = i + 1;
    }
    true
}

/// An undirected graph kept as each node's set of neighbours.
pub struct UndirectedGraph {
    pub data: Vec<(String, StrSet)>,
}

impl View for UndirectedGraph {
    type V = Map<Seq<char>, Set<Seq<char>>>;

    open spec fn view(&self) -> Map<Seq<char>, Set<Seq<char>>> {
        graph_view(self.data@)
    }
}

impl UndirectedGraph {
    /// Are the node names distinct and each neighbour set well formed?
    pub open spec fn wf(&self) -> bool {
        graph_wf(self.data@)
    }

    /// A graph with no node.
    pub fn new() -> (g: UndirectedGraph)
        ensures
            g.wf(),
            g@ == Map::<Seq<char>, Set<Seq<char>>>::empty(),
    {
        let g = UndirectedGraph { data: Vec::new() };
        assert(keys_of(g.data@) =~= Seq::<Seq<char>>::empty());
        assert(g@ =~= Map::<Seq<char>, Set<Seq<char>>>::empty());
        g
    }

    /// The place of the node `n` in `data`, if it is a node.
    fn find_key(&self, n: &str) -> (r: Option<usize>)
        requires
            self.wf(),
        ensures
            match r {
                Some(i) => i < self.data.len() && self.data@[i as int].0@ == n@,
                None => !self@.contains_key(n@),
            },
    {
        let len = self.data.len();
        let mut i: usize = 0;
        while i < len
            invariant
                len == self.data.len(),
                i <= len,
                forall|j: int| 0 <= j < i ==> (#[trigger] self.data@[j]).0@ != n@,
            decreases len - i,
        {
            if str_equal(self.data[i].0.as_str(), n) {
                return Some(i);
            }
            i = i + 1;
        }
        assert(!keys_of(self.data@).contains(n@)) by {
            if keys_of(self.data@).contains(n@) {
                let j = choose|j: int|
                    0 <= j < keys_of(self.data@).len() && keys_of(self.data@)[j] == n@;
                assert(self.data@[j].0@ == n@);
            }
        }
        None
    }

    /// Adds the node `n1`, with no neighbour, unless it is a node already.
    pub fn add_node(&mut self, n1: String)
        requires
            old(self).wf(),
            proper_node(n1@),
        ensures
            final(self).wf(),
            final(self)@ == with_node(old(self)@, n1@),
            symmetric(old(self)@) ==> symmetric(final(self)@),
    {
        match self.find_key(n1.as_str()) {
            Some(i) => {
                proof {
                    lemma_view_at(self.data@, i as int);
                }
                return;
            },
            None => {},
        }
        let ghost before = self.data@;
        let e = StrSet::new();
        self.data.push((n1, e));
        proof {
            assert(keys_of(self.data@) =~= keys_of(before).push(n1@));
            assert(!keys_of(before).contains(n1@));
            assert(keys_of(self.data@).no_duplicates()) by {
                assert forall|a: int, b: int|
                    0 <= a < keys_of(self.data@).len() && 0 <= b < keys_of(self.data@).len() && a
                        != b implies keys_of(self.data@)[a] != keys_of(self.data@)[b] by {
                    if a < before.len() && b < before.len() {
                        assert(keys_of(before)[a] != keys_of(before)[b]);
                    } else if a < before.len() {
                        assert(keys_of(before).contains(keys_of(before)[a]));
                    } else if b < before.len() {
                        assert(keys_of(before).contains(keys_of(before)[b]));
                    }
                }
            }
            assert forall|k: Seq<char>| #[trigger] self@.contains_key(k) implies self@[k]
                == with_node(old(self)@, n1@)[k] by {
                let j = choose|j: int|
                    0 <= j < keys_of(self.data@).len() && keys_of(self.data@)[j] == k;
                lemma_view_at(self.data@, j);
                if j < before.len() {
                    lemma_view_at(before, j);
                }
            }
            assert forall|k: Seq<char>| #[trigger] with_node(old(self)@, n1@).contains_key(k) implies self@.contains_key(k) by {
                if k != n1@ {
                    let j = choose|j: int| 0 <= j < keys_of(before).len() && keys_of(before)[j] == k;
                    assert(keys_of(self.data@)[j] == k);
                } else {
                    assert(keys_of(self.data@)[before.len() as int] == k);
                }
            }
            assert(self@ =~= with_node(old(self)@, n1@));
        }
    }

    /// Adds `n2` to the neighbours of the node `n1`.
    pub fn add_neighbor(&mut self, n1: String, n2: String)
        requires
            old(self).wf(),
            old(self)@.contains_key(n1@),
        ensures
            final(self).wf(),
            final(self)@ == with_neighbor(old(self)@, n1@, n2@),
    {
        match self.find_key(n1.as_str()) {
            Some(i) => {
                let ghost before = self.data@;
                let (k, mut st) = self.data.remove(i);
                proof {
                    assert(before[i as int].1.wf());
                    lemma_view_at(before, i as int);
                }
                st.insert(n2);
                self.data.insert(i, (k, st));
                proof {
                    assert(self.data@ =~= before.update(i as int, (k, st)));
                    lemma_update_entry(before, i as int, (k, st));
                }
            },
            None => {},
        }
    }

    /// Adds the nodes `n1` and `n2` and the edge between them.
    pub fn add_edge(&mut self, n1: String, n2: String)
        requires
            old(self).wf(),
            proper_node(n1@),
            proper_node(n2@),
        ensures
            final(self).wf(),
            final(self)@ == with_edge(old(self)@, n1@, n2@),
            symmetric(old(self)@) ==> symmetric(final(self)@),
    {
        let a1 = n1.clone();
        let b1 = n2.clone();
        let a2 = n1.clone();
        let b2 = n2.clone();
        self.add_node(a1);
        self.add_node(b1);
        self.add_neighbor(n1, b2);
        proof {
            lemma_with_node_keeps(old(self)@, n1@, n2@);
        }
        self.add_neighbor(n2, a2);
        proof {
            lemma_add_edge_symmetric(old(self)@, n1@, n2@);
        }
    }

    /// Takes out the node `n` and every edge to it.
    pub fn delete_node(&mut self, n: String)
        requires
            old(self).wf(),
        ensures
            final(self).wf(),
            final(self)@ == without_node(old(self)@, n@),
            symmetric(old(self)@) ==> symmetric(final(self)@),
    {
        let ghost m0 = self@;
        match self.find_key(n.as_str()) {
            Some(i) => {
                let ghost before = self.data@;
                self.data.remove(i);
                proof {
                    lemma_remove_entry(before, i as int);
                }
            },
            None => {
                assert(graph_view(self.data@) =~= m0.remove(n@));
            },
        }
        let ghost base = self.data@;
        let len = self.data.len();
        let mut j: usize = 0;
        while j < len
            invariant
                len == self.data.len(),
                j <= len,
                base.len() == len,
                graph_wf(base),
                graph_wf(self.data@),
                keys_of(self.data@) == keys_of(base),
                forall|p: int| 0 <= p < j ==> (#[trigger] self.data@[p]).1@ == base[p].1@.remove(n@),
                forall|p: int| j <= p < len ==> #[trigger] self.data@[p] == base[p],
            decreases len - j,
        {
            let ghost cur = self.data@;
            let (k, mut st) = self.data.remove(j);
            proof {
                assert(cur[j as int].1.wf());
            }
            st.remove(n.as_str());
            self.data.insert(j, (k, st));
            proof {
                assert(self.data@ =~= cur.update(j as int, (k, st)));
                lemma_update_entry(cur, j as int, (k, st));
                assert(keys_of(self.data@) =~= keys_of(cur));
            }
            j = j + 1;
        }
        proof {
            lemma_without_node_view(m0, base, self.data@, n@);
            lemma_without_node_symmetric(m0, n@);
        }
    }

    /// Takes out the edge between the nodes `n1` and `n2`, both ways.
    pub fn delete_edge(&mut self, n1: String, n2: String)
        requires
            old(self).wf(),
            old(self)@.contains_key(n1@),
            old(self)@.contains_key(n2@),
        ensures
            final(self).wf(),
            final(self)@ == without_edge(old(self)@, n1@, n2@),
            symmetric(old(self)@) ==> symmetric(final(self)@),
    {
        self.remove_neighbor(n1.as_str(), n2.as_str());
        self.remove_neighbor(n2.as_str(), n1.as_str());
        proof {
            lemma_delete_edge_symmetric(old(self)@, n1@, n2@);
        }
    }

    /// Takes `n2` out of the neighbours of the node `n1`.
    fn remove_neighbor(&mut self, n1: &str, n2: &str)
        requires
            old(self).wf(),
            old(self)@.contains_key(n1@),
        ensures
            final(self).wf(),
            final(self)@ == old(self)@.insert(n1@, old(self)@[n1@].remove(n2@)),
    {
        match self.find_key(n1) {
            Some(i) => {
                let ghost before = self.data@;
                let (k, mut st) = self.data.remove(i);
                proof {
                    assert(before[i as int].1.wf());
                    lemma_view_at(before, i as int);
                }
                st.remove(n2);
                self.data.insert(i, (k, st));
                proof {
                    assert(self.data@ =~= before.update(i as int, (k, st)));
                    lemma_update_entry(before, i as int, (k, st));
                }
            },
            None => {},
        }
    }
}

/// Does `a` come no later than `b` in lexicographic character order?
pub open spec fn lex_le(a: Seq<char>, b: Seq<char>) -> bool
    decreases a.len(),
{
    if a.len() == 0 {
        true
    } else if b.len() == 0 {
        false
    } else if a[0] != b[0] {
        (a[0] as int) < (b[0] as int)
    } else {
        lex_le(a.drop_first(), b.drop_first())
    }
}

/// The name of the edge between `a` and `b`: the two names in
/// lexicographic order, joined by `'_'`.
pub open spec fn edge_text(a: Seq<char>, b: Seq<char>) -> Seq<char> {
    if lex_le(a, b) {
        a + seq!['_'] + b
    } else {
        b + seq!['_'] + a
    }
}

/// Lexicographic order is total and antisymmetric.
proof fn lemma_lex_total(a: Seq<char>, b: Seq<char>)
    ensures
        lex_le(a, b) || lex_le(b, a),
        lex_le(a, b) && lex_le(b, a) ==> a == b,
    decreases a.len(),
{
    if a.len() > 0 && b.len() > 0 && a[0] == b[0] {
        lemma_lex_total(a.drop_first(), b.drop_first());
        if a.drop_first() == b.drop_first() {
            assert(a =~= seq![a[0]] + a.drop_first());
            assert(b =~= seq![b[0]] + b.drop_first());
        }
    } else if a.len() == 0 && b.len() == 0 {
        assert(a =~= b);
    } else if a.len() > 0 && b.len() > 0 {
        assert((a[0] as int) != (b[0] as int));
    }
}

/// The name of an edge does not depend on the order of its two nodes.
pub proof fn lemma_edge_text_symmetric(a: Seq<char>, b: Seq<char>)
    ensures
        edge_text(a, b) == edge_text(b, a),
{
    lemma_lex_total(a, b);
}

/// Does `a` come no later than `b` in lexicographic character order?
fn lex_le_str(a: &str, b: &str) -> (r: bool)
    ensures
        r == lex_le(a@, b@),
{
    let na = a.unicode_len();
    let nb = b.unicode_len();
    let mut i: usize = 0;
    assert(a@.skip(0) =~= a@);
    assert(b@.skip(0) =~= b@);
    while i < na && i < nb
        invariant
            na == a@.len(),
            nb == b@.len(),
            i <= na,
            i <= nb,
            a@.take(i as int) == b@.take(i as int),
            lex_le(a@, b@) == lex_le(a@.skip(i as int), b@.skip(i as int)),
        decreases na - i,
    {
        let ca = a.get_char(i);
        let cb = b.get_char(i);
        let ghost sa = a@.skip(i as int);
        let ghost sb = b@.skip(i as int);
        assert(sa[0] == ca && sb[0] == cb);
        if ca != cb {
            return (ca as u32) < (cb as u32);
        }
        assert(sa.drop_first() =~= a@.skip(i + 1));
        assert(sb.drop_first() =~= b@.skip(i + 1));
        assert(a@.take(i + 1) =~= a@.take(i as int).push(ca));
        assert(b@.take(i + 1) =~= b@.take(i as int).push(cb));
        i = i + 1;
    }
    if i == na {
        assert(a@.skip(i as int).len() == 0);
        true
    } else {
        assert(b@.skip(i as int).len() == 0);
        false
    }
}

/// The name of the edge between `n1` and `n2`: the two names in
/// lexicographic order joined by `'_'`.
pub fn edge_to_str(n1: String, n2: String) -> (r: String)
    ensures
        r@ == edge_text(n1@, n2@),
{
    let (first, second) = if lex_le_str(n1.as_str(), n2.as_str()) {
        (n1, n2)
    } else {
        (n2, n1)
    };
    let mut r = first;
    crate::text::push_char(&mut r, '_');
    r.append(second.as_str());
    r
}

/// An entity made of nodes and of edges named by `edge_to_str`; it owns
/// the two nodes of every edge it has.
pub struct GraphBasedEntity {
    pub nodes: StrSet,
    pub edges: StrSet,
}

impl GraphBasedEntity {
    /// Are the node and edge lists well formed?
    pub open spec fn wf(&self) -> bool {
        self.nodes.wf() && self.edges.wf()
    }

    /// Does the entity own both nodes of each of its edges?
    pub open spec fn owns_edges(&self) -> bool {
        forall|e: Seq<char>|
            #[trigger] self.edges@.contains(e) ==> exists|a: Seq<char>, b: Seq<char>|
                self.nodes@.contains(a) && self.nodes@.contains(b) && e == edge_text(a, b)
    }

    /// Adds the node `n`.
    pub fn add_node(&mut self, n: String)
        requires
            proper_node(n@),
            old(self).wf(),
        ensures
            final(self).wf(),
            final(self).nodes@ == old(self).nodes@.insert(n@),
            final(self).edges == old(self).edges,
            old(self).owns_edges() ==> final(self).owns_edges(),
    {
        self.nodes.insert(n);
        proof {
            if old(self).owns_edges() {
                assert forall|e: Seq<char>| #[trigger] self.edges@.contains(e) implies exists|
                    a: Seq<char>,
                    b: Seq<char>,
                | self.nodes@.contains(a) && self.nodes@.contains(b) && e == edge_text(a, b) by {
                    let (a, b) = choose|a: Seq<char>, b: Seq<char>|
                        old(self).nodes@.contains(a) && old(self).nodes@.contains(b) && e
                            == edge_text(a, b);
                    assert(self.nodes@.contains(a) && self.nodes@.contains(b));
                }
            }
        }
    }

    /// Adds the edge between `n1` and `n2`, under its name, together with
    /// its two nodes.
    pub fn add_edge(&mut self, n1: String, n2: String)
        requires
            proper_node(n1@),
            proper_node(n2@),
            old(self).wf(),
        ensures
            final(self).wf(),
            final(self).edges@ == old(self).edges@.insert(edge_text(n1@, n2@)),
            final(self).nodes@ == old(self).nodes@.insert(n1@).insert(n2@),
            old(self).owns_edges() ==> final(self).owns_edges(),
    {
        let a = n1.clone();
        let b = n2.clone();
        self.nodes.insert(a);
        self.nodes.insert(b);
        let s = edge_to_str(n1, n2);
        self.edges.insert(s);
        proof {
            if old(self).owns_edges() {
                assert forall|e: Seq<char>| #[trigger] self.edges@.contains(e) implies exists|
                    a: Seq<char>,
                    b: Seq<char>,
                | self.nodes@.contains(a) && self.nodes@.contains(b) && e == edge_text(a, b) by {
                    if e == edge_text(n1@, n2@) {
                        assert(self.nodes@.contains(n1@) && self.nodes@.contains(n2@));
                    } else {
                        assert(old(self).edges@.contains(e));
                        let (a, b) = choose|a: Seq<char>, b: Seq<char>|
                            old(self).nodes@.contains(a) && old(self).nodes@.contains(b) && e
                                == edge_text(a, b);
                        assert(self.nodes@.contains(a) && self.nodes@.contains(b));
                    }
                }
            }
        }
    }
}

/// An entity that starts empty and only grows by `add_node` and `add_edge`
/// owns the nodes of all its edges: the empty entity owns its (no) edges.
pub proof fn lemma_empty_entity_owns_edges(g: GraphBasedEntity)
    requires
        g.edges@ == Set::<Seq<char>>::empty(),
    ensures
        g.owns_edges(),
{
}

} // verus!
