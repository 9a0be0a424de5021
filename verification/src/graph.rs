use vstd::prelude::*;

verus! {

/// The mathematical model of an adjacency map: its keys in insertion order,
/// and for each key the labels of its outgoing edges, in insertion order.
pub struct Graph {
    pub keys: Seq<Seq<char>>,
    pub lists: Seq<Seq<Seq<char>>>,
}

impl Graph {
    /// Every key has one neighbor list, and no key occurs twice.
    pub open spec fn wf(self) -> bool {
        self.keys.len() == self.lists.len() && self.keys.no_duplicates()
    }

    /// The map without any key.
    pub open spec fn empty() -> Graph {
        Graph { keys: Seq::empty(), lists: Seq::empty() }
    }

    /// The map after `key` is bound to `list`: a key that is present keeps its
    /// place, a new key goes to the end.
    pub open spec fn with_entry(self, key: Seq<char>, list: Seq<Seq<char>>) -> Graph {
        if self.keys.contains(key) {
            Graph { keys: self.keys, lists: self.lists.update(self.keys.index_of(key), list) }
        } else {
            Graph { keys: self.keys.push(key), lists: self.lists.push(list) }
        }
    }

    /// The map after one edge from `key` to `to` is appended: to the list of
    /// `key` where the key is present, else to a new last key.
    pub open spec fn with_edge(self, key: Seq<char>, to: Seq<char>) -> Graph {
        if self.keys.contains(key) {
            let i = self.keys.index_of(key);
            Graph { keys: self.keys, lists: self.lists.update(i, self.lists[i].push(to)) }
        } else {
            Graph { keys: self.keys.push(key), lists: self.lists.push(seq![to]) }
        }
    }

    /// There is an edge from `a` to `b`.
    pub open spec fn edge(self, a: Seq<char>, b: Seq<char>) -> bool {
        exists|i: int, j: int|
            0 <= i < self.keys.len() && 0 <= j < self.lists[i].len() && self.keys[i] == a
                && #[trigger] self.lists[i][j] == b
    }

    /// `x` is a key or the target of an edge.
    pub open spec fn is_node(self, x: Seq<char>) -> bool {
        self.keys.contains(x) || exists|a: Seq<char>| self.edge(a, x)
    }

    /// `p` is a walk along edges, of at least one label.
    pub open spec fn is_path(self, p: Seq<Seq<char>>) -> bool {
        p.len() >= 1 && forall|k: int| 0 <= k < p.len() - 1 ==> self.edge(#[trigger] p[k], p[k + 1])
    }

    /// `b` can be reached from `a` by following edges in their direction.
    pub open spec fn reachable(self, a: Seq<char>, b: Seq<char>) -> bool {
        exists|p: Seq<Seq<char>>| #[trigger] self.is_path(p) && p[0] == a && p.last() == b
    }

    /// `x` can be reached from one of the first `j` keys.
    pub open spec fn covered(self, j: int, x: Seq<char>) -> bool {
        exists|i: int| 0 <= i < j && i < self.keys.len() && self.reachable(#[trigger] self.keys[i], x)
    }

    /// Key `j` opens a community: no earlier key reaches it.
    pub open spec fn is_start(self, j: int) -> bool {
        !self.covered(j, self.keys[j])
    }

    /// The community that key `j` opens: what it reaches and no earlier key does.
    pub open spec fn community_at(self, j: int) -> Set<Seq<char>> {
        Set::new(|x: Seq<char>| self.reachable(self.keys[j], x) && !self.covered(j, x))
    }

    /// The communities that the first `j` keys open, in key order.
    pub open spec fn communities_upto(self, j: int) -> Seq<Set<Seq<char>>>
        decreases j,
    {
        if j <= 0 {
            Seq::empty()
        } else if self.is_start(j - 1) {
            self.communities_upto(j - 1).push(self.community_at(j - 1))
        } else {
            self.communities_upto(j - 1)
        }
    }

    /// The communities of the map, in the order in which their first keys stand.
    pub open spec fn communities(self) -> Seq<Set<Seq<char>>> {
        self.communities_upto(self.keys.len() as int)
    }

    /// Every label reaches itself.
    pub proof fn lemma_reach_self(self, a: Seq<char>)
        ensures
            self.reachable(a, a),
    {
        let p = seq![a];
        assert(self.is_path(p));
        assert(p[0] == a && p.last() == a);
    }

    /// A walk can be extended by one edge.
    pub proof fn lemma_reach_step(self, a: Seq<char>, b: Seq<char>, c: Seq<char>)
        requires
            self.reachable(a, b),
            self.edge(b, c),
        ensures
            self.reachable(a, c),
    {
        let p = choose|p: Seq<Seq<char>>| #[trigger] self.is_path(p) && p[0] == a && p.last() == b;
        let q = p.push(c);
        assert forall|k: int| 0 <= k < q.len() - 1 implies self.edge(#[trigger] q[k], q[k + 1]) by {
            if k < p.len() - 1 {
                assert(self.edge(p[k], p[k + 1]));
            }
        }
        assert(self.is_path(q));
        assert(q[0] == a && q.last() == c);
    }

    /// `s` holds every target of an edge that leaves it.
    pub open spec fn closed(self, s: Set<Seq<char>>) -> bool {
        forall|x: Seq<char>, y: Seq<char>| s.contains(x) && #[trigger] self.edge(x, y) ==> s.contains(y)
    }

    /// Every label of a walk that starts in a closed set is in the set.
    proof fn lemma_path_inside(self, s: Set<Seq<char>>, p: Seq<Seq<char>>, k: int)
        requires
            self.closed(s),
            self.is_path(p),
            s.contains(p[0]),
            0 <= k < p.len(),
        ensures
            s.contains(p[k]),
        decreases k,
    {
        if k > 0 {
            self.lemma_path_inside(s, p, k - 1);
            assert(self.edge(p[k - 1], p[k - 1 + 1]));
        }
    }

    /// A closed set holds whatever its members reach.
    pub proof fn lemma_closed_reach(self, s: Set<Seq<char>>, a: Seq<char>, b: Seq<char>)
        requires
            self.closed(s),
            s.contains(a),
            self.reachable(a, b),
        ensures
            s.contains(b),
    {
        let p = choose|p: Seq<Seq<char>>| #[trigger] self.is_path(p) && p[0] == a && p.last() == b;
        self.lemma_path_inside(s, p, p.len() - 1);
    }

    /// What a reached label reaches is reached too.
    pub proof fn lemma_reach_trans(self, a: Seq<char>, b: Seq<char>, c: Seq<char>)
        requires
            self.reachable(a, b),
            self.reachable(b, c),
        ensures
            self.reachable(a, c),
    {
        let s = Set::new(|x: Seq<char>| self.reachable(a, x));
        assert forall|x: Seq<char>, y: Seq<char>| s.contains(x) && #[trigger] self.edge(x, y) implies s.contains(y) by {
            self.lemma_reach_step(a, x, y);
        }
        self.lemma_closed_reach(s, b, c);
    }

    /// What the first `j + 1` keys reach is what the first `j` reach, and what key `j` reaches.
    pub proof fn lemma_covered_step(self, j: int, x: Seq<char>)
        requires
            0 <= j < self.keys.len(),
        ensures
            self.covered(j + 1, x) <==> (self.covered(j, x) || self.reachable(self.keys[j], x)),
    {
        if self.covered(j + 1, x) {
            let i = choose|i: int|
                0 <= i < j + 1 && i < self.keys.len() && self.reachable(#[trigger] self.keys[i], x);
            if i < j {
                assert(self.covered(j, x));
            }
        }
        if self.covered(j, x) {
            let i = choose|i: int|
                0 <= i < j && i < self.keys.len() && self.reachable(#[trigger] self.keys[i], x);
            assert(0 <= i < j + 1 && self.reachable(self.keys[i], x));
        }
        if self.reachable(self.keys[j], x) {
            assert(0 <= j < j + 1 && self.reachable(self.keys[j], x));
        }
    }

    /// What the first `j` keys reach is closed under edges.
    pub proof fn lemma_covered_edge(self, j: int, x: Seq<char>, y: Seq<char>)
        requires
            self.covered(j, x),
            self.edge(x, y),
        ensures
            self.covered(j, y),
    {
        let i = choose|i: int|
            0 <= i < j && i < self.keys.len() && self.reachable(#[trigger] self.keys[i], x);
        self.lemma_reach_step(self.keys[i], x, y);
    }

    /// What a covered label reaches is covered.
    pub proof fn lemma_covered_reach(self, j: int, x: Seq<char>, y: Seq<char>)
        requires
            self.covered(j, x),
            self.reachable(x, y),
        ensures
            self.covered(j, y),
    {
        let i = choose|i: int|
            0 <= i < j && i < self.keys.len() && self.reachable(#[trigger] self.keys[i], x);
        self.lemma_reach_trans(self.keys[i], x, y);
    }

    /// Appending an edge adds that edge and leaves the others as they were.
    pub proof fn lemma_with_edge(self, key: Seq<char>, to: Seq<char>, a: Seq<char>, b: Seq<char>)
        requires
            self.wf(),
        ensures
            self.with_edge(key, to).wf(),
            self.with_edge(key, to).edge(a, b) <==> (self.edge(a, b) || (a == key && b == to)),
    {
        let h = self.with_edge(key, to);
        let at: int = if self.keys.contains(key) {
            self.keys.index_of(key)
        } else {
            self.keys.len() as int
        };
        let last = h.lists[at].len() - 1;
        assert(h.keys[at] == key && h.lists[at][last] == to);
        assert(h.edge(key, to));
        if self.edge(a, b) {
            let (i, j) = choose|i: int, j: int|
                0 <= i < self.keys.len() && 0 <= j < self.lists[i].len() && self.keys[i] == a
                    && #[trigger] self.lists[i][j] == b;
            assert(h.keys[i] == a && h.lists[i][j] == b);
        }
        if h.edge(a, b) {
            let (i, j) = choose|i: int, j: int|
                0 <= i < h.keys.len() && 0 <= j < h.lists[i].len() && h.keys[i] == a
                    && #[trigger] h.lists[i][j] == b;
            if i != at || j != last {
                assert(self.keys[i] == a && self.lists[i][j] == b);
            }
        }
    }
}

} // verus!
