use crate::adjacency::AdjacencyMap;
use crate::graph::Graph;
use crate::labels::{labels, lemma_labels_push, position};
use vstd::prelude::*;

verus! {

/// The mathematical model of a weighted adjacency map: its keys in insertion
/// order, and for each key its outgoing edges, each a label with a weight.
pub struct WeightedGraph<W> {
    pub keys: Seq<Seq<char>>,
    pub lists: Seq<Seq<(Seq<char>, W)>>,
}

impl<W> WeightedGraph<W> {
    /// Every key has one edge list, and no key occurs twice.
    pub open spec fn wf(self) -> bool {
        self.keys.len() == self.lists.len() && self.keys.no_duplicates()
    }

    /// The map without any key.
    pub open spec fn empty() -> WeightedGraph<W> {
        WeightedGraph { keys: Seq::empty(), lists: Seq::empty() }
    }

    /// The map after `key` is bound to `list`: a key that is present keeps its
    /// place, a new key goes to the end.
    pub open spec fn with_entry(self, key: Seq<char>, list: Seq<(Seq<char>, W)>) -> WeightedGraph<
        W,
    > {
        if self.keys.contains(key) {
            WeightedGraph {
                keys: self.keys,
                lists: self.lists.update(self.keys.index_of(key), list),
            }
        } else {
            WeightedGraph { keys: self.keys.push(key), lists: self.lists.push(list) }
        }
    }

    /// The map after one edge from `key` to `to` is appended. Edges between
    /// the same two labels are kept apart, each with its own weight.
    pub open spec fn with_edge(self, key: Seq<char>, to: Seq<char>, weight: W) -> WeightedGraph<W> {
        if self.keys.contains(key) {
            let i = self.keys.index_of(key);
            WeightedGraph {
                keys: self.keys,
                lists: self.lists.update(i, self.lists[i].push((to, weight))),
            }
        } else {
            WeightedGraph { keys: self.keys.push(key), lists: self.lists.push(seq![(to, weight)]) }
        }
    }

    /// The same keys and edges, without the weights.
    pub open spec fn unweighted(self) -> Graph {
        Graph {
            keys: self.keys,
            lists: Seq::new(self.lists.len(), |i: int| targets(self.lists[i])),
        }
    }

    /// Dropping the weights after an edge is appended gives what appending the
    /// bare edge gives.
    pub proof fn lemma_unweighted_with_edge(self, key: Seq<char>, to: Seq<char>, weight: W)
        requires
            self.wf(),
        ensures
            self.with_edge(key, to, weight).wf(),
            self.with_edge(key, to, weight).unweighted() == self.unweighted().with_edge(key, to),
    {
        let a = self.with_edge(key, to, weight).unweighted();
        let b = self.unweighted().with_edge(key, to);
        if self.keys.contains(key) {
            let i = self.keys.index_of(key);
            assert(targets(self.lists[i].push((to, weight))) =~= targets(self.lists[i]).push(to));
            assert(a.lists =~= b.lists);
        } else {
            assert(targets(seq![(to, weight)]) =~= seq![to]);
            assert(a.lists =~= b.lists);
        }
    }
}

/// The labels that a list of weighted edges leads to, in the same order.
pub open spec fn targets<W>(list: Seq<(Seq<char>, W)>) -> Seq<Seq<char>> {
    Seq::new(list.len(), |k: int| list[k].0)
}

/// The weighted edges that a list of pairs holds, in the same order.
pub open spec fn weighted_labels<W>(v: Seq<(String, W)>) -> Seq<(Seq<char>, W)> {
    Seq::new(v.len(), |k: int| (v[k].0@, v[k].1))
}

/// A weighted adjacency map from a label to its outgoing edges.
///
/// Keys stand in the order in which they were first inserted. An edge list
/// keeps insertion order; two edges to the same label are two entries. A key
/// is found by a scan over the keys.
#[derive(Debug)]
pub struct WeightedAdjacencyMap<W> {
    keys: Vec<String>,
    neighbors: Vec<Vec<(String, W)>>,
}

impl<W> View for WeightedAdjacencyMap<W> {
    type V = WeightedGraph<W>;

    closed spec fn view(&self) -> WeightedGraph<W> {
        WeightedGraph {
            keys: labels(self.keys@),
            lists: Seq::new(self.neighbors@.len(), |i: int| weighted_labels(self.neighbors@[i]@)),
        }
    }
}

impl<W> WeightedAdjacencyMap<W> {
    /// Every key has one edge list, and no key occurs twice.
    pub open spec fn wf(&self) -> bool {
        self@.wf()
    }

    /// A map without keys.
    pub fn new() -> (m: Self)
        ensures
            m.wf(),
            m@ == WeightedGraph::<W>::empty(),
    {
        let m = WeightedAdjacencyMap { keys: Vec::new(), neighbors: Vec::new() };
        assert(m@.keys =~= Seq::empty());
        assert(m@.lists =~= Seq::empty());
        m
    }

    /// The number of keys.
    pub fn len(&self) -> (n: usize)
        requires
            self.wf(),
        ensures
            n == self@.keys.len(),
    {
        self.keys.len()
    }

    /// The key at position `i` of the insertion order.
    pub fn key(&self, i: usize) -> (k: &String)
        requires
            self.wf(),
            i < self@.keys.len(),
        ensures
            k@ == self@.keys[i as int],
    {
        &self.keys[i]
    }

    /// The edge list of the key at position `i`.
    pub fn neighbors(&self, i: usize) -> (list: &Vec<(String, W)>)
        requires
            self.wf(),
            i < self@.keys.len(),
        ensures
            weighted_labels(list@) == self@.lists[i as int],
    {
        &self.neighbors[i]
    }

    /// The edge list that `label` is bound to.
    pub fn get(&self, label: &String) -> (found: Option<&Vec<(String, W)>>)
        requires
            self.wf(),
        ensures
            match found {
                Some(list) => self@.keys.contains(label@) && weighted_labels(list@)
                    == self@.lists[self@.keys.index_of(label@)],
                None => !self@.keys.contains(label@),
            },
    {
        match position(&self.keys, label) {
            Some(i) => Some(&self.neighbors[i]),
            None => None,
        }
    }

    /// Binds `key` to `list`, in place of the list it was bound to, if any.
    pub fn insert(&mut self, key: String, list: Vec<(String, W)>)
        requires
            old(self).wf(),
        ensures
            final(self).wf(),
            final(self)@ == old(self)@.with_entry(key@, weighted_labels(list@)),
    {
        let ghost before = self@;
        match position(&self.keys, &key) {
            Some(i) => {
                self.neighbors.set(i, list);
                assert(self@.lists =~= before.lists.update(i as int, weighted_labels(list@)));
            },
            None => {
                proof {
                    lemma_labels_push(self.keys@, key);
                }
                self.keys.push(key);
                self.neighbors.push(list);
                assert(self@.lists =~= before.lists.push(weighted_labels(list@)));
            },
        }
    }

    /// Appends one edge from `key` to `to` with its weight. A key that is new
    /// goes to the end.
    pub fn add_edge(&mut self, key: String, to: String, weight: W)
        requires
            old(self).wf(),
        ensures
            final(self).wf(),
            final(self)@ == old(self)@.with_edge(key@, to@, weight),
    {
        let ghost before = self@;
        match position(&self.keys, &key) {
            Some(i) => {
                let ghost row = self.neighbors@[i as int]@;
                self.neighbors[i].push((to, weight));
                assert(weighted_labels(row.push((to, weight))) =~= weighted_labels(row).push(
                    (to@, weight),
                ));
                assert(self@.lists =~= before.lists.update(
                    i as int,
                    before.lists[i as int].push((to@, weight)),
                ));
            },
            None => {
                proof {
                    lemma_labels_push(self.keys@, key);
                }
                self.keys.push(key);
                let mut list: Vec<(String, W)> = Vec::new();
                list.push((to, weight));
                assert(weighted_labels(list@) =~= seq![(to@, weight)]);
                self.neighbors.push(list);
                assert(self@.lists =~= before.lists.push(seq![(to@, weight)]));
            },
        }
    }

    /// The map with the same keys and edges, without the weights.
    pub fn without_weights(&self) -> (bare: AdjacencyMap)
        requires
            self.wf(),
        ensures
            bare.wf(),
            bare@ == self@.unweighted(),
    {
        let ghost g = self@.unweighted();
        let mut bare = AdjacencyMap::new();
        let mut i: usize = 0;
        while i < self.keys.len()
            invariant
                self.wf(),
                g == self@.unweighted(),
                i <= self.keys.len(),
                bare.wf(),
                bare@.keys == g.keys.take(i as int),
                bare@.lists == g.lists.take(i as int),
            decreases self.keys.len() - i,
        {
            let row = &self.neighbors[i];
            let mut list: Vec<String> = Vec::new();
            let mut k: usize = 0;
            while k < row.len()
                invariant
                    k <= row.len(),
                    labels(list@) == targets(weighted_labels(row@)).take(k as int),
                decreases row.len() - k,
            {
                proof {
                    lemma_labels_push(list@, row[k as int].0);
                }
                list.push(row[k].0.clone());
                assert(labels(list@) =~= targets(weighted_labels(row@)).take(k + 1));
                k += 1;
            }
            proof {
                assert(labels(list@) =~= g.lists[i as int]);
                assert(!g.keys.take(i as int).contains(g.keys[i as int])) by {
                    if g.keys.take(i as int).contains(g.keys[i as int]) {
                        let p = choose|p: int|
                            0 <= p < g.keys.take(i as int).len() && g.keys.take(i as int)[p]
                                == g.keys[i as int];
                        assert(g.keys[p] == g.keys[i as int]);
                    }
                }
            }
            bare.insert(self.keys[i].clone(), list);
            assert(bare@.keys =~= g.keys.take(i + 1));
            assert(bare@.lists =~= g.lists.take(i + 1));
            i += 1;
        }
        assert(bare@.keys =~= g.keys);
        assert(bare@.lists =~= g.lists);
        bare
    }
}

} // verus!
