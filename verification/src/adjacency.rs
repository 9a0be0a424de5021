use crate::graph::Graph;
use crate::labels::{labels, lemma_labels_push, position};
use vstd::prelude::*;

verus! {

/// An adjacency map from a label to the labels of its outgoing edges.
///
/// Keys stand in the order in which they were first inserted, and a walk over
/// the keys follows that order. A neighbor list keeps insertion order and may
/// hold a label more than once. A key is found by a scan over the keys.
#[derive(Debug)]
pub struct AdjacencyMap {
    keys: Vec<String>,
    neighbors: Vec<Vec<String>>,
}

impl View for AdjacencyMap {
    type V = Graph;

    closed spec fn view(&self) -> Graph {
        Graph {
            keys: labels(self.keys@),
            lists: Seq::new(self.neighbors@.len(), |i: int| labels(self.neighbors@[i]@)),
        }
    }
}

impl AdjacencyMap {
    /// Every key has one neighbor list, and no key occurs twice.
    pub open spec fn wf(&self) -> bool {
        self@.wf()
    }

    /// A map without keys.
    pub fn new() -> (m: Self)
        ensures
            m.wf(),
            m@ == Graph::empty(),
    {
        let m = AdjacencyMap { keys: Vec::new(), neighbors: Vec::new() };
        assert(m@.keys =~= Seq::empty());
        assert(m@.lists =~= Seq::empty());
        m
    }

    /// The number of keys.
    pub fn len(&self) -> (n: usize)
        requires
            self.wf(),
        ensures
            n == self@.keys.len(),
    {
        self.keys.len()
    }

    /// The key at position `i` of the insertion order.
    pub fn key(&self, i: usize) -> (k: &String)
        requires
            self.wf(),
            i < self@.keys.len(),
        ensures
            k@ == self@.keys[i as int],
    {
        &self.keys[i]
    }

    /// The neighbor list of the key at position `i`.
    pub fn neighbors(&self, i: usize) -> (list: &Vec<String>)
        requires
            self.wf(),
            i < self@.keys.len(),
        ensures
            labels(list@) == self@.lists[i as int],
    {
        &self.neighbors[i]
    }

    /// The position of `label` among the keys.
    pub fn find(&self, label: &String) -> (found: Option<usize>)
        requires
            self.wf(),
        ensures
            match found {
                Some(i) => i < self@.keys.len() && self@.keys[i as int] == label@,
                None => !self@.keys.contains(label@),
            },
    {
        position(&self.keys, label)
    }

    /// The neighbor list that `label` is bound to.
    pub fn get(&self, label: &String) -> (found: Option<&Vec<String>>)
        requires
            self.wf(),
        ensures
            match found {
                Some(list) => self@.keys.contains(label@) && labels(list@)
                    == self@.lists[self@.keys.index_of(label@)],
                None => !self@.keys.contains(label@),
            },
    {
        match position(&self.keys, label) {
            Some(i) => Some(&self.neighbors[i]),
            None => None,
        }
    }

    /// Binds `key` to `list`, in place of the list it was bound to, if any.
    pub fn insert(&mut self, key: String, list: Vec<String>)
        requires
            old(self).wf(),
        ensures
            final(self).wf(),
            final(self)@ == old(self)@.with_entry(key@, labels(list@)),
    {
        let ghost before = self@;
        match position(&self.keys, &key) {
            Some(i) => {
                self.neighbors.set(i, list);
                assert(self@.lists =~= before.lists.update(i as int, labels(list@)));
            },
            None => {
                proof {
                    lemma_labels_push(self.keys@, key);
                }
                self.keys.push(key);
                self.neighbors.push(list);
                assert(self@.lists =~= before.lists.push(labels(list@)));
            },
        }
    }

    /// Appends one edge from `key` to `to`. A key that is new goes to the end.
    pub fn add_edge(&mut self, key: String, to: String)
        requires
            old(self).wf(),
        ensures
            final(self).wf(),
            final(self)@ == old(self)@.with_edge(key@, to@),
    {
        let ghost before = self@;
        match position(&self.keys, &key) {
            Some(i) => {
                proof {
                    lemma_labels_push(self.neighbors@[i as int]@, to);
                }
                self.neighbors[i].push(to);
                assert(self@.lists =~= before.lists.update(
                    i as int,
                    before.lists[i as int].push(to@),
                ));
            },
            None => {
                proof {
                    lemma_labels_push(self.keys@, key);
                }
                self.keys.push(key);
                let mut list: Vec<String> = Vec::new();
                list.push(to);
                assert(labels(list@) =~= seq![to@]);
                self.neighbors.push(list);
                assert(self@.lists =~= before.lists.push(seq![to@]));
            },
        }
    }
}

} // verus!
