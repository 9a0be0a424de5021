use crate::labels::{labels, lemma_labels_push, position};
use vstd::prelude::*;

verus! {

/// A set of labels: one group of nodes.
///
/// The labels are kept in the order in which they joined the community.
#[derive(Debug)]
pub struct Community {
    members: Vec<String>,
}

impl View for Community {
    type V = Set<Seq<char>>;

    closed spec fn view(&self) -> Set<Seq<char>> {
        labels(self.members@).to_set()
    }
}

impl Community {
    /// No label is held twice.
    pub closed spec fn wf(&self) -> bool {
        labels(self.members@).no_duplicates()
    }

    /// The labels in the order in which they joined.
    pub closed spec fn order(&self) -> Seq<Seq<char>> {
        labels(self.members@)
    }

    /// The order lists the members of the set, each once.
    pub proof fn lemma_order(&self)
        requires
            self.wf(),
        ensures
            self.order().no_duplicates(),
            self.order().to_set() == self@,
            self@.finite(),
            self@.len() == self.order().len(),
    {
        self.order().unique_seq_to_set();
        vstd::seq_lib::seq_to_set_is_finite(self.order());
    }

    /// A community without members.
    pub fn new() -> (c: Self)
        ensures
            c.wf(),
            c@ == Set::<Seq<char>>::empty(),
            c.order() == Seq::<Seq<char>>::empty(),
    {
        let c = Community { members: Vec::new() };
        assert(c.order() =~= Seq::empty());
        assert(c@ =~= Set::empty());
        c
    }

    /// Whether `label` is a member.
    pub fn contains(&self, label: &str) -> (found: bool)
        ensures
            found == self@.contains(label@),
    {
        let owned = label.to_owned();
        position(&self.members, &owned).is_some()
    }

    /// Adds `label`; tells whether it was new.
    pub fn insert(&mut self, label: String) -> (added: bool)
        requires
            old(self).wf(),
        ensures
            final(self).wf(),
            final(self)@ == old(self)@.insert(label@),
            added == !old(self)@.contains(label@),
            final(self).order() == if added {
                old(self).order().push(label@)
            } else {
                old(self).order()
            },
    {
        match position(&self.members, &label) {
            Some(_) => {
                assert(self@ =~= self@.insert(label@));
                false
            },
            None => {
                let ghost before = labels(self.members@);
                proof {
                    lemma_labels_push(self.members@, label);
                }
                self.members.push(label);
                assert(labels(self.members@) == before.push(label@));
                assert forall|x: Seq<char>| before.push(label@).contains(x) <==> (before.contains(x)
                    || x == label@) by {
                    if before.contains(x) {
                        let k = choose|k: int| 0 <= k < before.len() && before[k] == x;
                        assert(before.push(label@)[k] == x);
                    }
                    if x == label@ {
                        assert(before.push(label@)[before.len() as int] == x);
                    }
                }
                assert(self@ =~= before.to_set().insert(label@));
                true
            },
        }
    }

    /// The number of members.
    pub fn len(&self) -> (n: usize)
        requires
            self.wf(),
        ensures
            n == self@.len(),
            n == self.order().len(),
    {
        proof {
            self.lemma_order();
        }
        self.members.len()
    }

    /// The members, each once, in the order in which they joined.
    pub fn members(&self) -> (list: &Vec<String>)
        ensures
            labels(list@) == self.order(),
    {
        &self.members
    }
}

/// The sets that a list of communities stands for, in the same order.
pub open spec fn community_sets(list: Seq<Community>) -> Seq<Set<Seq<char>>> {
    Seq::new(list.len(), |i: int| list[i]@)
}

} // verus!
