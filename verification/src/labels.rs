use vstd::prelude::*;

verus! {

/// The labels that a sequence of strings holds, in the same order.
pub open spec fn labels(v: Seq<String>) -> Seq<Seq<char>> {
    Seq::new(v.len(), |i: int| v[i]@)
}

/// Appending a string appends its label.
pub proof fn lemma_labels_push(v: Seq<String>, s: String)
    ensures
        labels(v.push(s)) == labels(v).push(s@),
{
    assert(labels(v.push(s)) =~= labels(v).push(s@));
}

/// Dropping the last string drops the last label.
pub proof fn lemma_labels_drop_last(v: Seq<String>)
    requires
        v.len() > 0,
    ensures
        labels(v.drop_last()) == labels(v).drop_last(),
{
    assert(labels(v.drop_last()) =~= labels(v).drop_last());
}

/// The position of the first entry of `items` that equals `label`, if there is one.
pub fn position(items: &Vec<String>, label: &String) -> (found: Option<usize>)
    ensures
        match found {
            Some(i) => i < items.len() && labels(items@)[i as int] == label@
                && !labels(items@).take(i as int).contains(label@),
            None => !labels(items@).contains(label@),
        },
{
    let mut i: usize = 0;
    while i < items.len()
        invariant
            i <= items.len(),
            forall|j: int| 0 <= j < i ==> labels(items@)[j] != label@,
        decreases items.len() - i,
    {
        if items[i] == *label {
            return Some(i);
        }
        i += 1;
    }
    None
}

} // verus!
