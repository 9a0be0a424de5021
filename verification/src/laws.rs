use crate::community::{community_sets, Community};
use crate::graph::Graph;
use vstd::prelude::*;

verus! {

/// One of the sets of `list` holds `x`.
pub open spec fn in_some(list: Seq<Set<Seq<char>>>, x: Seq<char>) -> bool {
    exists|c: int| 0 <= c < list.len() && #[trigger] list[c].contains(x)
}

/// No label is held by two sets of `list`.
pub open spec fn pairwise_disjoint(list: Seq<Set<Seq<char>>>) -> bool {
    forall|c: int, d: int, x: Seq<char>|
        0 <= c < list.len() && 0 <= d < list.len() && c != d && #[trigger] list[c].contains(x)
            ==> !(#[trigger] list[d].contains(x))
}

/// The set is the community that one of the first `j` keys of the map opens.
pub open spec fn opened_within(g: Graph, s: Set<Seq<char>>, j: int) -> bool {
    exists|i: int| 0 <= i < j && i < g.keys.len() && g.is_start(i) && s == #[trigger] g.community_at(i)
}

/// Every edge of the map has its reverse in the map.
pub open spec fn symmetric(g: Graph) -> bool {
    forall|a: Seq<char>, b: Seq<char>| #[trigger] g.edge(a, b) ==> g.edge(b, a)
}

/// One community of the map holds both `x` and `y`.
pub open spec fn same_community(g: Graph, x: Seq<char>, y: Seq<char>) -> bool {
    exists|c: int|
        0 <= c < g.communities().len() && #[trigger] g.communities()[c].contains(x)
            && g.communities()[c].contains(y)
}

/// The communities that the first `j` keys open hold what those keys reach,
/// each label once, and each of them was opened by one of those keys.
proof fn lemma_upto(g: Graph, j: int)
    requires
        0 <= j <= g.keys.len(),
    ensures
        forall|x: Seq<char>| in_some(g.communities_upto(j), x) <==> g.covered(j, x),
        pairwise_disjoint(g.communities_upto(j)),
        forall|c: int|
            0 <= c < g.communities_upto(j).len() ==> opened_within(
                g,
                #[trigger] g.communities_upto(j)[c],
                j,
            ),
    decreases j,
{
    let now = g.communities_upto(j);
    if j > 0 {
        let before = g.communities_upto(j - 1);
        lemma_upto(g, j - 1);
        let key = g.keys[j - 1];
        if g.is_start(j - 1) {
            let opened = g.community_at(j - 1);
            assert(now == before.push(opened));
            g.lemma_reach_self(key);
            assert(opened.contains(key));
            assert forall|x: Seq<char>| in_some(now, x) <==> g.covered(j, x) by {
                g.lemma_covered_step(j - 1, x);
                if in_some(now, x) {
                    let c = choose|c: int| 0 <= c < now.len() && #[trigger] now[c].contains(x);
                    if c < before.len() {
                        assert(before[c].contains(x));
                        assert(in_some(before, x));
                    }
                }
                if g.covered(j, x) {
                    if g.covered(j - 1, x) {
                        let c = choose|c: int|
                            0 <= c < before.len() && #[trigger] before[c].contains(x);
                        assert(now[c].contains(x));
                    } else {
                        assert(now[before.len() as int].contains(x));
                    }
                }
            }
            assert forall|c: int, d: int, x: Seq<char>|
                0 <= c < now.len() && 0 <= d < now.len() && c != d && #[trigger] now[c].contains(
                    x,
                ) implies !(#[trigger] now[d].contains(x)) by {
                if c < before.len() && d < before.len() {
                    assert(before[c].contains(x));
                    assert(now[d] == before[d]);
                } else if c < before.len() {
                    assert(before[c].contains(x));
                    assert(in_some(before, x));
                } else {
                    if now[d].contains(x) {
                        assert(before[d].contains(x));
                        assert(in_some(before, x));
                    }
                }
            }
            assert forall|c: int| 0 <= c < now.len() implies opened_within(
                g,
                #[trigger] now[c],
                j,
            ) by {
                if c < before.len() {
                    assert(opened_within(g, before[c], j - 1));
                    let i = choose|i: int|
                        0 <= i < j - 1 && i < g.keys.len() && g.is_start(i) && before[c]
                            == #[trigger] g.community_at(i);
                    assert(now[c] == g.community_at(i));
                } else {
                    assert(now[c] == g.community_at(j - 1));
                }
            }
        } else {
            assert(now == before);
            assert forall|x: Seq<char>| in_some(now, x) <==> g.covered(j, x) by {
                g.lemma_covered_step(j - 1, x);
                if g.reachable(key, x) {
                    g.lemma_covered_reach(j - 1, key, x);
                }
            }
            assert forall|c: int| 0 <= c < now.len() implies opened_within(
                g,
                #[trigger] now[c],
                j,
            ) by {
                assert(opened_within(g, before[c], j - 1));
                let i = choose|i: int|
                    0 <= i < j - 1 && i < g.keys.len() && g.is_start(i) && before[c]
                        == #[trigger] g.community_at(i);
                assert(now[c] == g.community_at(i));
            }
        }
    }
}

/// The keys reach the nodes of the map and nothing else.
proof fn lemma_covered_nodes(g: Graph, x: Seq<char>)
    ensures
        g.covered(g.keys.len() as int, x) <==> g.is_node(x),
{
    let n = g.keys.len() as int;
    if g.covered(n, x) {
        let i = choose|i: int| 0 <= i < n && i < g.keys.len() && g.reachable(#[trigger] g.keys[i], x);
        let p = choose|p: Seq<Seq<char>>|
            #[trigger] g.is_path(p) && p[0] == g.keys[i] && p.last() == x;
        if p.len() == 1 {
            assert(g.keys.contains(x));
        } else {
            assert(g.edge(p[p.len() - 2], p[p.len() - 2 + 1]));
        }
    }
    if g.keys.contains(x) {
        let i = choose|i: int| 0 <= i < g.keys.len() && g.keys[i] == x;
        g.lemma_reach_self(x);
        assert(g.reachable(g.keys[i], x));
    }
    if exists|a: Seq<char>| g.edge(a, x) {
        let a = choose|a: Seq<char>| g.edge(a, x);
        let (i, k) = choose|i: int, k: int|
            0 <= i < g.keys.len() && 0 <= k < g.lists[i].len() && g.keys[i] == a
                && #[trigger] g.lists[i][k] == x;
        g.lemma_reach_self(a);
        g.lemma_reach_step(a, a, x);
        assert(g.reachable(g.keys[i], x));
    }
}

/// The communities of a map split its nodes: every key and every label that
/// an edge leads to is in one community, no label is in two, nothing else is
/// in any, and no community is empty.
pub proof fn lemma_communities_partition(g: Graph)
    requires
        g.wf(),
    ensures
        forall|x: Seq<char>| g.is_node(x) <==> in_some(g.communities(), x),
        pairwise_disjoint(g.communities()),
        forall|c: int|
            0 <= c < g.communities().len() ==> !(#[trigger] g.communities()[c]).is_empty(),
{
    let n = g.keys.len() as int;
    lemma_upto(g, n);
    assert forall|x: Seq<char>| g.is_node(x) <==> in_some(g.communities(), x) by {
        lemma_covered_nodes(g, x);
    }
    assert forall|c: int| 0 <= c < g.communities().len() implies !(
    #[trigger] g.communities()[c]).is_empty() by {
        assert(opened_within(g, g.communities()[c], n));
        let i = choose|i: int|
            0 <= i < n && i < g.keys.len() && g.is_start(i) && g.communities()[c]
                == #[trigger] g.community_at(i);
        g.lemma_reach_self(g.keys[i]);
        assert(g.communities()[c].contains(g.keys[i]));
    }
}

/// Two extractions from the same map give the same communities, with the
/// same members, in the same order.
pub proof fn lemma_extraction_repeatable(g: Graph, first: Seq<Community>, second: Seq<Community>)
    requires
        g.wf(),
        community_sets(first) == g.communities(),
        community_sets(second) == g.communities(),
    ensures
        first.len() == second.len(),
        forall|c: int| 0 <= c < first.len() ==> first[c]@ == second[c]@,
{
    assert(community_sets(first).len() == first.len());
    assert(community_sets(second).len() == second.len());
    assert forall|c: int| 0 <= c < first.len() implies first[c]@ == second[c]@ by {
        assert(community_sets(first)[c] == first[c]@);
        assert(community_sets(second)[c] == second[c]@);
    }
}

/// Being in one community is transitive: where `x` is with `y` and `y` is
/// with `z`, `x` is with `z`.
pub proof fn lemma_same_community_transitive(g: Graph, x: Seq<char>, y: Seq<char>, z: Seq<char>)
    requires
        g.wf(),
        same_community(g, x, y),
        same_community(g, y, z),
    ensures
        same_community(g, x, z),
{
    lemma_communities_partition(g);
    let list = g.communities();
    let c = choose|c: int| 0 <= c < list.len() && #[trigger] list[c].contains(x) && list[c].contains(y);
    let d = choose|d: int| 0 <= d < list.len() && #[trigger] list[d].contains(y) && list[d].contains(z);
    if c != d {
        assert(list[c].contains(y));
        assert(!list[d].contains(y));
    }
    assert(list[c].contains(x) && list[c].contains(z));
}

/// Being in one community is symmetric, and every node is with itself.
pub proof fn lemma_same_community_equivalence(g: Graph, x: Seq<char>, y: Seq<char>)
    requires
        g.wf(),
    ensures
        same_community(g, x, y) == same_community(g, y, x),
        same_community(g, x, x) == g.is_node(x),
{
    lemma_communities_partition(g);
    let list = g.communities();
    if same_community(g, x, y) {
        let c = choose|c: int| 0 <= c < list.len() && #[trigger] list[c].contains(x) && list[c].contains(y);
        assert(list[c].contains(y) && list[c].contains(x));
    }
    if same_community(g, y, x) {
        let c = choose|c: int| 0 <= c < list.len() && #[trigger] list[c].contains(y) && list[c].contains(x);
        assert(list[c].contains(x) && list[c].contains(y));
    }
    if g.is_node(x) {
        let c = choose|c: int| 0 <= c < list.len() && #[trigger] list[c].contains(x);
        assert(list[c].contains(x) && list[c].contains(x));
    }
    if same_community(g, x, x) {
        let c = choose|c: int| 0 <= c < list.len() && #[trigger] list[c].contains(x) && list[c].contains(x);
        assert(in_some(list, x));
    }
}

/// In a symmetric map whatever is reached reaches back.
pub proof fn lemma_symmetric_reach(g: Graph, a: Seq<char>, b: Seq<char>)
    requires
        symmetric(g),
        g.reachable(a, b),
    ensures
        g.reachable(b, a),
{
    let s = Set::new(|z: Seq<char>| g.reachable(z, a));
    assert forall|z: Seq<char>, w: Seq<char>| s.contains(z) && #[trigger] g.edge(z, w) implies s.contains(
        w,
    ) by {
        assert(g.edge(w, z));
        g.lemma_reach_self(w);
        g.lemma_reach_step(w, w, z);
        g.lemma_reach_trans(w, z, a);
    }
    g.lemma_reach_self(a);
    g.lemma_closed_reach(s, a, b);
}

/// In a symmetric map the communities are the connected components: two
/// labels are in one community where the first is a node and reaches the
/// second, and nowhere else.
pub proof fn lemma_symmetric_components(g: Graph, x: Seq<char>, y: Seq<char>)
    requires
        g.wf(),
        symmetric(g),
    ensures
        same_community(g, x, y) <==> (g.is_node(x) && g.reachable(x, y)),
{
    let n = g.keys.len() as int;
    let list = g.communities();
    lemma_upto(g, n);
    lemma_covered_nodes(g, x);
    if same_community(g, x, y) {
        let c = choose|c: int|
            0 <= c < list.len() && #[trigger] list[c].contains(x) && list[c].contains(y);
        assert(opened_within(g, list[c], n));
        let i = choose|i: int|
            0 <= i < n && i < g.keys.len() && g.is_start(i) && list[c] == #[trigger] g.community_at(i);
        lemma_symmetric_reach(g, g.keys[i], x);
        g.lemma_reach_trans(x, g.keys[i], y);
        assert(in_some(list, x));
    }
    if g.is_node(x) && g.reachable(x, y) {
        assert(in_some(list, x));
        let c = choose|c: int| 0 <= c < list.len() && #[trigger] list[c].contains(x);
        assert(opened_within(g, list[c], n));
        let i = choose|i: int|
            0 <= i < n && i < g.keys.len() && g.is_start(i) && list[c] == #[trigger] g.community_at(i);
        g.lemma_reach_trans(g.keys[i], x, y);
        if g.covered(i, y) {
            lemma_symmetric_reach(g, x, y);
            g.lemma_covered_reach(i, y, x);
        }
        assert(list[c].contains(x) && list[c].contains(y));
    }
}

} // verus!
