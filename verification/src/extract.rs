use crate::adjacency::AdjacencyMap;
use crate::community::{community_sets, Community};
use crate::graph::Graph;
use crate::labels::{labels, lemma_labels_drop_last, lemma_labels_push, position};
use crate::laws::{in_some, lemma_communities_partition, pairwise_disjoint};
use crate::weighted::WeightedAdjacencyMap;
use vstd::prelude::*;

verus! {

/// The edges that leave those of the first `n` keys that `seen` does not hold.
spec fn budget(g: Graph, seen: Seq<Seq<char>>, n: int) -> nat
    decreases n,
{
    if n <= 0 {
        0
    } else {
        budget(g, seen, n - 1) + if seen.contains(g.keys[n - 1]) {
            0
        } else {
            g.lists[n - 1].len()
        }
    }
}

/// A sequence with `s` appended holds what it held, and `s`.
proof fn lemma_push_contains(v: Seq<Seq<char>>, s: Seq<char>, x: Seq<char>)
    ensures
        v.push(s).contains(x) <==> (v.contains(x) || x == s),
{
    if v.contains(x) {
        let k = choose|k: int| 0 <= k < v.len() && v[k] == x;
        assert(v.push(s)[k] == x);
    }
    if x == s {
        assert(v.push(s)[v.len() as int] == x);
    }
}

/// A sequence holds what it holds without its last entry, and that entry.
proof fn lemma_drop_last_contains(v: Seq<Seq<char>>, x: Seq<char>)
    requires
        v.len() > 0,
    ensures
        v.contains(x) <==> (v.drop_last().contains(x) || x == v.last()),
{
    if v.contains(x) {
        let k = choose|k: int| 0 <= k < v.len() && v[k] == x;
        if k < v.len() - 1 {
            assert(v.drop_last()[k] == x);
        }
    }
    if v.drop_last().contains(x) {
        let k = choose|k: int| 0 <= k < v.drop_last().len() && v.drop_last()[k] == x;
        assert(v[k] == x);
    }
}

/// Seeing the key at `pos` for the first time frees the budget of its edges.
proof fn lemma_budget_key(g: Graph, seen: Seq<Seq<char>>, pos: int, n: int)
    requires
        g.wf(),
        0 <= pos < g.keys.len(),
        !seen.contains(g.keys[pos]),
        0 <= n <= g.keys.len(),
    ensures
        budget(g, seen.push(g.keys[pos]), n) + (if pos < n {
            g.lists[pos].len()
        } else {
            0
        }) == budget(g, seen, n),
    decreases n,
{
    if n > 0 {
        lemma_budget_key(g, seen, pos, n - 1);
        lemma_push_contains(seen, g.keys[pos], g.keys[n - 1]);
    }
}

/// Seeing a label that is no key leaves the budget as it was.
proof fn lemma_budget_other(g: Graph, seen: Seq<Seq<char>>, s: Seq<char>, n: int)
    requires
        !g.keys.contains(s),
        0 <= n <= g.keys.len(),
    ensures
        budget(g, seen.push(s), n) == budget(g, seen, n),
    decreases n,
{
    if n > 0 {
        lemma_budget_other(g, seen, s, n - 1);
        lemma_push_contains(seen, s, g.keys[n - 1]);
    }
}

/// Walks from key `j`, which no earlier key reaches, along the edges of the
/// map, and gathers every label that was not visited before.
fn explore(adjacency_list: &AdjacencyMap, j: usize, visited: &mut Vec<String>) -> (community:
    Community)
    requires
        adjacency_list.wf(),
        j < adjacency_list@.keys.len(),
        forall|x: Seq<char>|
            labels(old(visited)@).contains(x) <==> adjacency_list@.covered(j as int, x),
        adjacency_list@.is_start(j as int),
    ensures
        community.wf(),
        community@ == adjacency_list@.community_at(j as int),
        forall|x: Seq<char>|
            labels(final(visited)@).contains(x) <==> adjacency_list@.covered(j + 1, x),
{
    let ghost g = adjacency_list@;
    let ghost start = g.keys[j as int];
    let mut community = Community::new();
    let mut stack: Vec<String> = Vec::new();
    stack.push(adjacency_list.key(j).clone());
    proof {
        g.lemma_reach_self(start);
        assert(labels(stack@)[0] == start);
    }
    while stack.len() > 0
        invariant
            g == adjacency_list@,
            g.wf(),
            j < g.keys.len(),
            start == g.keys[j as int],
            community.wf(),
            forall|x: Seq<char>|
                labels(visited@).contains(x) <==> (g.covered(j as int, x) || community@.contains(
                    x,
                )),
            forall|x: Seq<char>|
                community@.contains(x) ==> g.reachable(start, x) && !g.covered(j as int, x),
            forall|k: int|
                0 <= k < stack.len() ==> g.reachable(start, #[trigger] labels(stack@)[k]),
            forall|x: Seq<char>, y: Seq<char>|
                community@.contains(x) && #[trigger] g.edge(x, y) ==> labels(visited@).contains(y)
                    || labels(stack@).contains(y),
            labels(visited@).contains(start) || labels(stack@).contains(start),
        decreases budget(g, labels(visited@), g.keys.len() as int) + stack.len(),
    {
        let ghost stack_before = labels(stack@);
        let ghost seen_before = labels(visited@);
        let ghost members_before = community@;
        proof {
            lemma_labels_drop_last(stack@);
        }
        let current = stack.pop().unwrap();
        let ghost cur = current@;
        proof {
            assert(cur == stack_before.last());
            assert(labels(stack@) == stack_before.drop_last());
            assert(g.reachable(start, stack_before[stack_before.len() - 1]));
            assert forall|y: Seq<char>| stack_before.contains(y) implies labels(stack@).contains(y)
                || y == cur by {
                lemma_drop_last_contains(stack_before, y);
            }
            assert forall|k: int| 0 <= k < stack.len() implies g.reachable(
                start,
                #[trigger] labels(stack@)[k],
            ) by {
                assert(labels(stack@)[k] == stack_before[k]);
            }
        }
        if position(visited, &current).is_none() {
            proof {
                lemma_labels_push(visited@, current);
            }
            community.insert(current.clone());
            visited.push(current.clone());
            let ghost seen = labels(visited@);
            proof {
                assert(seen == seen_before.push(cur));
                assert forall|x: Seq<char>| seen.contains(x) <==> (seen_before.contains(x) || x
                    == cur) by {
                    lemma_push_contains(seen_before, cur, x);
                }
            }
            match adjacency_list.find(&current) {
                Some(pos) => {
                    let list = adjacency_list.neighbors(pos);
                    let ghost base = stack.len();
                    let mut t: usize = 0;
                    while t < list.len()
                        invariant
                            g == adjacency_list@,
                            g.wf(),
                            t <= list.len(),
                            pos < g.keys.len(),
                            g.keys[pos as int] == cur,
                            labels(list@) == g.lists[pos as int],
                            labels(visited@) == seen,
                            g.reachable(start, cur),
                            stack.len() <= base + t,
                            forall|k: int|
                                0 <= k < stack.len() ==> g.reachable(
                                    start,
                                    #[trigger] labels(stack@)[k],
                                ),
                            forall|y: Seq<char>|
                                stack_before.contains(y) ==> labels(stack@).contains(y) || y == cur,
                            forall|k: int|
                                0 <= k < t ==> seen.contains(#[trigger] labels(list@)[k])
                                    || labels(stack@).contains(labels(list@)[k]),
                        decreases list.len() - t,
                    {
                        let ghost stack_now = labels(stack@);
                        let ghost next = labels(list@)[t as int];
                        if position(visited, &list[t]).is_none() {
                            proof {
                                lemma_labels_push(stack@, list[t as int]);
                                assert(g.lists[pos as int][t as int] == next);
                                assert(g.edge(cur, next));
                                g.lemma_reach_step(start, cur, next);
                            }
                            stack.push(list[t].clone());
                            proof {
                                assert(labels(stack@) == stack_now.push(next));
                                assert forall|y: Seq<char>| stack_now.contains(y) implies labels(
                                    stack@,
                                ).contains(y) by {
                                    lemma_push_contains(stack_now, next, y);
                                }
                                lemma_push_contains(stack_now, next, next);
                                assert forall|k: int| 0 <= k < stack.len() implies g.reachable(
                                    start,
                                    #[trigger] labels(stack@)[k],
                                ) by {
                                    if k < stack_now.len() {
                                        assert(labels(stack@)[k] == stack_now[k]);
                                    }
                                }
                            }
                        }
                        t += 1;
                    }
                    proof {
                        lemma_budget_key(g, seen_before, pos as int, g.keys.len() as int);
                        assert forall|y: Seq<char>| g.edge(cur, y) implies seen.contains(y)
                            || labels(stack@).contains(y) by {
                            let (i, k) = choose|i: int, k: int|
                                0 <= i < g.keys.len() && 0 <= k < g.lists[i].len() && g.keys[i]
                                    == cur && #[trigger] g.lists[i][k] == y;
                            assert(i == pos);
                            assert(labels(list@)[k] == y);
                        }
                    }
                },
                None => {
                    proof {
                        lemma_budget_other(g, seen_before, cur, g.keys.len() as int);
                        assert forall|y: Seq<char>| !g.edge(cur, y) by {
                            if g.edge(cur, y) {
                                let (i, k) = choose|i: int, k: int|
                                    0 <= i < g.keys.len() && 0 <= k < g.lists[i].len()
                                        && g.keys[i] == cur && #[trigger] g.lists[i][k] == y;
                                assert(g.keys.contains(cur));
                            }
                        }
                    }
                },
            }
            proof {
                assert forall|x: Seq<char>, y: Seq<char>|
                    community@.contains(x) && #[trigger] g.edge(x, y) implies labels(
                    visited@,
                ).contains(y) || labels(stack@).contains(y) by {
                    if x != cur {
                        assert(members_before.contains(x));
                        assert(seen_before.contains(y) || stack_before.contains(y));
                    }
                }
            }
        }
    }
    proof {
        let seen = labels(visited@);
        let s = Set::new(|x: Seq<char>| seen.contains(x));
        assert(!labels(stack@).contains(start));
        assert forall|x: Seq<char>, y: Seq<char>| s.contains(x) && #[trigger] g.edge(x, y) implies s.contains(
            y,
        ) by {
            if g.covered(j as int, x) {
                g.lemma_covered_edge(j as int, x, y);
            } else {
                assert(community@.contains(x));
                assert(!labels(stack@).contains(y));
            }
        }
        assert forall|x: Seq<char>| g.reachable(start, x) implies seen.contains(x) by {
            g.lemma_closed_reach(s, start, x);
        }
        assert forall|x: Seq<char>| seen.contains(x) <==> g.covered(j + 1, x) by {
            g.lemma_covered_step(j as int, x);
        }
        assert(community@ =~= g.community_at(j as int));
    }
    community
}

/// Splits the labels of the map into communities.
///
/// The keys are taken in insertion order. A key that no earlier key reaches
/// opens a community, which gathers every label that the key reaches along the
/// edges and that no earlier key reaches. The communities come in the order of
/// the keys that open them.
///
/// Whatever the name says, no label is handed from node to node in rounds:
/// this is a depth-first walk with a work stack, and a community is what the
/// walk from its first key finds. Edges are followed in their direction only.
/// In a map that holds the reverse of each of its edges the communities are
/// the connected components; in any map they split the nodes, each node being
/// in one community.
pub fn label_propagation(adjacency_list: &AdjacencyMap) -> (communities: Vec<Community>)
    requires
        adjacency_list.wf(),
    ensures
        community_sets(communities@) == adjacency_list@.communities(),
        forall|c: int| 0 <= c < communities.len() ==> (#[trigger] communities[c]).wf(),
        forall|x: Seq<char>|
            adjacency_list@.is_node(x) <==> in_some(community_sets(communities@), x),
        pairwise_disjoint(community_sets(communities@)),
{
    let ghost g = adjacency_list@;
    let mut communities: Vec<Community> = Vec::new();
    let mut visited: Vec<String> = Vec::new();
    let n: usize = adjacency_list.len();
    let mut j: usize = 0;
    assert(community_sets(communities@) =~= g.communities_upto(0));
    while j < n
        invariant
            g == adjacency_list@,
            g.wf(),
            n == g.keys.len(),
            j <= n,
            forall|x: Seq<char>| labels(visited@).contains(x) <==> g.covered(j as int, x),
            community_sets(communities@) == g.communities_upto(j as int),
            forall|c: int| 0 <= c < communities.len() ==> (#[trigger] communities[c]).wf(),
        decreases n - j,
    {
        if position(&visited, adjacency_list.key(j)).is_none() {
            let ghost before = communities@;
            let community = explore(adjacency_list, j, &mut visited);
            communities.push(community);
            assert(community_sets(communities@) =~= community_sets(before).push(community@));
        } else {
            proof {
                assert forall|x: Seq<char>| labels(visited@).contains(x) <==> g.covered(
                    j + 1,
                    x,
                ) by {
                    g.lemma_covered_step(j as int, x);
                    if g.reachable(g.keys[j as int], x) {
                        g.lemma_covered_reach(j as int, g.keys[j as int], x);
                    }
                }
            }
        }
        j += 1;
    }
    proof {
        lemma_communities_partition(g);
    }
    communities
}

/// Splits the labels of a weighted map into communities.
///
/// Only the label of an edge is followed: the result is that of the same map
/// without its weights, whatever the weights are.
pub fn label_propagation_sales<W>(adjacency_list: &WeightedAdjacencyMap<W>) -> (communities: Vec<
    Community,
>)
    requires
        adjacency_list.wf(),
    ensures
        community_sets(communities@) == adjacency_list@.unweighted().communities(),
        forall|c: int| 0 <= c < communities.len() ==> (#[trigger] communities[c]).wf(),
        forall|x: Seq<char>|
            adjacency_list@.unweighted().is_node(x) <==> in_some(community_sets(communities@), x),
        pairwise_disjoint(community_sets(communities@)),
{
    let bare = adjacency_list.without_weights();
    label_propagation(&bare)
}

} // verus!
