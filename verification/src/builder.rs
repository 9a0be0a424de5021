use crate::adjacency::AdjacencyMap;
use crate::community::{community_sets, Community};
use crate::extract::{label_propagation, label_propagation_sales};
use crate::graph::Graph;
use crate::weighted::{WeightedAdjacencyMap, WeightedGraph};
use vstd::prelude::*;

verus! {

/// One sales record: the genre and the platform of a game, and its sales
/// summed over the regions, in whatever type the caller counts them.
#[derive(Debug)]
pub struct SalesRecord<W> {
    pub genre: String,
    pub platform: String,
    pub sales: W,
}

/// The unweighted map of a run of records: each record appends its platform
/// to the list of its genre, in the order of the records.
pub open spec fn genre_graph<W>(records: Seq<SalesRecord<W>>) -> Graph
    decreases records.len(),
{
    if records.len() == 0 {
        Graph::empty()
    } else {
        genre_graph(records.drop_last()).with_edge(records.last().genre@, records.last().platform@)
    }
}

/// The weighted map of a run of records: each record appends an edge from its
/// genre to its platform, with its sales as the weight.
pub open spec fn sales_graph<W>(records: Seq<SalesRecord<W>>) -> WeightedGraph<W>
    decreases records.len(),
{
    if records.len() == 0 {
        WeightedGraph::empty()
    } else {
        sales_graph(records.drop_last()).with_edge(
            records.last().genre@,
            records.last().platform@,
            records.last().sales,
        )
    }
}

/// Both maps of any run of records are well formed, and the weighted one
/// without its weights is the unweighted one.
pub proof fn lemma_sales_graph_unweighted<W>(records: Seq<SalesRecord<W>>)
    ensures
        genre_graph(records).wf(),
        sales_graph(records).wf(),
        sales_graph(records).unweighted() == genre_graph(records),
    decreases records.len(),
{
    if records.len() == 0 {
        assert(sales_graph(records).unweighted().lists =~= Graph::empty().lists);
    } else {
        let r = records.last();
        lemma_sales_graph_unweighted(records.drop_last());
        sales_graph(records.drop_last()).lemma_unweighted_with_edge(r.genre@, r.platform@, r.sales);
    }
}

/// The edges of the map of a run of records are the pairs of genre and
/// platform that the records hold: none is dropped and none is added.
pub proof fn lemma_genre_graph_edges<W>(records: Seq<SalesRecord<W>>, a: Seq<char>, b: Seq<char>)
    ensures
        genre_graph(records).edge(a, b) <==> exists|i: int|
            0 <= i < records.len() && (#[trigger] records[i]).genre@ == a && records[i].platform@
                == b,
    decreases records.len(),
{
    if records.len() > 0 {
        let r = records.last();
        let rest = records.drop_last();
        lemma_genre_graph_edges(rest, a, b);
        lemma_sales_graph_unweighted(rest);
        genre_graph(rest).lemma_with_edge(r.genre@, r.platform@, a, b);
        if genre_graph(rest).edge(a, b) {
            let i = choose|i: int|
                0 <= i < rest.len() && (#[trigger] rest[i]).genre@ == a && rest[i].platform@ == b;
            assert(records[i].genre@ == a && records[i].platform@ == b);
        }
        if a == r.genre@ && b == r.platform@ {
            assert(records[records.len() - 1].genre@ == a);
        }
        if exists|i: int|
            0 <= i < records.len() && (#[trigger] records[i]).genre@ == a && records[i].platform@
                == b {
            let i = choose|i: int|
                0 <= i < records.len() && (#[trigger] records[i]).genre@ == a
                    && records[i].platform@ == b;
            if i < rest.len() {
                assert(rest[i].genre@ == a && rest[i].platform@ == b);
            }
        }
    } else {
        assert(!genre_graph(records).edge(a, b));
    }
}

/// Builds the unweighted map from genre to platforms.
pub fn construct_genre_graph<W>(video_games: &[SalesRecord<W>]) -> (graph: AdjacencyMap)
    ensures
        graph.wf(),
        graph@ == genre_graph(video_games@),
{
    let mut graph = AdjacencyMap::new();
    let mut i: usize = 0;
    assert(video_games@.take(0) =~= Seq::empty());
    while i < video_games.len()
        invariant
            i <= video_games.len(),
            graph.wf(),
            graph@ == genre_graph(video_games@.take(i as int)),
        decreases video_games.len() - i,
    {
        let record = &video_games[i];
        assert(video_games@.take(i + 1).drop_last() =~= video_games@.take(i as int));
        graph.add_edge(record.genre.clone(), record.platform.clone());
        i += 1;
    }
    assert(video_games@.take(i as int) =~= video_games@);
    graph
}

/// Builds the weighted map from genre to platforms, one edge for each record.
pub fn construct_sales_graph<W: Copy>(video_games: &[SalesRecord<W>]) -> (graph:
    WeightedAdjacencyMap<W>)
    ensures
        graph.wf(),
        graph@ == sales_graph(video_games@),
{
    let mut graph = WeightedAdjacencyMap::new();
    let mut i: usize = 0;
    assert(video_games@.take(0) =~= Seq::empty());
    while i < video_games.len()
        invariant
            i <= video_games.len(),
            graph.wf(),
            graph@ == sales_graph(video_games@.take(i as int)),
        decreases video_games.len() - i,
    {
        let record = &video_games[i];
        assert(video_games@.take(i + 1).drop_last() =~= video_games@.take(i as int));
        graph.add_edge(record.genre.clone(), record.platform.clone(), record.sales);
        i += 1;
    }
    assert(video_games@.take(i as int) =~= video_games@);
    graph
}

/// The communities of the unweighted map of the records.
pub fn detect_genre_communities<W>(video_games: &[SalesRecord<W>]) -> (communities: Vec<Community>)
    ensures
        community_sets(communities@) == genre_graph(video_games@).communities(),
        forall|c: int| 0 <= c < communities.len() ==> (#[trigger] communities[c]).wf(),
{
    let graph = construct_genre_graph(video_games);
    label_propagation(&graph)
}

/// The communities of the weighted map of the records. They are those of the
/// unweighted map: the sales decide nothing.
pub fn detect_sales_communities<W: Copy>(video_games: &[SalesRecord<W>]) -> (communities: Vec<
    Community,
>)
    ensures
        community_sets(communities@) == genre_graph(video_games@).communities(),
        forall|c: int| 0 <= c < communities.len() ==> (#[trigger] communities[c]).wf(),
{
    let graph = construct_sales_graph(video_games);
    proof {
        lemma_sales_graph_unweighted(video_games@);
    }
    label_propagation_sales(&graph)
}

} // verus!
