use vstd::prelude::*;
use crate::aggregate::{average_cluster_year, year_sum, YearAverage};
use crate::dedupe::{dedup_clusters, get_unique_clusters, lemma_dedup_nonempty};
use crate::error::ClusterError;
use crate::graph::{create_dgraph, first_seen, song_views, SongGraph};
use crate::kmeans::{
    Cluster, cluster_views, is_partition, kmeans_cluster, kmeans_result, node_points, seed_points,
    valid_seeds,
};
use crate::song::Song;

verus! {

/// What one analysis run produces.
pub struct Analysis {
    pub graph: SongGraph,
    pub clusters: Vec<Cluster>,
    pub averages: Vec<YearAverage>,
}

/// Runs the whole analysis: builds the graph, clusters its nodes, removes
/// near-duplicates inside each cluster and averages the years of each cluster.
/// Either every stage completes or the run stops with one error.
pub fn analyze(songs: &Vec<Song>, num_clusters: usize, max_iterations: usize, seed: u64) -> (r: Result<
    Analysis,
    ClusterError,
>)
    requires
        songs@.len() <= 65535,
    ensures
        songs@.len() == 0 ==> r is Err && r->Err_0 == ClusterError::EmptyInput,
        songs@.len() > 0 && (num_clusters == 0 || num_clusters > first_seen(song_views(songs@)).len())
            ==> r is Err && r->Err_0 == ClusterError::Configuration,
        songs@.len() > 0 && 1 <= num_clusters <= first_seen(song_views(songs@)).len() ==> r is Ok,
        match r {
            Ok(a) => {
                &&& a.graph.wf()
                &&& a.graph.entity_views() == first_seen(song_views(songs@))
                &&& a.graph.edges_justified()
                &&& a.graph.pairs_have_edges(songs@)
                &&& exists|seeds: Seq<usize>|
                    seeds.len() == num_clusters && valid_seeds(seeds, a.graph.nodes().len())
                        && cluster_views(a.clusters@) == #[trigger] dedup_clusters(
                        node_points(a.graph),
                        kmeans_result(
                            node_points(a.graph),
                            seed_points(node_points(a.graph), seeds),
                            max_iterations as nat,
                        ),
                    )
                &&& a.averages@.len() == a.clusters@.len()
                &&& forall|t: int|
                    0 <= t < a.averages@.len() ==> (#[trigger] a.averages@[t]).cluster
                        == a.clusters@[t].index && a.averages@[t].count == a.clusters@[t].members@.len()
                        && a.averages@[t].total == year_sum(a.graph, a.clusters@[t].members@)
            },
            Err(_) => true,
        },
{
    let graph = create_dgraph(songs);
    proof {
        assert(graph.entity_views().len() == graph.nodes().len());
        if songs@.len() > 0 {
            assert(song_views(songs@)[0] == songs@[0]@);
            assert(song_views(songs@).contains(songs@[0]@));
            assert(graph.entity_views().contains(songs@[0]@));
        }
    }
    let raw = match kmeans_cluster(&graph, num_clusters, max_iterations, seed) {
        Ok(v) => v,
        Err(e) => {
            return Err(e);
        },
    };
    let ghost n = graph.nodes().len();
    proof {
        let seeds = choose|seeds: Seq<usize>|
            seeds.len() == num_clusters && valid_seeds(seeds, n) && cluster_views(raw@)
                == #[trigger] kmeans_result(
                node_points(graph),
                seed_points(node_points(graph), seeds),
                max_iterations as nat,
            );
        if max_iterations == 0 {
            assert(cluster_views(raw@).len() == 0);
        } else {
            assert(is_partition(cluster_views(raw@), n));
        }
        assert forall|t: int, j: int|
            0 <= t < raw@.len() && 0 <= j < raw@[t].members@.len() implies raw@[t].members@[j] < n by {
            assert(cluster_views(raw@)[t].1 == raw@[t].members@);
        }
    }
    let clusters = get_unique_clusters(&raw, &graph);
    proof {
        assert(cluster_views(clusters@).len() == clusters@.len());
        assert(cluster_views(raw@).len() == raw@.len());
        assert(clusters@.len() == raw@.len());
        assert forall|t: int, j: int|
            0 <= t < clusters@.len() && 0 <= j < clusters@[t].members@.len() implies clusters@[t].members@[j]
            < n by {
            assert(cluster_views(clusters@)[t].1 == clusters@[t].members@);
            assert(cluster_views(raw@)[t].1 == raw@[t].members@);
            crate::dedupe::lemma_dedup_subset(node_points(graph), raw@[t].members@);
        }
        assert forall|t: int| 0 <= t < clusters@.len() implies clusters@[t].members@.len() > 0 by {
            assert(cluster_views(clusters@)[t].1 == clusters@[t].members@);
            assert(cluster_views(raw@)[t].1 == raw@[t].members@);
            assert(raw@[t].members@.len() > 0);
            lemma_dedup_nonempty(node_points(graph), raw@[t].members@);
        }
    }
    let averages = match average_cluster_year(&clusters, &graph) {
        Ok(v) => v,
        Err(e) => {
            return Err(e);
        },
    };
    Ok(Analysis { graph, clusters, averages })
}

} // verus!
