use vstd::prelude::*;
use crate::error::ClusterError;
use crate::graph::SongGraph;
use crate::kmeans::Cluster;
use crate::dedupe::members_below;

verus! {

/// The year average of one cluster, as an exact fraction `total / count`.
#[derive(Clone, Copy, Debug, PartialEq, Eq, Structural)]
pub struct YearAverage {
    pub cluster: usize,
    pub total: u128,
    pub count: u64,
}

/// Sum of the years of the given nodes.
pub open spec fn year_sum(g: SongGraph, m: Seq<usize>) -> nat
    decreases m.len(),
{
    if m.len() == 0 {
        0
    } else {
        year_sum(g, m.drop_last()) + g.entity_views()[m.last() as int].year as nat
    }
}

/// Some cluster has no members.
pub open spec fn has_empty_cluster(cs: Seq<Cluster>) -> bool {
    exists|t: int| 0 <= t < cs.len() && cs[t].members@.len() == 0
}

/// Sum of the years of a cluster's members.
fn cluster_year_total(m: &Vec<usize>, graph: &SongGraph) -> (r: u128)
    requires
        graph.wf(),
        forall|j: int| 0 <= j < m@.len() ==> m@[j] < graph.nodes().len(),
    ensures
        r == year_sum(*graph, m@),
{
    let mut total: u128 = 0;
    let mut i: usize = 0;
    while i < m.len()
        invariant
            graph.wf(),
            forall|j: int| 0 <= j < m@.len() ==> m@[j] < graph.nodes().len(),
            i <= m@.len(),
            total == year_sum(*graph, m@.take(i as int)),
            total <= i * 0xffff_ffff,
        decreases m@.len() - i,
    {
        proof {
            assert(m@.take(i + 1).drop_last() =~= m@.take(i as int));
        }
        let y = graph.song(m[i]).year;
        assert(i * 0xffff_ffff + 0xffff_ffff <= 0x1_0000_0000_0000_0000 * 0x1_0000_0000) by (nonlinear_arith)
            requires i < 0x1_0000_0000_0000_0000;
        assert((i + 1) * 0xffff_ffff == i * 0xffff_ffff + 0xffff_ffff) by (nonlinear_arith);
        total = total + y as u128;
        i = i + 1;
    }
    assert(m@.take(m@.len() as int) =~= m@);
    total
}

/// The year average of each cluster, in the clusters' order; an error naming
/// the first cluster without members, if there is one.
pub fn average_cluster_year(clusters: &Vec<Cluster>, graph: &SongGraph) -> (r: Result<
    Vec<YearAverage>,
    ClusterError,
>)
    requires
        graph.wf(),
        members_below(clusters@, graph.nodes().len()),
    ensures
        match r {
            Ok(v) => !has_empty_cluster(clusters@) && v@.len() == clusters@.len() && forall|t: int|
                0 <= t < v@.len() ==> (#[trigger] v@[t]).cluster == clusters@[t].index && v@[t].count
                    == clusters@[t].members@.len() && v@[t].total == year_sum(
                    *graph,
                    clusters@[t].members@,
                ),
            Err(e) => exists|t: int|
                0 <= t < clusters@.len() && clusters@[t].members@.len() == 0 && e
                    == ClusterError::DegenerateCluster { cluster: clusters@[t].index } && forall|
                    u: int,
                | 0 <= u < t ==> #[trigger] clusters@[u].members@.len() > 0,
        },
{
    let mut r: Vec<YearAverage> = Vec::new();
    let mut t: usize = 0;
    while t < clusters.len()
        invariant
            graph.wf(),
            members_below(clusters@, graph.nodes().len()),
            t <= clusters@.len(),
            r@.len() == t,
            forall|u: int| 0 <= u < t ==> #[trigger] clusters@[u].members@.len() > 0,
            forall|u: int|
                0 <= u < t ==> (#[trigger] r@[u]).cluster == clusters@[u].index && r@[u].count
                    == clusters@[u].members@.len() && r@[u].total == year_sum(
                    *graph,
                    clusters@[u].members@,
                ),
        decreases clusters@.len() - t,
    {
        let c = &clusters[t];
        if c.members.len() == 0 {
            return Err(ClusterError::DegenerateCluster { cluster: c.index });
        }
        let total = cluster_year_total(&c.members, graph);
        r.push(YearAverage { cluster: c.index, total, count: c.members.len() as u64 });
        t = t + 1;
    }
    Ok(r)
}

/// The average of a single-member cluster is exactly that member's year.
pub proof fn lemma_singleton_average(g: SongGraph, x: usize)
    ensures
        year_sum(g, seq![x]) == g.entity_views()[x as int].year,
{
    assert(seq![x].drop_last() =~= Seq::<usize>::empty());
    assert(year_sum(g, Seq::<usize>::empty()) == 0);
    assert(seq![x].last() == x);
}

} // verus!
