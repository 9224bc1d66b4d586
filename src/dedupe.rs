use vstd::prelude::*;
use crate::graph::SongGraph;
use crate::kmeans::{Cluster, cluster_views, node_points};
use crate::song::Point;

verus! {

// Near-duplicates are songs whose divergence is below the tolerance, which is
// smaller than one feature unit: so only songs with identical feature triples.

/// Some node of `kept` has the same features as node `x`.
pub open spec fn has_twin(pts: Seq<Point>, kept: Seq<usize>, x: usize) -> bool {
    exists|t: int| 0 <= t < kept.len() && pts[kept[t] as int] == pts[x as int]
}

/// The members kept by a scan in order: a member stays unless an earlier kept
/// member has the same features.
pub open spec fn dedup_members(pts: Seq<Point>, m: Seq<usize>) -> Seq<usize>
    decreases m.len(),
{
    if m.len() == 0 {
        Seq::empty()
    } else {
        let r = dedup_members(pts, m.drop_last());
        if has_twin(pts, r, m.last()) {
            r
        } else {
            r.push(m.last())
        }
    }
}

/// Every cluster reduced to its first-seen representatives.
pub open spec fn dedup_clusters(pts: Seq<Point>, cs: Seq<(usize, Seq<usize>)>) -> Seq<(usize, Seq<usize>)> {
    Seq::new(cs.len(), |t: int| (cs[t].0, dedup_members(pts, cs[t].1)))
}

/// No two members have the same features.
pub open spec fn features_distinct(pts: Seq<Point>, m: Seq<usize>) -> bool {
    forall|a: int, b: int| 0 <= a < b < m.len() ==> pts[m[a] as int] != pts[m[b] as int]
}

/// Each member of every cluster is a node below `n`.
pub open spec fn members_below(cs: Seq<Cluster>, n: nat) -> bool {
    forall|t: int, j: int| 0 <= t < cs.len() && 0 <= j < cs[t].members@.len() ==> cs[t].members@[j] < n
}

/// Whether some node of `kept` has the same features as node `x`.
fn find_twin(pts: &Vec<Point>, kept: &Vec<usize>, x: usize) -> (r: bool)
    requires
        x < pts@.len(),
        forall|t: int| 0 <= t < kept@.len() ==> kept@[t] < pts@.len(),
    ensures
        r == has_twin(pts@, kept@, x),
{
    let mut t: usize = 0;
    while t < kept.len()
        invariant
            x < pts@.len(),
            forall|u: int| 0 <= u < kept@.len() ==> kept@[u] < pts@.len(),
            t <= kept@.len(),
            forall|u: int| 0 <= u < t ==> pts@[kept@[u] as int] != pts@[x as int],
        decreases kept@.len() - t,
    {
        if pts[kept[t]] == pts[x] {
            return true;
        }
        t = t + 1;
    }
    false
}

/// The members kept by the scan, in the order given.
pub fn dedupe_members(pts: &Vec<Point>, m: &Vec<usize>) -> (r: Vec<usize>)
    requires
        forall|j: int| 0 <= j < m@.len() ==> m@[j] < pts@.len(),
    ensures
        r@ == dedup_members(pts@, m@),
{
    let mut r: Vec<usize> = Vec::new();
    let mut i: usize = 0;
    while i < m.len()
        invariant
            i <= m@.len(),
            forall|j: int| 0 <= j < m@.len() ==> m@[j] < pts@.len(),
            forall|j: int| 0 <= j < r@.len() ==> r@[j] < pts@.len(),
            r@ == dedup_members(pts@, m@.take(i as int)),
        decreases m@.len() - i,
    {
        proof {
            assert(m@.take(i + 1).drop_last() =~= m@.take(i as int));
        }
        if !find_twin(pts, &r, m[i]) {
            r.push(m[i]);
        }
        i = i + 1;
    }
    assert(m@.take(m@.len() as int) =~= m@);
    r
}

/// Removes near-duplicates inside each cluster: a member is dropped when an
/// earlier kept member of the same cluster has the same features.
pub fn get_unique_clusters(clusters: &Vec<Cluster>, graph: &SongGraph) -> (r: Vec<Cluster>)
    requires
        graph.wf(),
        members_below(clusters@, graph.nodes().len()),
    ensures
        cluster_views(r@) == dedup_clusters(node_points(*graph), cluster_views(clusters@)),
{
    let pts = crate::kmeans::graph_points(graph);
    let mut r: Vec<Cluster> = Vec::new();
    let mut t: usize = 0;
    while t < clusters.len()
        invariant
            pts@ == node_points(*graph),
            pts@.len() == graph.nodes().len(),
            members_below(clusters@, graph.nodes().len()),
            t <= clusters@.len(),
            r@.len() == t,
            forall|u: int|
                0 <= u < t ==> (#[trigger] r@[u]).index == clusters@[u].index && r@[u].members@
                    == dedup_members(pts@, clusters@[u].members@),
        decreases clusters@.len() - t,
    {
        let c = &clusters[t];
        let kept = dedupe_members(&pts, &c.members);
        r.push(Cluster { index: c.index, members: kept });
        t = t + 1;
    }
    assert(cluster_views(r@) =~= dedup_clusters(node_points(*graph), cluster_views(clusters@)));
    r
}

/// The kept members of a scan have pairwise different features.
pub proof fn lemma_dedup_distinct(pts: Seq<Point>, m: Seq<usize>)
    ensures
        features_distinct(pts, dedup_members(pts, m)),
    decreases m.len(),
{
    if m.len() > 0 {
        lemma_dedup_distinct(pts, m.drop_last());
        let r = dedup_members(pts, m.drop_last());
        if !has_twin(pts, r, m.last()) {
            let s = r.push(m.last());
            assert forall|a: int, b: int| 0 <= a < b < s.len() implies pts[s[a] as int] != pts[s[b] as int] by {
                if b == r.len() {
                    assert(s[a] == r[a]);
                }
            }
        }
    }
}

/// A scan keeps only members it was given.
pub proof fn lemma_dedup_subset(pts: Seq<Point>, m: Seq<usize>)
    ensures
        forall|j: int| 0 <= j < dedup_members(pts, m).len() ==> m.contains(#[trigger] dedup_members(pts, m)[j]),
    decreases m.len(),
{
    if m.len() > 0 {
        let d = m.drop_last();
        lemma_dedup_subset(pts, d);
        let r = dedup_members(pts, d);
        assert forall|j: int| 0 <= j < dedup_members(pts, m).len() implies m.contains(
            #[trigger] dedup_members(pts, m)[j],
        ) by {
            if j < r.len() {
                assert(dedup_members(pts, m)[j] == r[j]);
                let i = choose|i: int| 0 <= i < d.len() && d[i] == r[j];
                assert(m[i] == r[j]);
            } else {
                assert(m[m.len() - 1] == m.last());
            }
        }
    }
}

/// A scan over some members keeps at least one.
pub proof fn lemma_dedup_nonempty(pts: Seq<Point>, m: Seq<usize>)
    requires
        m.len() > 0,
    ensures
        dedup_members(pts, m).len() > 0,
    decreases m.len(),
{
    if m.len() > 1 {
        lemma_dedup_nonempty(pts, m.drop_last());
    } else {
        assert(dedup_members(pts, m.drop_last()) =~= Seq::<usize>::empty());
    }
}

/// A scan over members with pairwise different features keeps them all.
pub proof fn lemma_dedup_keeps_distinct(pts: Seq<Point>, m: Seq<usize>)
    requires
        features_distinct(pts, m),
    ensures
        dedup_members(pts, m) == m,
    decreases m.len(),
{
    if m.len() > 0 {
        let d = m.drop_last();
        assert(features_distinct(pts, d));
        lemma_dedup_keeps_distinct(pts, d);
        if has_twin(pts, d, m.last()) {
            let t = choose|t: int| 0 <= t < d.len() && pts[d[t] as int] == pts[m.last() as int];
            assert(pts[m[t] as int] == pts[m[m.len() - 1] as int]);
        }
        assert(d.push(m.last()) =~= m);
    }
}

/// Removing near-duplicates twice gives what removing them once gives.
pub proof fn lemma_dedupe_idempotent(pts: Seq<Point>, cs: Seq<(usize, Seq<usize>)>)
    ensures
        dedup_clusters(pts, dedup_clusters(pts, cs)) == dedup_clusters(pts, cs),
{
    assert forall|t: int| 0 <= t < cs.len() implies dedup_members(pts, dedup_members(pts, cs[t].1))
        == dedup_members(pts, cs[t].1) by {
        lemma_dedup_distinct(pts, cs[t].1);
        lemma_dedup_keeps_distinct(pts, dedup_members(pts, cs[t].1));
    }
    assert(dedup_clusters(pts, dedup_clusters(pts, cs)) =~= dedup_clusters(pts, cs));
}

} // verus!
