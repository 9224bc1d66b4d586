use vstd::prelude::*;
use rand::rngs::StdRng;
use rand::{Rng, SeedableRng};
use crate::error::ClusterError;
use crate::graph::SongGraph;
use crate::song::{Point, coord, sq_dist, squared_divergence};

verus! {

/// Index of the centroid nearest to `p` among the first `m`: the first one at
/// the smallest distance.
pub open spec fn nearest_in(p: Point, cs: Seq<Point>, m: nat) -> usize
    decreases m,
{
    if m <= 1 {
        0
    } else {
        let b = nearest_in(p, cs, (m - 1) as nat);
        if sq_dist(p, cs[m - 1]) < sq_dist(p, cs[b as int]) {
            (m - 1) as usize
        } else {
            b
        }
    }
}

/// The cluster that each point is assigned to.
pub open spec fn labels_for(pts: Seq<Point>, cs: Seq<Point>) -> Seq<usize> {
    Seq::new(pts.len(), |i: int| nearest_in(pts[i], cs, cs.len()))
}

/// How many of the first `n` labels are `c`.
pub open spec fn label_count(labels: Seq<usize>, c: usize, n: nat) -> nat
    decreases n,
{
    if n == 0 {
        0
    } else {
        label_count(labels, c, (n - 1) as nat) + if labels[n - 1] == c { 1nat } else { 0nat }
    }
}

/// Sum of coordinate `d` over the first `n` points labelled `c`.
pub open spec fn label_sum(pts: Seq<Point>, labels: Seq<usize>, c: usize, d: nat, n: nat) -> nat
    decreases n,
{
    if n == 0 {
        0
    } else {
        label_sum(pts, labels, c, d, (n - 1) as nat) + if labels[n - 1] == c {
            coord(pts[n - 1], d)
        } else {
            0nat
        }
    }
}

/// The new centroid of cluster `c`: the componentwise mean of its members,
/// rounded down, or the old centroid where it has none.
pub open spec fn moved(pts: Seq<Point>, labels: Seq<usize>, cs: Seq<Point>, c: usize) -> Point {
    let n = labels.len();
    let cnt = label_count(labels, c, n);
    if cnt == 0 {
        cs[c as int]
    } else {
        Point {
            energy: (label_sum(pts, labels, c, 0, n) / cnt) as u32,
            acoust: (label_sum(pts, labels, c, 1, n) / cnt) as u32,
            valence: (label_sum(pts, labels, c, 2, n) / cnt) as u32,
        }
    }
}

/// One refinement step: assign every point, then move every centroid.
pub open spec fn update(pts: Seq<Point>, cs: Seq<Point>) -> Seq<Point> {
    Seq::new(cs.len(), |c: int| moved(pts, labels_for(pts, cs), cs, c as usize))
}

/// The centroids after `t` refinement steps.
pub open spec fn centroids_after(pts: Seq<Point>, cs: Seq<Point>, t: nat) -> Seq<Point>
    decreases t,
{
    if t == 0 {
        cs
    } else {
        update(pts, centroids_after(pts, cs, (t - 1) as nat))
    }
}

/// The positions among the labels that are `c`, in order.
pub open spec fn members(labels: Seq<usize>, c: usize) -> Seq<usize>
    decreases labels.len(),
{
    if labels.len() == 0 {
        Seq::empty()
    } else {
        let r = members(labels.drop_last(), c);
        if labels.last() == c {
            r.push((labels.len() - 1) as usize)
        } else {
            r
        }
    }
}

/// The clusters below `k` that have members, in index order, each with its members.
pub open spec fn clusters_of(labels: Seq<usize>, k: nat) -> Seq<(usize, Seq<usize>)>
    decreases k,
{
    if k == 0 {
        Seq::empty()
    } else {
        let r = clusters_of(labels, (k - 1) as nat);
        let m = members(labels, (k - 1) as usize);
        if m.len() > 0 {
            r.push(((k - 1) as usize, m))
        } else {
            r
        }
    }
}

/// The partition that k-means returns after `iters` steps from the centroids
/// `cs`: that of the last assignment; none where no step ran.
pub open spec fn kmeans_result(pts: Seq<Point>, cs: Seq<Point>, iters: nat) -> Seq<(usize, Seq<usize>)> {
    if iters == 0 {
        Seq::empty()
    } else {
        clusters_of(labels_for(pts, centroids_after(pts, cs, (iters - 1) as nat)), cs.len())
    }
}

/// A cluster: its index and its member nodes.
#[derive(Clone, Debug)]
pub struct Cluster {
    pub index: usize,
    pub members: Vec<usize>,
}

/// The clusters, as values.
pub open spec fn cluster_views(v: Seq<Cluster>) -> Seq<(usize, Seq<usize>)> {
    v.map_values(|c: Cluster| (c.index, c.members@))
}

/// Index of the centroid nearest to `p`.
pub fn nearest_centroid(p: &Point, cs: &Vec<Point>) -> (r: usize)
    requires
        cs@.len() >= 1,
    ensures
        r == nearest_in(*p, cs@, cs@.len()),
        r < cs@.len(),
{
    let mut best: usize = 0;
    let mut best_d = squared_divergence(p, &cs[0]);
    let mut c: usize = 1;
    while c < cs.len()
        invariant
            1 <= c <= cs@.len(),
            best < c,
            best == nearest_in(*p, cs@, c as nat),
            best_d == sq_dist(*p, cs@[best as int]),
        decreases cs@.len() - c,
    {
        let d = squared_divergence(p, &cs[c]);
        if d < best_d {
            best = c;
            best_d = d;
        }
        c = c + 1;
    }
    best
}

/// Assigns every point to its nearest centroid.
pub fn assign(pts: &Vec<Point>, cs: &Vec<Point>) -> (labels: Vec<usize>)
    requires
        cs@.len() >= 1,
    ensures
        labels@ == labels_for(pts@, cs@),
        forall|i: int| 0 <= i < labels@.len() ==> labels@[i] < cs@.len(),
{
    let mut labels: Vec<usize> = Vec::new();
    let mut i: usize = 0;
    while i < pts.len()
        invariant
            i <= pts@.len(),
            cs@.len() >= 1,
            labels@.len() == i,
            forall|j: int| 0 <= j < i ==> labels@[j] == nearest_in(pts@[j], cs@, cs@.len()),
            forall|j: int| 0 <= j < i ==> labels@[j] < cs@.len(),
        decreases pts@.len() - i,
    {
        let c = nearest_centroid(&pts[i], cs);
        labels.push(c);
        i = i + 1;
    }
    assert(labels@ =~= labels_for(pts@, cs@));
    labels
}

/// Moves each centroid to the mean of its members, keeping those without any.
pub fn recompute(pts: &Vec<Point>, labels: &Vec<usize>, cs: &Vec<Point>) -> (r: Vec<Point>)
    requires
        labels@.len() == pts@.len(),
        pts@.len() < u32::MAX,
    ensures
        r@.len() == cs@.len(),
        forall|c: int| 0 <= c < cs@.len() ==> r@[c] == moved(pts@, labels@, cs@, c as usize),
{
    let n = labels.len();
    let mut r: Vec<Point> = Vec::new();
    let mut c: usize = 0;
    while c < cs.len()
        invariant
            n == labels@.len(),
            n == pts@.len(),
            n < u32::MAX,
            c <= cs@.len(),
            r@.len() == c,
            forall|j: int| 0 <= j < c ==> r@[j] == moved(pts@, labels@, cs@, j as usize),
        decreases cs@.len() - c,
    {
        let mut cnt: u64 = 0;
        let mut s0: u64 = 0;
        let mut s1: u64 = 0;
        let mut s2: u64 = 0;
        let mut i: usize = 0;
        while i < n
            invariant
                n == labels@.len(),
                n == pts@.len(),
                n < u32::MAX,
                i <= n,
                cnt == label_count(labels@, c, i as nat),
                cnt <= i,
                s0 == label_sum(pts@, labels@, c, 0, i as nat),
                s1 == label_sum(pts@, labels@, c, 1, i as nat),
                s2 == label_sum(pts@, labels@, c, 2, i as nat),
                s0 <= cnt * 0xffff_ffff,
                s1 <= cnt * 0xffff_ffff,
                s2 <= cnt * 0xffff_ffff,
            decreases n - i,
        {
            if labels[i] == c {
                let p = pts[i];
                assert((cnt + 1) * 0xffff_ffff < 0x1_0000_0000 * 0xffff_ffff) by (nonlinear_arith)
                    requires cnt + 1 < 0x1_0000_0000_u64;
                assert((cnt + 1) * 0xffff_ffff == cnt * 0xffff_ffff + 0xffff_ffff) by (nonlinear_arith);
                s0 = s0 + p.energy as u64;
                s1 = s1 + p.acoust as u64;
                s2 = s2 + p.valence as u64;
                cnt = cnt + 1;
            }
            i = i + 1;
        }
        if cnt == 0 {
            r.push(cs[c]);
        } else {
            assert(s0 / cnt <= 0xffff_ffff) by (nonlinear_arith)
                requires s0 <= cnt * 0xffff_ffff, cnt > 0;
            assert(s1 / cnt <= 0xffff_ffff) by (nonlinear_arith)
                requires s1 <= cnt * 0xffff_ffff, cnt > 0;
            assert(s2 / cnt <= 0xffff_ffff) by (nonlinear_arith)
                requires s2 <= cnt * 0xffff_ffff, cnt > 0;
            r.push(
                Point {
                    energy: (s0 / cnt) as u32,
                    acoust: (s1 / cnt) as u32,
                    valence: (s2 / cnt) as u32,
                },
            );
        }
        c = c + 1;
    }
    r
}

/// The positions labelled `c`, in order.
fn collect_members(labels: &Vec<usize>, c: usize) -> (r: Vec<usize>)
    ensures
        r@ == members(labels@, c),
{
    let mut r: Vec<usize> = Vec::new();
    let mut i: usize = 0;
    while i < labels.len()
        invariant
            i <= labels@.len(),
            r@ == members(labels@.take(i as int), c),
        decreases labels@.len() - i,
    {
        proof {
            assert(labels@.take(i + 1).drop_last() =~= labels@.take(i as int));
        }
        if labels[i] == c {
            r.push(i);
        }
        i = i + 1;
    }
    assert(labels@.take(labels@.len() as int) =~= labels@);
    r
}

/// The clusters below `k` that have members, in index order.
pub fn build_clusters(labels: &Vec<usize>, k: usize) -> (r: Vec<Cluster>)
    ensures
        cluster_views(r@) == clusters_of(labels@, k as nat),
{
    let mut r: Vec<Cluster> = Vec::new();
    let mut c: usize = 0;
    while c < k
        invariant
            c <= k,
            cluster_views(r@) == clusters_of(labels@, c as nat),
        decreases k - c,
    {
        let m = collect_members(labels, c);
        if m.len() > 0 {
            let ghost before = r@;
            r.push(Cluster { index: c, members: m });
            assert(cluster_views(r@) =~= cluster_views(before).push((c, m@)));
        }
        c = c + 1;
    }
    r
}

/// k-means from the given initial centroids: exactly `max_iterations` rounds
/// of assignment and centroid update, then the partition of the last round.
pub fn cluster_points(pts: &Vec<Point>, initial: Vec<Point>, max_iterations: usize) -> (r: Vec<Cluster>)
    requires
        initial@.len() >= 1,
        pts@.len() < u32::MAX,
    ensures
        cluster_views(r@) == kmeans_result(pts@, initial@, max_iterations as nat),
{
    let ghost cs0 = initial@;
    let k = initial.len();
    let mut cs = initial;
    let mut labels: Vec<usize> = Vec::new();
    let mut it: usize = 0;
    while it < max_iterations
        invariant
            it <= max_iterations,
            k == cs0.len(),
            k >= 1,
            pts@.len() < u32::MAX,
            cs@ == centroids_after(pts@, cs0, it as nat),
            cs@.len() == k,
            it > 0 ==> labels@ == labels_for(pts@, centroids_after(pts@, cs0, (it - 1) as nat)),
        decreases max_iterations - it,
    {
        labels = assign(pts, &cs);
        let next = recompute(pts, &labels, &cs);
        assert(next@ =~= update(pts@, cs@));
        cs = next;
        it = it + 1;
    }
    if max_iterations == 0 {
        let r: Vec<Cluster> = Vec::new();
        assert(cluster_views(r@) =~= Seq::<(usize, Seq<usize>)>::empty());
        return r;
    }
    build_clusters(&labels, k)
}

/// Some cluster lists node `x`.
pub open spec fn in_some_cluster(cs: Seq<(usize, Seq<usize>)>, x: usize) -> bool {
    exists|t: int| 0 <= t < cs.len() && #[trigger] cs[t].1.contains(x)
}

/// Every node lies in exactly one cluster, no cluster lists a node twice or is
/// empty, and clusters come in strictly increasing index order.
pub open spec fn is_partition(cs: Seq<(usize, Seq<usize>)>, n: nat) -> bool {
    &&& forall|x: usize| x < n ==> #[trigger] in_some_cluster(cs, x)
    &&& forall|t: int, j: int| 0 <= t < cs.len() && 0 <= j < cs[t].1.len() ==> cs[t].1[j] < n
    &&& forall|t1: int, t2: int, x: usize|
        0 <= t1 < cs.len() && 0 <= t2 < cs.len() && #[trigger] cs[t1].1.contains(x)
            && #[trigger] cs[t2].1.contains(x) ==> t1 == t2
    &&& forall|t: int, a: int, b: int| 0 <= t < cs.len() && 0 <= a < b < cs[t].1.len() ==> cs[t].1[a] != cs[t].1[b]
    &&& forall|t: int| 0 <= t < cs.len() ==> #[trigger] cs[t].1.len() > 0
    &&& forall|a: int, b: int| 0 <= a < b < cs.len() ==> (#[trigger] cs[a]).0 < (#[trigger] cs[b]).0
}

/// The nearest of the first `m` centroids is one of them.
proof fn lemma_nearest_in_range(p: Point, cs: Seq<Point>, m: nat)
    requires
        m >= 1,
    ensures
        nearest_in(p, cs, m) < m,
    decreases m,
{
    if m > 1 {
        lemma_nearest_in_range(p, cs, (m - 1) as nat);
    }
}

/// The members of `c` are, in increasing order, exactly the positions labelled `c`.
proof fn lemma_members(labels: Seq<usize>, c: usize)
    requires
        labels.len() <= usize::MAX,
    ensures
        forall|j: int| 0 <= j < members(labels, c).len() ==> members(labels, c)[j] < labels.len()
            && labels[members(labels, c)[j] as int] == c,
        forall|a: int, b: int| 0 <= a < b < members(labels, c).len() ==> members(labels, c)[a]
            < members(labels, c)[b],
        forall|i: int| 0 <= i < labels.len() && labels[i] == c ==> members(labels, c).contains(i as usize),
    decreases labels.len(),
{
    if labels.len() > 0 {
        let d = labels.drop_last();
        lemma_members(d, c);
        let r = members(d, c);
        let m = members(labels, c);
        assert forall|i: int| 0 <= i < labels.len() && labels[i] == c implies m.contains(i as usize) by {
            if i < d.len() {
                assert(d[i] == labels[i]);
                let j = choose|j: int| 0 <= j < r.len() && r[j] == i as usize;
                assert(m[j] == i as usize);
            } else {
                assert(m[m.len() - 1] == i as usize);
            }
        }
        assert forall|j: int| 0 <= j < m.len() implies m[j] < labels.len() && labels[m[j] as int] == c by {
            if j < r.len() {
                assert(m[j] == r[j]);
                assert(d[r[j] as int] == labels[r[j] as int]);
            } else {
                assert(labels.last() == c);
                assert(m[j] == (labels.len() - 1) as usize);
            }
        }
        assert forall|a: int, b: int| 0 <= a < b < m.len() implies m[a] < m[b] by {
            assert(m[a] == r[a]);
            if b < r.len() {
                assert(m[b] == r[b]);
            } else {
                assert(labels.last() == c);
                assert(m[b] == (labels.len() - 1) as usize);
            }
        }
    }
}

/// The clusters are in increasing index order, each below `k` with its members,
/// and every index below `k` that has members has a cluster.
proof fn lemma_clusters_of(labels: Seq<usize>, k: nat)
    requires
        k <= usize::MAX,
    ensures
        forall|t: int| 0 <= t < clusters_of(labels, k).len() ==> clusters_of(labels, k)[t].0 < k
            && clusters_of(labels, k)[t].1 == members(labels, clusters_of(labels, k)[t].0)
            && clusters_of(labels, k)[t].1.len() > 0,
        forall|a: int, b: int| 0 <= a < b < clusters_of(labels, k).len() ==> clusters_of(labels, k)[a].0
            < clusters_of(labels, k)[b].0,
        forall|c: usize| c < k && members(labels, c).len() > 0 ==> exists|t: int|
            0 <= t < clusters_of(labels, k).len() && #[trigger] clusters_of(labels, k)[t].0 == c,
    decreases k,
{
    if k > 0 {
        lemma_clusters_of(labels, (k - 1) as nat);
        let r = clusters_of(labels, (k - 1) as nat);
        let cs = clusters_of(labels, k);
        assert forall|c: usize| c < k && members(labels, c).len() > 0 implies exists|t: int|
            0 <= t < cs.len() && #[trigger] cs[t].0 == c by {
            if c < k - 1 {
                let t = choose|t: int| 0 <= t < r.len() && #[trigger] r[t].0 == c;
                assert(cs[t] == r[t]);
            } else {
                assert(cs[cs.len() - 1].0 == c);
            }
        }
        assert forall|t: int| 0 <= t < cs.len() implies cs[t].0 < k && cs[t].1 == members(labels, cs[t].0)
            && cs[t].1.len() > 0 by {
            if t < r.len() {
                assert(cs[t] == r[t]);
            }
        }
        assert forall|a: int, b: int| 0 <= a < b < cs.len() implies cs[a].0 < cs[b].0 by {
            assert(cs[a] == r[a]);
            if b < r.len() {
                assert(cs[b] == r[b]);
            } else {
                assert(members(labels, (k - 1) as usize).len() > 0);
                assert(cs[b].0 == (k - 1) as usize);
                assert(r[a].0 < k - 1);
            }
        }
    }
}

/// The clusters of labels below `k` partition the labelled positions.
pub proof fn lemma_clusters_partition(labels: Seq<usize>, k: nat)
    requires
        labels.len() <= usize::MAX,
        k <= usize::MAX,
        forall|i: int| 0 <= i < labels.len() ==> labels[i] < k,
    ensures
        is_partition(clusters_of(labels, k), labels.len()),
{
    let cs = clusters_of(labels, k);
    lemma_clusters_of(labels, k);
    assert forall|t: int, j: int| 0 <= t < cs.len() && 0 <= j < cs[t].1.len() implies cs[t].1[j]
        < labels.len() by {
        lemma_members(labels, cs[t].0);
    }
    assert forall|t: int, a: int, b: int| 0 <= t < cs.len() && 0 <= a < b < cs[t].1.len() implies cs[t].1[a]
        != cs[t].1[b] by {
        lemma_members(labels, cs[t].0);
    }
    assert forall|x: usize| x < labels.len() implies #[trigger] in_some_cluster(cs, x) by {
        let c = labels[x as int];
        lemma_members(labels, c);
        assert(members(labels, c).contains(x));
        assert(members(labels, c).len() > 0);
        let t = choose|t: int| 0 <= t < cs.len() && #[trigger] cs[t].0 == c;
        assert(cs[t].1.contains(x));
    }
    assert forall|t1: int, t2: int, x: usize|
        0 <= t1 < cs.len() && 0 <= t2 < cs.len() && #[trigger] cs[t1].1.contains(x)
            && #[trigger] cs[t2].1.contains(x) implies t1 == t2 by {
        let j1 = choose|j: int| 0 <= j < cs[t1].1.len() && cs[t1].1[j] == x;
        let j2 = choose|j: int| 0 <= j < cs[t2].1.len() && cs[t2].1[j] == x;
        lemma_members(labels, cs[t1].0);
        lemma_members(labels, cs[t2].0);
        assert(labels[x as int] == cs[t1].0);
        assert(labels[x as int] == cs[t2].0);
        if t1 < t2 {
            assert(cs[t1].0 < cs[t2].0);
        } else if t2 < t1 {
            assert(cs[t2].0 < cs[t1].0);
        }
    }
}

/// After a run of at least one step, the clusters partition the nodes: each
/// node in exactly one cluster, none listed twice, no cluster empty, indices
/// increasing.
pub proof fn lemma_kmeans_partition(pts: Seq<Point>, cs: Seq<Point>, iters: nat)
    requires
        pts.len() <= usize::MAX,
        1 <= cs.len() <= usize::MAX,
        iters >= 1,
    ensures
        is_partition(kmeans_result(pts, cs, iters), pts.len()),
{
    let c = centroids_after(pts, cs, (iters - 1) as nat);
    lemma_centroids_after_len(pts, cs, (iters - 1) as nat);
    let labels = labels_for(pts, c);
    assert forall|i: int| 0 <= i < labels.len() implies labels[i] < cs.len() by {
        lemma_nearest_in_range(pts[i], c, c.len());
    }
    lemma_clusters_partition(labels, cs.len());
}

/// Refinement keeps the number of centroids.
proof fn lemma_centroids_after_len(pts: Seq<Point>, cs: Seq<Point>, t: nat)
    ensures
        centroids_after(pts, cs, t).len() == cs.len(),
    decreases t,
{
    if t > 0 {
        lemma_centroids_after_len(pts, cs, (t - 1) as nat);
    }
}

#[verifier::external_type_specification]
#[verifier::external_body]
pub struct ExStdRng(StdRng);

/// Relies on rand's `SeedableRng::seed_from_u64`: a generator made from the seed.
#[verifier::external_body]
fn seeded_rng(seed: u64) -> StdRng {
    StdRng::seed_from_u64(seed)
}

/// Relies on rand's `Rng::gen_range`: a value in `0..n`; it panics when the
/// range is empty.
#[verifier::external_body]
fn draw_index(rng: &mut StdRng, n: usize) -> (r: usize)
    requires
        n > 0,
    ensures
        r < n,
{
    rng.gen_range(0..n)
}

/// The feature triples of a graph's nodes, in node order.
pub open spec fn node_points(g: SongGraph) -> Seq<Point> {
    Seq::new(g.entity_views().len(), |i: int| g.entity_views()[i].point)
}

/// The points of the chosen nodes, in the order chosen.
pub open spec fn seed_points(pts: Seq<Point>, seeds: Seq<usize>) -> Seq<Point> {
    Seq::new(seeds.len(), |j: int| pts[seeds[j] as int])
}

/// Between one and `n` initial nodes, each a node below `n`.
pub open spec fn valid_seeds(seeds: Seq<usize>, n: nat) -> bool {
    1 <= seeds.len() <= n && forall|j: int| 0 <= j < seeds.len() ==> seeds[j] < n
}

/// The feature triples of the graph's nodes.
pub fn graph_points(g: &SongGraph) -> (r: Vec<Point>)
    requires
        g.wf(),
    ensures
        r@ == node_points(*g),
{
    let n = g.node_count();
    let mut r: Vec<Point> = Vec::new();
    let mut i: usize = 0;
    while i < n
        invariant
            g.wf(),
            n == g.nodes().len(),
            i <= n,
            r@.len() == i,
            forall|j: int| 0 <= j < i ==> r@[j] == node_points(*g)[j],
        decreases n - i,
    {
        let p = g.song(i).point();
        r.push(p);
        i = i + 1;
    }
    assert(r@ =~= node_points(*g));
    r
}

/// k-means over the graph's nodes, with the initial centroids at the nodes
/// `seeds` (a node may be chosen more than once).
pub fn kmeans_from_seeds(graph: &SongGraph, seeds: &Vec<usize>, max_iterations: usize) -> (r: Result<
    Vec<Cluster>,
    ClusterError,
>)
    requires
        graph.wf(),
    ensures
        graph.nodes().len() == 0 ==> r == Err::<Vec<Cluster>, ClusterError>(ClusterError::EmptyInput),
        graph.nodes().len() > 0 && !valid_seeds(seeds@, graph.nodes().len()) ==> r == Err::<
            Vec<Cluster>,
            ClusterError,
        >(ClusterError::Configuration),
        graph.nodes().len() > 0 && valid_seeds(seeds@, graph.nodes().len()) ==> match r {
            Ok(v) => cluster_views(v@) == kmeans_result(
                node_points(*graph),
                seed_points(node_points(*graph), seeds@),
                max_iterations as nat,
            ),
            Err(_) => false,
        },
        match r {
            Ok(v) => max_iterations >= 1 ==> is_partition(cluster_views(v@), graph.nodes().len()),
            Err(_) => true,
        },
{
    let n = graph.node_count();
    if n == 0 {
        return Err(ClusterError::EmptyInput);
    }
    if seeds.len() == 0 || seeds.len() > n {
        return Err(ClusterError::Configuration);
    }
    let pts = graph_points(graph);
    let mut initial: Vec<Point> = Vec::new();
    let mut j: usize = 0;
    while j < seeds.len()
        invariant
            n == pts@.len(),
            n > 0,
            n == graph.nodes().len(),
            1 <= seeds@.len() <= n,
            j <= seeds@.len(),
            initial@.len() == j,
            forall|t: int| 0 <= t < j ==> seeds@[t] < n,
            forall|t: int| 0 <= t < j ==> initial@[t] == pts@[seeds@[t] as int],
        decreases seeds@.len() - j,
    {
        if seeds[j] >= n {
            assert(!valid_seeds(seeds@, graph.nodes().len()));
            return Err(ClusterError::Configuration);
        }
        initial.push(pts[seeds[j]]);
        j = j + 1;
    }
    assert(initial@ =~= seed_points(pts@, seeds@));
    proof {
        if max_iterations >= 1 {
            lemma_kmeans_partition(pts@, initial@, max_iterations as nat);
        }
    }
    Ok(cluster_points(&pts, initial, max_iterations))
}

/// k-means over the graph's nodes with `num_clusters` clusters, whose initial
/// centroids are nodes drawn, with repetition, by a generator seeded with `seed`.
/// The draws depend on the seed through rand's `StdRng`, which the contract
/// does not describe: it holds for whatever nodes are drawn, and
/// `kmeans_from_seeds` gives the result for chosen nodes exactly.
pub fn kmeans_cluster(graph: &SongGraph, num_clusters: usize, max_iterations: usize, seed: u64) -> (r:
    Result<Vec<Cluster>, ClusterError>)
    requires
        graph.wf(),
    ensures
        graph.nodes().len() == 0 ==> r == Err::<Vec<Cluster>, ClusterError>(ClusterError::EmptyInput),
        graph.nodes().len() > 0 && (num_clusters == 0 || num_clusters > graph.nodes().len()) ==> r
            == Err::<Vec<Cluster>, ClusterError>(ClusterError::Configuration),
        graph.nodes().len() > 0 && 1 <= num_clusters <= graph.nodes().len() ==> match r {
            Ok(v) => exists|seeds: Seq<usize>|
                seeds.len() == num_clusters && valid_seeds(seeds, graph.nodes().len()) && cluster_views(
                    v@,
                ) == #[trigger] kmeans_result(
                    node_points(*graph),
                    seed_points(node_points(*graph), seeds),
                    max_iterations as nat,
                ),
            Err(_) => false,
        },
        match r {
            Ok(v) => max_iterations >= 1 ==> is_partition(cluster_views(v@), graph.nodes().len()),
            Err(_) => true,
        },
{
    let n = graph.node_count();
    if n == 0 {
        return Err(ClusterError::EmptyInput);
    }
    if num_clusters == 0 || num_clusters > n {
        return Err(ClusterError::Configuration);
    }
    let mut rng = seeded_rng(seed);
    let mut seeds: Vec<usize> = Vec::new();
    let mut j: usize = 0;
    while j < num_clusters
        invariant
            j <= num_clusters,
            n > 0,
            seeds@.len() == j,
            forall|t: int| 0 <= t < j ==> seeds@[t] < n,
        decreases num_clusters - j,
    {
        let s = draw_index(&mut rng, n);
        seeds.push(s);
        j = j + 1;
    }
    let r = kmeans_from_seeds(graph, &seeds, max_iterations);
    proof {
        if r is Ok {
            assert(cluster_views(r->Ok_0@) == kmeans_result(
                node_points(*graph),
                seed_points(node_points(*graph), seeds@),
                max_iterations as nat,
            ));
        }
    }
    r
}

} // verus!
