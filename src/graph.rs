use vstd::prelude::*;
use petgraph::graph::{Graph, NodeIndex};
use petgraph::Directed;
use crate::song::{Song, SongView, sq_dist, is_floor_sqrt, squared_divergence, floor_sqrt};

verus! {

#[verifier::external_type_specification]
#[verifier::external_body]
#[verifier::reject_recursive_types(N)]
#[verifier::reject_recursive_types(E)]
#[verifier::reject_recursive_types(Ty)]
#[verifier::reject_recursive_types(Ix)]
pub struct ExGraph<N, E, Ty, Ix>(Graph<N, E, Ty, Ix>);

#[verifier::external_type_specification]
#[verifier::external_body]
pub struct ExDirected(Directed);

/// A directed graph whose node weights are entity indices and whose edge
/// weights are divergences.
pub type RawGraph = Graph<usize, u64, Directed, u32>;

/// The node weights of a graph, in node index order.
pub uninterp spec fn graph_nodes(g: Graph<usize, u64, Directed, u32>) -> Seq<usize>;

/// The edges of a graph, in edge index order: source, target, weight.
pub uninterp spec fn graph_edges(g: Graph<usize, u64, Directed, u32>) -> Seq<(usize, usize, u64)>;

/// Relies on petgraph's `Graph::new`: it starts with no nodes and no edges.
#[verifier::external_body]
fn new_graph() -> (g: RawGraph)
    ensures
        graph_nodes(g) == Seq::<usize>::empty(),
        graph_edges(g) == Seq::<(usize, usize, u64)>::empty(),
{
    Graph::new()
}

/// Relies on petgraph's `Graph::add_node`: it appends a node, whose index is the
/// former node count; it panics when that index would be `u32::MAX`.
#[verifier::external_body]
fn graph_add_node(g: &mut RawGraph, w: usize) -> (i: usize)
    requires
        graph_nodes(*old(g)).len() < u32::MAX,
    ensures
        graph_nodes(*final(g)) == graph_nodes(*old(g)).push(w),
        graph_edges(*final(g)) == graph_edges(*old(g)),
        i == graph_nodes(*old(g)).len(),
{
    g.add_node(w).index()
}

/// Relies on petgraph's `Graph::add_edge`: it appends an edge; it panics when an
/// endpoint is not a node or the edge index would be `u32::MAX`.
#[verifier::external_body]
fn graph_add_edge(g: &mut RawGraph, a: usize, b: usize, w: u64)
    requires
        a < graph_nodes(*old(g)).len(),
        b < graph_nodes(*old(g)).len(),
        graph_edges(*old(g)).len() < u32::MAX,
    ensures
        graph_nodes(*final(g)) == graph_nodes(*old(g)),
        graph_edges(*final(g)) == graph_edges(*old(g)).push((a, b, w)),
{
    g.add_edge(NodeIndex::new(a), NodeIndex::new(b), w);
}

/// Relies on petgraph's `Graph::node_count`: the number of nodes.
#[verifier::external_body]
fn graph_node_count(g: &RawGraph) -> (r: usize)
    ensures
        r == graph_nodes(*g).len(),
{
    g.node_count()
}

/// Relies on petgraph's `Graph::edge_count`: the number of edges.
#[verifier::external_body]
fn graph_edge_count(g: &RawGraph) -> (r: usize)
    ensures
        r == graph_edges(*g).len(),
{
    g.edge_count()
}

/// Relies on petgraph's indexing of a graph by node: the weight of node `i`.
#[verifier::external_body]
fn graph_node_weight(g: &RawGraph, i: usize) -> (r: usize)
    requires
        i < graph_nodes(*g).len(),
    ensures
        r == graph_nodes(*g)[i as int],
{
    g[NodeIndex::new(i)]
}

/// Relies on petgraph's `Graph::raw_edges`: the edge list in index order.
#[verifier::external_body]
fn graph_edge(g: &RawGraph, e: usize) -> (r: (usize, usize, u64))
    requires
        e < graph_edges(*g).len(),
    ensures
        r == graph_edges(*g)[e as int],
{
    let edge = &g.raw_edges()[e];
    (edge.source().index(), edge.target().index(), edge.weight)
}

/// Divergence, in feature units, above which two songs are joined by an edge.
pub const THRESHOLD: u64 = 750_000;

/// The divergence of two songs, rounded down to a whole feature unit as
/// `Song::similarity` gives it, exceeds the edge threshold.
pub open spec fn diverges(a: SongView, b: SongView) -> bool {
    sq_dist(a.point, b.point) >= (THRESHOLD + 1) * (THRESHOLD + 1)
}

/// A rounded-down divergence exceeds the threshold exactly when its square
/// reaches the square of the next unit.
pub proof fn lemma_rounded_exceeds(w: nat, s: nat)
    requires
        is_floor_sqrt(w, s),
    ensures
        (w > THRESHOLD) == (s >= (THRESHOLD + 1) * (THRESHOLD + 1)),
{
    let t: nat = (THRESHOLD + 1) as nat;
    if w >= t {
        assert(w * w >= t * t) by (nonlinear_arith)
            requires w >= t;
    } else {
        assert((w + 1) * (w + 1) <= t * t) by (nonlinear_arith)
            requires w + 1 <= t;
    }
}

/// The positions `y < m` other than `x` whose songs diverge from that of `x`
/// beyond the threshold, in increasing order.
pub open spec fn row_targets(songs: Seq<Song>, x: int, m: nat) -> Seq<int>
    decreases m,
{
    if m == 0 {
        Seq::empty()
    } else {
        let r = row_targets(songs, x, (m - 1) as nat);
        if m - 1 != x && diverges(songs[x]@, songs[m - 1]@) {
            r.push(m - 1)
        } else {
            r
        }
    }
}

/// The ordered pairs of positions, with first position below `a`, whose songs
/// diverge beyond the threshold, in row-major order.
pub open spec fn pairs_below(songs: Seq<Song>, a: nat) -> Seq<(int, int)>
    decreases a,
{
    if a == 0 {
        Seq::empty()
    } else {
        pairs_below(songs, (a - 1) as nat) + row_targets(songs, a - 1, songs.len()).map_values(
            |y: int| ((a - 1) as int, y),
        )
    }
}

/// All ordered pairs of distinct positions whose songs diverge beyond the
/// threshold, in row-major order.
pub open spec fn qualifying_pairs(songs: Seq<Song>) -> Seq<(int, int)> {
    pairs_below(songs, songs.len())
}

/// `p` comes before `q` in row-major order.
pub open spec fn row_major_lt(p: (int, int), q: (int, int)) -> bool {
    p.0 < q.0 || (p.0 == q.0 && p.1 < q.1)
}

/// Pairs `(xs[e], ys[e])`.
pub open spec fn zip_pairs(xs: Seq<int>, ys: Seq<int>) -> Seq<(int, int)> {
    Seq::new(xs.len(), |e: int| (xs[e], ys[e]))
}

/// A row lists, in increasing order, exactly the qualifying positions below `m`.
proof fn lemma_row_targets(songs: Seq<Song>, x: int, m: nat)
    ensures
        forall|k: int| 0 <= k < row_targets(songs, x, m).len() ==> {
            let y = #[trigger] row_targets(songs, x, m)[k];
            0 <= y < m && y != x && diverges(songs[x]@, songs[y]@)
        },
        forall|i: int, j: int| 0 <= i < j < row_targets(songs, x, m).len() ==> row_targets(songs, x, m)[i]
            < row_targets(songs, x, m)[j],
        forall|y: int|
            0 <= y < m && y != x && diverges(songs[x]@, songs[y]@) ==> #[trigger] row_targets(
                songs,
                x,
                m,
            ).contains(y),
    decreases m,
{
    if m > 0 {
        lemma_row_targets(songs, x, (m - 1) as nat);
        let r = row_targets(songs, x, (m - 1) as nat);
        let s = row_targets(songs, x, m);
        assert(s == if m - 1 != x && diverges(songs[x]@, songs[m - 1]@) {
            r.push(m - 1)
        } else {
            r
        });
        assert forall|y: int| 0 <= y < m && y != x && diverges(songs[x]@, songs[y]@) implies #[trigger] s.contains(y) by {
            if y < m - 1 {
                assert(r.contains(y));
                let k = choose|k: int| 0 <= k < r.len() && r[k] == y;
                assert(s[k] == y);
            } else {
                assert(s[s.len() - 1] == y);
            }
        }
        assert forall|k: int| 0 <= k < s.len() implies {
            let y = #[trigger] s[k];
            0 <= y < m && y != x && diverges(songs[x]@, songs[y]@)
        } by {
            if k < r.len() {
                assert(s[k] == r[k]);
            }
        }
        assert forall|i: int, j: int| 0 <= i < j < s.len() implies s[i] < s[j] by {
            assert(s[i] == r[i]);
            if j < r.len() {
                assert(s[j] == r[j]);
            }
        }
    }
}

/// The pairs below row `a` are in strictly increasing row-major order, and are
/// exactly the qualifying pairs with first position below `a`.
proof fn lemma_pairs_below(songs: Seq<Song>, a: nat)
    requires
        a <= songs.len(),
    ensures
        forall|k: int| 0 <= k < pairs_below(songs, a).len() ==> {
            let p = #[trigger] pairs_below(songs, a)[k];
            0 <= p.0 < a && 0 <= p.1 < songs.len() && p.0 != p.1 && diverges(songs[p.0]@, songs[p.1]@)
        },
        forall|i: int, j: int|
            0 <= i < j < pairs_below(songs, a).len() ==> row_major_lt(#[trigger] pairs_below(songs, a)[i], #[trigger] pairs_below(songs, a)[j]),
        forall|x: int, y: int|
            0 <= x < a && 0 <= y < songs.len() && x != y && diverges(songs[x]@, songs[y]@)
                ==> #[trigger] pairs_below(songs, a).contains((x, y)),
    decreases a,
{
    if a > 0 {
        let x0 = a - 1;
        lemma_pairs_below(songs, (a - 1) as nat);
        lemma_row_targets(songs, x0, songs.len());
        let r = pairs_below(songs, (a - 1) as nat);
        let row = row_targets(songs, x0, songs.len());
        let tail = row.map_values(|y: int| (x0, y));
        let s = pairs_below(songs, a);
        assert(s == r + tail);
        assert forall|k: int| 0 <= k < s.len() implies {
            let p = #[trigger] s[k];
            0 <= p.0 < a && 0 <= p.1 < songs.len() && p.0 != p.1 && diverges(songs[p.0]@, songs[p.1]@)
        } by {
            if k < r.len() {
                assert(s[k] == r[k]);
            } else {
                assert(s[k] == tail[k - r.len()]);
                assert(tail[k - r.len()] == (x0, row[k - r.len()]));
            }
        }
        assert forall|i: int, j: int| 0 <= i < j < s.len() implies row_major_lt(#[trigger] s[i], #[trigger] s[j]) by {
            if j < r.len() {
                assert(s[i] == r[i] && s[j] == r[j]);
            } else if i < r.len() {
                assert(s[i] == r[i]);
                assert(s[j] == tail[j - r.len()]);
                assert(tail[j - r.len()] == (x0, row[j - r.len()]));
            } else {
                assert(s[i] == tail[i - r.len()]);
                assert(s[j] == tail[j - r.len()]);
                assert(tail[i - r.len()] == (x0, row[i - r.len()]));
                assert(tail[j - r.len()] == (x0, row[j - r.len()]));
            }
        }
        assert forall|x: int, y: int|
            0 <= x < a && 0 <= y < songs.len() && x != y && diverges(songs[x]@, songs[y]@) implies #[trigger] s.contains(
            (x, y),
        ) by {
            if x < x0 {
                assert(r.contains((x, y)));
                let k = choose|k: int| 0 <= k < r.len() && r[k] == (x, y);
                assert(s[k] == (x, y));
            } else {
                assert(row.contains(y));
                let k = choose|k: int| 0 <= k < row.len() && row[k] == y;
                assert(tail[k] == (x, y));
                assert(s[r.len() + k] == (x, y));
            }
        }
    }
}

/// The qualifying pairs are each qualifying ordered pair of distinct positions,
/// once each, in strictly increasing row-major order.
pub proof fn lemma_qualifying_pairs(songs: Seq<Song>)
    ensures
        forall|x: int, y: int|
            #[trigger] qualifying_pairs(songs).contains((x, y)) <==> (0 <= x < songs.len() && 0 <= y < songs.len() && x
                != y && diverges(songs[x]@, songs[y]@)),
        forall|i: int, j: int|
            0 <= i < j < qualifying_pairs(songs).len() ==> row_major_lt(#[trigger] qualifying_pairs(songs)[i], #[trigger] qualifying_pairs(songs)[j]),
{
    lemma_pairs_below(songs, songs.len());
    let s = qualifying_pairs(songs);
    assert forall|x: int, y: int| s.contains((x, y)) implies (0 <= x < songs.len() && 0 <= y < songs.len() && x
        != y && diverges(songs[x]@, songs[y]@)) by {
        let k = choose|k: int| 0 <= k < s.len() && s[k] == (x, y);
        assert(s[k] == (x, y));
    }
}

/// The views of a list of songs.
pub open spec fn song_views(s: Seq<Song>) -> Seq<SongView> {
    s.map_values(|x: Song| x@)
}

/// The distinct values of a sequence, each at its first occurrence.
pub open spec fn first_seen(s: Seq<SongView>) -> Seq<SongView>
    decreases s.len(),
{
    if s.len() == 0 {
        Seq::empty()
    } else {
        let r = first_seen(s.drop_last());
        if r.contains(s.last()) {
            r
        } else {
            r.push(s.last())
        }
    }
}

/// No value occurs twice.
pub open spec fn all_distinct(s: Seq<SongView>) -> bool {
    forall|i: int, j: int| 0 <= i < j < s.len() ==> s[i] != s[j]
}

/// A graph over a registry of distinct songs: node `j` stands for `entities[j]`.
pub struct SongGraph {
    pub entities: Vec<Song>,
    pub graph: RawGraph,
}

impl SongGraph {
    /// Node weights, in node order.
    pub open spec fn nodes(&self) -> Seq<usize> {
        graph_nodes(self.graph)
    }

    /// Edges, in edge order: source node, target node, divergence.
    pub open spec fn edges(&self) -> Seq<(usize, usize, u64)> {
        graph_edges(self.graph)
    }

    /// The registry's songs, as values.
    pub open spec fn entity_views(&self) -> Seq<SongView> {
        song_views(self.entities@)
    }

    /// One node per registered song, each weighted by its own index; songs are
    /// distinct; edges join nodes of the graph.
    pub open spec fn wf(&self) -> bool {
        &&& self.nodes().len() == self.entities@.len()
        &&& self.entities@.len() < u32::MAX
        &&& forall|j: int| 0 <= j < self.nodes().len() ==> self.nodes()[j] == j
        &&& all_distinct(self.entity_views())
        &&& forall|e: int|
            0 <= e < self.edges().len() ==> self.edges()[e].0 < self.entities@.len()
                && self.edges()[e].1 < self.entities@.len()
    }

    /// Edge `e` joins the nodes of songs `a` and `b`, whose divergence exceeds
    /// the threshold, and carries that divergence.
    pub open spec fn edge_joins(&self, e: int, a: SongView, b: SongView) -> bool {
        &&& 0 <= e < self.edges().len()
        &&& self.entity_views()[self.edges()[e].0 as int] == a
        &&& self.entity_views()[self.edges()[e].1 as int] == b
        &&& diverges(a, b)
        &&& is_floor_sqrt(self.edges()[e].2 as nat, sq_dist(a.point, b.point))
    }

    /// Each edge joins two nodes whose songs diverge beyond the threshold, and
    /// carries that divergence.
    pub open spec fn edges_justified(&self) -> bool {
        forall|e: int|
            #![trigger self.edges()[e]]
            0 <= e < self.edges().len() ==> {
                let a = self.entity_views()[self.edges()[e].0 as int];
                let b = self.entity_views()[self.edges()[e].1 as int];
                diverges(a, b) && is_floor_sqrt(self.edges()[e].2 as nat, sq_dist(a.point, b.point))
            }
    }

    /// Each pair of distinct positions of `songs` whose songs diverge beyond the
    /// threshold has an edge.
    pub open spec fn pairs_have_edges(&self, songs: Seq<Song>) -> bool {
        forall|a: int, b: int|
            0 <= a < songs.len() && 0 <= b < songs.len() && a != b && diverges(songs[a]@, songs[b]@)
                ==> exists|e: int| #[trigger] self.edge_joins(e, songs[a]@, songs[b]@)
    }

    /// Number of nodes.
    pub fn node_count(&self) -> (r: usize)
        ensures
            r == self.nodes().len(),
    {
        graph_node_count(&self.graph)
    }

    /// Number of edges.
    pub fn edge_count(&self) -> (r: usize)
        ensures
            r == self.edges().len(),
    {
        graph_edge_count(&self.graph)
    }

    /// Edge `e`: source node, target node, divergence.
    pub fn edge(&self, e: usize) -> (r: (usize, usize, u64))
        requires
            e < self.edges().len(),
        ensures
            r == self.edges()[e as int],
    {
        graph_edge(&self.graph, e)
    }

    /// The song that node `i` stands for.
    pub fn song(&self, i: usize) -> (r: &Song)
        requires
            self.wf(),
            i < self.nodes().len(),
        ensures
            r == self.entities@[i as int],
    {
        let k = graph_node_weight(&self.graph, i);
        &self.entities[k]
    }
}

/// Index of the registered song equal to `s`, if any.
fn find_entity(entities: &Vec<Song>, s: &Song) -> (r: Option<usize>)
    ensures
        match r {
            Some(j) => j < entities@.len() && entities@[j as int]@ == s@,
            None => !song_views(entities@).contains(s@),
        },
{
    let mut j: usize = 0;
    while j < entities.len()
        invariant
            j <= entities@.len(),
            forall|t: int| 0 <= t < j ==> entities@[t]@ != s@,
        decreases entities@.len() - j,
    {
        if entities[j].same_as(s) {
            return Some(j);
        }
        j = j + 1;
    }
    proof {
        if song_views(entities@).contains(s@) {
            let t = choose|t: int| 0 <= t < song_views(entities@).len() && song_views(entities@)[t] == s@;
            assert(entities@[t]@ == s@);
        }
    }
    None
}


/// Registers each distinct song once, in the order of first occurrence, with a
/// node of its own; `node_of[i]` is the node of `songs[i]`.
fn register_songs(songs: &Vec<Song>) -> (r: (Vec<Song>, RawGraph, Vec<usize>))
    requires
        songs@.len() < u32::MAX,
    ensures
        song_views(r.0@) == first_seen(song_views(songs@)),
        all_distinct(song_views(r.0@)),
        r.0@.len() <= songs@.len(),
        graph_nodes(r.1).len() == r.0@.len(),
        forall|j: int| 0 <= j < graph_nodes(r.1).len() ==> graph_nodes(r.1)[j] == j,
        graph_edges(r.1) == Seq::<(usize, usize, u64)>::empty(),
        r.2@.len() == songs@.len(),
        forall|t: int|
            #![trigger r.2@[t]]
            0 <= t < songs@.len() ==> r.2@[t] < r.0@.len() && r.0@[r.2@[t] as int]@ == songs@[t]@,
{
    let n = songs.len();
    let mut entities: Vec<Song> = Vec::new();
    let mut graph = new_graph();
    let mut node_of: Vec<usize> = Vec::new();
    let mut i: usize = 0;
    while i < n
        invariant
            n == songs@.len(),
            n < u32::MAX,
            i <= n,
            node_of@.len() == i,
            song_views(entities@) == first_seen(song_views(songs@).take(i as int)),
            all_distinct(song_views(entities@)),
            entities@.len() <= i,
            graph_nodes(graph).len() == entities@.len(),
            forall|j: int| 0 <= j < graph_nodes(graph).len() ==> graph_nodes(graph)[j] == j,
            graph_edges(graph) == Seq::<(usize, usize, u64)>::empty(),
            forall|t: int|
                0 <= t < i ==> node_of@[t] < entities@.len() && entities@[node_of@[t] as int]@
                    == songs@[t]@,
        decreases n - i,
    {
        let s = &songs[i];
        let ghost prefix = song_views(songs@).take(i as int);
        proof {
            assert(song_views(songs@).take(i + 1).drop_last() =~= prefix);
            assert(song_views(songs@).take(i + 1).last() == s@);
        }
        match find_entity(&entities, s) {
            Some(j) => {
                assert(song_views(entities@)[j as int] == s@);
                node_of.push(j);
            },
            None => {
                let ghost old_views = song_views(entities@);
                let k = graph_add_node(&mut graph, entities.len());
                entities.push(s.copied());
                proof {
                    assert(song_views(entities@) =~= old_views.push(s@));
                    assert forall|a: int, b: int|
                        0 <= a < b < song_views(entities@).len() implies song_views(entities@)[a]
                        != song_views(entities@)[b] by {
                        if b == entities@.len() - 1 {
                            assert(old_views[a] == song_views(entities@)[a]);
                            assert(old_views.contains(old_views[a]));
                        } else {
                            assert(old_views[a] == song_views(entities@)[a]);
                            assert(old_views[b] == song_views(entities@)[b]);
                        }
                    }
                }
                node_of.push(k);
            },
        }
        i = i + 1;
    }
    proof {
        assert(song_views(songs@).take(n as int) == song_views(songs@));
    }
    (entities, graph, node_of)
}

/// Adds the edges of row `a`: for each other position `b` whose song diverges
/// from that of `a` beyond the threshold, an edge between their nodes. The
/// returned positions are the `b` of each added edge, in order.
fn add_row(graph: &mut RawGraph, songs: &Vec<Song>, node_of: &Vec<usize>, a: usize) -> (ys: Ghost<
    Seq<int>,
>)
    requires
        a < songs@.len(),
        node_of@.len() == songs@.len(),
        forall|x: int| 0 <= x < songs@.len() ==> node_of@[x] < graph_nodes(*old(graph)).len(),
        graph_edges(*old(graph)).len() + songs@.len() < u32::MAX,
    ensures
        graph_nodes(*final(graph)) == graph_nodes(*old(graph)),
        graph_edges(*final(graph)).len() == graph_edges(*old(graph)).len() + ys@.len(),
        ys@.len() <= songs@.len(),
        ys@ == row_targets(songs@, a as int, songs@.len()),
        forall|e: int|
            0 <= e < graph_edges(*old(graph)).len() ==> graph_edges(*final(graph))[e]
                == graph_edges(*old(graph))[e],
        forall|k: int|
            0 <= k < ys@.len() ==> 0 <= ys@[k] < songs@.len() && ys@[k] != a && edge_of(
                graph_edges(*final(graph))[graph_edges(*old(graph)).len() + k],
                node_of@,
                songs@,
                a as int,
                ys@[k],
            ),
        forall|y: int|
            0 <= y < songs@.len() && y != a && diverges(songs@[a as int]@, songs@[y]@) ==> exists|
                e: int,
            |
                0 <= e < graph_edges(*final(graph)).len() && #[trigger] edge_of(
                    graph_edges(*final(graph))[e],
                    node_of@,
                    songs@,
                    a as int,
                    y,
                ),
{
    let n = songs.len();
    let ghost start = graph_edges(*graph);
    let ghost mut ys: Seq<int> = Seq::empty();
    let mut b: usize = 0;
    while b < n
        invariant
            n == songs@.len(),
            a < n,
            b <= n,
            node_of@.len() == n,
            forall|x: int| 0 <= x < n ==> node_of@[x] < graph_nodes(*graph).len(),
            graph_nodes(*graph) == graph_nodes(*old(graph)),
            start == graph_edges(*old(graph)),
            ys == row_targets(songs@, a as int, b as nat),
            start.len() + n < u32::MAX,
            graph_edges(*graph).len() == start.len() + ys.len(),
            ys.len() <= b,
            forall|e: int| 0 <= e < start.len() ==> graph_edges(*graph)[e] == start[e],
            forall|k: int|
                0 <= k < ys.len() ==> 0 <= ys[k] < n && ys[k] != a && edge_of(
                    graph_edges(*graph)[start.len() + k],
                    node_of@,
                    songs@,
                    a as int,
                    ys[k],
                ),
            forall|y: int|
                0 <= y < b && y != a && diverges(songs@[a as int]@, songs@[y]@) ==> exists|e: int|
                    0 <= e < graph_edges(*graph).len() && #[trigger] edge_of(
                        graph_edges(*graph)[e],
                        node_of@,
                        songs@,
                        a as int,
                        y,
                    ),
        decreases n - b,
    {
        assert(row_targets(songs@, a as int, (b + 1) as nat) == if b != a && diverges(
            songs@[a as int]@,
            songs@[b as int]@,
        ) {
            row_targets(songs@, a as int, b as nat).push(b as int)
        } else {
            row_targets(songs@, a as int, b as nat)
        });
        if a != b {
            let sq = squared_divergence(&songs[a].point(), &songs[b].point());
            let w = floor_sqrt(sq);
            proof {
                lemma_rounded_exceeds(w as nat, sq as nat);
            }
            if w > THRESHOLD {
                let ghost before = graph_edges(*graph);
                graph_add_edge(graph, node_of[a], node_of[b], w);
                proof {
                    let edges = graph_edges(*graph);
                    assert(edge_of(edges[before.len() as int], node_of@, songs@, a as int, b as int));
                    let ghost old_ys = ys;
                    ys = ys.push(b as int);
                    assert forall|k: int| 0 <= k < ys.len() implies 0 <= ys[k] < n && ys[k] != a
                        && edge_of(edges[start.len() + k], node_of@, songs@, a as int, ys[k]) by {
                        if k < old_ys.len() {
                            assert(edges[start.len() + k] == before[start.len() + k]);
                        }
                    }
                    assert forall|y: int|
                        0 <= y < b + 1 && y != a && diverges(songs@[a as int]@, songs@[y]@) implies exists|e: int|
                        0 <= e < edges.len() && #[trigger] edge_of(edges[e], node_of@, songs@, a as int, y) by {
                        if y == b {
                            assert(edge_of(edges[before.len() as int], node_of@, songs@, a as int, y));
                        } else {
                            let e = choose|e: int| 0 <= e < before.len() && #[trigger] edge_of(
                                before[e], node_of@, songs@, a as int, y);
                            assert(edges[e] == before[e]);
                        }
                    }
                }
            }
        }
        b = b + 1;
    }
    Ghost(ys)
}

/// Adds the edges of every row; `xs[e]` and `ys[e]` are the positions whose
/// pair gave edge `e`.
fn add_all_rows(graph: &mut RawGraph, songs: &Vec<Song>, node_of: &Vec<usize>) -> (w: Ghost<
    (Seq<int>, Seq<int>),
>)
    requires
        songs@.len() <= 65535,
        node_of@.len() == songs@.len(),
        forall|x: int| 0 <= x < songs@.len() ==> node_of@[x] < graph_nodes(*old(graph)).len(),
        graph_edges(*old(graph)) == Seq::<(usize, usize, u64)>::empty(),
    ensures
        graph_nodes(*final(graph)) == graph_nodes(*old(graph)),
        w@.0.len() == graph_edges(*final(graph)).len(),
        w@.1.len() == graph_edges(*final(graph)).len(),
        zip_pairs(w@.0, w@.1) == qualifying_pairs(songs@),
        forall|e: int|
            0 <= e < graph_edges(*final(graph)).len() ==> 0 <= w@.0[e] < songs@.len() && 0 <= w@.1[e]
                < songs@.len() && w@.0[e] != w@.1[e] && edge_of(
                graph_edges(*final(graph))[e],
                node_of@,
                songs@,
                w@.0[e],
                w@.1[e],
            ),
        forall|x: int, y: int|
            0 <= x < songs@.len() && 0 <= y < songs@.len() && x != y && diverges(songs@[x]@, songs@[y]@)
                ==> exists|e: int|
                0 <= e < graph_edges(*final(graph)).len() && #[trigger] edge_of(
                    graph_edges(*final(graph))[e],
                    node_of@,
                    songs@,
                    x,
                    y,
                ),
{
    let n = songs.len();
    let ghost mut xs: Seq<int> = Seq::empty();
    let ghost mut ys: Seq<int> = Seq::empty();
    let mut a: usize = 0;
    while a < n
        invariant
            n == songs@.len(),
            n <= 65535,
            a <= n,
            node_of@.len() == n,
            graph_nodes(*graph) == graph_nodes(*old(graph)),
            forall|x: int| 0 <= x < n ==> node_of@[x] < graph_nodes(*graph).len(),
            graph_edges(*graph).len() <= a * n,
            xs.len() == graph_edges(*graph).len(),
            zip_pairs(xs, ys) == pairs_below(songs@, a as nat),
            ys.len() == graph_edges(*graph).len(),
            forall|e: int|
                0 <= e < graph_edges(*graph).len() ==> 0 <= xs[e] < n && 0 <= ys[e] < n && xs[e]
                    != ys[e] && edge_of(graph_edges(*graph)[e], node_of@, songs@, xs[e], ys[e]),
            forall|x: int, y: int|
                0 <= x < a && 0 <= y < n && x != y && diverges(songs@[x]@, songs@[y]@)
                    ==> exists|e: int|
                    0 <= e < graph_edges(*graph).len() && #[trigger] edge_of(
                        graph_edges(*graph)[e],
                        node_of@,
                        songs@,
                        x,
                        y,
                    ),
        decreases n - a,
    {
        let ghost before = graph_edges(*graph);
        assert(a * n + n <= 65535 * 65535) by (nonlinear_arith)
            requires a < n, n <= 65535;
        let row = add_row(graph, songs, &node_of, a);
        proof {
            let edges = graph_edges(*graph);
            let old_xs = xs;
            let old_ys = ys;
            xs = xs + Seq::new(row@.len(), |k: int| a as int);
            ys = ys + row@;
            assert(zip_pairs(xs, ys) =~= zip_pairs(old_xs, old_ys) + row@.map_values(|y: int| (a as int, y)));
            assert(pairs_below(songs@, (a + 1) as nat) == pairs_below(songs@, a as nat) + row_targets(
                songs@, a as int, songs@.len()).map_values(|y: int| (a as int, y)));
            assert forall|e: int| 0 <= e < edges.len() implies 0 <= xs[e] < n && 0 <= ys[e] < n && xs[e]
                != ys[e] && edge_of(edges[e], node_of@, songs@, xs[e], ys[e]) by {
                if e < before.len() {
                    assert(edges[e] == before[e]);
                    assert(xs[e] == old_xs[e] && ys[e] == old_ys[e]);
                } else {
                    let k = e - before.len();
                    assert(ys[e] == row@[k]);
                    assert(xs[e] == a);
                }
            }
            assert forall|x: int, y: int|
                0 <= x < a + 1 && 0 <= y < n && x != y && diverges(songs@[x]@, songs@[y]@) implies exists|e: int|
                0 <= e < edges.len() && #[trigger] edge_of(edges[e], node_of@, songs@, x, y) by {
                if x < a {
                    let e = choose|e: int| 0 <= e < before.len() && #[trigger] edge_of(
                        before[e], node_of@, songs@, x, y);
                    assert(edges[e] == before[e]);
                }
            }
            assert((a + 1) * n == a * n + n) by (nonlinear_arith);
        }
        a = a + 1;
    }
    Ghost((xs, ys))
}

/// Builds the divergence graph of `songs`: one node per distinct song, in the
/// order of first occurrence, and for each ordered pair of positions whose songs
/// diverge by more than the threshold one edge between their nodes, weighted by
/// that divergence, in row-major order of the pairs.
#[verifier::rlimit(60)]
pub fn create_dgraph(songs: &Vec<Song>) -> (g: SongGraph)
    requires
        songs@.len() <= 65535,
    ensures
        g.wf(),
        g.entity_views() == first_seen(song_views(songs@)),
        forall|v: SongView| g.entity_views().contains(v) <==> song_views(songs@).contains(v),
        g.edges_justified(),
        g.pairs_have_edges(songs@),
        g.edges().len() == qualifying_pairs(songs@).len(),
        forall|e: int|
            0 <= e < g.edges().len() ==> g.edge_joins(
                e,
                songs@[qualifying_pairs(songs@)[e].0]@,
                songs@[qualifying_pairs(songs@)[e].1]@,
            ),
{
    let n = songs.len();
    let registered = register_songs(songs);
    let entities = registered.0;
    let mut graph = registered.1;
    let node_of = registered.2;
    let ghost ents = entities@;
    let w = add_all_rows(&mut graph, songs, &node_of);
    let ghost xs = w@.0;
    let ghost ys = w@.1;
    let g = SongGraph { entities, graph };
    proof {
        assert(g.entities@ == ents);
        let views = g.entity_views();
        assert forall|x: int| 0 <= x < n implies node_of@[x] < ents.len() && #[trigger] views[node_of@[x] as int]
            == songs@[x]@ by {
            assert(registered.2@[x] == node_of@[x]);
        }
        assert forall|e: int| 0 <= e < g.edges().len() implies g.edges()[e].0 < ents.len()
            && g.edges()[e].1 < ents.len() by {
            assert(edge_of(g.edges()[e], node_of@, songs@, xs[e], ys[e]));
            assert(views[node_of@[xs[e]] as int] == songs@[xs[e]]@);
            assert(views[node_of@[ys[e]] as int] == songs@[ys[e]]@);
        }
        assert(g.wf());
        assert(views == first_seen(song_views(songs@)));
        lemma_first_seen_distinct(song_views(songs@));
        assert(forall|v: SongView| views.contains(v) <==> song_views(songs@).contains(v));
        assert forall|e: int|
            #![trigger g.edges()[e]]
            0 <= e < g.edges().len() implies g.edge_joins(e, songs@[xs[e]]@, songs@[ys[e]]@) by {
            assert(views[node_of@[xs[e]] as int] == songs@[xs[e]]@);
            assert(views[node_of@[ys[e]] as int] == songs@[ys[e]]@);
        }
        assert forall|e: int| 0 <= e < g.edges().len() implies g.edge_joins(
            e,
            songs@[qualifying_pairs(songs@)[e].0]@,
            songs@[qualifying_pairs(songs@)[e].1]@,
        ) by {
            assert(zip_pairs(xs, ys)[e] == (xs[e], ys[e]));
            assert(views[node_of@[xs[e]] as int] == songs@[xs[e]]@);
            assert(views[node_of@[ys[e]] as int] == songs@[ys[e]]@);
        }
        assert forall|x: int, y: int|
            0 <= x < n && 0 <= y < n && x != y && diverges(songs@[x]@, songs@[y]@) implies exists|e: int|
            #[trigger] g.edge_joins(e, songs@[x]@, songs@[y]@) by {
            let e = choose|e: int| 0 <= e < graph_edges(g.graph).len() && #[trigger] edge_of(
                graph_edges(g.graph)[e], node_of@, songs@, x, y);
            assert(views[node_of@[x] as int] == songs@[x]@);
            assert(views[node_of@[y] as int] == songs@[y]@);
            assert(g.edge_joins(e, songs@[x]@, songs@[y]@));
        }
    }
    g
}

/// Edge `edge` joins the nodes of positions `x` and `y` of `songs` and carries
/// their divergence, which exceeds the threshold.
pub open spec fn edge_of(
    edge: (usize, usize, u64),
    node_of: Seq<usize>,
    songs: Seq<Song>,
    x: int,
    y: int,
) -> bool {
    &&& edge.0 == node_of[x]
    &&& edge.1 == node_of[y]
    &&& diverges(songs[x]@, songs[y]@)
    &&& is_floor_sqrt(edge.2 as nat, sq_dist(songs[x]@.point, songs[y]@.point))
}

/// Each value occurs once in its first occurrences, and they are the values of
/// the sequence.
pub proof fn lemma_first_seen_distinct(s: Seq<SongView>)
    ensures
        all_distinct(first_seen(s)),
        forall|v: SongView| first_seen(s).contains(v) <==> s.contains(v),
    decreases s.len(),
{
    if s.len() > 0 {
        lemma_first_seen_distinct(s.drop_last());
        let r = first_seen(s.drop_last());
        assert forall|v: SongView| first_seen(s).contains(v) <==> s.contains(v) by {
            if s.contains(v) && v != s.last() {
                let k = choose|k: int| 0 <= k < s.len() && s[k] == v;
                assert(s.drop_last()[k] == v);
            }
            if s.drop_last().contains(v) {
                let k = choose|k: int| 0 <= k < s.drop_last().len() && s.drop_last()[k] == v;
                assert(s[k] == v);
            }
            if !r.contains(s.last()) {
                assert(first_seen(s).last() == s.last());
                if first_seen(s).contains(v) && v != s.last() {
                    let k = choose|k: int| 0 <= k < first_seen(s).len() && first_seen(s)[k] == v;
                    assert(r[k] == v);
                }
                if r.contains(v) {
                    let k = choose|k: int| 0 <= k < r.len() && r[k] == v;
                    assert(first_seen(s)[k] == v);
                }
            }
        }
        if !r.contains(s.last()) {
            assert forall|i: int, j: int| 0 <= i < j < first_seen(s).len() implies first_seen(s)[i]
                != first_seen(s)[j] by {
                if j == r.len() {
                    assert(first_seen(s)[i] == r[i]);
                }
            }
        }
    }
}

} // verus!
