use song_clusters::{
    analyze, average_cluster_year, create_dgraph, floor_sqrt, get_unique_clusters, kmeans_cluster,
    kmeans_from_seeds, squared_divergence, Cluster, ClusterError, Point, Song, SongGraph,
};

fn song(name: &str, energy: u32, acoust: u32, valence: u32, year: u32) -> Song {
    Song { name: name.to_string(), energy, acoust, valence, year }
}

fn four_songs() -> Vec<Song> {
    vec![
        song("A", 800_000, 100_000, 900_000, 1965),
        song("B", 820_000, 120_000, 880_000, 1965),
        song("C", 200_000, 800_000, 300_000, 1968),
        song("D", 250_000, 780_000, 280_000, 1969),
    ]
}

fn edges(g: &SongGraph) -> Vec<(usize, usize, u64)> {
    (0..g.edge_count()).map(|e| g.edge(e)).collect()
}

fn members(cs: &[Cluster]) -> Vec<(usize, Vec<usize>)> {
    cs.iter().map(|c| (c.index, c.members.clone())).collect()
}

#[test]
fn divergence_is_zero_on_itself_and_symmetric() {
    let s = four_songs();
    for a in &s {
        assert_eq!(a.similarity(a), 0);
        for b in &s {
            assert_eq!(a.similarity(b), b.similarity(a));
        }
    }
}

#[test]
fn divergence_values_of_the_scenario() {
    let s = four_songs();
    assert_eq!(s[0].similarity(&s[1]), 34_641);
    assert_eq!(s[0].similarity(&s[2]), 1_100_000);
    assert_eq!(s[2].similarity(&s[3]), 57_445);
    let a = Point { energy: 800_000, acoust: 100_000, valence: 900_000 };
    let c = Point { energy: 200_000, acoust: 800_000, valence: 300_000 };
    assert_eq!(squared_divergence(&a, &c), 1_210_000_000_000);
}

#[test]
fn floor_sqrt_rounds_down() {
    assert_eq!(floor_sqrt(0), 0);
    assert_eq!(floor_sqrt(1), 1);
    assert_eq!(floor_sqrt(15), 3);
    assert_eq!(floor_sqrt(16), 4);
    assert_eq!(floor_sqrt(3 * 0xffff_ffff_u128 * 0xffff_ffff_u128), 7_439_101_571);
}

#[test]
fn graph_edges_only_between_diverging_songs() {
    let s = four_songs();
    let g = create_dgraph(&s);
    assert_eq!(g.node_count(), 4);
    let e = edges(&g);
    assert_eq!(e.len(), 8);
    assert!(e.contains(&(0, 2, 1_100_000)));
    assert!(e.contains(&(2, 0, 1_100_000)));
    for (a, b, w) in &e {
        let (a, b) = (*a, *b);
        assert!((a < 2) != (b < 2));
        assert_eq!(*w, g.song(a).similarity(g.song(b)));
    }
    assert!(!e.iter().any(|(a, b, _)| (*a, *b) == (0, 1) || (*a, *b) == (2, 3)));
}

#[test]
fn graph_has_one_node_per_distinct_song() {
    let mut s = four_songs();
    s.push(song("A", 800_000, 100_000, 900_000, 1965));
    s.push(song("C", 200_000, 800_000, 300_000, 1968));
    let g = create_dgraph(&s);
    assert_eq!(g.node_count(), 4);
    let names: Vec<String> = (0..4).map(|i| g.song(i).name.clone()).collect();
    assert_eq!(names, vec!["A", "B", "C", "D"]);
    assert!(edges(&g).iter().all(|(a, b, _)| *a < 4 && *b < 4 && a != b));
}

#[test]
fn scenario_end_to_end() {
    let g = create_dgraph(&four_songs());
    let clusters = kmeans_from_seeds(&g, &vec![0, 2], 5).unwrap();
    assert_eq!(members(&clusters), vec![(0, vec![0, 1]), (1, vec![2, 3])]);
    let unique = get_unique_clusters(&clusters, &g);
    assert_eq!(members(&unique), members(&clusters));
    let avg = average_cluster_year(&unique, &g).unwrap();
    assert_eq!(avg.len(), 2);
    assert_eq!((avg[0].cluster, avg[0].total, avg[0].count), (0, 3930, 2));
    assert_eq!((avg[1].cluster, avg[1].total, avg[1].count), (1, 3937, 2));
    assert_eq!(avg[0].total as f64 / avg[0].count as f64, 1965.0);
    assert_eq!(avg[1].total as f64 / avg[1].count as f64, 1968.5);
}

#[test]
fn too_many_clusters_is_a_configuration_error() {
    let g = create_dgraph(&four_songs());
    assert_eq!(kmeans_cluster(&g, 5, 10, 42).unwrap_err(), ClusterError::Configuration);
    assert_eq!(kmeans_cluster(&g, 0, 10, 42).unwrap_err(), ClusterError::Configuration);
    assert_eq!(kmeans_from_seeds(&g, &vec![0, 4], 3).unwrap_err(), ClusterError::Configuration);
    assert_eq!(kmeans_from_seeds(&g, &vec![], 3).unwrap_err(), ClusterError::Configuration);
}

#[test]
fn empty_input_is_an_error() {
    let g = create_dgraph(&vec![]);
    assert_eq!(g.node_count(), 0);
    assert_eq!(kmeans_cluster(&g, 1, 10, 7).unwrap_err(), ClusterError::EmptyInput);
}

#[test]
fn seeded_clustering_covers_every_node_once() {
    let g = create_dgraph(&four_songs());
    for seed in 0..20u64 {
        let clusters = kmeans_cluster(&g, 2, 10, seed).unwrap();
        let mut all: Vec<usize> = clusters.iter().flat_map(|c| c.members.clone()).collect();
        all.sort();
        assert_eq!(all, vec![0, 1, 2, 3]);
        assert!(clusters.iter().all(|c| c.index < 2 && !c.members.is_empty()));
        let again = kmeans_cluster(&g, 2, 10, seed).unwrap();
        assert_eq!(members(&clusters), members(&again));
    }
}

#[test]
fn repeated_seed_keeps_the_empty_centroid() {
    let g = create_dgraph(&four_songs());
    let clusters = kmeans_from_seeds(&g, &vec![0, 0], 1).unwrap();
    assert_eq!(members(&clusters), vec![(0, vec![0, 1, 2, 3])]);
    let clusters = kmeans_from_seeds(&g, &vec![0, 0], 3).unwrap();
    assert_eq!(members(&clusters), vec![(0, vec![2, 3]), (1, vec![0, 1])]);
}

#[test]
fn zero_iterations_give_no_clusters() {
    let g = create_dgraph(&four_songs());
    assert!(kmeans_from_seeds(&g, &vec![0, 2], 0).unwrap().is_empty());
}

#[test]
fn dedupe_drops_same_features_and_is_idempotent() {
    let s = vec![
        song("A", 800_000, 100_000, 900_000, 1965),
        song("A take 2", 800_000, 100_000, 900_000, 1966),
        song("B", 820_000, 120_000, 880_000, 1965),
    ];
    let g = create_dgraph(&s);
    assert_eq!(g.node_count(), 3);
    let clusters = vec![Cluster { index: 4, members: vec![1, 0, 2, 0] }];
    let once = get_unique_clusters(&clusters, &g);
    assert_eq!(members(&once), vec![(4, vec![1, 2])]);
    let twice = get_unique_clusters(&once, &g);
    assert_eq!(members(&twice), members(&once));
}

#[test]
fn singleton_average_is_the_year() {
    let g = create_dgraph(&four_songs());
    let avg = average_cluster_year(&vec![Cluster { index: 1, members: vec![3] }], &g).unwrap();
    assert_eq!((avg[0].cluster, avg[0].total, avg[0].count), (1, 1969, 1));
}

#[test]
fn empty_cluster_is_degenerate() {
    let g = create_dgraph(&four_songs());
    let cs = vec![
        Cluster { index: 0, members: vec![0] },
        Cluster { index: 3, members: vec![] },
    ];
    assert_eq!(
        average_cluster_year(&cs, &g).unwrap_err(),
        ClusterError::DegenerateCluster { cluster: 3 }
    );
}

#[test]
fn analyze_runs_every_stage() {
    let a = analyze(&four_songs(), 2, 10, 3).unwrap();
    assert_eq!(a.graph.node_count(), 4);
    assert_eq!(a.graph.edge_count(), 8);
    let mut all: Vec<usize> = a.clusters.iter().flat_map(|c| c.members.clone()).collect();
    all.sort();
    assert_eq!(all, vec![0, 1, 2, 3]);
    assert_eq!(a.averages.len(), a.clusters.len());
    let total: u128 = a.averages.iter().map(|x| x.total).sum();
    assert_eq!(total, 1965 + 1965 + 1968 + 1969);
}

#[test]
fn analyze_reports_configuration_and_empty_input() {
    assert_eq!(analyze(&four_songs(), 5, 10, 1).err(), Some(ClusterError::Configuration));
    assert_eq!(analyze(&vec![], 1, 10, 1).err(), Some(ClusterError::EmptyInput));
    let same = vec![song("A", 1, 2, 3, 1970), song("A", 1, 2, 3, 1970)];
    assert_eq!(analyze(&same, 2, 10, 1).err(), Some(ClusterError::Configuration));
    assert_eq!(analyze(&same, 1, 10, 1).unwrap().averages[0].total, 1970);
}

#[test]
fn edge_test_uses_the_rounded_divergence() {
    let s = vec![song("O", 0, 0, 0, 1960), song("P", 750_000, 1, 0, 1961)];
    assert_eq!(s[0].similarity(&s[1]), 750_000);
    let g = create_dgraph(&s);
    assert_eq!(g.edge_count(), 0);
    let s = vec![song("O", 0, 0, 0, 1960), song("Q", 750_001, 0, 0, 1961)];
    let g = create_dgraph(&s);
    assert_eq!(edges(&g), vec![(0, 1, 750_001), (1, 0, 750_001)]);
}

#[test]
fn one_edge_per_qualifying_position_pair_in_row_major_order() {
    let s = vec![
        song("A", 800_000, 100_000, 900_000, 1965),
        song("C", 200_000, 800_000, 300_000, 1968),
        song("A", 800_000, 100_000, 900_000, 1965),
    ];
    let g = create_dgraph(&s);
    assert_eq!(g.node_count(), 2);
    assert_eq!(
        edges(&g),
        vec![(0, 1, 1_100_000), (1, 0, 1_100_000), (1, 0, 1_100_000), (0, 1, 1_100_000)]
    );
    let g4 = create_dgraph(&four_songs());
    assert_eq!(
        edges(&g4).iter().map(|(a, b, _)| (*a, *b)).collect::<Vec<_>>(),
        vec![(0, 2), (0, 3), (1, 2), (1, 3), (2, 0), (2, 1), (3, 0), (3, 1)]
    );
}
