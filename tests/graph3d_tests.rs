use neon_graph::graph3d::{
    build_all_pairs_edges, clamp_cross_adjacent, clamp_neighbors, clamp_node_count, cloud_edges, shell_edges,
    shell_index, shell_slots, sphere_edges, Edge3, EdgeKind3, SPHERE_STREAM,
};
use neon_graph::rng::Lcg;
use std::collections::HashSet;

/// Distance keys of nodes laid out on a line: `|i - j|`.
fn line(n: usize) -> Vec<Vec<u32>> {
    (0..n).map(|i| (0..n).map(|j| (i as i64 - j as i64).unsigned_abs() as u32).collect()).collect()
}

/// Distance keys of scattered nodes: squared distances of integer points.
fn scattered(seed: u64, n: usize) -> Vec<Vec<u32>> {
    let mut rng = Lcg::new(seed);
    let pts: Vec<(i64, i64, i64)> = (0..n)
        .map(|_| ((rng.next_u32() % 100) as i64, (rng.next_u32() % 100) as i64, (rng.next_u32() % 100) as i64))
        .collect();
    pts.iter()
        .map(|a| {
            pts.iter()
                .map(|b| ((a.0 - b.0).pow(2) + (a.1 - b.1).pow(2) + (a.2 - b.2).pow(2)) as u32)
                .collect()
        })
        .collect()
}

/// The `k` nearest of the candidates, by key and then by index.
fn nearest(keys: &[u32], cands: &[usize], k: usize) -> Vec<usize> {
    let mut d: Vec<(u32, usize)> = cands.iter().map(|&j| (keys[j], j)).collect();
    d.sort();
    d.into_iter().take(k).map(|(_, j)| j).collect()
}

fn canon(a: usize, b: usize) -> (u32, u32) {
    (a.min(b) as u32, a.max(b) as u32)
}

fn pairs(edges: &[Edge3], kind: EdgeKind3) -> HashSet<(u32, u32)> {
    edges.iter().filter(|e| e.kind == kind).map(|e| (e.a, e.b)).collect()
}

fn assert_well_formed(edges: &[Edge3], n: usize) {
    let mut seen = HashSet::new();
    for e in edges {
        assert!(e.a < e.b, "edge {:?} not canonical", e);
        assert!((e.b as usize) < n);
        assert!(seen.insert(*e), "edge {:?} repeated", e);
    }
}

#[test]
fn clamps_follow_their_bounds() {
    assert_eq!(clamp_node_count(0), 4);
    assert_eq!(clamp_node_count(3), 4);
    assert_eq!(clamp_node_count(240), 240);
    assert_eq!(clamp_neighbors(0), 1);
    assert_eq!(clamp_neighbors(5), 5);
    assert_eq!(clamp_neighbors(13), 12);
    assert_eq!(clamp_cross_adjacent(1), 1);
    assert_eq!(clamp_cross_adjacent(9), 3);
}

#[test]
fn sphere_nearest_neighbour_on_a_line() {
    let edges = sphere_edges(123, &line(6), 1, 0);
    let expected: HashSet<(u32, u32)> = [(0, 1), (1, 2), (2, 3), (3, 4), (4, 5)].into_iter().collect();
    assert_eq!(pairs(&edges, EdgeKind3::Mesh), expected);
    assert_eq!(edges.len(), 5);
    assert_well_formed(&edges, 6);
}

#[test]
fn sphere_neighbour_count_is_clamped() {
    assert_eq!(pairs(&sphere_edges(1, &line(6), 0, 0), EdgeKind3::Mesh), pairs(&sphere_edges(1, &line(6), 1, 0), EdgeKind3::Mesh));
    let all = sphere_edges(1, &line(6), 100, 0);
    assert_eq!(all.len(), 15);
    let edges = sphere_edges(1, &line(20), 100, 0);
    for i in 0..20u32 {
        let degree = edges.iter().filter(|e| e.a == i || e.b == i).count();
        assert!(degree >= 12);
    }
}

#[test]
fn sphere_edges_match_the_reference_selection() {
    let n = 64;
    let dist = scattered(9, n);
    let edges = sphere_edges(123, &dist, 4, 6);
    let mut expected = HashSet::new();
    for i in 0..n {
        let cands: Vec<usize> = (0..n).filter(|&j| j != i).collect();
        for j in nearest(&dist[i], &cands, 4) {
            expected.insert(canon(i, j));
        }
    }
    let mut rng = Lcg::new(123 ^ SPHERE_STREAM);
    for _ in 0..6 {
        let (a, b) = rng.pick_pair(n);
        expected.insert(canon(a, b));
    }
    assert_eq!(pairs(&edges, EdgeKind3::Mesh), expected);
    assert!(pairs(&edges, EdgeKind3::Extra).is_empty());
    assert_well_formed(&edges, n);
    assert_eq!(sphere_edges(123, &dist, 4, 6), edges);
}

#[test]
fn cloud_edges_match_the_reference_selection() {
    let n = 60;
    let dist = scattered(20250909, n);
    let mut rng = Lcg::new(77);
    let mut reference = rng.clone();
    let edges = cloud_edges(&mut rng, &dist, 5, 3, 4);
    let all = |i: usize| -> Vec<usize> { (0..n).filter(|&j| j != i).collect() };
    let mut mesh = HashSet::new();
    for i in 0..n {
        for j in nearest(&dist[i], &all(i), 5) {
            mesh.insert(canon(i, j));
        }
    }
    for _ in 0..3 {
        let h = reference.pick_usize(n);
        for j in nearest(&dist[h], &all(h), 9) {
            mesh.insert(canon(h, j));
        }
    }
    let mut extra = HashSet::new();
    for _ in 0..4 {
        let (a, b) = reference.pick_pair(n);
        extra.insert(canon(a, b));
    }
    assert_eq!(pairs(&edges, EdgeKind3::Mesh), mesh);
    assert_eq!(pairs(&edges, EdgeKind3::Extra), extra);
    assert_well_formed(&edges, n);
    assert_eq!(rng.next_u32(), reference.next_u32());
}

#[test]
fn shell_edges_match_the_reference_selection() {
    let n = 80;
    let shells = 4;
    let dist = scattered(4242, n);
    let mut layer_rng = Lcg::new(1);
    let layer: Vec<usize> = (0..n).map(|_| layer_rng.pick_usize(shells)).collect();
    let mut rng = Lcg::new(4242);
    let mut reference = rng.clone();
    let edges = shell_edges(&mut rng, &dist, &layer, shells, 4, 1, 2, 5);
    let of = |i: usize, l: usize| -> Vec<usize> { (0..n).filter(|&j| j != i && layer[j] == l).collect() };
    let mut mesh = HashSet::new();
    let mut extra = HashSet::new();
    for i in 0..n {
        for j in nearest(&dist[i], &of(i, layer[i]), 4) {
            mesh.insert(canon(i, j));
        }
        if layer[i] > 0 {
            for j in nearest(&dist[i], &of(i, layer[i] - 1), 1) {
                extra.insert(canon(i, j));
            }
        }
        if layer[i] + 1 < shells {
            for j in nearest(&dist[i], &of(i, layer[i] + 1), 1) {
                extra.insert(canon(i, j));
            }
        }
    }
    for _ in 0..2 {
        let h = reference.pick_usize(n);
        for j in nearest(&dist[h], &of(h, layer[h]), 8) {
            mesh.insert(canon(h, j));
        }
    }
    for _ in 0..5 {
        let (a, b) = reference.pick_pair(n);
        extra.insert(canon(a, b));
    }
    assert_eq!(pairs(&edges, EdgeKind3::Mesh), mesh);
    assert_eq!(pairs(&edges, EdgeKind3::Extra), extra);
    assert_well_formed(&edges, n);
    assert_eq!(rng.next_u32(), reference.next_u32());
}

#[test]
fn shells_join_adjacent_layers_only() {
    let layer = vec![0, 0, 0, 1, 1, 1, 2, 2];
    let mut rng = Lcg::new(3);
    let edges = shell_edges(&mut rng, &line(8), &layer, 3, 1, 1, 0, 0);
    let mesh: HashSet<(u32, u32)> = [(0, 1), (1, 2), (3, 4), (4, 5), (6, 7)].into_iter().collect();
    let extra: HashSet<(u32, u32)> =
        [(0, 3), (1, 3), (2, 3), (3, 6), (2, 4), (4, 6), (2, 5), (5, 6), (5, 7)].into_iter().collect();
    assert_eq!(pairs(&edges, EdgeKind3::Mesh), mesh);
    assert_eq!(pairs(&edges, EdgeKind3::Extra), extra);
    assert_well_formed(&edges, 8);
}

#[test]
fn mesh_and_extra_may_share_a_pair() {
    let mut rng = Lcg::new(9);
    let edges = cloud_edges(&mut rng, &line(4), 12, 0, 40);
    let mesh = pairs(&edges, EdgeKind3::Mesh);
    let extra = pairs(&edges, EdgeKind3::Extra);
    assert_eq!(mesh.len(), 6);
    assert!(!extra.is_empty());
    assert!(extra.is_subset(&mesh));
    assert_eq!(edges.len(), mesh.len() + extra.len());
    assert_well_formed(&edges, 4);
}

#[test]
fn all_pairs_edges_have_expected_count_and_no_self() {
    // a generator asked for 50 nodes lays out 50
    let node_count = clamp_node_count(50);
    let edges = build_all_pairs_edges(node_count);
    let n = node_count as u32;
    assert_eq!(edges.len() as u32, n * (n - 1) / 2);
    for e in &edges {
        assert_ne!(e.a, e.b);
        assert!(e.a < n && e.b < n);
        assert_eq!(e.kind, EdgeKind3::Mesh);
    }
    let v: Vec<(u32, u32)> = edges.iter().map(|e| (e.a.min(e.b), e.a.max(e.b))).collect();
    let mut w = v.clone();
    w.sort();
    w.dedup();
    assert_eq!(v.len(), w.len());
    assert_eq!(v, w);
}

#[test]
fn all_pairs_in_lexicographic_order() {
    let got: Vec<(u32, u32)> = build_all_pairs_edges(4).iter().map(|e| (e.a, e.b)).collect();
    assert_eq!(got, vec![(0, 1), (0, 2), (0, 3), (1, 2), (1, 3), (2, 3)]);
    assert!(build_all_pairs_edges(0).is_empty());
    assert!(build_all_pairs_edges(1).is_empty());
    assert_eq!(build_all_pairs_edges(2), vec![Edge3 { a: 0, b: 1, kind: EdgeKind3::Mesh }]);
}

#[test]
fn shell_index_takes_first_bound_above_the_draw() {
    let cumulative = vec![10, 20, 30];
    assert_eq!(shell_index(&cumulative, 0), 0);
    assert_eq!(shell_index(&cumulative, 9), 0);
    assert_eq!(shell_index(&cumulative, 10), 1);
    assert_eq!(shell_index(&cumulative, 25), 2);
    assert_eq!(shell_index(&cumulative, 30), 2);
    assert_eq!(shell_index(&cumulative, 99), 2);
    assert_eq!(shell_index(&vec![0], 7), 0);
}

#[test]
fn shell_slots_count_and_number_each_shell() {
    let (counts, slots) = shell_slots(&vec![0, 1, 0, 0, 1], 3);
    assert_eq!(counts, vec![3, 2, 0]);
    assert_eq!(slots, vec![0, 0, 1, 2, 1]);
    let (counts, slots) = shell_slots(&vec![], 2);
    assert_eq!(counts, vec![0, 0]);
    assert!(slots.is_empty());
}
