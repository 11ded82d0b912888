//! The 3D graphs: edge synthesis by nearest neighbours, hubs and random
//! long-range pairs, deduplicated per edge kind; shell bookkeeping; all pairs.
use vstd::prelude::*;
use crate::nearest::{is_near, near};
use crate::pairs::{canon, PairSet};
use crate::rng::{draw_at, lcg_iter, lemma_lcg_iter_add, random_pair, seeded, Lcg};

verus! {

/// Category of a 3D edge: structural (`Mesh`) or long-range and cross-shell (`Extra`).
#[derive(Debug, Clone, Copy, PartialEq, Eq, Hash, Structural)]
pub enum EdgeKind3 {
    Mesh,
    Extra,
}

/// An undirected 3D edge between node ids `a` and `b`.
#[derive(Debug, Clone, Copy, PartialEq, Eq, Hash, Structural)]
pub struct Edge3 {
    pub a: u32,
    pub b: u32,
    pub kind: EdgeKind3,
}

/// The pairs `{i, c}` for each `c < x` among the `k` nearest candidates of
/// layer `t` seen from node `i`.
pub open spec fn near_pairs_upto(keys: Seq<u32>, layer: Seq<usize>, i: int, t: int, k: int, x: int) -> Set<(u32, u32)> {
    Set::new(|p: (u32, u32)| exists|c: int| 0 <= c < x && #[trigger] is_near(keys, layer, i, t, k, c) && p == canon(i, c))
}

/// The pairs joining node `i` to its `k` nearest candidates of layer `t`.
pub open spec fn near_pairs(keys: Seq<u32>, layer: Seq<usize>, i: int, t: int, k: int) -> Set<(u32, u32)> {
    near_pairs_upto(keys, layer, i, t, k, layer.len() as int)
}

/// The pairs joining each node `i < m` to its `k` nearest candidates of layer
/// `layer[i] + d`; `dist[i][j]` orders the distances from `i` to `j`.
pub open spec fn knn_pairs(dist: Seq<Seq<u32>>, layer: Seq<usize>, k: int, m: int, d: int) -> Set<(u32, u32)> {
    Set::new(
        |p: (u32, u32)|
            exists|i: int, c: int|
                0 <= i < m && #[trigger] is_near(dist[i], layer, i, layer[i] + d, k, c) && p == canon(i, c),
    )
}

/// The node chosen as hub number `h` by the stream that starts in state `s`.
pub open spec fn hub_node(s: u64, n: int, h: int) -> int {
    draw_at(s, h as nat) as int % n
}

/// The pairs joining each of `hubs` randomly drawn nodes to its `k` nearest
/// candidates of its own layer.
pub open spec fn hub_pairs(dist: Seq<Seq<u32>>, layer: Seq<usize>, s: u64, k: int, hubs: int) -> Set<(u32, u32)> {
    Set::new(
        |p: (u32, u32)|
            exists|h: int, c: int|
                0 <= h < hubs && #[trigger] is_near(
                    dist[hub_node(s, layer.len() as int, h)],
                    layer,
                    hub_node(s, layer.len() as int, h),
                    layer[hub_node(s, layer.len() as int, h)] as int,
                    k,
                    c,
                ) && p == canon(hub_node(s, layer.len() as int, h), c),
    )
}

/// The canonical forms of the first `count` random pairs of the stream that
/// starts in state `s`.
pub open spec fn random_pairs(s: u64, n: int, count: int) -> Set<(u32, u32)> {
    Set::new(
        |p: (u32, u32)|
            exists|t: int| 0 <= t < count && p == #[trigger] canon(random_pair(s, n, t).0, random_pair(s, n, t).1),
    )
}

/// Every pair of the set joins two distinct ids below `n`, smaller id first.
pub open spec fn pairs_below(s: Set<(u32, u32)>, n: int) -> bool {
    forall|p: (u32, u32)| #[trigger] s.contains(p) ==> p.0 < p.1 && p.1 < n
}

/// Adds the pairs joining node `i` to its `k` nearest candidates of layer `t`.
fn add_near_pairs(set: &mut PairSet, keys: &Vec<u32>, layer: &Vec<usize>, i: usize, t: usize, k: usize)
    requires
        old(set).wf(),
        keys.len() == layer.len(),
        layer.len() <= 0x1_0000_0000,
        i < layer.len(),
        pairs_below(old(set)@, layer.len() as int),
    ensures
        final(set).wf(),
        final(set)@ == old(set)@.union(near_pairs(keys@, layer@, i as int, t as int, k as int)),
        pairs_below(final(set)@, layer.len() as int),
{
    let n = layer.len();
    let mut c: usize = 0;
    while c < n
        invariant
            set.wf(),
            n == layer.len(),
            keys.len() == n,
            n <= 0x1_0000_0000,
            i < n,
            c <= n,
            pairs_below(set@, n as int),
            set@ == old(set)@.union(near_pairs_upto(keys@, layer@, i as int, t as int, k as int, c as int)),
        decreases n - c,
    {
        if near(keys, layer, i, t, k, c) {
            set.insert(i as u32, c as u32);
        }
        proof {
            let lo = near_pairs_upto(keys@, layer@, i as int, t as int, k as int, c as int);
            let hi = near_pairs_upto(keys@, layer@, i as int, t as int, k as int, c + 1);
            if is_near(keys@, layer@, i as int, t as int, k as int, c as int) {
                assert(hi =~= lo.insert(canon(i as int, c as int)));
            } else {
                assert(hi =~= lo);
            }
            assert(set@ =~= old(set)@.union(hi));
        }
        c = c + 1;
    }
}

proof fn lemma_knn_pairs_step(dist: Seq<Seq<u32>>, layer: Seq<usize>, k: int, m: int, d: int)
    requires
        0 <= m < dist.len(),
        dist.len() == layer.len(),
    ensures
        knn_pairs(dist, layer, k, m + 1, d) == knn_pairs(dist, layer, k, m, d).union(
            near_pairs(dist[m], layer, m, layer[m] + d, k),
        ),
{
    let lhs = knn_pairs(dist, layer, k, m + 1, d);
    let rhs = knn_pairs(dist, layer, k, m, d).union(near_pairs(dist[m], layer, m, layer[m] + d, k));
    assert forall|p: (u32, u32)| lhs.contains(p) implies rhs.contains(p) by {
        let (i, c) = choose|i: int, c: int|
            0 <= i < m + 1 && #[trigger] is_near(dist[i], layer, i, layer[i] + d, k, c) && p == canon(i, c);
        if i < m {
            assert(knn_pairs(dist, layer, k, m, d).contains(p));
        } else {
            assert(c < layer.len());
            assert(near_pairs(dist[m], layer, m, layer[m] + d, k).contains(p));
        }
    }
    assert forall|p: (u32, u32)| rhs.contains(p) implies lhs.contains(p) by {
        if knn_pairs(dist, layer, k, m, d).contains(p) {
            let (i, c) = choose|i: int, c: int|
                0 <= i < m && #[trigger] is_near(dist[i], layer, i, layer[i] + d, k, c) && p == canon(i, c);
            assert(is_near(dist[i], layer, i, layer[i] + d, k, c));
        } else {
            let c = choose|c: int|
                0 <= c < layer.len() && #[trigger] is_near(dist[m], layer, m, layer[m] + d, k, c) && p == canon(m, c);
            assert(is_near(dist[m], layer, m, layer[m] + d, k, c));
        }
    }
    assert(lhs =~= rhs);
}

proof fn lemma_hub_pairs_step(dist: Seq<Seq<u32>>, layer: Seq<usize>, s: u64, k: int, h: int)
    requires
        0 <= h,
        dist.len() == layer.len(),
        layer.len() >= 1,
    ensures
        hub_pairs(dist, layer, s, k, h + 1) == hub_pairs(dist, layer, s, k, h).union(
            near_pairs(
                dist[hub_node(s, layer.len() as int, h)],
                layer,
                hub_node(s, layer.len() as int, h),
                layer[hub_node(s, layer.len() as int, h)] as int,
                k,
            ),
        ),
{
    let n = layer.len() as int;
    let i = hub_node(s, n, h);
    let lhs = hub_pairs(dist, layer, s, k, h + 1);
    let rhs = hub_pairs(dist, layer, s, k, h).union(near_pairs(dist[i], layer, i, layer[i] as int, k));
    assert forall|p: (u32, u32)| lhs.contains(p) implies rhs.contains(p) by {
        let (g, c) = choose|g: int, c: int|
            0 <= g < h + 1 && #[trigger] is_near(
                dist[hub_node(s, n, g)],
                layer,
                hub_node(s, n, g),
                layer[hub_node(s, n, g)] as int,
                k,
                c,
            ) && p == canon(hub_node(s, n, g), c);
        if g < h {
            assert(hub_pairs(dist, layer, s, k, h).contains(p));
        } else {
            assert(near_pairs(dist[i], layer, i, layer[i] as int, k).contains(p));
        }
    }
    assert forall|p: (u32, u32)| rhs.contains(p) implies lhs.contains(p) by {
        if hub_pairs(dist, layer, s, k, h).contains(p) {
            let (g, c) = choose|g: int, c: int|
                0 <= g < h && #[trigger] is_near(
                    dist[hub_node(s, n, g)],
                    layer,
                    hub_node(s, n, g),
                    layer[hub_node(s, n, g)] as int,
                    k,
                    c,
                ) && p == canon(hub_node(s, n, g), c);
            assert(is_near(dist[hub_node(s, n, g)], layer, hub_node(s, n, g), layer[hub_node(s, n, g)] as int, k, c));
        } else {
            let c = choose|c: int|
                0 <= c < n && #[trigger] is_near(dist[i], layer, i, layer[i] as int, k, c) && p == canon(i, c);
            assert(is_near(dist[hub_node(s, n, h)], layer, hub_node(s, n, h), layer[hub_node(s, n, h)] as int, k, c));
        }
    }
    assert(lhs =~= rhs);
}

/// Adds the pairs of `hubs` hub nodes drawn from `rng`, each joined to its `k`
/// nearest candidates of its own layer.
fn add_hub_pairs(
    set: &mut PairSet,
    rng: &mut Lcg,
    dist: &Vec<Vec<u32>>,
    layer: &Vec<usize>,
    k: usize,
    hubs: usize,
)
    requires
        old(set).wf(),
        dist.len() == layer.len(),
        1 <= layer.len() <= 0x1_0000_0000,
        forall|i: int| 0 <= i < dist.len() ==> (#[trigger] dist[i]).len() == layer.len(),
        pairs_below(old(set)@, layer.len() as int),
    ensures
        final(set).wf(),
        pairs_below(final(set)@, layer.len() as int),
        final(set)@ == old(set)@.union(hub_pairs(rows(dist@), layer@, old(rng).state(), k as int, hubs as int)),
        final(rng).state() == lcg_iter(old(rng).state(), hubs as nat),
{
    let ghost d = rows(dist@);
    let ghost s0 = rng.state();
    let n = layer.len();
    let mut h: usize = 0;
    while h < hubs
        invariant
            set.wf(),
            n == layer.len(),
            dist.len() == n,
            1 <= n <= 0x1_0000_0000,
            forall|i: int| 0 <= i < dist.len() ==> (#[trigger] dist[i]).len() == n,
            d == rows(dist@),
            h <= hubs,
            pairs_below(set@, n as int),
            rng.state() == lcg_iter(s0, h as nat),
            set@ == old(set)@.union(hub_pairs(d, layer@, s0, k as int, h as int)),
        decreases hubs - h,
    {
        let i = rng.pick_usize(n);
        assert(i as int == hub_node(s0, n as int, h as int));
        add_near_pairs(set, &dist[i], layer, i, layer[i], k);
        proof {
            lemma_hub_pairs_step(d, layer@, s0, k as int, h as int);
            assert(set@ =~= old(set)@.union(hub_pairs(d, layer@, s0, k as int, h + 1)));
        }
        h = h + 1;
    }
}

/// Adds the canonical forms of `count` random pairs drawn from `rng`.
fn add_random_pairs(set: &mut PairSet, rng: &mut Lcg, n: usize, count: usize)
    requires
        old(set).wf(),
        2 <= n <= 0x1_0000_0000,
        pairs_below(old(set)@, n as int),
    ensures
        final(set).wf(),
        pairs_below(final(set)@, n as int),
        final(set)@ == old(set)@.union(random_pairs(old(rng).state(), n as int, count as int)),
        final(rng).state() == lcg_iter(old(rng).state(), 2 * count as nat),
{
    let ghost s0 = rng.state();
    let mut t: usize = 0;
    while t < count
        invariant
            set.wf(),
            2 <= n <= 0x1_0000_0000,
            t <= count,
            pairs_below(set@, n as int),
            rng.state() == lcg_iter(s0, 2 * t as nat),
            set@ == old(set)@.union(random_pairs(s0, n as int, t as int)),
        decreases count - t,
    {
        let (a, b) = rng.pick_pair(n);
        proof {
            assert(lcg_iter(s0, (2 * t + 1) as nat) == crate::rng::lcg_next(lcg_iter(s0, 2 * t as nat)));
            assert(lcg_iter(s0, (2 * t + 2) as nat) == crate::rng::lcg_next(lcg_iter(s0, (2 * t + 1) as nat)));
            assert((a as int, b as int) == random_pair(s0, n as int, t as int));
        }
        set.insert(a as u32, b as u32);
        proof {
            let lo = random_pairs(s0, n as int, t as int);
            let hi = random_pairs(s0, n as int, t + 1);
            assert(hi =~= lo.insert(canon(a as int, b as int)));
            assert(set@ =~= old(set)@.union(hi));
        }
        t = t + 1;
    }
}

/// Seed offset of the stream that draws the long-range pairs of the sphere graph,
/// kept apart from any stream a sibling generator seeds with the same value.
pub const SPHERE_STREAM: u64 = 0xBEEF_BABE;

/// The fewest nodes a 3D generator lays out.
pub const MIN_NODES: usize = 4;

/// The most nearest neighbours a node is joined to.
pub const MAX_NEIGHBORS: usize = 12;

/// The most nearest nodes of each adjacent shell a node is joined to.
pub const MAX_CROSS_ADJACENT: usize = 3;

/// How many more neighbours a hub is joined to than an ordinary node.
pub const HUB_EXTRA_NEIGHBORS: usize = 4;

/// The neighbour count actually used for a requested count `k`: `k` clamped to `1..=12`.
pub open spec fn neighbor_count(k: int) -> int {
    if k < 1 {
        1
    } else if k > MAX_NEIGHBORS {
        MAX_NEIGHBORS as int
    } else {
        k
    }
}

/// All nodes in one layer, numbered zero.
pub open spec fn single_layer(n: int) -> Seq<usize> {
    Seq::new(n as nat, |j: int| 0usize)
}

/// The key rows of a distance table.
pub open spec fn rows(dist: Seq<Vec<u32>>) -> Seq<Seq<u32>> {
    dist.map_values(|v: Vec<u32>| v@)
}

/// A table of `n` rows of `n` keys each.
pub open spec fn is_square(dist: Seq<Vec<u32>>, n: int) -> bool {
    dist.len() == n && forall|i: int| 0 <= i < n ==> (#[trigger] dist[i])@.len() == n
}

/// The pairs that the edges of the given kind join, as written (smaller id first).
pub open spec fn pairs_of_kind(es: Seq<Edge3>, kind: EdgeKind3) -> Set<(u32, u32)> {
    Set::new(|p: (u32, u32)| exists|x: int| 0 <= x < es.len() && #[trigger] es[x] == Edge3 { a: p.0, b: p.1, kind })
}

/// Every edge joins two distinct ids below `n`, smaller id first.
pub open spec fn edges_valid(es: Seq<Edge3>, n: int) -> bool {
    forall|x: int| 0 <= x < es.len() ==> (#[trigger] es[x]).a < es[x].b && es[x].b < n
}

/// No edge occurs twice: within one kind, no canonical pair repeats.
pub open spec fn edges_distinct(es: Seq<Edge3>) -> bool {
    forall|x: int, y: int| 0 <= x < y < es.len() ==> #[trigger] es[x] != #[trigger] es[y]
}

/// The cross-shell neighbour count actually used for a requested count `c`: at most three.
pub open spec fn cross_count(c: int) -> int {
    if c > MAX_CROSS_ADJACENT {
        MAX_CROSS_ADJACENT as int
    } else {
        c
    }
}

/// The sphere-surface graph over the nodes of `dist`: as `Mesh` edges, each
/// node joined to its `neighbor_count(neighbors)` nearest other nodes, and
/// `extras` random pairs of the stream seeded with `seed ^ SPHERE_STREAM`; no
/// `Extra` edges.
pub open spec fn is_sphere_graph(seed: u64, dist: Seq<Seq<u32>>, neighbors: int, extras: int, es: Seq<Edge3>) -> bool {
    let n = dist.len() as int;
    &&& pairs_of_kind(es, EdgeKind3::Mesh) == knn_pairs(dist, single_layer(n), neighbor_count(neighbors), n, 0).union(
        random_pairs(seeded(seed ^ SPHERE_STREAM), n, extras),
    )
    &&& pairs_of_kind(es, EdgeKind3::Extra) == Set::<(u32, u32)>::empty()
}

/// The solid-sphere cloud graph over the nodes of `dist`, its draws taken from
/// the stream that starts in state `s`: as `Mesh` edges, each node joined to its
/// `k = neighbor_count(neighbors)` nearest other nodes, and `hubs` drawn nodes
/// joined to their `k + 4` nearest; as `Extra` edges, the `extras` random pairs
/// drawn next.
pub open spec fn is_cloud_graph(s: u64, dist: Seq<Seq<u32>>, neighbors: int, hubs: int, extras: int, es: Seq<Edge3>) -> bool {
    let n = dist.len() as int;
    let k = neighbor_count(neighbors);
    &&& pairs_of_kind(es, EdgeKind3::Mesh) == knn_pairs(dist, single_layer(n), k, n, 0).union(
        hub_pairs(dist, single_layer(n), s, k + HUB_EXTRA_NEIGHBORS, hubs),
    )
    &&& pairs_of_kind(es, EdgeKind3::Extra) == random_pairs(lcg_iter(s, hubs as nat), n, extras)
}

/// The multi-shell graph over the nodes of `dist`, node `i` in shell
/// `layer[i]`, its draws taken from the stream that starts in state `s`: as
/// `Mesh` edges, each node joined to its `k = neighbor_count(k_intra)` nearest
/// nodes of its own shell, and `hubs` drawn nodes joined to their `k + 4`
/// nearest of their own shell; as `Extra` edges, each node joined to its
/// `cross_count(cross_adj)` nearest nodes of the shell below and of the shell
/// above, and the `extras` random pairs drawn next.
pub open spec fn is_shell_graph(
    s: u64,
    dist: Seq<Seq<u32>>,
    layer: Seq<usize>,
    k_intra: int,
    cross_adj: int,
    hubs: int,
    extras: int,
    es: Seq<Edge3>,
) -> bool {
    let n = dist.len() as int;
    let k = neighbor_count(k_intra);
    let ca = cross_count(cross_adj);
    &&& pairs_of_kind(es, EdgeKind3::Mesh) == knn_pairs(dist, layer, k, n, 0).union(
        hub_pairs(dist, layer, s, k + HUB_EXTRA_NEIGHBORS, hubs),
    )
    &&& pairs_of_kind(es, EdgeKind3::Extra) == knn_pairs(dist, layer, ca, n, -1).union(
        knn_pairs(dist, layer, ca, n, 1),
    ).union(random_pairs(lcg_iter(s, hubs as nat), n, extras))
}

proof fn lemma_same_pairs_same_edges(es1: Seq<Edge3>, es2: Seq<Edge3>)
    requires
        pairs_of_kind(es1, EdgeKind3::Mesh) == pairs_of_kind(es2, EdgeKind3::Mesh),
        pairs_of_kind(es1, EdgeKind3::Extra) == pairs_of_kind(es2, EdgeKind3::Extra),
    ensures
        es1.to_set() == es2.to_set(),
{
    assert forall|e: Edge3| es1.to_set().contains(e) <==> es2.to_set().contains(e) by {
        let p = (e.a, e.b);
        if es1.to_set().contains(e) {
            let x = choose|x: int| 0 <= x < es1.len() && es1[x] == e;
            assert(es1[x] == Edge3 { a: p.0, b: p.1, kind: e.kind });
            assert(pairs_of_kind(es1, e.kind).contains(p));
            assert(pairs_of_kind(es2, e.kind).contains(p));
            let y = choose|y: int| 0 <= y < es2.len() && #[trigger] es2[y] == Edge3 { a: p.0, b: p.1, kind: e.kind };
            assert(es2.contains(e));
        }
        if es2.to_set().contains(e) {
            let y = choose|y: int| 0 <= y < es2.len() && es2[y] == e;
            assert(es2[y] == Edge3 { a: p.0, b: p.1, kind: e.kind });
            assert(pairs_of_kind(es2, e.kind).contains(p));
            assert(pairs_of_kind(es1, e.kind).contains(p));
            let x = choose|x: int| 0 <= x < es1.len() && #[trigger] es1[x] == Edge3 { a: p.0, b: p.1, kind: e.kind };
            assert(es1.contains(e));
        }
    }
    assert(es1.to_set() =~= es2.to_set());
}

/// The sphere-surface graph is fixed by its seed and parameters: two edge lists
/// that both are that graph hold the same edges.
pub proof fn lemma_sphere_graph_deterministic(
    seed: u64,
    dist: Seq<Seq<u32>>,
    neighbors: int,
    extras: int,
    es1: Seq<Edge3>,
    es2: Seq<Edge3>,
)
    requires
        is_sphere_graph(seed, dist, neighbors, extras, es1),
        is_sphere_graph(seed, dist, neighbors, extras, es2),
    ensures
        es1.to_set() == es2.to_set(),
{
    lemma_same_pairs_same_edges(es1, es2);
}

/// The cloud graph is fixed by the state its stream starts in and its
/// parameters: two edge lists that both are that graph hold the same edges.
pub proof fn lemma_cloud_graph_deterministic(
    s: u64,
    dist: Seq<Seq<u32>>,
    neighbors: int,
    hubs: int,
    extras: int,
    es1: Seq<Edge3>,
    es2: Seq<Edge3>,
)
    requires
        is_cloud_graph(s, dist, neighbors, hubs, extras, es1),
        is_cloud_graph(s, dist, neighbors, hubs, extras, es2),
    ensures
        es1.to_set() == es2.to_set(),
{
    lemma_same_pairs_same_edges(es1, es2);
}

/// The multi-shell graph is fixed by the state its stream starts in, the shell
/// of each node and its parameters: two edge lists that both are that graph hold
/// the same edges.
pub proof fn lemma_shell_graph_deterministic(
    s: u64,
    dist: Seq<Seq<u32>>,
    layer: Seq<usize>,
    k_intra: int,
    cross_adj: int,
    hubs: int,
    extras: int,
    es1: Seq<Edge3>,
    es2: Seq<Edge3>,
)
    requires
        is_shell_graph(s, dist, layer, k_intra, cross_adj, hubs, extras, es1),
        is_shell_graph(s, dist, layer, k_intra, cross_adj, hubs, extras, es2),
    ensures
        es1.to_set() == es2.to_set(),
{
    lemma_same_pairs_same_edges(es1, es2);
}

/// The node count floored to four.
pub fn clamp_node_count(num_nodes: usize) -> (r: usize)
    ensures
        r == if num_nodes < MIN_NODES { MIN_NODES } else { num_nodes },
{
    if num_nodes < MIN_NODES {
        MIN_NODES
    } else {
        num_nodes
    }
}

/// The neighbour count clamped to `1..=12`.
pub fn clamp_neighbors(k: usize) -> (r: usize)
    ensures
        r as int == neighbor_count(k as int),
{
    if k < 1 {
        1
    } else if k > MAX_NEIGHBORS {
        MAX_NEIGHBORS
    } else {
        k
    }
}

/// The cross-shell neighbour count capped at three.
pub fn clamp_cross_adjacent(c: usize) -> (r: usize)
    ensures
        r as int == cross_count(c as int),
{
    if c > MAX_CROSS_ADJACENT {
        MAX_CROSS_ADJACENT
    } else {
        c
    }
}

proof fn lemma_near_pairs_outside(keys: Seq<u32>, layer: Seq<usize>, i: int, t: int, k: int, shells: int)
    requires
        t < 0 || t >= shells,
        forall|j: int| 0 <= j < layer.len() ==> (#[trigger] layer[j]) < shells,
    ensures
        near_pairs(keys, layer, i, t, k) == Set::<(u32, u32)>::empty(),
{
    assert(near_pairs(keys, layer, i, t, k) =~= Set::<(u32, u32)>::empty());
}

/// Adds the pairs joining every node `i` to its `k` nearest candidates of layer
/// `layer[i] + d`; a layer outside `0..shells` has no candidates.
fn add_knn_pairs(set: &mut PairSet, dist: &Vec<Vec<u32>>, layer: &Vec<usize>, shells: usize, k: usize, d: i8)
    requires
        old(set).wf(),
        -1 <= d <= 1,
        dist.len() == layer.len(),
        layer.len() <= 0x1_0000_0000,
        forall|i: int| 0 <= i < dist.len() ==> (#[trigger] dist[i]).len() == layer.len(),
        forall|j: int| 0 <= j < layer.len() ==> (#[trigger] layer[j]) < shells,
        pairs_below(old(set)@, layer.len() as int),
    ensures
        final(set).wf(),
        pairs_below(final(set)@, layer.len() as int),
        final(set)@ == old(set)@.union(knn_pairs(rows(dist@), layer@, k as int, layer.len() as int, d as int)),
{
    let ghost dv = rows(dist@);
    let n = layer.len();
    let mut i: usize = 0;
    while i < n
        invariant
            set.wf(),
            -1 <= d <= 1,
            n == layer.len(),
            dist.len() == n,
            n <= 0x1_0000_0000,
            forall|x: int| 0 <= x < dist.len() ==> (#[trigger] dist[x]).len() == n,
            forall|j: int| 0 <= j < layer.len() ==> (#[trigger] layer[j]) < shells,
            dv == rows(dist@),
            i <= n,
            pairs_below(set@, n as int),
            set@ == old(set)@.union(knn_pairs(dv, layer@, k as int, i as int, d as int)),
        decreases n - i,
    {
        let li = layer[i];
        assert(dv[i as int] == dist[i as int]@);
        if d < 0 && li == 0 {
            proof {
                lemma_near_pairs_outside(dv[i as int], layer@, i as int, li - 1, k as int, shells as int);
            }
        } else if d > 0 && li + 1 >= shells {
            proof {
                lemma_near_pairs_outside(dv[i as int], layer@, i as int, li + 1, k as int, shells as int);
            }
        } else {
            let t: usize = if d < 0 { li - 1 } else if d > 0 { li + 1 } else { li };
            add_near_pairs(set, &dist[i], layer, i, t, k);
        }
        proof {
            lemma_knn_pairs_step(dv, layer@, k as int, i as int, d as int);
            assert(set@ =~= old(set)@.union(knn_pairs(dv, layer@, k as int, i + 1, d as int)));
        }
        i = i + 1;
    }
}

/// The edges of a mesh set and of an extra set, tagged with their kinds.
fn emit_edges(mesh: &PairSet, extra: &PairSet, n: usize) -> (r: Vec<Edge3>)
    requires
        mesh.wf(),
        extra.wf(),
        pairs_below(mesh@, n as int),
        pairs_below(extra@, n as int),
    ensures
        edges_valid(r@, n as int),
        edges_distinct(r@),
        pairs_of_kind(r@, EdgeKind3::Mesh) == mesh@,
        pairs_of_kind(r@, EdgeKind3::Extra) == extra@,
{
    let mut out: Vec<Edge3> = Vec::new();
    mesh.push_edges(&mut out, EdgeKind3::Mesh);
    let ghost mid = out@;
    extra.push_edges(&mut out, EdgeKind3::Extra);
    proof {
        let es = out@;
        assert forall|x: int| 0 <= x < es.len() implies (#[trigger] es[x]).a < es[x].b && es[x].b < n by {
            if x < mid.len() {
                assert(es[x] == mid[x]);
                assert(mesh@.contains((mid[x].a, mid[x].b)));
            } else {
                assert(extra@.contains((es[x].a, es[x].b)));
            }
        }
        assert forall|x: int, y: int| 0 <= x < y < es.len() implies #[trigger] es[x] != #[trigger] es[y] by {
            if y < mid.len() {
                assert(es[x] == mid[x] && es[y] == mid[y]);
            } else if x < mid.len() {
                assert(es[x] == mid[x]);
            }
        }
        assert forall|p: (u32, u32)| pairs_of_kind(es, EdgeKind3::Mesh).contains(p) <==> mesh@.contains(p) by {
            if mesh@.contains(p) {
                let x = choose|x: int| 0 <= x < mid.len() && mid[x].a == p.0 && mid[x].b == p.1;
                assert(es[x] == mid[x]);
                assert(es[x] == Edge3 { a: p.0, b: p.1, kind: EdgeKind3::Mesh });
            }
            if pairs_of_kind(es, EdgeKind3::Mesh).contains(p) {
                let x = choose|x: int| 0 <= x < es.len() && #[trigger] es[x] == Edge3 { a: p.0, b: p.1, kind: EdgeKind3::Mesh };
                if x < mid.len() {
                    assert(es[x] == mid[x]);
                }
            }
        }
        assert forall|p: (u32, u32)| pairs_of_kind(es, EdgeKind3::Extra).contains(p) <==> extra@.contains(p) by {
            if extra@.contains(p) {
                let x = choose|x: int| mid.len() <= x < es.len() && es[x].a == p.0 && es[x].b == p.1;
                assert(es[x] == Edge3 { a: p.0, b: p.1, kind: EdgeKind3::Extra });
            }
            if pairs_of_kind(es, EdgeKind3::Extra).contains(p) {
                let x = choose|x: int| 0 <= x < es.len() && #[trigger] es[x] == Edge3 { a: p.0, b: p.1, kind: EdgeKind3::Extra };
                if x < mid.len() {
                    assert(es[x] == mid[x]);
                    assert(mid[x].kind == EdgeKind3::Mesh);
                }
            }
        }
        assert(pairs_of_kind(es, EdgeKind3::Mesh) =~= mesh@);
        assert(pairs_of_kind(es, EdgeKind3::Extra) =~= extra@);
    }
    out
}

/// Edges of the sphere-surface graph over `n = dist.len()` nodes, where
/// `dist[i][j]` orders the distances from node `i` to node `j`.
///
/// Each node is joined to its `clamp(neighbors, 1, 12)` nearest other nodes
/// (equal distances taken in index order), then `extras` random pairs are drawn
/// from a stream seeded with `seed ^ SPHERE_STREAM`. All of them are `Mesh`
/// edges, each unordered pair once, smaller id first.
pub fn sphere_edges(seed: u64, dist: &Vec<Vec<u32>>, neighbors: usize, extras: usize) -> (r: Vec<Edge3>)
    requires
        2 <= dist.len() <= 0x1_0000_0000,
        is_square(dist@, dist.len() as int),
    ensures
        edges_valid(r@, dist.len() as int),
        edges_distinct(r@),
        is_sphere_graph(seed, rows(dist@), neighbors as int, extras as int, r@),
{
    let n = dist.len();
    let k = clamp_neighbors(neighbors);
    let layer: Vec<usize> = vec![0usize; n];
    assert(layer@ =~= single_layer(n as int));
    let mut mesh = PairSet::new();
    add_knn_pairs(&mut mesh, dist, &layer, 1, k, 0);
    let mut rng = Lcg::new(seed ^ SPHERE_STREAM);
    add_random_pairs(&mut mesh, &mut rng, n, extras);
    let extra = PairSet::new();
    proof {
        let d = rows(dist@);
        assert(d.len() == n);
        assert(mesh@ =~= knn_pairs(d, single_layer(n as int), k as int, n as int, 0).union(
            random_pairs(seeded(seed ^ SPHERE_STREAM), n as int, extras as int),
        ));
    }
    emit_edges(&mesh, &extra, n)
}

/// Edges of the solid-sphere cloud over `n = dist.len()` nodes, drawing from
/// `rng` after the node positions were drawn.
///
/// `Mesh`: each node joined to its `k = clamp(neighbors, 1, 12)` nearest other
/// nodes, and `hubs` nodes drawn from the stream each joined to their `k + 4`
/// nearest. `Extra`: `extras` random pairs drawn next. Each kind holds each
/// unordered pair once, smaller id first; a pair may appear in both kinds.
pub fn cloud_edges(rng: &mut Lcg, dist: &Vec<Vec<u32>>, neighbors: usize, hubs: usize, extras: usize) -> (r: Vec<Edge3>)
    requires
        2 <= dist.len() <= 0x1_0000_0000,
        is_square(dist@, dist.len() as int),
    ensures
        edges_valid(r@, dist.len() as int),
        edges_distinct(r@),
        is_cloud_graph(old(rng).state(), rows(dist@), neighbors as int, hubs as int, extras as int, r@),
        final(rng).state() == lcg_iter(old(rng).state(), (hubs + 2 * extras) as nat),
{
    let ghost s0 = rng.state();
    let n = dist.len();
    let k = clamp_neighbors(neighbors);
    let layer: Vec<usize> = vec![0usize; n];
    assert(layer@ =~= single_layer(n as int));
    let mut mesh = PairSet::new();
    add_knn_pairs(&mut mesh, dist, &layer, 1, k, 0);
    add_hub_pairs(&mut mesh, rng, dist, &layer, k + HUB_EXTRA_NEIGHBORS, hubs);
    let mut extra = PairSet::new();
    add_random_pairs(&mut extra, rng, n, extras);
    proof {
        lemma_lcg_iter_add(s0, hubs as nat, 2 * extras as nat);
        let d = rows(dist@);
        assert(d.len() == n);
        assert(mesh@ =~= knn_pairs(d, single_layer(n as int), k as int, n as int, 0).union(
            hub_pairs(d, single_layer(n as int), s0, k + HUB_EXTRA_NEIGHBORS, hubs as int),
        ));
        assert(extra@ =~= random_pairs(lcg_iter(s0, hubs as nat), n as int, extras as int));
    }
    emit_edges(&mesh, &extra, n)
}

/// Edges of the multi-shell graph over `n = dist.len()` nodes, where node `i`
/// lies in shell `layer[i] < shells`, drawing from `rng` after the node
/// positions were drawn.
///
/// `Mesh`: each node joined to its `k = clamp(k_intra, 1, 12)` nearest nodes of
/// its own shell, and `hubs` nodes drawn from the stream each joined to their
/// `k + 4` nearest of their own shell. `Extra`: each node joined to its
/// `min(cross_adj, 3)` nearest nodes of each radially adjacent shell, and
/// `extras` random pairs drawn next. Each kind holds each unordered pair once,
/// smaller id first; a pair may appear in both kinds.
pub fn shell_edges(
    rng: &mut Lcg,
    dist: &Vec<Vec<u32>>,
    layer: &Vec<usize>,
    shells: usize,
    k_intra: usize,
    cross_adj: usize,
    hubs: usize,
    extras: usize,
) -> (r: Vec<Edge3>)
    requires
        2 <= dist.len() <= 0x1_0000_0000,
        is_square(dist@, dist.len() as int),
        layer.len() == dist.len(),
        forall|j: int| 0 <= j < layer.len() ==> (#[trigger] layer[j]) < shells,
    ensures
        edges_valid(r@, dist.len() as int),
        edges_distinct(r@),
        is_shell_graph(
            old(rng).state(),
            rows(dist@),
            layer@,
            k_intra as int,
            cross_adj as int,
            hubs as int,
            extras as int,
            r@,
        ),
        final(rng).state() == lcg_iter(old(rng).state(), (hubs + 2 * extras) as nat),
{
    let ghost s0 = rng.state();
    let n = dist.len();
    let k = clamp_neighbors(k_intra);
    let ca = clamp_cross_adjacent(cross_adj);
    let mut mesh = PairSet::new();
    add_knn_pairs(&mut mesh, dist, layer, shells, k, 0);
    let mut extra = PairSet::new();
    add_knn_pairs(&mut extra, dist, layer, shells, ca, -1);
    add_knn_pairs(&mut extra, dist, layer, shells, ca, 1);
    add_hub_pairs(&mut mesh, rng, dist, layer, k + HUB_EXTRA_NEIGHBORS, hubs);
    add_random_pairs(&mut extra, rng, n, extras);
    proof {
        lemma_lcg_iter_add(s0, hubs as nat, 2 * extras as nat);
        let d = rows(dist@);
        assert(d.len() == n);
        assert(mesh@ =~= knn_pairs(d, layer@, k as int, n as int, 0).union(
            hub_pairs(d, layer@, s0, k + HUB_EXTRA_NEIGHBORS, hubs as int),
        ));
        assert(extra@ =~= knn_pairs(d, layer@, ca as int, n as int, -1).union(
            knn_pairs(d, layer@, ca as int, n as int, 1),
        ).union(random_pairs(lcg_iter(s0, hubs as nat), n as int, extras as int)));
    }
    emit_edges(&mesh, &extra, n)
}

/// Where the pairs with smaller id `a` start in the lexicographic list of all
/// pairs below `n`: rows `0..a` hold `n - 1`, `n - 2`, ... pairs.
pub open spec fn row_start(n: int, a: int) -> int
    decreases a,
{
    if a <= 0 {
        0
    } else {
        row_start(n, a - 1) + (n - a)
    }
}

/// The place of the pair `(a, b)`, `a < b`, in the lexicographic list of all pairs below `n`.
pub open spec fn pair_rank(n: int, a: int, b: int) -> int {
    row_start(n, a) + (b - a - 1)
}

proof fn lemma_row_start(n: int, a: int)
    requires
        0 <= a,
    ensures
        2 * row_start(n, a) == a * (2 * n - a - 1),
    decreases a,
{
    if a > 0 {
        lemma_row_start(n, a - 1);
        assert(2 * row_start(n, a) == (a - 1) * (2 * n - (a - 1) - 1) + 2 * (n - a));
        assert((a - 1) * (2 * n - (a - 1) - 1) + 2 * (n - a) == a * (2 * n - a - 1)) by (nonlinear_arith);
    } else {
        assert(a * (2 * n - a - 1) == 0) by (nonlinear_arith)
            requires
                a == 0,
        ;
    }
}

proof fn lemma_row_start_mono(n: int, a: int, b: int)
    requires
        0 <= a <= b <= n,
    ensures
        row_start(n, a) <= row_start(n, b),
    decreases b - a,
{
    if a < b {
        lemma_row_start_mono(n, a, b - 1);
    }
}

/// Every unordered pair of the first `node_count` nodes as a `Mesh` edge, smaller
/// id first, in lexicographic order: `node_count * (node_count - 1) / 2` edges.
pub fn build_all_pairs_edges(node_count: usize) -> (r: Vec<Edge3>)
    requires
        node_count <= 0x1_0000_0000,
        node_count * (node_count - 1) / 2 <= usize::MAX,
    ensures
        r@.len() == node_count * (node_count - 1) / 2,
        forall|a: int, b: int|
            0 <= a < b < node_count ==> r@[pair_rank(node_count as int, a, b)] == (Edge3 {
                a: a as u32,
                b: b as u32,
                kind: EdgeKind3::Mesh,
            }),
        forall|x: int| 0 <= x < r@.len() ==> (#[trigger] r@[x]).kind == EdgeKind3::Mesh,
        edges_valid(r@, node_count as int),
        edges_distinct(r@),
{
    let n = node_count;
    let mut out: Vec<Edge3> = Vec::new();
    let mut a: usize = 0;
    while a < n
        invariant
            n == node_count,
            n <= 0x1_0000_0000,
            a <= n,
            out@.len() == row_start(n as int, a as int),
            forall|x: int| 0 <= x < out@.len() ==> (#[trigger] out@[x]).kind == EdgeKind3::Mesh,
            forall|x: int| 0 <= x < out@.len() ==> (#[trigger] out@[x]).a < out@[x].b && out@[x].b < n && out@[x].a < a,
            forall|x: int, y: int|
                0 <= x < y < out@.len() ==> (#[trigger] out@[x]).a < (#[trigger] out@[y]).a || (out@[x].a
                    == out@[y].a && out@[x].b < out@[y].b),
            forall|a1: int, b1: int|
                0 <= a1 < a && a1 < b1 < n ==> out@[pair_rank(n as int, a1, b1)] == (Edge3 {
                    a: a1 as u32,
                    b: b1 as u32,
                    kind: EdgeKind3::Mesh,
                }),
        decreases n - a,
    {
        let mut b: usize = a + 1;
        while b < n
            invariant
                n == node_count,
                n <= 0x1_0000_0000,
                a < n,
                a + 1 <= b <= n,
                out@.len() == row_start(n as int, a as int) + (b - a - 1),
                forall|x: int| 0 <= x < out@.len() ==> (#[trigger] out@[x]).kind == EdgeKind3::Mesh,
                forall|x: int|
                    0 <= x < out@.len() ==> (#[trigger] out@[x]).a < out@[x].b && out@[x].b < n && (out@[x].a < a
                        || (out@[x].a == a && out@[x].b < b)),
                forall|x: int, y: int|
                    0 <= x < y < out@.len() ==> (#[trigger] out@[x]).a < (#[trigger] out@[y]).a || (out@[x].a
                        == out@[y].a && out@[x].b < out@[y].b),
                forall|a1: int, b1: int|
                    0 <= a1 < a && a1 < b1 < n ==> out@[pair_rank(n as int, a1, b1)] == (Edge3 {
                        a: a1 as u32,
                        b: b1 as u32,
                        kind: EdgeKind3::Mesh,
                    }),
                forall|b1: int|
                    a < b1 < b ==> out@[pair_rank(n as int, a as int, b1)] == (Edge3 {
                        a: a as u32,
                        b: b1 as u32,
                        kind: EdgeKind3::Mesh,
                    }),
            decreases n - b,
        {
            let ghost before = out@;
            out.push(Edge3 { a: a as u32, b: b as u32, kind: EdgeKind3::Mesh });
            proof {
                assert forall|a1: int, b1: int|
                    0 <= a1 < a && a1 < b1 < n implies out@[pair_rank(n as int, a1, b1)] == (Edge3 {
                        a: a1 as u32,
                        b: b1 as u32,
                        kind: EdgeKind3::Mesh,
                    }) by {
                    lemma_row_start_mono(n as int, a1 + 1, a as int);
                    lemma_row_start_mono(n as int, 0, a1);
                    assert(row_start(n as int, a1 + 1) == row_start(n as int, a1) + (n - a1 - 1));
                    assert(0 <= pair_rank(n as int, a1, b1) < before.len());
                    assert(out@[pair_rank(n as int, a1, b1)] == before[pair_rank(n as int, a1, b1)]);
                }
                assert forall|b1: int|
                    a < b1 < b + 1 implies out@[pair_rank(n as int, a as int, b1)] == (Edge3 {
                        a: a as u32,
                        b: b1 as u32,
                        kind: EdgeKind3::Mesh,
                    }) by {
                    lemma_row_start_mono(n as int, 0, a as int);
                    if b1 < b {
                        assert(out@[pair_rank(n as int, a as int, b1)] == before[pair_rank(n as int, a as int, b1)]);
                    }
                }
            }
            b = b + 1;
        }
        proof {
            assert(row_start(n as int, a + 1) == row_start(n as int, a as int) + (n - a - 1));
        }
        a = a + 1;
    }
    proof {
        lemma_row_start(n as int, n as int);
        assert(2 * row_start(n as int, n as int) == n * (n - 1)) by (nonlinear_arith)
            requires
                2 * row_start(n as int, n as int) == n * (2 * n - n - 1),
        ;
    }
    out
}

/// The shell a draw falls in: the first shell whose cumulative bound exceeds the
/// draw, or the last shell when none does. Bounds and draw are keys whose order
/// is the order of the probabilities they stand for.
pub fn shell_index(cumulative: &Vec<u32>, draw: u32) -> (r: usize)
    requires
        cumulative.len() >= 1,
    ensures
        r < cumulative.len(),
        forall|x: int| 0 <= x < r ==> cumulative[x] <= draw,
        r == cumulative.len() - 1 || draw < cumulative[r as int],
{
    let mut li: usize = 0;
    while li + 1 < cumulative.len() && draw >= cumulative[li]
        invariant
            li < cumulative.len(),
            forall|x: int| 0 <= x < li ==> cumulative[x] <= draw,
        decreases cumulative.len() - li,
    {
        li = li + 1;
    }
    li
}

/// How many of the nodes `0..m` lie in shell `l`.
pub open spec fn count_upto(layer: Seq<usize>, l: int, m: int) -> nat
    decreases m,
{
    if m <= 0 {
        0
    } else {
        count_upto(layer, l, m - 1) + if layer[m - 1] as int == l {
            1nat
        } else {
            0nat
        }
    }
}

proof fn lemma_count_upto_mono(layer: Seq<usize>, l: int, m1: int, m2: int)
    requires
        0 <= m1 <= m2,
    ensures
        count_upto(layer, l, m1) <= count_upto(layer, l, m2),
        count_upto(layer, l, m2) <= m2,
    decreases m2,
{
    if m1 < m2 {
        lemma_count_upto_mono(layer, l, m1, m2 - 1);
    } else if m2 > 0 {
        lemma_count_upto_mono(layer, l, m2 - 1, m2 - 1);
    }
}

/// The population of each of `shells` shells, and for each node the spiral
/// point it takes in its shell: its place among the earlier nodes of that shell,
/// taken cyclically over the shell's population.
pub fn shell_slots(layer: &Vec<usize>, shells: usize) -> (r: (Vec<usize>, Vec<usize>))
    requires
        forall|j: int| 0 <= j < layer.len() ==> (#[trigger] layer[j]) < shells,
    ensures
        r.0@.len() == shells,
        forall|l: int| 0 <= l < shells ==> (#[trigger] r.0@[l]) == count_upto(layer@, l, layer.len() as int),
        r.1@.len() == layer.len(),
        forall|i: int|
            0 <= i < layer.len() ==> (#[trigger] r.1@[i]) as int == count_upto(layer@, layer[i] as int, i) as int
                % count_upto(layer@, layer[i] as int, layer.len() as int) as int,
{
    let n = layer.len();
    let mut counts: Vec<usize> = vec![0usize; shells];
    let mut i: usize = 0;
    while i < n
        invariant
            n == layer.len(),
            i <= n,
            forall|j: int| 0 <= j < layer.len() ==> (#[trigger] layer[j]) < shells,
            counts@.len() == shells,
            forall|l: int| 0 <= l < shells ==> (#[trigger] counts@[l]) == count_upto(layer@, l, i as int),
        decreases n - i,
    {
        let li = layer[i];
        proof {
            lemma_count_upto_mono(layer@, li as int, i as int, i as int);
        }
        let c = counts[li];
        counts.set(li, c + 1);
        i = i + 1;
    }
    let mut seen: Vec<usize> = vec![0usize; shells];
    let mut slots: Vec<usize> = Vec::new();
    let mut i: usize = 0;
    while i < n
        invariant
            n == layer.len(),
            i <= n,
            forall|j: int| 0 <= j < layer.len() ==> (#[trigger] layer[j]) < shells,
            counts@.len() == shells,
            forall|l: int| 0 <= l < shells ==> (#[trigger] counts@[l]) == count_upto(layer@, l, n as int),
            seen@.len() == shells,
            forall|l: int| 0 <= l < shells ==> (#[trigger] seen@[l]) == count_upto(layer@, l, i as int),
            slots@.len() == i,
            forall|x: int|
                0 <= x < i ==> (#[trigger] slots@[x]) as int == count_upto(layer@, layer[x] as int, x) as int
                    % count_upto(layer@, layer[x] as int, n as int) as int,
        decreases n - i,
    {
        let li = layer[i];
        let k = seen[li];
        proof {
            lemma_count_upto_mono(layer@, li as int, i as int, i as int);
            lemma_count_upto_mono(layer@, li as int, i + 1, n as int);
        }
        seen.set(li, k + 1);
        slots.push(k % counts[li]);
        i = i + 1;
    }
    (counts, slots)
}

} // verus!
