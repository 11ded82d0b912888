//! The 2D spine-satellite graph and the colour choices of the theme.
use vstd::prelude::*;
use crate::graph3d::{rows, EdgeKind3, MIN_NODES};
use crate::pairs::{canon, PairSet};
use crate::nearest::first_min;
use crate::rng::{lcg_iter, lcg_next, random_pair, Lcg};

verus! {

/// Category of a 2D edge: a link of the central spine, or any other link.
#[derive(Debug, Clone, Copy, PartialEq, Eq, Structural)]
pub enum EdgeKind {
    Spine,
    Link,
}

/// A 2D edge from node id `a` to node id `b`.
#[derive(Debug, Clone, Copy, PartialEq, Eq, Structural)]
pub struct Edge {
    pub a: u32,
    pub b: u32,
    pub kind: EdgeKind,
}

/// The named colours of the theme.
#[derive(Debug, Clone, Copy, PartialEq, Eq, Structural)]
pub enum Palette {
    Magenta,
    Purple,
    Cyan,
    Sky,
    Green,
}

/// The fewest segments the spine is laid out with.
pub const MIN_SPINE_SEGMENTS: usize = 2;

/// Every node whose index is a multiple of this is a hub, coloured apart.
pub const HUB_PERIOD: usize = 23;

/// The number of spine nodes: one more than the segments (at least two), and no
/// more than the node count floored to four.
pub open spec fn spine_node_count(num_nodes: int, spine_segments: int) -> int {
    let n = if num_nodes < MIN_NODES { MIN_NODES as int } else { num_nodes };
    let segs = if spine_segments < MIN_SPINE_SEGMENTS { MIN_SPINE_SEGMENTS as int } else { spine_segments };
    if segs + 1 < n {
        segs + 1
    } else {
        n
    }
}

/// `round(0.12 * n)`: twelve percent of `n`, halves rounded up (twelve percent
/// of a whole number never ends in exactly one half).
pub open spec fn cross_link_share(n: int) -> int {
    (12 * n + 50) / 100
}

/// `s` is the first position holding the smallest key.
pub open spec fn is_first_min(keys: Seq<u32>, s: int) -> bool {
    &&& 0 <= s < keys.len()
    &&& forall|j: int| 0 <= j < keys.len() ==> keys[s] <= #[trigger] keys[j]
    &&& forall|j: int| 0 <= j < s ==> keys[s] < #[trigger] keys[j]
}

/// The canonical pairs `(min, max)` of the `Link` edges of `es`.
pub open spec fn link_pairs(es: Seq<Edge>) -> Set<(u32, u32)> {
    Set::new(
        |p: (u32, u32)|
            exists|x: int| 0 <= x < es.len() && (#[trigger] es[x]).kind == EdgeKind::Link && canon(es[x].a as int, es[x].b as int) == p,
    )
}

/// No two `Link` edges of `es` join the same unordered pair.
pub open spec fn links_distinct(es: Seq<Edge>) -> bool {
    forall|x: int, y: int|
        0 <= x < y < es.len() && (#[trigger] es[x]).kind == EdgeKind::Link && (#[trigger] es[y]).kind == EdgeKind::Link
            ==> canon(es[x].a as int, es[x].b as int) != canon(es[y].a as int, es[y].b as int)
}

/// `base` followed by the first `t` random pairs of the stream that starts in
/// state `s0`, in draw order, each kept as a `Link` edge only when its
/// unordered pair is not yet joined by a `Link` edge.
pub open spec fn with_cross_links(base: Seq<Edge>, s0: u64, n: int, t: int) -> Seq<Edge>
    decreases t,
{
    if t <= 0 {
        base
    } else {
        let es = with_cross_links(base, s0, n, t - 1);
        let p = random_pair(s0, n, t - 1);
        if link_pairs(es).contains(canon(p.0, p.1)) {
            es
        } else {
            es.push(Edge { a: p.0 as u32, b: p.1 as u32, kind: EdgeKind::Link })
        }
    }
}

/// The edges of the spine-satellite graph over `n` nodes, of which the first
/// `spine_n` form the spine, with `keys[i - spine_n][s]` ordering the distance
/// from satellite `i` to spine node `s`, and cross-links drawn from the stream
/// that starts in state `s0`:
/// the spine path `(x, x + 1)`, then for each satellite `i` (at place `i - 1`) a
/// link from the first nearest spine node, then the `round(0.12 n)` random pairs,
/// each kept unless a `Link` edge already joins it.
pub open spec fn is_spine_graph(s0: u64, n: int, spine_n: int, keys: Seq<Seq<u32>>, es: Seq<Edge>) -> bool {
    &&& n - 1 <= es.len()
    &&& forall|x: int| 0 <= x < spine_n - 1 ==> #[trigger] es[x] == (Edge { a: x as u32, b: (x + 1) as u32, kind: EdgeKind::Spine })
    &&& forall|i: int|
        spine_n <= i < n ==> (#[trigger] es[i - 1]).kind == EdgeKind::Link && es[i - 1].b == i && is_first_min(
            keys[i - spine_n],
            es[i - 1].a as int,
        )
    &&& es == with_cross_links(es.subrange(0, n - 1), s0, n, cross_link_share(n))
}

proof fn lemma_first_min_unique(keys: Seq<u32>, s1: int, s2: int)
    requires
        is_first_min(keys, s1),
        is_first_min(keys, s2),
    ensures
        s1 == s2,
{
    if s1 < s2 {
        assert(keys[s2] < keys[s1]);
    } else if s2 < s1 {
        assert(keys[s1] < keys[s2]);
    }
}

/// The spine-satellite graph is fixed by the state its stream starts in and its
/// parameters: two edge lists that both are that graph are equal, edge by edge
/// and in order.
pub proof fn lemma_spine_graph_deterministic(
    s0: u64,
    n: int,
    spine_n: int,
    keys: Seq<Seq<u32>>,
    es1: Seq<Edge>,
    es2: Seq<Edge>,
)
    requires
        1 <= spine_n <= n,
        is_spine_graph(s0, n, spine_n, keys, es1),
        is_spine_graph(s0, n, spine_n, keys, es2),
    ensures
        es1 == es2,
{
    let p1 = es1.subrange(0, n - 1);
    let p2 = es2.subrange(0, n - 1);
    assert forall|x: int| 0 <= x < n - 1 implies p1[x] == p2[x] by {
        if x < spine_n - 1 {
            assert(es1[x] == es2[x]);
        } else {
            let i = x + 1;
            assert(es1[i - 1] == es1[x] && es2[i - 1] == es2[x]);
            lemma_first_min_unique(keys[i - spine_n], es1[x].a as int, es2[x].a as int);
        }
    }
    assert(p1 =~= p2);
}

/// The number of spine nodes for the requested counts.
pub fn spine_count(num_nodes: usize, spine_segments: usize) -> (r: usize)
    ensures
        r as int == spine_node_count(num_nodes as int, spine_segments as int),
{
    let n = if num_nodes < MIN_NODES { MIN_NODES } else { num_nodes };
    let segs = if spine_segments < MIN_SPINE_SEGMENTS { MIN_SPINE_SEGMENTS } else { spine_segments };
    if segs < n - 1 {
        segs + 1
    } else {
        n
    }
}

/// The number of random cross-links among `n` nodes: `round(0.12 n)`.
pub fn cross_link_count(n: usize) -> (r: usize)
    ensures
        r as int == cross_link_share(n as int),
{
    let q = n / 100;
    let rem = n % 100;
    proof {
        vstd::arithmetic::div_mod::lemma_fundamental_div_mod(n as int, 100);
        assert(12 * (n as int) + 50 == (12 * rem as int + 50) + (12 * q as int) * 100);
        vstd::arithmetic::div_mod::lemma_hoist_over_denominator(12 * rem as int + 50, 12 * q as int, 100);
        assert(q * 12 <= n);
    }
    12 * q + (12 * rem + 50) / 100
}

proof fn lemma_link_pairs_push(es: Seq<Edge>, e: Edge)
    ensures
        link_pairs(es.push(e)) == if e.kind == EdgeKind::Link {
            link_pairs(es).insert(canon(e.a as int, e.b as int))
        } else {
            link_pairs(es)
        },
{
    let l = es.push(e);
    assert forall|x: int| 0 <= x < es.len() implies l[x] == es[x] by {}
    assert(l[es.len() as int] == e);
    if e.kind == EdgeKind::Link {
        assert(link_pairs(l) =~= link_pairs(es).insert(canon(e.a as int, e.b as int)));
    } else {
        assert(link_pairs(l) =~= link_pairs(es));
    }
}

/// The edges of the spine-satellite graph over `n` nodes of which the first
/// `spine_n` form the spine, drawing the cross-links from `rng` after the node
/// positions were drawn; `keys[i - spine_n][s]` orders the distance from
/// satellite `i` to spine node `s`. Exactly `2 * round(0.12 n)` values are
/// drawn, whether or not each cross-link is kept.
pub fn generate_edges(rng: &mut Lcg, n: usize, spine_n: usize, keys: &Vec<Vec<u32>>) -> (r: Vec<Edge>)
    requires
        2 <= spine_n <= n <= 0x1_0000_0000,
        keys.len() == n - spine_n,
        forall|i: int| 0 <= i < keys.len() ==> (#[trigger] keys[i]).len() == spine_n,
    ensures
        is_spine_graph(old(rng).state(), n as int, spine_n as int, rows(keys@), r@),
        r@.len() <= n - 1 + cross_link_share(n as int),
        links_distinct(r@),
        final(rng).state() == lcg_iter(old(rng).state(), 2 * cross_link_share(n as int) as nat),
        forall|x: int| 0 <= x < r@.len() ==> (#[trigger] r@[x]).a != r@[x].b && r@[x].a < n && r@[x].b < n,
{
    let ghost s0 = rng.state();
    let ghost kv = rows(keys@);
    let mut out: Vec<Edge> = Vec::new();
    let mut i: usize = 1;
    while i < spine_n
        invariant
            1 <= i <= spine_n,
            out@.len() == i - 1,
            forall|x: int| 0 <= x < i - 1 ==> #[trigger] out@[x] == (Edge { a: x as u32, b: (x + 1) as u32, kind: EdgeKind::Spine }),
            spine_n <= n <= 0x1_0000_0000,
        decreases spine_n - i,
    {
        out.push(Edge { a: (i - 1) as u32, b: i as u32, kind: EdgeKind::Spine });
        i = i + 1;
    }
    let mut links = PairSet::new();
    proof {
        assert(link_pairs(out@) =~= Set::<(u32, u32)>::empty());
    }
    let mut i: usize = spine_n;
    while i < n
        invariant
            2 <= spine_n <= i <= n,
            n <= 0x1_0000_0000,
            keys.len() == n - spine_n,
            forall|y: int| 0 <= y < keys.len() ==> (#[trigger] keys[y]).len() == spine_n,
            kv == rows(keys@),
            out@.len() == i - 1,
            forall|x: int| 0 <= x < spine_n - 1 ==> #[trigger] out@[x] == (Edge { a: x as u32, b: (x + 1) as u32, kind: EdgeKind::Spine }),
            forall|j: int|
                spine_n <= j < i ==> (#[trigger] out@[j - 1]).kind == EdgeKind::Link && out@[j - 1].b == j
                    && is_first_min(kv[j - spine_n], out@[j - 1].a as int),
            forall|x: int| 0 <= x < out@.len() ==> (#[trigger] out@[x]).a < out@[x].b && out@[x].b < i,
            links.wf(),
            links@ == link_pairs(out@),
            links_distinct(out@),
        decreases n - i,
    {
        let best = first_min(&keys[i - spine_n]);
        assert(kv[i - spine_n] == keys[i - spine_n]@);
        let e = Edge { a: best as u32, b: i as u32, kind: EdgeKind::Link };
        proof {
            assert(!link_pairs(out@).contains(canon(best as int, i as int)));
            lemma_link_pairs_push(out@, e);
        }
        out.push(e);
        links.insert(best as u32, i as u32);
        i = i + 1;
    }
    let ghost base = out@;
    proof {
        assert(out@.subrange(0, n - 1) =~= base);
    }
    let count = cross_link_count(n);
    let mut t: usize = 0;
    while t < count
        invariant
            2 <= spine_n <= n <= 0x1_0000_0000,
            count == cross_link_share(n as int),
            t <= count,
            base.len() == n - 1,
            n - 1 <= out@.len() <= n - 1 + t,
            forall|x: int| 0 <= x < n - 1 ==> #[trigger] out@[x] == base[x],
            out@ == with_cross_links(base, s0, n as int, t as int),
            rng.state() == lcg_iter(s0, 2 * t as nat),
            forall|x: int| 0 <= x < out@.len() ==> (#[trigger] out@[x]).a != out@[x].b && out@[x].a < n && out@[x].b < n,
            links.wf(),
            links@ == link_pairs(out@),
            links_distinct(out@),
        decreases count - t,
    {
        let (a, b) = rng.pick_pair(n);
        proof {
            assert(lcg_iter(s0, (2 * t + 1) as nat) == lcg_next(lcg_iter(s0, 2 * t as nat)));
            assert(lcg_iter(s0, (2 * t + 2) as nat) == lcg_next(lcg_iter(s0, (2 * t + 1) as nat)));
            assert((a as int, b as int) == random_pair(s0, n as int, t as int));
        }
        let (lo, hi) = if a < b { (a as u32, b as u32) } else { (b as u32, a as u32) };
        if !links.contains(lo, hi) {
            let e = Edge { a: a as u32, b: b as u32, kind: EdgeKind::Link };
            proof {
                lemma_link_pairs_push(out@, e);
            }
            out.push(e);
            links.insert(a as u32, b as u32);
        }
        t = t + 1;
    }
    proof {
        assert(out@.subrange(0, n - 1) =~= base);
    }
    out
}

/// The colour of an edge: every kind is drawn in cyan.
pub fn edge_palette(kind: EdgeKind3) -> (r: Palette)
    ensures
        r == Palette::Cyan,
{
    Palette::Cyan
}

/// The colour of a node: hubs (every 23rd index, from zero) in magenta, the rest in cyan.
pub fn node_palette(index: usize) -> (r: Palette)
    ensures
        r == if index % HUB_PERIOD == 0 { Palette::Magenta } else { Palette::Cyan },
{
    if index % HUB_PERIOD == 0 {
        Palette::Magenta
    } else {
        Palette::Cyan
    }
}

} // verus!
