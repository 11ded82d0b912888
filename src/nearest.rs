//! Nearest-candidate selection over distance keys: by key, equal keys in index order.
use vstd::prelude::*;

verus! {

/// Candidate `x` comes strictly before candidate `y` when its key is smaller,
/// or when the keys are equal and its index is smaller.
pub open spec fn before(keys: Seq<u32>, x: int, y: int) -> bool {
    keys[x] < keys[y] || (keys[x] == keys[y] && x < y)
}

/// Node `j` is a candidate neighbour of node `i` in layer `t`: a node of that
/// layer other than `i` itself.
pub open spec fn in_layer(layer: Seq<usize>, i: int, t: int, j: int) -> bool {
    0 <= j < layer.len() && j != i && layer[j] as int == t
}

/// How many of the candidates `0..m` of layer `t` come before `c`.
pub open spec fn rank_upto(keys: Seq<u32>, layer: Seq<usize>, i: int, t: int, c: int, m: int) -> nat
    decreases m,
{
    if m <= 0 {
        0
    } else {
        rank_upto(keys, layer, i, t, c, m - 1) + if in_layer(layer, i, t, m - 1) && before(keys, m - 1, c) {
            1nat
        } else {
            0nat
        }
    }
}

/// How many candidates of layer `t` come before `c`: the place `c` takes when the
/// candidates are sorted by key, ties kept in index order.
pub open spec fn rank(keys: Seq<u32>, layer: Seq<usize>, i: int, t: int, c: int) -> nat {
    rank_upto(keys, layer, i, t, c, layer.len() as int)
}

/// `c` is among the `k` nearest candidates of layer `t` seen from node `i`,
/// where `keys[j]` orders the distances from `i` to each node `j`.
pub open spec fn is_near(keys: Seq<u32>, layer: Seq<usize>, i: int, t: int, k: int, c: int) -> bool {
    in_layer(layer, i, t, c) && rank(keys, layer, i, t, c) < k
}

proof fn lemma_rank_upto_bound(keys: Seq<u32>, layer: Seq<usize>, i: int, t: int, c: int, m: int)
    ensures
        rank_upto(keys, layer, i, t, c, m) <= if m < 0 { 0 } else { m },
    decreases m,
{
    if m > 0 {
        lemma_rank_upto_bound(keys, layer, i, t, c, m - 1);
    }
}

proof fn lemma_rank_upto_order(keys: Seq<u32>, layer: Seq<usize>, i: int, t: int, c: int, d: int, m: int)
    requires
        0 <= c < keys.len(),
        0 <= d < keys.len(),
        m <= keys.len(),
        before(keys, d, c),
    ensures
        rank_upto(keys, layer, i, t, d, m) + if in_layer(layer, i, t, d) && d < m { 1nat } else { 0nat }
            <= rank_upto(keys, layer, i, t, c, m),
    decreases m,
{
    if m > 0 {
        lemma_rank_upto_order(keys, layer, i, t, c, d, m - 1);
    }
}

/// The `k` nearest candidates are nearer than the rest: a candidate of the layer
/// that is not among them comes after every candidate that is.
pub proof fn lemma_near_before_far(keys: Seq<u32>, layer: Seq<usize>, i: int, t: int, k: int, c: int, d: int)
    requires
        keys.len() == layer.len(),
        is_near(keys, layer, i, t, k, c),
        in_layer(layer, i, t, d),
        !is_near(keys, layer, i, t, k, d),
    ensures
        before(keys, c, d),
{
    if !before(keys, c, d) {
        assert(before(keys, d, c));
        lemma_rank_upto_order(keys, layer, i, t, c, d, layer.len() as int);
    }
}

/// The place of `c` among the candidates of layer `t` seen from node `i`.
pub fn rank_of(keys: &Vec<u32>, layer: &Vec<usize>, i: usize, t: usize, c: usize) -> (r: usize)
    requires
        keys.len() == layer.len(),
        c < keys.len(),
    ensures
        r == rank(keys@, layer@, i as int, t as int, c as int),
{
    let n = layer.len();
    let mut count: usize = 0;
    let mut j: usize = 0;
    while j < n
        invariant
            n == layer.len(),
            keys.len() == n,
            c < n,
            j <= n,
            count == rank_upto(keys@, layer@, i as int, t as int, c as int, j as int),
        decreases n - j,
    {
        proof {
            lemma_rank_upto_bound(keys@, layer@, i as int, t as int, c as int, j as int);
        }
        if j != i && layer[j] == t && (keys[j] < keys[c] || (keys[j] == keys[c] && j < c)) {
            count = count + 1;
        }
        j = j + 1;
    }
    count
}

/// Whether `c` is among the `k` nearest candidates of layer `t` seen from node `i`.
pub fn near(keys: &Vec<u32>, layer: &Vec<usize>, i: usize, t: usize, k: usize, c: usize) -> (r: bool)
    requires
        keys.len() == layer.len(),
        c < keys.len(),
    ensures
        r == is_near(keys@, layer@, i as int, t as int, k as int, c as int),
{
    if c == i || layer[c] != t {
        false
    } else {
        rank_of(keys, layer, i, t, c) < k
    }
}

/// The first position that holds the smallest key: the nearest node of a scan
/// that keeps the earliest of equal distances.
pub fn first_min(keys: &Vec<u32>) -> (r: usize)
    requires
        keys.len() >= 1,
    ensures
        r < keys.len(),
        forall|j: int| 0 <= j < keys.len() ==> keys[r as int] <= keys[j],
        forall|j: int| 0 <= j < r ==> keys[r as int] < keys[j],
{
    let mut best: usize = 0;
    let mut j: usize = 1;
    while j < keys.len()
        invariant
            1 <= j <= keys.len(),
            best < j,
            forall|x: int| 0 <= x < j ==> keys[best as int] <= keys[x],
            forall|x: int| 0 <= x < best ==> keys[best as int] < keys[x],
        decreases keys.len() - j,
    {
        if keys[j] < keys[best] {
            best = j;
        }
        j = j + 1;
    }
    best
}

} // verus!
