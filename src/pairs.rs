//! Sets of canonical unordered node pairs.
use vstd::prelude::*;
use crate::graph3d::{Edge3, EdgeKind3};

verus! {

/// The canonical form of the unordered pair `{i, j}`: smaller id first.
pub open spec fn canon(i: int, j: int) -> (u32, u32) {
    if i < j {
        (i as u32, j as u32)
    } else {
        (j as u32, i as u32)
    }
}

/// A set of canonical node pairs, kept in the order of first insertion.
pub struct PairSet {
    pairs: Vec<(u32, u32)>,
}

impl View for PairSet {
    type V = Set<(u32, u32)>;

    closed spec fn view(&self) -> Set<(u32, u32)> {
        self.pairs@.to_set()
    }
}

impl PairSet {
    /// No pair is held twice, and each holds its smaller id first.
    pub closed spec fn wf(&self) -> bool {
        &&& self.pairs@.no_duplicates()
        &&& forall|x: int| 0 <= x < self.pairs@.len() ==> (#[trigger] self.pairs@[x]).0 < self.pairs@[x].1
    }

    pub fn new() -> (r: Self)
        ensures
            r.wf(),
            r@ == Set::<(u32, u32)>::empty(),
    {
        let r = PairSet { pairs: Vec::new() };
        proof {
            assert(r@ =~= Set::<(u32, u32)>::empty());
        }
        r
    }

    pub fn contains(&self, a: u32, b: u32) -> (r: bool)
        ensures
            r == self@.contains((a, b)),
    {
        let mut x: usize = 0;
        while x < self.pairs.len()
            invariant
                x <= self.pairs@.len(),
                forall|y: int| 0 <= y < x ==> self.pairs@[y] != (a, b),
            decreases self.pairs@.len() - x,
        {
            if self.pairs[x].0 == a && self.pairs[x].1 == b {
                proof {
                    assert(self.pairs@.to_set().contains(self.pairs@[x as int]));
                }
                return true;
            }
            x = x + 1;
        }
        false
    }

    /// Adds the unordered pair `{i, j}` in canonical form.
    pub fn insert(&mut self, i: u32, j: u32)
        requires
            old(self).wf(),
            i != j,
        ensures
            final(self).wf(),
            final(self)@ == old(self)@.insert(canon(i as int, j as int)),
    {
        let (a, b) = if i < j { (i, j) } else { (j, i) };
        if !self.contains(a, b) {
            let ghost before = self.pairs@;
            self.pairs.push((a, b));
            proof {
                assert(self.pairs@ == before.push((a, b)));
                before.lemma_push_to_set_commute((a, b));
            }
        } else {
            proof {
                assert(self@ =~= self@.insert((a, b)));
            }
        }
    }

    /// Appends every pair of the set to `out` as an edge of the given kind.
    pub fn push_edges(&self, out: &mut Vec<Edge3>, kind: EdgeKind3)
        requires
            self.wf(),
        ensures
            final(out)@.len() >= old(out)@.len(),
            forall|x: int| 0 <= x < old(out)@.len() ==> final(out)@[x] == old(out)@[x],
            forall|x: int|
                old(out)@.len() <= x < final(out)@.len() ==> {
                    &&& (#[trigger] final(out)@[x]).kind == kind
                    &&& final(out)@[x].a < final(out)@[x].b
                    &&& self@.contains((final(out)@[x].a, final(out)@[x].b))
                },
            forall|p: (u32, u32)|
                #[trigger] self@.contains(p) ==> exists|x: int|
                    old(out)@.len() <= x < final(out)@.len() && final(out)@[x].a == p.0
                        && final(out)@[x].b == p.1,
            forall|x: int, y: int|
                old(out)@.len() <= x < y < final(out)@.len() ==> (#[trigger] final(out)@[x]).a
                    != (#[trigger] final(out)@[y]).a || final(out)@[x].b != final(out)@[y].b,
    {
        let ghost start = out@.len();
        let mut x: usize = 0;
        while x < self.pairs.len()
            invariant
                self.wf(),
                x <= self.pairs@.len(),
                out@.len() == start + x,
                forall|y: int| 0 <= y < start ==> out@[y] == old(out)@[y],
                old(out)@.len() == start,
                forall|y: int|
                    0 <= y < x ==> (#[trigger] out@[start + y]).kind == kind && out@[start + y].a
                        == self.pairs@[y].0 && out@[start + y].b == self.pairs@[y].1,
            decreases self.pairs@.len() - x,
        {
            let (a, b) = self.pairs[x];
            out.push(Edge3 { a, b, kind });
            x = x + 1;
        }
        proof {
            assert forall|y: int|
                start <= y < out@.len() implies {
                    &&& (#[trigger] out@[y]).kind == kind
                    &&& out@[y].a < out@[y].b
                    &&& self@.contains((out@[y].a, out@[y].b))
                } by {
                assert(out@[start + (y - start)] == out@[y]);
                assert(self.pairs@.contains(self.pairs@[y - start]));
                assert(self.pairs@[y - start] == (out@[y].a, out@[y].b));
            }
            assert forall|p: (u32, u32)| #[trigger] self@.contains(p) implies exists|x: int|
                start <= x < out@.len() && out@[x].a == p.0 && out@[x].b == p.1 by {
                assert(self.pairs@.contains(p));
                let z = choose|z: int| 0 <= z < self.pairs@.len() && self.pairs@[z] == p;
                assert(out@[start + z].a == p.0);
            }
            assert forall|y1: int, y2: int|
                start <= y1 < y2 < out@.len() implies (#[trigger] out@[y1]).a != (#[trigger] out@[y2]).a
                    || out@[y1].b != out@[y2].b by {
                assert(out@[start + (y1 - start)] == out@[y1]);
                assert(out@[start + (y2 - start)] == out@[y2]);
            }
        }
    }
}

} // verus!
