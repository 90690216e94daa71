//! The value of a region: a set of program points.

use crate::env::Point;
use vstd::prelude::*;

verus! {

/// `a` comes before `b`: by the block, and in one block by the action.
pub open spec fn comes_before(a: Point, b: Point) -> bool {
    a.block.index < b.block.index || (a.block.index == b.block.index && a.action < b.action)
}

/// Every point comes before those after it.
pub open spec fn ascending(points: Seq<Point>) -> bool {
    forall|i: int, j: int| 0 <= i < j < points.len() ==> comes_before(#[trigger] points[i], #[trigger] points[j])
}

/// Whether `a` comes before `b`.
fn precedes(a: Point, b: Point) -> (r: bool)
    ensures
        r == comes_before(a, b),
{
    a.block.index < b.block.index || (a.block.index == b.block.index && a.action < b.action)
}

pub struct Region {
    points: Vec<Point>,
}

impl Region {
    /// The points are held in ascending order, each once.
    #[verifier::type_invariant]
    pub closed spec fn ordered(&self) -> bool {
        ascending(self.points@)
    }

    /// The points of the region.
    pub closed spec fn set(&self) -> Set<Point> {
        self.points@.to_set()
    }

    /// The region without points.
    pub fn new() -> (r: Self)
        ensures
            r.set() == Set::<Point>::empty(),
    {
        let r = Region { points: Vec::new() };
        assert(r.set() =~= Set::<Point>::empty());
        r
    }

    /// Adds `point`; tells whether it was missing.
    pub fn add_point(&mut self, point: Point) -> (changed: bool)
        ensures
            final(self).set() == old(self).set().insert(point),
            changed == !old(self).set().contains(point),
    {
        if self.contains(point) {
            assert(self.set() =~= self.set().insert(point));
            false
        } else {
            proof {
                use_type_invariant(&*self);
                assert(!self.points@.contains(point));
            }
            let ghost before = self.points@;
            let mut points: Vec<Point> = Vec::new();
            let mut placed = false;
            let ghost mut at: int = 0;
            let mut i: usize = 0;
            while i < self.points.len()
                invariant
                    before == self.points@,
                    ascending(before),
                    !before.contains(point),
                    i <= before.len(),
                    !placed ==> points@ == before.subrange(0, i as int) && forall|k: int|
                        0 <= k < i ==> comes_before(#[trigger] before[k], point),
                    placed ==> 0 <= at < i && points@ == before.subrange(0, at).push(point) + before.subrange(
                        at,
                        i as int,
                    ) && !comes_before(before[at], point) && forall|k: int|
                        0 <= k < at ==> comes_before(#[trigger] before[k], point),
                decreases before.len() - i,
            {
                let held = self.points[i];
                if !placed && !precedes(held, point) {
                    points.push(point);
                    placed = true;
                    proof {
                        at = i as int;
                        assert(points@ =~= before.subrange(0, at).push(point) + before.subrange(at, i as int));
                    }
                }
                points.push(held);
                proof {
                    if placed {
                        assert(points@ =~= before.subrange(0, at).push(point) + before.subrange(at, i + 1));
                    } else {
                        assert(points@ =~= before.subrange(0, i + 1));
                    }
                }
                i += 1;
            }
            if !placed {
                points.push(point);
                proof {
                    at = before.len() as int;
                    assert(points@ =~= before.subrange(0, at).push(point) + before.subrange(at, at));
                }
            }
            proof {
                let whole = points@;
                assert(whole.len() == before.len() + 1);
                assert(whole[at] == point);
                assert forall|k: int| 0 <= k < at implies whole[k] == before[k] by {}
                assert forall|k: int| at < k < whole.len() implies whole[k] == before[k - 1] by {}
                // the point comes before what was held from its place on
                assert forall|k: int| at <= k < before.len() implies comes_before(point, #[trigger] before[k]) by {
                    assert(before.contains(before[at]));
                    assert(before.contains(before[k]));
                    if k > at {
                        assert(comes_before(before[at], before[k]));
                    }
                }
                assert forall|a: int, b: int| 0 <= a < b < whole.len() implies comes_before(
                    #[trigger] whole[a],
                    #[trigger] whole[b],
                ) by {
                    if b < at {
                        assert(comes_before(before[a], before[b]));
                    } else if b == at {
                        assert(comes_before(before[a], point));
                    } else if a < at {
                        assert(comes_before(before[a], before[b - 1]));
                    } else if a == at {
                        assert(comes_before(point, before[b - 1]));
                    } else {
                        assert(comes_before(before[a - 1], before[b - 1]));
                    }
                }
            }
            *self = Region { points };
            proof {
                assert forall|p: Point| final(self).set().contains(p) <==> old(self).set().insert(
                    point,
                ).contains(p) by {
                    if before.contains(p) {
                        let k = choose|k: int| 0 <= k < before.len() && before[k] == p;
                        if k < at {
                            assert(self.points@[k] == p);
                        } else {
                            assert(self.points@[k + 1] == p);
                        }
                    }
                    if p == point {
                        assert(self.points@[at] == p);
                    }
                    if self.points@.contains(p) {
                        let k = choose|k: int| 0 <= k < self.points@.len() && self.points@[k] == p;
                        if k < at {
                            assert(before[k] == p);
                        } else if k > at {
                            assert(before[k - 1] == p);
                        }
                    }
                }
                assert(final(self).set() =~= old(self).set().insert(point));
            }
            true
        }
    }

    /// Adds the points of `region`; tells whether one was missing.
    pub fn add_region(&mut self, region: &Region) -> (changed: bool)
        ensures
            final(self).set() == old(self).set().union(region.set()),
            changed == !region.set().subset_of(old(self).set()),
    {
        let mut changed = false;
        let mut i: usize = 0;
        while i < region.points.len()
            invariant
                i <= region.points.len(),
                forall|p: Point|
                    self.set().contains(p) <==> (old(self).set().contains(p) || exists|k: int|
                        0 <= k < i && region.points@[k] == p),
                changed == exists|k: int|
                    0 <= k < i && !old(self).set().contains(#[trigger] region.points@[k]),
            decreases region.points.len() - i,
        {
            let ghost before = self.set();
            let added = self.add_point(region.points[i]);
            proof {
                if added {
                    assert(!old(self).set().contains(region.points@[i as int]));
                }
            }
            changed = changed || added;
            i += 1;
        }
        proof {
            assert forall|p: Point| final(self).set().contains(p) <==> old(self).set().union(
                region.set(),
            ).contains(p) by {
                if region.set().contains(p) {
                    let k = choose|k: int| 0 <= k < region.points@.len() && region.points@[k] == p;
                }
            }
            assert(final(self).set() =~= old(self).set().union(region.set()));
            if changed {
                let k = choose|k: int|
                    0 <= k < region.points@.len() && !old(self).set().contains(
                        #[trigger] region.points@[k],
                    );
                assert(region.set().contains(region.points@[k]));
            }
            if !region.set().subset_of(old(self).set()) {
                let p = choose|p: Point| region.set().contains(p) && !old(self).set().contains(p);
                let k = choose|k: int| 0 <= k < region.points@.len() && region.points@[k] == p;
                assert(!old(self).set().contains(region.points@[k]));
            }
        }
        changed
    }

    pub fn is_empty(&self) -> (r: bool)
        ensures
            r == (self.set() == Set::<Point>::empty()),
    {
        proof {
            if self.points@.len() > 0 {
                assert(self.set().contains(self.points@[0]));
            } else {
                assert(self.set() =~= Set::<Point>::empty());
            }
        }
        self.points.len() == 0
    }

    pub fn contains(&self, point: Point) -> (r: bool)
        ensures
            r == self.set().contains(point),
    {
        let mut i: usize = 0;
        while i < self.points.len()
            invariant
                i <= self.points.len(),
                forall|k: int| 0 <= k < i ==> self.points@[k] != point,
            decreases self.points.len() - i,
        {
            if self.points[i] == point {
                return true;
            }
            i += 1;
        }
        false
    }

    /// Same as `contains`.
    pub fn may_contain(&self, point: Point) -> (r: bool)
        ensures
            r == self.set().contains(point),
    {
        self.contains(point)
    }

    /// Whether every point of `self` is a point of `other`.
    pub fn is_within(&self, other: &Region) -> (r: bool)
        ensures
            r == self.set().subset_of(other.set()),
    {
        let mut i: usize = 0;
        while i < self.points.len()
            invariant
                i <= self.points.len(),
                forall|k: int| 0 <= k < i ==> other.set().contains(#[trigger] self.points@[k]),
            decreases self.points.len() - i,
        {
            if !other.contains(self.points[i]) {
                proof {
                    assert(self.set().contains(self.points@[i as int]));
                }
                return false;
            }
            i += 1;
        }
        proof {
            assert forall|p: Point| self.set().contains(p) implies other.set().contains(p) by {
                let k = choose|k: int| 0 <= k < self.points@.len() && self.points@[k] == p;
            }
        }
        true
    }

    /// Whether the two regions hold the same points.
    pub fn same_points(&self, other: &Region) -> (r: bool)
        ensures
            r == (self.set() == other.set()),
    {
        let r = self.is_within(other) && other.is_within(self);
        proof {
            if r {
                assert(self.set() =~= other.set());
            }
        }
        r
    }

    /// The points, each once, in ascending order: by the block, and in one
    /// block by the action.
    pub fn points(&self) -> (r: &Vec<Point>)
        ensures
            r@.to_set() == self.set(),
            r@.no_duplicates(),
            ascending(r@),
    {
        proof {
            use_type_invariant(self);
        }
        &self.points
    }

    /// A copy of the region.
    pub fn dup(&self) -> (r: Region)
        ensures
            r.set() == self.set(),
    {
        let mut points: Vec<Point> = Vec::new();
        let mut i: usize = 0;
        while i < self.points.len()
            invariant
                i <= self.points.len(),
                points@ == self.points@.subrange(0, i as int),
            decreases self.points.len() - i,
        {
            points.push(self.points[i]);
            assert(self.points@.subrange(0, i as int + 1) =~= self.points@.subrange(0, i as int).push(
                self.points@[i as int],
            ));
            i += 1;
        }
        assert(self.points@.subrange(0, self.points@.len() as int) =~= self.points@);
        proof {
            use_type_invariant(self);
        }
        Region { points }
    }
}

} // verus!
