//! A 2D point index with radius-bounded proximity queries under Euclidean
//! distance. Membership only: no payloads, no deletion; every regeneration
//! is a full rebuild. Distances are compared in squared form against the
//! squared radius, which for non-negative radii is exactly the Euclidean
//! comparison, with an inclusive boundary.

use vstd::prelude::*;

use crate::fixed::{norm_ok, within, Point, MAX_NORM};

verus! {

/// Squared-distance comparison: does `b` lie within `radius` of `a`
/// (inclusive)? Exact: no square root is ever taken.
fn check_within(a: &Point, b: &Point, radius: i64) -> (r: bool)
    requires
        norm_ok(*a),
        norm_ok(*b),
        0 <= radius <= MAX_NORM,
    ensures
        r == within(*a, *b, radius as int),
{
    let dx: i64 = if a.x >= b.x {
        a.x - b.x
    } else {
        b.x - a.x
    };
    let dy: i64 = if a.y >= b.y {
        a.y - b.y
    } else {
        b.y - a.y
    };
    assert(dx * dx == (a.x - b.x) * (a.x - b.x) && dy * dy == (a.y - b.y) * (a.y - b.y))
        by (nonlinear_arith)
        requires
            dx == (if a.x >= b.x { a.x - b.x } else { b.x - a.x }),
            dy == (if a.y >= b.y { a.y - b.y } else { b.y - a.y }),
    ;
    assert(dx * dx <= 2 * MAX_NORM * (2 * MAX_NORM) && dy * dy <= 2 * MAX_NORM * (2 * MAX_NORM))
        by (nonlinear_arith)
        requires
            0 <= dx <= 2 * MAX_NORM,
            0 <= dy <= 2 * MAX_NORM,
    ;
    assert(radius * radius <= MAX_NORM * MAX_NORM) by (nonlinear_arith)
        requires
            0 <= radius <= MAX_NORM,
    ;
    let dx2: u128 = (dx as u128) * (dx as u128);
    let dy2: u128 = (dy as u128) * (dy as u128);
    let r2: u128 = (radius as u128) * (radius as u128);
    dx2 + dy2 <= r2
}

/// The spatial index: a flat store of 2D points, queried by linear scan.
/// All comparisons are exact, so the index gives the same answers as the
/// mathematical definition `within` on every query.
pub struct SpatialIndex {
    pub points: Vec<Point>,
}

impl View for SpatialIndex {
    type V = Seq<Point>;

    open spec fn view(&self) -> Seq<Point> {
        self.points@
    }
}

/// Every indexed point is in normalized range, so that squared-distance
/// comparisons against it cannot overflow.
pub open spec fn index_wf(idx: SpatialIndex) -> bool {
    forall|i: int| 0 <= i < idx@.len() ==> norm_ok(#[trigger] idx@[i])
}

impl SpatialIndex {
    /// An empty index.
    pub fn new() -> (s: Self)
        ensures
            s@ == Seq::<Point>::empty(),
            index_wf(s),
    {
        SpatialIndex { points: Vec::new() }
    }

    /// Add one point; the stored contents grow by exactly that point.
    pub fn insert(&mut self, p: Point)
        requires
            norm_ok(p),
            index_wf(*old(self)),
        ensures
            final(self)@ == old(self)@.push(p),
            index_wf(*final(self)),
    {
        self.points.push(p);
        proof {
            assert forall|i: int| 0 <= i < self@.len() implies norm_ok(#[trigger] self@[i]) by {
                if i < old(self)@.len() {
                    assert(self@[i] == old(self)@[i]);
                }
            }
        }
    }

    /// Clear all contents and re-insert from scratch: afterwards the index
    /// holds exactly the given points, in order.
    pub fn rebuild(&mut self, pts: &Vec<Point>)
        requires
            forall|i: int| 0 <= i < pts@.len() ==> norm_ok(#[trigger] pts@[i]),
        ensures
            final(self)@ == pts@,
            index_wf(*final(self)),
    {
        self.points = Vec::new();
        let mut i: usize = 0;
        while i < pts.len()
            invariant
                i <= pts@.len(),
                self.points@ == pts@.take(i as int),
                forall|j: int| 0 <= j < pts@.len() ==> norm_ok(#[trigger] pts@[j]),
            decreases pts@.len() - i,
        {
            self.points.push(pts[i]);
            proof {
                assert(self.points@ =~= pts@.take(i + 1 as int));
            }
            i = i + 1;
        }
        proof {
            assert(self.points@ =~= pts@);
        }
    }

    /// All indexed points within `radius` of `center` (inclusive), in the
    /// order they were inserted.
    pub fn query_within(&self, center: &Point, radius: i64) -> (r: Vec<Point>)
        requires
            index_wf(*self),
            norm_ok(*center),
            0 <= radius <= MAX_NORM,
        ensures
            r@ == self@.filter(|p: Point| within(*center, p, radius as int)),
    {
        let ghost pred = |p: Point| within(*center, p, radius as int);
        let mut r: Vec<Point> = Vec::new();
        let mut i: usize = 0;
        while i < self.points.len()
            invariant
                i <= self@.len(),
                index_wf(*self),
                norm_ok(*center),
                0 <= radius <= MAX_NORM,
                pred == (|p: Point| within(*center, p, radius as int)),
                r@ == self@.take(i as int).filter(pred),
            decreases self@.len() - i,
        {
            proof {
                reveal(Seq::filter);
                assert(self@.take(i + 1 as int).drop_last() =~= self@.take(i as int));
                assert(self@.take(i + 1 as int).last() == self@[i as int]);
            }
            if check_within(center, &self.points[i], radius) {
                r.push(self.points[i]);
            }
            i = i + 1;
        }
        proof {
            assert(self@.take(self@.len() as int) =~= self@);
        }
        r
    }

    /// Is any indexed point within `radius` of `center` (inclusive)?
    pub fn any_within(&self, center: &Point, radius: i64) -> (r: bool)
        requires
            index_wf(*self),
            norm_ok(*center),
            0 <= radius <= MAX_NORM,
        ensures
            r == exists|i: int|
                0 <= i < self@.len() && within(*center, #[trigger] self@[i], radius as int),
    {
        let mut i: usize = 0;
        while i < self.points.len()
            invariant
                i <= self@.len(),
                index_wf(*self),
                norm_ok(*center),
                0 <= radius <= MAX_NORM,
                forall|j: int| 0 <= j < i ==> !within(*center, #[trigger] self@[j], radius as int),
            decreases self@.len() - i,
        {
            if check_within(center, &self.points[i], radius) {
                return true;
            }
            i = i + 1;
        }
        false
    }
}

} // verus!
