//! Points, segments, and the obstacle set.
//!
//! Coordinates are plain integers in a caller-chosen unit. Every coordinate
//! handled by the engine is bounded by `COORD_LIMIT`, which keeps all of the
//! intersection arithmetic (products of coordinate differences, cross
//! multiplied comparisons) inside `i128`.
use vstd::prelude::*;

verus! {

/// Largest coordinate magnitude the engine accepts: 2^29.
pub const COORD_LIMIT: i64 = 536870912;

/// A point of the plane, in integer units. Value type, no identity.
#[derive(Clone, Copy, PartialEq, Eq, Structural, Debug)]
pub struct Point {
    pub x: i64,
    pub y: i64,
}

/// A finite straight segment from `a` to `b`; an obstacle edge or a ray.
/// A ray's `a` is always the cast origin.
#[derive(Clone, Copy, PartialEq, Eq, Structural, Debug)]
pub struct Segment {
    pub a: Point,
    pub b: Point,
}

/// Both coordinates of the point are within the engine's bound.
pub open spec fn point_in_bounds(p: Point) -> bool {
    -COORD_LIMIT <= p.x <= COORD_LIMIT && -COORD_LIMIT <= p.y <= COORD_LIMIT
}

/// Both endpoints of the segment are within the engine's bound.
pub open spec fn seg_in_bounds(s: Segment) -> bool {
    point_in_bounds(s.a) && point_in_bounds(s.b)
}

impl Point {
    /// Runtime check for `point_in_bounds`.
    pub fn in_bounds(&self) -> (r: bool)
        ensures
            r == point_in_bounds(*self),
    {
        -COORD_LIMIT <= self.x && self.x <= COORD_LIMIT
            && -COORD_LIMIT <= self.y && self.y <= COORD_LIMIT
    }
}

impl Segment {
    /// Runtime check for `seg_in_bounds`.
    pub fn in_bounds(&self) -> (r: bool)
        ensures
            r == seg_in_bounds(*self),
    {
        self.a.in_bounds() && self.b.in_bounds()
    }
}

/// An immutable, ordered collection of obstacle segments. Built once, read
/// only for the lifetime of a cast; segments may be duplicated, zero-length
/// or mutually intersecting. The one invariant is the coordinate bound.
#[derive(Debug)]
pub struct ObstacleSet {
    segs: Vec<Segment>,
}

impl View for ObstacleSet {
    type V = Seq<Segment>;

    closed spec fn view(&self) -> Seq<Segment> {
        self.segs@
    }
}

/// Every segment of the sequence is within the engine's bound.
pub open spec fn obstacles_in_bounds(obs: Seq<Segment>) -> bool {
    forall|i: int| 0 <= i < obs.len() ==> seg_in_bounds(#[trigger] obs[i])
}

impl ObstacleSet {
    /// The well-formedness the engine relies on: bounded coordinates.
    pub open spec fn wf(&self) -> bool {
        obstacles_in_bounds(self@)
    }

    /// Builds the set from segments, refusing any out-of-bounds coordinate.
    pub fn from_segments(segs: Vec<Segment>) -> (r: Option<ObstacleSet>)
        ensures
            r is Some <==> obstacles_in_bounds(segs@),
            r is Some ==> r->0@ == segs@ && r->0.wf(),
    {
        let mut i: usize = 0;
        while i < segs.len()
            invariant
                0 <= i <= segs@.len(),
                forall|j: int| 0 <= j < i ==> seg_in_bounds(#[trigger] segs@[j]),
            decreases segs@.len() - i,
        {
            if !segs[i].in_bounds() {
                return None;
            }
            i += 1;
        }
        Some(ObstacleSet { segs })
    }

    /// The empty obstacle set.
    pub fn empty() -> (r: ObstacleSet)
        ensures
            r@ == Seq::<Segment>::empty(),
            r.wf(),
    {
        let r = ObstacleSet { segs: Vec::new() };
        proof {
            assert(r@ =~= Seq::<Segment>::empty());
        }
        r
    }

    /// Number of obstacle segments.
    pub fn len(&self) -> (r: usize)
        ensures
            r == self@.len(),
    {
        self.segs.len()
    }

    /// The segment at `i`.
    pub fn get(&self, i: usize) -> (r: Segment)
        requires
            i < self@.len(),
        ensures
            r == self@[i as int],
    {
        self.segs[i]
    }
}

} // verus!
