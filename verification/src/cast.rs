//! Angle sampling and the cast orchestrator.
//!
//! A cast sends one ray from the origin towards each far point of a given
//! angle-ordered list — the far points come from the direction resolver,
//! one per sampled angle, each placed on the bounding circle so that a ray
//! striking nothing visibly leaves the area — and yields one result per
//! ray, in the same order. The sequential and the parallel strategy
//! satisfy the same contract: their results are equal for equal inputs,
//! element for element; the one permitted difference is wall-clock
//! latency.
use vstd::prelude::*;

use rayon::iter::IndexedParallelIterator;
use rayon::iter::IntoParallelRefIterator;
use rayon::iter::ParallelIterator;

use crate::geom::ObstacleSet;
use crate::geom::Point;
use crate::geom::Segment;
use crate::geom::point_in_bounds;
use crate::intersect::Rat2;
use crate::intersect::RatPoint;
use crate::intersect::hit_point;
use crate::intersect::int_point;
use crate::intersect::nearest_hit;
use crate::intersect::nearest_intersection;

verus! {

/// One sampled ray angle, as the exact fraction `num / den` of a full
/// clockwise rotation from the "up" axis; in degrees, `360 * num / den`.
#[derive(Clone, Copy, PartialEq, Eq, Structural, Debug)]
pub struct Angle {
    pub num: usize,
    pub den: usize,
}

/// The angle sampler: `count` angles evenly spaced over the half-open
/// full rotation, in increasing order; the i-th angle is the fraction
/// `i / count` of a turn, so the first is always the interval's start,
/// and for `count == 1` the single angle is the interval's start.
pub fn sample_angles(count: usize) -> (r: Vec<Angle>)
    requires
        count >= 1,
    ensures
        r@.len() == count,
        forall|i: int|
            0 <= i < count ==> (#[trigger] r@[i]) == (Angle { num: i as usize, den: count }),
{
    let mut out: Vec<Angle> = Vec::new();
    let mut i: usize = 0;
    while i < count
        invariant
            0 <= i <= count,
            out@.len() == i,
            forall|j: int|
                0 <= j < i ==> (#[trigger] out@[j]) == (Angle { num: j as usize, den: count }),
        decreases count - i,
    {
        out.push(Angle { num: i, den: count });
        i += 1;
    }
    out
}

/// One ray's outcome: the segment from the cast origin to either the
/// nearest crossing point with an obstacle, or the ray's far point when
/// nothing is struck.
#[derive(Clone, Copy, PartialEq, Eq, Structural, Debug)]
pub struct RayResult {
    pub origin: Point,
    pub end: RatPoint,
}

/// Mathematical model of one ray's outcome.
pub ghost struct RayModel {
    pub origin: Point,
    pub end: Rat2,
}

impl View for RayResult {
    type V = RayModel;

    open spec fn view(&self) -> RayModel {
        RayModel { origin: self.origin, end: self.end@ }
    }
}

/// Model of one ray's outcome: the nearest crossing if any obstacle is
/// struck, the exact far point otherwise.
pub open spec fn ray_model(origin: Point, obs: Seq<Segment>, far: Point) -> RayModel {
    match nearest_hit(Segment { a: origin, b: far }, obs) {
        Some(h) => RayModel { origin, end: hit_point(h) },
        None => RayModel { origin, end: int_point(far.x as int, far.y as int) },
    }
}

/// Model of a whole cast: one outcome per far point, in the given
/// (increasing-angle) order.
pub open spec fn cast_model(origin: Point, obs: Seq<Segment>, fps: Seq<Point>) -> Seq<RayModel> {
    Seq::new(fps.len(), |i: int| ray_model(origin, obs, fps[i]))
}

/// Arguments a cast accepts: bounded origin and far points, bounded
/// obstacles, at least one ray.
pub open spec fn cast_args_wf(origin: Point, obstacles: ObstacleSet, fps: Seq<Point>) -> bool {
    &&& point_in_bounds(origin)
    &&& obstacles.wf()
    &&& fps.len() >= 1
    &&& forall|i: int| 0 <= i < fps.len() ==> point_in_bounds(#[trigger] fps[i])
}

/// Casts the single ray from the origin towards `far`: the nearest
/// intersection with any obstacle, or the far point itself when nothing
/// is struck.
pub fn cast_ray(origin: Point, obstacles: &ObstacleSet, far: Point) -> (r: RayResult)
    requires
        point_in_bounds(origin),
        point_in_bounds(far),
        obstacles.wf(),
    ensures
        r@ == ray_model(origin, obstacles@, far),
{
    let ray = Segment { a: origin, b: far };
    match nearest_intersection(ray, obstacles) {
        Some(p) => RayResult { origin, end: p },
        None => RayResult {
            origin,
            end: RatPoint { x_num: far.x as i128, y_num: far.y as i128, den: 1 },
        },
    }
}

/// An ordered cast outcome: one `RayResult` per sampled angle, in
/// increasing-angle order.
#[derive(PartialEq, Eq, Debug)]
pub struct CastResult {
    pub results: Vec<RayResult>,
}

impl View for CastResult {
    type V = Seq<RayModel>;

    open spec fn view(&self) -> Seq<RayModel> {
        self.results@.map_values(|r: RayResult| r@)
    }
}

/// The sequential strategy: rays strictly in angle order, one after the
/// other, each result appended in place.
pub fn cast_sequential(origin: Point, obstacles: &ObstacleSet, far_points: &Vec<Point>) -> (r:
    CastResult)
    requires
        cast_args_wf(origin, *obstacles, far_points@),
    ensures
        r@ == cast_model(origin, obstacles@, far_points@),
        r@.len() == far_points@.len(),
{
    let mut results: Vec<RayResult> = Vec::new();
    let mut i: usize = 0;
    while i < far_points.len()
        invariant
            cast_args_wf(origin, *obstacles, far_points@),
            0 <= i <= far_points@.len(),
            results@.len() == i,
            forall|j: int|
                0 <= j < i ==> (#[trigger] results@[j])@ == ray_model(
                    origin,
                    obstacles@,
                    far_points@[j],
                ),
        decreases far_points@.len() - i,
    {
        let far = far_points[i];
        results.push(cast_ray(origin, obstacles, far));
        i += 1;
    }
    let r = CastResult { results };
    proof {
        assert(r@ =~= cast_model(origin, obstacles@, far_points@));
    }
    r
}

/// The parallel strategy's worker dispatch.
///
/// Relies on rayon's indexed parallel iterators: `collect_into_vec` on
/// `far_points.par_iter().map(..)` hands every far point to one worker and
/// writes each closure result into its pre-assigned slot, so slot `i`
/// holds the verified `cast_ray` result for far point `i` — the workers
/// share the obstacle set read-only and no two of them ever write the
/// same slot.
#[verifier::external_body]
fn cast_rays_parallel(origin: Point, obstacles: &ObstacleSet, far_points: &Vec<Point>) -> (r: Vec<
    RayResult,
>)
    requires
        cast_args_wf(origin, *obstacles, far_points@),
    ensures
        r@.len() == far_points@.len(),
        forall|i: int|
            0 <= i < far_points@.len() ==> (#[trigger] r@[i])@ == ray_model(
                origin,
                obstacles@,
                far_points@[i],
            ),
{
    let mut out: Vec<RayResult> = Vec::with_capacity(far_points.len());
    far_points.par_iter().map(|far| cast_ray(origin, obstacles, *far)).collect_into_vec(&mut out);
    out
}

/// The parallel strategy: every ray's result is computed independently
/// from `(origin, obstacles, far point)` by a worker pool and written to
/// its pre-assigned slot; the assembled order is the angle order, the
/// same as the sequential strategy's.
pub fn cast_parallel(origin: Point, obstacles: &ObstacleSet, far_points: &Vec<Point>) -> (r:
    CastResult)
    requires
        cast_args_wf(origin, *obstacles, far_points@),
    ensures
        r@ == cast_model(origin, obstacles@, far_points@),
        r@.len() == far_points@.len(),
{
    let results = cast_rays_parallel(origin, obstacles, far_points);
    let r = CastResult { results };
    proof {
        assert(r@ =~= cast_model(origin, obstacles@, far_points@));
    }
    r
}

/// The cast orchestrator: one result per far point, in angle order; the
/// far points come from the direction resolver, one per sampled angle.
/// The contract does not depend on `parallel`: the sequential and the
/// parallel strategy produce equal results for equal inputs.
pub fn cast(origin: Point, obstacles: &ObstacleSet, far_points: &Vec<Point>, parallel: bool) -> (r:
    CastResult)
    requires
        cast_args_wf(origin, *obstacles, far_points@),
    ensures
        r@ == cast_model(origin, obstacles@, far_points@),
        r@.len() == far_points@.len(),
{
    if parallel {
        cast_parallel(origin, obstacles, far_points)
    } else {
        cast_sequential(origin, obstacles, far_points)
    }
}

/// Every ray result of a cast starts exactly at the shared cast origin,
/// whatever the obstacles and far points are.
pub proof fn lemma_cast_results_start_at_origin(
    origin: Point,
    obs: Seq<Segment>,
    fps: Seq<Point>,
    i: int,
)
    requires
        0 <= i < fps.len(),
    ensures
        cast_model(origin, obs, fps)[i].origin == origin,
{
}

/// Against an empty obstacle set, every ray's endpoint is exactly its far
/// point: there are no spurious intersections.
pub proof fn lemma_empty_obstacles_reach_far_point(origin: Point, fps: Seq<Point>, i: int)
    requires
        0 <= i < fps.len(),
    ensures
        cast_model(origin, Seq::<Segment>::empty(), fps)[i].end == int_point(
            fps[i].x as int,
            fps[i].y as int,
        ),
{
}

} // verus!
