//! The intersection engine: parametric line–line intersection and
//! nearest-hit selection, over exact integer and rational arithmetic.
//!
//! For a ray `(x1,y1)-(x2,y2)` and an obstacle `(x3,y3)-(x4,y4)` the
//! parametric solution of the two line equations is
//! `t = t_num / denom`, `u = u_num / denom` with
//! `denom = (x1-x2)(y3-y4) - (y1-y2)(x3-x4)`; the segments cross iff
//! `denom != 0` and both `t` and `u` lie in `[0, 1]` (endpoints included).
//! The crossing point `(x1 + t(x2-x1), y1 + t(y2-y1))` is kept as an exact
//! rational, so no precision is lost anywhere in the engine. A zero
//! denominator (parallel or collinear segments) is a defined negative
//! outcome, never an error.
use vstd::prelude::*;

use crate::geom::COORD_LIMIT;
use crate::geom::ObstacleSet;
use crate::geom::Point;
use crate::geom::Segment;
use crate::geom::seg_in_bounds;

verus! {

/// Bound on the cross products `ll_denom`, `ll_t_num`, `ll_u_num` for
/// segments within `COORD_LIMIT`: 8 * COORD_LIMIT^2 = 2^61.
pub const DEN_BOUND: i128 = 0x2000_0000_0000_0000;

/// Bound on hit-point numerators: 24 * COORD_LIMIT^3 < 2^92.
pub const XY_BOUND: i128 = 0x1000_0000_0000_0000_0000_0000;

/// Denominator of the parametric line–line solution for ray `r` and
/// obstacle `w`. Zero exactly when the two carrier lines are parallel
/// (or one segment is a single point).
pub open spec fn ll_denom(r: Segment, w: Segment) -> int {
    (r.a.x - r.b.x) * (w.a.y - w.b.y) - (r.a.y - r.b.y) * (w.a.x - w.b.x)
}

/// Numerator of the ray parameter `t`.
pub open spec fn ll_t_num(r: Segment, w: Segment) -> int {
    (r.a.x - w.a.x) * (w.a.y - w.b.y) - (r.a.y - w.a.y) * (w.a.x - w.b.x)
}

/// Numerator of the obstacle parameter `u`.
pub open spec fn ll_u_num(r: Segment, w: Segment) -> int {
    (r.a.x - w.a.x) * (r.a.y - r.b.y) - (r.a.y - w.a.y) * (r.a.x - r.b.x)
}

/// `0 <= n/d <= 1` for `d != 0`, stated without division.
pub open spec fn in_unit_interval(n: int, d: int) -> bool {
    if d >= 0 {
        0 <= n <= d
    } else {
        d <= n <= 0
    }
}

/// The ray `r` strikes the obstacle `w`: the segments properly cross,
/// endpoints included. Parallel geometry (`ll_denom == 0`) never hits.
pub open spec fn hits(r: Segment, w: Segment) -> bool {
    &&& ll_denom(r, w) != 0
    &&& in_unit_interval(ll_t_num(r, w), ll_denom(r, w))
    &&& in_unit_interval(ll_u_num(r, w), ll_denom(r, w))
}

/// A point of the plane with exact rational coordinates
/// `(x_num / den, y_num / den)`, mathematical model.
pub ghost struct Rat2 {
    pub x_num: int,
    pub y_num: int,
    pub den: int,
}

/// A crossing of a ray and one obstacle, over a positive common
/// denominator: the crossing point is `(x_num / den, y_num / den)` and its
/// position along the ray is `t_num / den`, with `0 <= t_num <= den`.
pub ghost struct HitModel {
    pub t_num: int,
    pub den: int,
    pub x_num: int,
    pub y_num: int,
}

/// The crossing of `r` and `w`, sign-normalised so that the common
/// denominator is positive. Meaningful only when `hits(r, w)`.
pub open spec fn hit_model(r: Segment, w: Segment) -> HitModel {
    let tn = if ll_denom(r, w) < 0 {
        -ll_t_num(r, w)
    } else {
        ll_t_num(r, w)
    };
    let d = if ll_denom(r, w) < 0 {
        -ll_denom(r, w)
    } else {
        ll_denom(r, w)
    };
    HitModel {
        t_num: tn,
        den: d,
        x_num: r.a.x * d + tn * (r.b.x - r.a.x),
        y_num: r.a.y * d + tn * (r.b.y - r.a.y),
    }
}

/// The crossing point of a hit.
pub open spec fn hit_point(h: HitModel) -> Rat2 {
    Rat2 { x_num: h.x_num, y_num: h.y_num, den: h.den }
}

/// An integer point as a rational one.
pub open spec fn int_point(x: int, y: int) -> Rat2 {
    Rat2 { x_num: x, y_num: y, den: 1 }
}

/// Equality of rational points as values (cross-multiplied).
pub open spec fn rat_eq(p: Rat2, q: Rat2) -> bool {
    p.x_num * q.den == q.x_num * p.den && p.y_num * q.den == q.y_num * p.den
}

/// `h1` lies strictly nearer the ray origin than `h2`, compared by the ray
/// parameter: `t1/d1 < t2/d2`, cross-multiplied over positive denominators.
pub open spec fn strictly_closer(h1: HitModel, h2: HitModel) -> bool {
    h1.t_num * h2.den < h2.t_num * h1.den
}

/// `h1` lies no farther from the ray origin than `h2`.
pub open spec fn no_farther(h1: HitModel, h2: HitModel) -> bool {
    h1.t_num * h2.den <= h2.t_num * h1.den
}

/// Numerator of the exact squared distance from the ray origin `r.a` to the
/// rational point `p`; the full squared distance is `dist2_num / den^2`.
pub open spec fn dist2_num(r: Segment, p: Rat2) -> int {
    (p.x_num - r.a.x * p.den) * (p.x_num - r.a.x * p.den) + (p.y_num - r.a.y * p.den) * (p.y_num
        - r.a.y * p.den)
}

/// The true squared Euclidean distance from the ray origin to `p` is at
/// most the one to `q`, compared exactly (cross-multiplied, denominators
/// nonzero): no truncation anywhere.
pub open spec fn dist2_le(r: Segment, p: Rat2, q: Rat2) -> bool {
    dist2_num(r, p) * (q.den * q.den) <= dist2_num(r, q) * (p.den * p.den)
}

/// The nearest crossing of the ray with any obstacle of the sequence, or
/// `None` when the ray strikes nothing. Walked front to back; a candidate
/// replaces the current best only when strictly nearer, so among equally
/// near crossings the earliest obstacle wins.
pub open spec fn nearest_hit(r: Segment, obs: Seq<Segment>) -> Option<HitModel>
    decreases obs.len(),
{
    if obs.len() == 0 {
        None
    } else {
        let prior = nearest_hit(r, obs.drop_last());
        let w = obs.last();
        if !hits(r, w) {
            prior
        } else {
            let cand = hit_model(r, w);
            match prior {
                None => Some(cand),
                Some(b) => if strictly_closer(cand, b) {
                    Some(cand)
                } else {
                    Some(b)
                },
            }
        }
    }
}

/// A point with exact rational coordinates `(x_num / den, y_num / den)`.
/// Hit points of the engine always carry a positive denominator.
#[derive(Clone, Copy, PartialEq, Eq, Structural, Debug)]
pub struct RatPoint {
    pub x_num: i128,
    pub y_num: i128,
    pub den: i128,
}

impl View for RatPoint {
    type V = Rat2;

    open spec fn view(&self) -> Rat2 {
        Rat2 { x_num: self.x_num as int, y_num: self.y_num as int, den: self.den as int }
    }
}

impl RatPoint {
    /// Is this exactly the integer point `(x, y)`?
    pub fn is_point(&self, x: i64, y: i64) -> (r: bool)
        requires
            0 < self.den <= DEN_BOUND,
        ensures
            r == rat_eq(self@, int_point(x as int, y as int)),
    {
        proof {
            lemma_abs_mul_le(x as int, self.den as int, 0x8000_0000_0000_0000, DEN_BOUND as int);
            lemma_abs_mul_le(y as int, self.den as int, 0x8000_0000_0000_0000, DEN_BOUND as int);
        }
        self.x_num == (x as i128) * self.den && self.y_num == (y as i128) * self.den
    }
}

/// |a| <= m and |b| <= n give |a * b| <= m * n.
pub proof fn lemma_abs_mul_le(a: int, b: int, m: int, n: int)
    by (nonlinear_arith)
    requires
        -m <= a <= m,
        -n <= b <= n,
        0 <= m,
        0 <= n,
    ensures
        -(m * n) <= a * b <= m * n,
{
}

/// Transitivity of fraction comparison over positive denominators:
/// a/b <= c/d and c/d <= e/f give a/b <= e/f, all cross-multiplied.
proof fn lemma_frac_le_trans(a: int, b: int, c: int, d: int, e: int, f: int)
    by (nonlinear_arith)
    requires
        b > 0,
        d > 0,
        f > 0,
        a * d <= c * b,
        c * f <= e * d,
    ensures
        a * f <= e * b,
{
}

/// The obstacle parameter of the crossing, over the same positive
/// denominator as `hit_model`: the crossing sits at `hit_u_num / den`
/// along the obstacle. Meaningful only when `hits(r, w)`.
pub open spec fn hit_u_num(r: Segment, w: Segment) -> int {
    if ll_denom(r, w) < 0 {
        -ll_u_num(r, w)
    } else {
        ll_u_num(r, w)
    }
}

/// A parallel obstacle — one whose carrier line has the same direction as
/// the ray's, so the denominator vanishes — is never struck, even when the
/// two segments are collinear and overlap.
pub proof fn lemma_parallel_never_hits(r: Segment, w: Segment)
    ensures
        ll_denom(r, w) == 0 ==> !hits(r, w),
{
}

/// Basic shape of a crossing: positive denominator, ray parameter inside
/// the unit interval, and the offset of the crossing point from the ray
/// origin is `t` times the ray direction.
pub proof fn lemma_hit_model_wf(r: Segment, w: Segment)
    requires
        hits(r, w),
    ensures
        ({
            let h = hit_model(r, w);
            &&& 0 < h.den
            &&& 0 <= h.t_num <= h.den
            &&& h.x_num - r.a.x * h.den == h.t_num * (r.b.x - r.a.x)
            &&& h.y_num - r.a.y * h.den == h.t_num * (r.b.y - r.a.y)
        }),
{
}

/// The crossing point of `hit_model` lies on both segments: it divides the
/// ray at `t = t_num/den` and the obstacle at `u = hit_u_num/den`, both in
/// `[0, 1]`, satisfying the two line equations exactly.
/// The Cramer cancellation behind the line–line solution: eliminating the
/// crossing point from the two parametric forms leaves nothing.
proof fn lemma_cramer(a: int, b: int, c: int, d: int, e: int, f: int)
    by (nonlinear_arith)
    ensures
        a * (c * f - d * e) - c * (a * f - b * e) + e * (a * d - b * c) == 0,
{
}

/// The same cancellation on the second coordinate row.
proof fn lemma_cramer_second(a: int, b: int, c: int, d: int, e: int, f: int)
    by (nonlinear_arith)
    ensures
        b * (c * f - d * e) - d * (a * f - b * e) + f * (a * d - b * c) == 0,
{
}

pub proof fn lemma_hit_lies_on_both_segments(r: Segment, w: Segment)
    requires
        hits(r, w),
    ensures
        ({
            let h = hit_model(r, w);
            let u = hit_u_num(r, w);
            &&& h.x_num == r.a.x * h.den + h.t_num * (r.b.x - r.a.x)
            &&& h.y_num == r.a.y * h.den + h.t_num * (r.b.y - r.a.y)
            &&& 0 <= h.t_num <= h.den
            &&& 0 <= u <= h.den
            &&& h.x_num == w.a.x * h.den + u * (w.b.x - w.a.x)
            &&& h.y_num == w.a.y * h.den + u * (w.b.y - w.a.y)
        }),
{
    let x1 = r.a.x as int;
    let y1 = r.a.y as int;
    let x2 = r.b.x as int;
    let y2 = r.b.y as int;
    let x3 = w.a.x as int;
    let y3 = w.a.y as int;
    let x4 = w.b.x as int;
    let y4 = w.b.y as int;
    let dd = ll_denom(r, w);
    let tt = ll_t_num(r, w);
    let uu = ll_u_num(r, w);
    let nd = if dd < 0 {
        -dd
    } else {
        dd
    };
    let ntn = if dd < 0 {
        -tt
    } else {
        tt
    };
    let nun = hit_u_num(r, w);
    // x-axis: eliminate the crossing point from the two parametric forms.
    lemma_cramer(x1 - x3, y1 - y3, x1 - x2, y1 - y2, x3 - x4, y3 - y4);
    assert(x1 * dd - x3 * dd == (x1 - x3) * dd) by (nonlinear_arith);
    assert(tt * (x2 - x1) == -((x1 - x2) * tt)) by (nonlinear_arith);
    assert(uu * (x4 - x3) == -((x3 - x4) * uu)) by (nonlinear_arith);
    assert((x1 - x2) * tt == tt * (x1 - x2)) by (nonlinear_arith);
    assert((x3 - x4) * uu == uu * (x3 - x4)) by (nonlinear_arith);
    assert(x1 * dd + tt * (x2 - x1) == x3 * dd + uu * (x4 - x3));
    // y-axis: the same cancellation on the second coordinate row.
    lemma_cramer_second(x1 - x3, y1 - y3, x1 - x2, y1 - y2, x3 - x4, y3 - y4);
    assert(y1 * dd - y3 * dd == (y1 - y3) * dd) by (nonlinear_arith);
    assert(tt * (y2 - y1) == -((y1 - y2) * tt)) by (nonlinear_arith);
    assert(uu * (y4 - y3) == -((y3 - y4) * uu)) by (nonlinear_arith);
    assert((y1 - y2) * tt == tt * (y1 - y2)) by (nonlinear_arith);
    assert((y3 - y4) * uu == uu * (y3 - y4)) by (nonlinear_arith);
    assert(y1 * dd + tt * (y2 - y1) == y3 * dd + uu * (y4 - y3));
    assert(x1 * nd + ntn * (x2 - x1) == x3 * nd + nun * (x4 - x3)
        && y1 * nd + ntn * (y2 - y1) == y3 * nd + nun * (y4 - y3)) by (nonlinear_arith)
        requires
            (nd == dd && ntn == tt && nun == uu) || (nd == -dd && ntn == -tt && nun == -uu),
            x1 * dd + tt * (x2 - x1) == x3 * dd + uu * (x4 - x3),
            y1 * dd + tt * (y2 - y1) == y3 * dd + uu * (y4 - y3),
    ;
    lemma_hit_model_wf(r, w);
    assert(hit_model(r, w).x_num == x1 * nd + ntn * (x2 - x1));
    assert(hit_model(r, w).y_num == y1 * nd + ntn * (y2 - y1));
}

/// `nearest_hit` is sound and complete: it answers `Some` exactly when some
/// obstacle is struck, the answer is the crossing with one of the struck
/// obstacles, and no struck obstacle's crossing is nearer along the ray.
pub proof fn lemma_nearest_hit_props(r: Segment, obs: Seq<Segment>)
    ensures
        (nearest_hit(r, obs) is Some) <==> (exists|i: int|
            0 <= i < obs.len() && hits(r, #[trigger] obs[i])),
        nearest_hit(r, obs) matches Some(h) ==> exists|i: int|
            0 <= i < obs.len() && hits(r, #[trigger] obs[i]) && h == hit_model(r, obs[i]),
        nearest_hit(r, obs) matches Some(h) ==> forall|j: int|
            0 <= j < obs.len() && hits(r, #[trigger] obs[j]) ==> no_farther(
                h,
                hit_model(r, obs[j]),
            ),
    decreases obs.len(),
{
    if obs.len() == 0 {
    } else {
        let pre = obs.drop_last();
        let n = obs.len() - 1;
        let w = obs.last();
        lemma_nearest_hit_props(r, pre);
        assert(forall|i: int| 0 <= i < n ==> pre[i] == #[trigger] obs[i]);
        if !hits(r, w) {
            assert(nearest_hit(r, obs) == nearest_hit(r, pre));
            if exists|i: int| 0 <= i < obs.len() && hits(r, #[trigger] obs[i]) {
                let i0 = choose|i: int| 0 <= i < obs.len() && hits(r, #[trigger] obs[i]);
                assert(i0 < n && pre[i0] == obs[i0]);
            }
        } else {
            let cand = hit_model(r, w);
            lemma_hit_model_wf(r, w);
            match nearest_hit(r, pre) {
                None => {
                    assert(nearest_hit(r, obs) == Some(cand));
                    assert(hits(r, obs[n]) && cand == hit_model(r, obs[n]));
                },
                Some(b) => {
                    let ib = choose|i: int|
                        0 <= i < pre.len() && hits(r, #[trigger] pre[i]) && b == hit_model(
                            r,
                            pre[i],
                        );
                    lemma_hit_model_wf(r, pre[ib]);
                    if strictly_closer(cand, b) {
                        assert(nearest_hit(r, obs) == Some(cand));
                        assert(hits(r, obs[n]) && cand == hit_model(r, obs[n]));
                        assert forall|j: int|
                            0 <= j < obs.len() && hits(r, #[trigger] obs[j]) implies no_farther(
                            cand,
                            hit_model(r, obs[j]),
                        ) by {
                            if j < n {
                                let hj = hit_model(r, obs[j]);
                                lemma_hit_model_wf(r, obs[j]);
                                assert(no_farther(b, hj));
                                lemma_frac_le_trans(
                                    cand.t_num,
                                    cand.den,
                                    b.t_num,
                                    b.den,
                                    hj.t_num,
                                    hj.den,
                                );
                            }
                        }
                    } else {
                        assert(nearest_hit(r, obs) == Some(b));
                        assert(hits(r, obs[ib]) && b == hit_model(r, obs[ib]));
                    }
                },
            }
        }
    }
}

/// Comparison by the ray parameter is comparison by the true squared
/// Euclidean distance to the ray origin, in full precision: for two
/// crossings of one ray, `no_farther` holds exactly when the first
/// crossing point's squared distance is at most the second's.
pub proof fn lemma_nearness_is_distance(r: Segment, w1: Segment, w2: Segment)
    requires
        hits(r, w1),
        hits(r, w2),
    ensures
        no_farther(hit_model(r, w1), hit_model(r, w2)) <==> dist2_le(
            r,
            hit_point(hit_model(r, w1)),
            hit_point(hit_model(r, w2)),
        ),
{
    let h1 = hit_model(r, w1);
    let h2 = hit_model(r, w2);
    lemma_hit_model_wf(r, w1);
    lemma_hit_model_wf(r, w2);
    let dx = r.b.x - r.a.x;
    let dy = r.b.y - r.a.y;
    let l2 = dx * dx + dy * dy;
    if dx == 0 && dy == 0 {
        assert(ll_denom(r, w1) == 0) by (nonlinear_arith)
            requires
                ll_denom(r, w1) == (r.a.x - r.b.x) * (w1.a.y - w1.b.y) - (r.a.y - r.b.y) * (w1.a.x
                    - w1.b.x),
                r.a.x == r.b.x,
                r.a.y == r.b.y,
        ;
    }
    assert(l2 > 0) by (nonlinear_arith)
        requires
            dx != 0 || dy != 0,
            l2 == dx * dx + dy * dy,
    ;
    let a1 = h1.x_num - r.a.x * h1.den;
    let b1 = h1.y_num - r.a.y * h1.den;
    let a2 = h2.x_num - r.a.x * h2.den;
    let b2 = h2.y_num - r.a.y * h2.den;
    let d2n1 = dist2_num(r, hit_point(h1));
    let d2n2 = dist2_num(r, hit_point(h2));
    assert(d2n1 == a1 * a1 + b1 * b1);
    assert(d2n2 == a2 * a2 + b2 * b2);
    let p = h1.t_num * h2.den;
    let q = h2.t_num * h1.den;
    assert(d2n1 == (h1.t_num * h1.t_num) * l2) by (nonlinear_arith)
        requires
            d2n1 == a1 * a1 + b1 * b1,
            a1 == h1.t_num * dx,
            b1 == h1.t_num * dy,
            l2 == dx * dx + dy * dy,
    ;
    assert(((h1.t_num * h1.t_num) * l2) * (h2.den * h2.den) == (p * p) * l2) by (nonlinear_arith)
        requires
            p == h1.t_num * h2.den,
    ;
    assert(d2n1 * (h2.den * h2.den) == (p * p) * l2);
    assert(d2n2 == (h2.t_num * h2.t_num) * l2) by (nonlinear_arith)
        requires
            d2n2 == a2 * a2 + b2 * b2,
            a2 == h2.t_num * dx,
            b2 == h2.t_num * dy,
            l2 == dx * dx + dy * dy,
    ;
    assert(((h2.t_num * h2.t_num) * l2) * (h1.den * h1.den) == (q * q) * l2) by (nonlinear_arith)
        requires
            q == h2.t_num * h1.den,
    ;
    assert(d2n2 * (h1.den * h1.den) == (q * q) * l2);
    assert(p >= 0) by (nonlinear_arith)
        requires
            p == h1.t_num * h2.den,
            h1.t_num >= 0,
            h2.den > 0,
    ;
    assert(q >= 0) by (nonlinear_arith)
        requires
            q == h2.t_num * h1.den,
            h2.t_num >= 0,
            h1.den > 0,
    ;
    assert((p * p) * l2 <= (q * q) * l2 <==> p <= q) by (nonlinear_arith)
        requires
            p >= 0,
            q >= 0,
            l2 > 0,
    ;
}

/// Nearest intersection of one ray against the whole obstacle set, spec
/// `nearest_hit` computed exactly.
pub fn nearest_intersection(ray: Segment, obstacles: &ObstacleSet) -> (r: Option<RatPoint>)
    requires
        seg_in_bounds(ray),
        obstacles.wf(),
    ensures
        r is Some <==> nearest_hit(ray, obstacles@) is Some,
        match (r, nearest_hit(ray, obstacles@)) {
            (Some(p), Some(h)) => p@ == hit_point(h) && 0 < p.den <= DEN_BOUND && -XY_BOUND
                <= p.x_num <= XY_BOUND && -XY_BOUND <= p.y_num <= XY_BOUND,
            (None, None) => true,
            _ => false,
        },
        // the ray strikes something exactly when some obstacle crosses it
        r is Some <==> exists|i: int| 0 <= i < obstacles@.len() && hits(ray, #[trigger] obstacles@[i]),
        // the answer is the crossing with one of the struck obstacles ...
        r matches Some(p) ==> exists|i: int|
            0 <= i < obstacles@.len() && hits(ray, #[trigger] obstacles@[i]) && p@ == hit_point(
                hit_model(ray, obstacles@[i]),
            ),
        // ... and no other struck obstacle's crossing has a smaller true
        // squared distance to the ray origin, compared in full precision
        r matches Some(p) ==> forall|j: int|
            0 <= j < obstacles@.len() && hits(ray, #[trigger] obstacles@[j]) ==> dist2_le(
                ray,
                p@,
                hit_point(hit_model(ray, obstacles@[j])),
            ),
{
    let x1: i128 = ray.a.x as i128;
    let y1: i128 = ray.a.y as i128;
    let x2: i128 = ray.b.x as i128;
    let y2: i128 = ray.b.y as i128;
    let mut found: bool = false;
    let mut bt: i128 = 0;
    let mut bd: i128 = 1;
    let mut bx: i128 = 0;
    let mut by: i128 = 0;
    let mut i: usize = 0;
    while i < obstacles.len()
        invariant
            seg_in_bounds(ray),
            obstacles.wf(),
            0 <= i <= obstacles@.len(),
            x1 == ray.a.x as int,
            y1 == ray.a.y as int,
            x2 == ray.b.x as int,
            y2 == ray.b.y as int,
            !found ==> nearest_hit(ray, obstacles@.take(i as int)) is None,
            found ==> nearest_hit(ray, obstacles@.take(i as int)) == Some(
                HitModel { t_num: bt as int, den: bd as int, x_num: bx as int, y_num: by as int },
            ),
            found ==> 0 <= bt <= bd && 0 < bd <= DEN_BOUND,
            found ==> -XY_BOUND <= bx <= XY_BOUND && -XY_BOUND <= by <= XY_BOUND,
        decreases obstacles@.len() - i,
    {
        let w = obstacles.get(i);
        let x3: i128 = w.a.x as i128;
        let y3: i128 = w.a.y as i128;
        let x4: i128 = w.b.x as i128;
        let y4: i128 = w.b.y as i128;
        proof {
            assert(seg_in_bounds(obstacles@[i as int]));
            lemma_abs_mul_le((x1 - x2) as int, (y3 - y4) as int, 0x4000_0000, 0x4000_0000);
            lemma_abs_mul_le((y1 - y2) as int, (x3 - x4) as int, 0x4000_0000, 0x4000_0000);
            lemma_abs_mul_le((x1 - x3) as int, (y3 - y4) as int, 0x4000_0000, 0x4000_0000);
            lemma_abs_mul_le((y1 - y3) as int, (x3 - x4) as int, 0x4000_0000, 0x4000_0000);
            lemma_abs_mul_le((x1 - x3) as int, (y1 - y2) as int, 0x4000_0000, 0x4000_0000);
            lemma_abs_mul_le((y1 - y3) as int, (x1 - x2) as int, 0x4000_0000, 0x4000_0000);
        }
        let denom: i128 = (x1 - x2) * (y3 - y4) - (y1 - y2) * (x3 - x4);
        let t_num: i128 = (x1 - x3) * (y3 - y4) - (y1 - y3) * (x3 - x4);
        let u_num: i128 = (x1 - x3) * (y1 - y2) - (y1 - y3) * (x1 - x2);
        let valid: bool = if denom > 0 {
            0 <= t_num && t_num <= denom && 0 <= u_num && u_num <= denom
        } else if denom < 0 {
            denom <= t_num && t_num <= 0 && denom <= u_num && u_num <= 0
        } else {
            false
        };
        proof {
            assert(denom as int == ll_denom(ray, obstacles@[i as int]));
            assert(t_num as int == ll_t_num(ray, obstacles@[i as int]));
            assert(u_num as int == ll_u_num(ray, obstacles@[i as int]));
            assert(valid == hits(ray, obstacles@[i as int]));
        }
        if valid {
            let tn: i128 = if denom < 0 {
                -t_num
            } else {
                t_num
            };
            let d: i128 = if denom < 0 {
                -denom
            } else {
                denom
            };
            proof {
                lemma_abs_mul_le(x1 as int, d as int, COORD_LIMIT as int, DEN_BOUND as int);
                lemma_abs_mul_le(y1 as int, d as int, COORD_LIMIT as int, DEN_BOUND as int);
                lemma_abs_mul_le(
                    tn as int,
                    (x2 - x1) as int,
                    DEN_BOUND as int,
                    0x4000_0000,
                );
                lemma_abs_mul_le(
                    tn as int,
                    (y2 - y1) as int,
                    DEN_BOUND as int,
                    0x4000_0000,
                );
            }
            let hx: i128 = x1 * d + tn * (x2 - x1);
            let hy: i128 = y1 * d + tn * (y2 - y1);
            proof {
                assert(hit_model(ray, obstacles@[i as int]) == HitModel {
                    t_num: tn as int,
                    den: d as int,
                    x_num: hx as int,
                    y_num: hy as int,
                });
            }
            let take_it: bool = if !found {
                true
            } else {
                proof {
                    lemma_abs_mul_le(tn as int, bd as int, DEN_BOUND as int, DEN_BOUND as int);
                    lemma_abs_mul_le(bt as int, d as int, DEN_BOUND as int, DEN_BOUND as int);
                }
                tn * bd < bt * d
            };
            if take_it {
                bt = tn;
                bd = d;
                bx = hx;
                by = hy;
                found = true;
            }
        }
        proof {
            let pre = obstacles@.take(i as int);
            let cur = obstacles@.take(i + 1 as int);
            assert(cur.drop_last() =~= pre);
            assert(cur.last() == obstacles@[i as int]);
        }
        i += 1;
    }
    proof {
        assert(obstacles@.take(obstacles@.len() as int) =~= obstacles@);
        lemma_nearest_hit_props(ray, obstacles@);
        if found {
            let h = HitModel {
                t_num: bt as int,
                den: bd as int,
                x_num: bx as int,
                y_num: by as int,
            };
            let i0 = choose|i: int|
                0 <= i < obstacles@.len() && hits(ray, #[trigger] obstacles@[i]) && h == hit_model(
                    ray,
                    obstacles@[i],
                );
            assert forall|j: int|
                0 <= j < obstacles@.len() && hits(ray, #[trigger] obstacles@[j]) implies dist2_le(
                ray,
                hit_point(h),
                hit_point(hit_model(ray, obstacles@[j])),
            ) by {
                lemma_nearness_is_distance(ray, obstacles@[i0], obstacles@[j]);
            }
        }
    }
    if found {
        Some(RatPoint { x_num: bx, y_num: by, den: bd })
    } else {
        None
    }
}

} // verus!
