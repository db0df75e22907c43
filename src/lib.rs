//! Geometry kernel for a polar plotter: a pointer driven by a rotating arm and a
//! radial carriage over an annulus. Lengths are whole micrometres and angles whole
//! microradians.
use vstd::prelude::*;

pub mod points;
pub mod sqrt;
pub mod waypoint;

use crate::points::{PointCartesian, PointPolar};
use crate::sqrt::{isqrt, isqrt_u128, lemma_isqrt_bounds, lemma_isqrt_le};
use crate::waypoint::{
    div_away_from_zero, div_toward_zero, lemma_away_stays_near, lemma_between_inside,
    lemma_div_rounding, lemma_on_line_outside, norm_sq, quotient_away_from_zero,
    quotient_toward_zero,
};
use vstd::arithmetic::div_mod::lemma_fundamental_div_mod;

verus! {

/// Smallest radius the carriage reaches, in micrometres (14 mm).
pub const MIN_RADIUS: i64 = 14_000;

/// Largest radius the carriage reaches, in micrometres (31 mm).
pub const MAX_RADIUS: i64 = 31_000;

/// Radius halfway between the two bounds.
pub const MID_RADIUS: i64 = 22_500;

/// A full turn, 2π, in microradians rounded down. As angles are whole
/// microradians, `angle > FULL_TURN` holds exactly when the angle exceeds 2π.
pub const FULL_TURN: i64 = 6_283_185;

/// Why a point, arc or segment cannot be reached.
#[derive(Debug, PartialEq, Eq, Structural, Clone, Copy)]
pub enum OutOfBoundsError {
    BelowMinimumRadius { radius: i64, theta: i32 },
    AboveMaximumRadius { radius: i64, theta: i32 },
    CrossesRotationMax,
    /// Carries the distance from the centre to the segment's line, rounded down.
    CrossesDeadZone(i64),
}

/// A shape centred on the origin: an arc, or a polygon given by its vertices.
#[derive(Debug, PartialEq)]
pub enum Shape<'a> {
    CenterArc { point: PointPolar, rotation: Rotation },
    Polygon(&'a [PointCartesian]),
}

/// How far an arc turns: a whole revolution, or up to the given absolute angle
/// in microradians.
#[derive(Debug, PartialEq, Eq, Structural, Clone, Copy)]
pub enum Rotation {
    Full,
    Partial(i64),
}

impl<'a> Shape<'a> {
    /// A full circle of the given radius, starting at angle zero.
    pub fn circle(radius: i64) -> (r: Result<Self, OutOfBoundsError>)
        ensures
            radius > MAX_RADIUS ==> r == Err::<Shape, OutOfBoundsError>(
                OutOfBoundsError::AboveMaximumRadius { radius, theta: 0 },
            ),
            radius < MIN_RADIUS ==> r == Err::<Shape, OutOfBoundsError>(
                OutOfBoundsError::BelowMinimumRadius { radius, theta: 0 },
            ),
            MIN_RADIUS <= radius <= MAX_RADIUS ==> (r matches Ok(
                Shape::CenterArc { point, rotation },
            ) && point.spec_radius() == radius && point.spec_theta() == 0 && rotation
                == Rotation::Full),
    {
        match PointPolar::try_new(radius, 0) {
            Ok(point) => Ok(Self::CenterArc { point, rotation: Rotation::Full }),
            Err(e) => Err(e),
        }
    }

    /// An arc from `point` that turns by `arc_length` microradians. The arc
    /// may not end beyond a full turn; nothing bounds it from below.
    pub fn center_arc(point: PointPolar, arc_length: i32) -> (r: Result<Self, OutOfBoundsError>)
        ensures
            arc_length + point.spec_theta() > FULL_TURN ==> r == Err::<Shape, OutOfBoundsError>(
                OutOfBoundsError::CrossesRotationMax,
            ),
            arc_length + point.spec_theta() <= FULL_TURN ==> r == Ok::<Shape, OutOfBoundsError>(
                Shape::CenterArc {
                    point,
                    rotation: Rotation::Partial((arc_length + point.spec_theta()) as i64),
                },
            ),
    {
        let angle = arc_length as i64 + point.theta() as i64;
        if angle > FULL_TURN {
            Err(OutOfBoundsError::CrossesRotationMax)
        } else {
            Ok(Self::CenterArc { point, rotation: Rotation::Partial(angle) })
        }
    }
}

/// Both endpoints lie in the half-plane `x >= 0` and their `y` coordinates
/// have opposite signs, so the segment crosses the ray at angle zero, where
/// the arm cannot turn past its stop.
pub open spec fn crosses_rotation_max(a: PointCartesian, b: PointCartesian) -> bool {
    a.x >= 0 && b.x >= 0 && ((a.y < 0) != (b.y < 0))
}

/// The numerator of the distance from the origin to the line through `a`
/// and `b`; that distance is `|cross(a, b)| / sqrt(length_sq(a, b))`.
pub open spec fn cross(a: PointCartesian, b: PointCartesian) -> int {
    (a.x - b.x) * a.y + (b.y - a.y) * a.x
}

/// The square of the distance between `a` and `b`.
pub open spec fn length_sq(a: PointCartesian, b: PointCartesian) -> int {
    (b.x - a.x) * (b.x - a.x) + (a.y - b.y) * (a.y - b.y)
}

/// The line through `a` and `b` passes closer than `MIN_RADIUS` to the origin:
/// `|cross| / sqrt(length_sq) < MIN_RADIUS`, with both sides squared.
pub open spec fn crosses_dead_zone(a: PointCartesian, b: PointCartesian) -> bool {
    cross(a, b) * cross(a, b) < MIN_RADIUS * MIN_RADIUS * length_sq(a, b)
}

/// The distance from the origin to the line through `a` and `b`, rounded down
/// to the micrometre (for distinct points).
pub open spec fn line_distance(a: PointCartesian, b: PointCartesian) -> int {
    isqrt(((cross(a, b) * cross(a, b)) / length_sq(a, b)) as nat) as int
}

/// The error that a segment from `a` to `b` is refused with, if any: the
/// rotation stop is checked first, then the dead zone.
pub open spec fn segment_error(a: PointCartesian, b: PointCartesian) -> Option<OutOfBoundsError> {
    if crosses_rotation_max(a, b) {
        Some(OutOfBoundsError::CrossesRotationMax)
    } else if crosses_dead_zone(a, b) {
        Some(OutOfBoundsError::CrossesDeadZone(line_distance(a, b) as i64))
    } else {
        None
    }
}

/// `r` is what `Segment::try_new(a, b)` gives.
pub open spec fn segment_result(
    r: Result<Segment, OutOfBoundsError>,
    a: PointCartesian,
    b: PointCartesian,
) -> bool {
    match segment_error(a, b) {
        Some(e) => r == Err::<Segment, OutOfBoundsError>(e),
        None => r is Ok && r->Ok_0.spec_point_a() == a && r->Ok_0.spec_point_b() == b,
    }
}

/// The point at `d` micrometres from `a` along the segment to `b`, whose
/// length `len` is taken rounded down, so that `d == len` lands on `b`; none
/// where `d` falls outside `[0, len]`. Each coordinate of the exact point,
/// `(a * len + d * (b - a)) / len`, is rounded towards the origin; where that
/// would put the waypoint inside the dead zone, each is rounded away from it.
pub open spec fn step_point(a: PointCartesian, b: PointCartesian, d: int) -> Option<PointCartesian> {
    let len = isqrt(length_sq(a, b) as nat) as int;
    if 0 <= d <= len {
        if len == 0 {
            Some(a)
        } else {
            let nx = a.x * len + d * (b.x - a.x);
            let ny = a.y * len + d * (b.y - a.y);
            let inner = PointCartesian {
                x: div_toward_zero(nx, len) as i32,
                y: div_toward_zero(ny, len) as i32,
            };
            if norm_sq(inner) >= MIN_RADIUS * MIN_RADIUS {
                Some(inner)
            } else {
                Some(
                    PointCartesian {
                        x: div_away_from_zero(nx, len) as i32,
                        y: div_away_from_zero(ny, len) as i32,
                    },
                )
            }
        }
    } else {
        None
    }
}

/// A straight move between two points that neither crosses the rotation stop
/// nor enters the dead zone.
#[derive(Debug, PartialEq, Eq, Structural, Clone, Copy)]
pub struct Segment(PointCartesian, PointCartesian);

proof fn lemma_mul_abs_le(a: int, b: int, ma: int, mb: int) by (nonlinear_arith)
    requires
        -ma <= a <= ma,
        -mb <= b <= mb,
    ensures
        -(ma * mb) <= a * b <= ma * mb,
        0 <= a * a <= ma * ma,
{
}

/// The rounded coordinates of a waypoint stay between those of the two
/// endpoints, and each rounding keeps its direction.
proof fn lemma_step_coord(a: int, b: int, len: int, d: int)
    requires
        0 <= d <= len,
        len > 0,
    ensures
        a <= b ==> a <= div_toward_zero(a * len + d * (b - a), len) <= b,
        b <= a ==> b <= div_toward_zero(a * len + d * (b - a), len) <= a,
        a <= b ==> a <= div_away_from_zero(a * len + d * (b - a), len) <= b,
        b <= a ==> b <= div_away_from_zero(a * len + d * (b - a), len) <= a,
{
    let n = a * len + d * (b - a);
    if a <= b {
        assert(a * len <= n <= b * len) by (nonlinear_arith)
            requires
                n == a * len + d * (b - a),
                0 <= d <= len,
                a <= b,
        ;
        lemma_div_rounding(n, len, a, b);
    } else {
        assert(b * len <= n <= a * len) by (nonlinear_arith)
            requires
                n == a * len + d * (b - a),
                0 <= d <= len,
                b < a,
        ;
        lemma_div_rounding(n, len, b, a);
    }
}

/// The facts of `lemma_div_rounding` for one coordinate of a waypoint.
proof fn lemma_step_rounding(a: int, b: int, len: int, d: int)
    requires
        0 <= d <= len,
        len > 0,
    ensures
        ({
            let n = a * len + d * (b - a);
            let t = div_toward_zero(n, len);
            let u = div_away_from_zero(n, len);
            &&& (t * len) * (t * len) <= n * n
            &&& (u * len) * (u * len) >= n * n
            &&& (0 <= t <= u <= t + 1) || (t - 1 <= u <= t <= 0)
        }),
{
    let n = a * len + d * (b - a);
    if a <= b {
        assert(a * len <= n <= b * len) by (nonlinear_arith)
            requires
                n == a * len + d * (b - a),
                0 <= d <= len,
                a <= b,
        ;
        lemma_div_rounding(n, len, a, b);
    } else {
        assert(b * len <= n <= a * len) by (nonlinear_arith)
            requires
                n == a * len + d * (b - a),
                0 <= d <= len,
                b < a,
        ;
        lemma_div_rounding(n, len, b, a);
    }
}

/// On an accepted segment, a waypoint other than the endpoint of a segment of
/// length zero is never inside the dead zone, and it lies no farther from the
/// origin than the farther endpoint, or else within `MIN_RADIUS + 2`.
pub proof fn lemma_step_point_distance(a: PointCartesian, b: PointCartesian, d: int)
    requires
        segment_error(a, b) is None,
    ensures
        step_point(a, b, d) matches Some(w) ==> (a == b && w == a) || MIN_RADIUS * MIN_RADIUS
            <= norm_sq(w),
        step_point(a, b, d) matches Some(w) ==> norm_sq(w) <= norm_sq(a) || norm_sq(w) <= norm_sq(
            b) || norm_sq(w) < (MIN_RADIUS + 2) * (MIN_RADIUS + 2),
{
    let n = length_sq(a, b);
    let len = isqrt(n as nat) as int;
    let vx = b.x - a.x;
    let vy = b.y - a.y;
    assert(n == vx * vx + vy * vy && n >= 0) by (nonlinear_arith)
        requires
            n == length_sq(a, b),
            vx == b.x - a.x,
            vy == b.y - a.y,
    ;
    lemma_isqrt_bounds(n as nat);
    if 0 <= d <= len {
        if len == 0 {
            assert(n == 0) by (nonlinear_arith)
                requires
                    0 <= n < (len + 1) * (len + 1),
                    len == 0,
            ;
            assert(vx == 0 && vy == 0) by (nonlinear_arith)
                requires
                    vx * vx + vy * vy == 0,
            ;
        } else {
            let nx = a.x * len + d * vx;
            let ny = a.y * len + d * vy;
            lemma_step_coord(a.x as int, b.x as int, len, d);
            lemma_step_coord(a.y as int, b.y as int, len, d);
            lemma_step_rounding(a.x as int, b.x as int, len, d);
            lemma_step_rounding(a.y as int, b.y as int, len, d);
            let tx = div_toward_zero(nx, len);
            let ty = div_toward_zero(ny, len);
            let ux = div_away_from_zero(nx, len);
            let uy = div_away_from_zero(ny, len);
            let ll = len * len;
            assert(ll > 0) by (nonlinear_arith)
                requires
                    len > 0,
                    ll == len * len,
            ;
            // Rounded towards the origin: no farther than the farther endpoint.
            let top = if norm_sq(a) >= norm_sq(b) {
                norm_sq(a)
            } else {
                norm_sq(b)
            };
            lemma_between_inside(a.x as int, a.y as int, b.x as int, b.y as int, len, d, top);
            assert(tx * tx + ty * ty <= top) by (nonlinear_arith)
                requires
                    (tx * len) * (tx * len) <= nx * nx,
                    (ty * len) * (ty * len) <= ny * ny,
                    nx * nx + ny * ny <= top * ll,
                    ll == len * len,
                    ll > 0,
            ;
            if tx * tx + ty * ty < MIN_RADIUS * MIN_RADIUS {
                // Rounded away from the origin: no nearer than the line.
                assert(cross(a, b) == a.x * vy - a.y * vx) by (nonlinear_arith)
                    requires
                        vx == b.x - a.x,
                        vy == b.y - a.y,
                ;
                lemma_on_line_outside(a.x as int, a.y as int, vx, vy, len, d, MIN_RADIUS as int);
                assert(ux * ux + uy * uy >= MIN_RADIUS * MIN_RADIUS) by (nonlinear_arith)
                    requires
                        (ux * len) * (ux * len) >= nx * nx,
                        (uy * len) * (uy * len) >= ny * ny,
                        nx * nx + ny * ny >= MIN_RADIUS * MIN_RADIUS * ll,
                        ll == len * len,
                        ll > 0,
                ;
                lemma_away_stays_near(tx, ux, ty, uy, MIN_RADIUS as int);
            }
        }
    }
}

impl Segment {
    pub closed spec fn spec_point_a(&self) -> PointCartesian {
        self.0
    }

    pub closed spec fn spec_point_b(&self) -> PointCartesian {
        self.1
    }

    #[verifier::type_invariant]
    spec fn checked(&self) -> bool {
        segment_error(self.0, self.1) is None
    }

    /// Accepts the segment from `point_a` to `point_b` unless it crosses the
    /// rotation stop or its line enters the dead zone.
    pub fn try_new(point_a: PointCartesian, point_b: PointCartesian) -> (r: Result<
        Self,
        OutOfBoundsError,
    >)
        ensures
            segment_result(r, point_a, point_b),
    {
        match Self::check_rotation_max(&point_a, &point_b) {
            Err(e) => Err(e),
            Ok(()) => match Self::check_dead_zone(&point_a, &point_b) {
                Err(e) => Err(e),
                Ok(()) => Ok(Self(point_a, point_b)),
            },
        }
    }

    fn check_rotation_max(a: &PointCartesian, b: &PointCartesian) -> (r: Result<(), OutOfBoundsError>)
        ensures
            crosses_rotation_max(*a, *b) ==> r == Err::<(), OutOfBoundsError>(
                OutOfBoundsError::CrossesRotationMax,
            ),
            !crosses_rotation_max(*a, *b) ==> r is Ok,
    {
        if a.x >= 0 && b.x >= 0 {
            if (a.y < 0) != (b.y < 0) {
                return Err(OutOfBoundsError::CrossesRotationMax);
            }
        }
        Ok(())
    }

    fn check_dead_zone(a: &PointCartesian, b: &PointCartesian) -> (r: Result<(), OutOfBoundsError>)
        ensures
            crosses_dead_zone(*a, *b) ==> r == Err::<(), OutOfBoundsError>(
                OutOfBoundsError::CrossesDeadZone(line_distance(*a, *b) as i64),
            ),
            !crosses_dead_zone(*a, *b) ==> r is Ok,
    {
        let ax = a.x as i128;
        let ay = a.y as i128;
        let bx = b.x as i128;
        let by = b.y as i128;
        proof {
            lemma_mul_abs_le(ax - bx, ay as int, 0x1_0000_0000, 0x8000_0000);
            lemma_mul_abs_le(by - ay, ax as int, 0x1_0000_0000, 0x8000_0000);
            lemma_mul_abs_le(ax as int, by as int, 0x8000_0000, 0x8000_0000);
            lemma_mul_abs_le(bx as int, ay as int, 0x8000_0000, 0x8000_0000);
            assert((ax - bx) * ay + (by - ay) * ax == ax * by - bx * ay) by (nonlinear_arith);
        }
        let c = (ax - bx) * ay + (by - ay) * ax;
        proof {
            lemma_mul_abs_le(c as int, c as int, 0x8000_0000_0000_0000, 0x8000_0000_0000_0000);
            lemma_mul_abs_le(bx - ax, bx - ax, 0x1_0000_0000, 0x1_0000_0000);
            lemma_mul_abs_le(ay - by, ay - by, 0x1_0000_0000, 0x1_0000_0000);
        }
        let c_sq = (c * c) as u128;
        let l_sq = ((bx - ax) * (bx - ax) + (ay - by) * (ay - by)) as u128;
        let min_sq = (MIN_RADIUS * MIN_RADIUS) as u128;
        if c_sq < min_sq * l_sq {
            let q = c_sq / l_sq;
            proof {
                lemma_fundamental_div_mod(c_sq as int, l_sq as int);
                assert(q < min_sq) by (nonlinear_arith)
                    requires
                        c_sq == l_sq * q + c_sq % l_sq,
                        c_sq % l_sq >= 0,
                        c_sq < min_sq * l_sq,
                        l_sq > 0,
                ;
                lemma_isqrt_le(q as nat, MIN_RADIUS as nat);
            }
            let dist = isqrt_u128(q);
            return Err(OutOfBoundsError::CrossesDeadZone(dist as i64));
        }
        Ok(())
    }

    /// The first endpoint. A segment's endpoints always pass both checks.
    pub fn point_a(&self) -> (r: PointCartesian)
        ensures
            r == self.spec_point_a(),
            segment_error(self.spec_point_a(), self.spec_point_b()) is None,
    {
        proof {
            use_type_invariant(self);
        }
        self.0
    }

    /// The second endpoint.
    pub fn point_b(&self) -> (r: PointCartesian)
        ensures
            r == self.spec_point_b(),
    {
        self.1
    }

    /// The segment's length, rounded down to the micrometre.
    pub fn distance(&self) -> (r: i64)
        ensures
            r == isqrt(length_sq(self.spec_point_a(), self.spec_point_b()) as nat),
            0 <= r <= 0x2_0000_0000,
    {
        let ax = self.0.x as i128;
        let ay = self.0.y as i128;
        let bx = self.1.x as i128;
        let by = self.1.y as i128;
        proof {
            lemma_mul_abs_le(bx - ax, bx - ax, 0x1_0000_0000, 0x1_0000_0000);
            lemma_mul_abs_le(ay - by, ay - by, 0x1_0000_0000, 0x1_0000_0000);
        }
        let l_sq = ((bx - ax) * (bx - ax) + (ay - by) * (ay - by)) as u128;
        proof {
            lemma_isqrt_le(l_sq as nat, 0x2_0000_0000);
        }
        isqrt_u128(l_sq) as i64
    }

    /// The waypoint `distance` micrometres from the first endpoint towards the
    /// second, or none where `distance` lies outside `[0, self.distance()]`.
    /// Unless the segment has length zero, the waypoint is never inside the
    /// dead zone; it is no farther from the origin than the farther endpoint,
    /// or else within two micrometres of the dead zone.
    pub fn step(&self, distance: i64) -> (r: Option<PointCartesian>)
        ensures
            r == step_point(self.spec_point_a(), self.spec_point_b(), distance as int),
            r matches Some(w) ==> (self.spec_point_a() == self.spec_point_b() && w
                == self.spec_point_a()) || MIN_RADIUS * MIN_RADIUS <= norm_sq(w),
            r matches Some(w) ==> norm_sq(w) <= norm_sq(self.spec_point_a()) || norm_sq(w)
                <= norm_sq(self.spec_point_b()) || norm_sq(w) < (MIN_RADIUS + 2) * (MIN_RADIUS
                + 2),
    {
        proof {
            use_type_invariant(self);
            lemma_step_point_distance(self.0, self.1, distance as int);
        }
        let len = self.distance();
        if distance < 0 || distance > len {
            return None;
        }
        if len == 0 {
            return Some(self.0);
        }
        let a = self.0;
        let b = self.1;
        proof {
            lemma_mul_abs_le(a.x as int, len as int, 0x8000_0000, 0x2_0000_0000);
            lemma_mul_abs_le(a.y as int, len as int, 0x8000_0000, 0x2_0000_0000);
            lemma_mul_abs_le(distance as int, b.x - a.x, 0x2_0000_0000, 0x1_0000_0000);
            lemma_mul_abs_le(distance as int, b.y - a.y, 0x2_0000_0000, 0x1_0000_0000);
            lemma_step_coord(a.x as int, b.x as int, len as int, distance as int);
            lemma_step_coord(a.y as int, b.y as int, len as int, distance as int);
        }
        let l = len as i128;
        let nx = a.x as i128 * l + distance as i128 * (b.x as i128 - a.x as i128);
        let ny = a.y as i128 * l + distance as i128 * (b.y as i128 - a.y as i128);
        let tx = quotient_toward_zero(nx, l);
        let ty = quotient_toward_zero(ny, l);
        proof {
            lemma_mul_abs_le(tx as int, tx as int, 0x8000_0000, 0x8000_0000);
            lemma_mul_abs_le(ty as int, ty as int, 0x8000_0000, 0x8000_0000);
        }
        if tx * tx + ty * ty >= (MIN_RADIUS * MIN_RADIUS) as i128 {
            Some(PointCartesian { x: tx as i32, y: ty as i32 })
        } else {
            let ux = quotient_away_from_zero(nx, l);
            let uy = quotient_away_from_zero(ny, l);
            Some(PointCartesian { x: ux as i32, y: uy as i32 })
        }
    }
}

/// Whether a segment is accepted, and the error it is refused with, depend on
/// its two endpoints alone: two attempts on the same endpoints agree.
pub proof fn lemma_try_new_deterministic(
    a: PointCartesian,
    b: PointCartesian,
    r1: Result<Segment, OutOfBoundsError>,
    r2: Result<Segment, OutOfBoundsError>,
)
    requires
        segment_result(r1, a, b),
        segment_result(r2, a, b),
    ensures
        r1 == r2,
{
}

/// Stepping zero along a segment gives its first endpoint, stepping its whole
/// length gives its second endpoint, and stepping before the start or past
/// the end gives nothing.
pub proof fn lemma_step_ends(s: Segment)
    ensures
        step_point(s.spec_point_a(), s.spec_point_b(), 0) == Some(s.spec_point_a()),
        step_point(
            s.spec_point_a(),
            s.spec_point_b(),
            isqrt(length_sq(s.spec_point_a(), s.spec_point_b()) as nat) as int,
        ) == Some(s.spec_point_b()),
        forall|d: int|
            d < 0 || d > isqrt(length_sq(s.spec_point_a(), s.spec_point_b()) as nat) ==> (
            #[trigger] step_point(s.spec_point_a(), s.spec_point_b(), d)) is None,
{
    let a = s.spec_point_a();
    let b = s.spec_point_b();
    let n = length_sq(a, b);
    let len = isqrt(n as nat) as int;
    let dx = b.x - a.x;
    let dy = a.y - b.y;
    assert(n >= 0 && dx * dx >= 0 && dy * dy >= 0) by (nonlinear_arith)
        requires
            n == dx * dx + dy * dy,
    ;
    lemma_isqrt_bounds(n as nat);
    if len == 0 {
        assert(n == 0) by (nonlinear_arith)
            requires
                0 <= n < (len + 1) * (len + 1),
                len == 0,
        ;
        assert(dx == 0 && dy == 0) by (nonlinear_arith)
            requires
                dx * dx + dy * dy == 0,
        ;
        assert(a == b);
    } else {
        assert(a.x * len + len * (b.x - a.x) == b.x * len) by (nonlinear_arith);
        assert(a.y * len + len * (b.y - a.y) == b.y * len) by (nonlinear_arith);
        lemma_step_exact(a.x as int, a.x as int, b.x as int, len, 0);
        lemma_step_exact(a.y as int, a.y as int, b.y as int, len, 0);
        lemma_step_exact(b.x as int, a.x as int, b.x as int, len, len);
        lemma_step_exact(b.y as int, a.y as int, b.y as int, len, len);
    }
}

/// Where the exact coordinate is the whole number `k`, both roundings give `k`.
proof fn lemma_step_exact(k: int, a: int, b: int, len: int, d: int)
    requires
        len > 0,
        a * len + d * (b - a) == k * len,
    ensures
        div_toward_zero(a * len + d * (b - a), len) == k,
        div_away_from_zero(a * len + d * (b - a), len) == k,
{
    lemma_div_rounding(k * len, len, k, k);
}

/// On an accepted segment whose two endpoints lie in the band
/// `[MIN_RADIUS, MAX_RADIUS]`, every waypoint lies in the band too.
pub proof fn lemma_step_stays_in_band(a: PointCartesian, b: PointCartesian, d: int)
    requires
        segment_error(a, b) is None,
        MIN_RADIUS * MIN_RADIUS <= norm_sq(a) <= MAX_RADIUS * MAX_RADIUS,
        MIN_RADIUS * MIN_RADIUS <= norm_sq(b) <= MAX_RADIUS * MAX_RADIUS,
    ensures
        step_point(a, b, d) matches Some(w) ==> MIN_RADIUS * MIN_RADIUS <= norm_sq(w)
            <= MAX_RADIUS * MAX_RADIUS,
{
    lemma_step_point_distance(a, b, d);
}

} // verus!
