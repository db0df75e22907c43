use crate::sqrt::{isqrt, isqrt_u128, lemma_isqrt_ge_iff, lemma_isqrt_le, lemma_isqrt_unique};
use crate::waypoint::norm_sq;
use crate::{OutOfBoundsError, MAX_RADIUS, MIN_RADIUS};
use vstd::prelude::*;

verus! {

/// A point of the drawing plane; `x` and `y` are in micrometres.
#[derive(Debug, PartialEq, Eq, Structural, Clone, Copy)]
pub struct PointCartesian {
    pub x: i32,
    pub y: i32,
}

/// Distance from the origin to `(x, y)`, rounded down to the micrometre.
pub open spec fn hypot(x: int, y: int) -> int {
    isqrt((x * x + y * y) as nat) as int
}

/// `r` is what building a polar point from `radius` and `theta` gives: the
/// upper bound is checked first, then the lower one.
pub open spec fn polar_result(
    r: Result<PointPolar, OutOfBoundsError>,
    radius: i64,
    theta: i32,
) -> bool {
    if radius > MAX_RADIUS {
        r == Err::<PointPolar, OutOfBoundsError>(
            OutOfBoundsError::AboveMaximumRadius { radius, theta },
        )
    } else if radius < MIN_RADIUS {
        r == Err::<PointPolar, OutOfBoundsError>(
            OutOfBoundsError::BelowMinimumRadius { radius, theta },
        )
    } else {
        &&& r is Ok
        &&& r->Ok_0.spec_radius() == radius
        &&& r->Ok_0.spec_theta() == theta
    }
}

impl PointCartesian {
    pub fn new(x: i32, y: i32) -> (r: Self)
        ensures
            r.x == x,
            r.y == y,
    {
        Self { x, y }
    }

    /// This point's distance from the origin, rounded down to the micrometre.
    pub open spec fn spec_hypot(&self) -> int {
        hypot(self.x as int, self.y as int)
    }

    /// Computes `spec_hypot`.
    pub fn hypot(&self) -> (r: i64)
        ensures
            r == self.spec_hypot(),
            0 <= r <= 0x1_0000_0000,
    {
        let x = self.x as i128;
        let y = self.y as i128;
        assert(x * x <= 0x4000_0000_0000_0000 && y * y <= 0x4000_0000_0000_0000) by (nonlinear_arith)
            requires
                -0x8000_0000 <= x <= 0x8000_0000,
                -0x8000_0000 <= y <= 0x8000_0000,
        ;
        assert(x * x >= 0 && y * y >= 0) by (nonlinear_arith);
        let sum = (x * x + y * y) as u128;
        let r = isqrt_u128(sum);
        proof {
            assert(sum <= 0x1_0000_0000 * 0x1_0000_0000);
            lemma_isqrt_le(sum as nat, 0x1_0000_0000);
        }
        r as i64
    }

    /// The radius this point is given in polar form: its distance from the
    /// origin rounded down, except beyond `MAX_RADIUS`, where it is rounded up.
    /// So the radius lies within `[MIN_RADIUS, MAX_RADIUS]` exactly when the
    /// true distance does.
    pub open spec fn spec_polar_radius(&self) -> int {
        let n = self.x * self.x + self.y * self.y;
        let h = self.spec_hypot();
        if n > MAX_RADIUS * MAX_RADIUS && h * h < n {
            h + 1
        } else {
            h
        }
    }

    /// Converts the point to polar form. `theta` is the point's angle, the
    /// two-argument arctangent of `(y, x)` in microradians, in `(-π, π]`.
    /// The radius is `spec_polar_radius`, and the bounds are those of
    /// `PointPolar::try_new`.
    pub fn as_polar(&self, theta: i32) -> (r: Result<PointPolar, OutOfBoundsError>)
        ensures
            polar_result(r, self.spec_polar_radius() as i64, theta),
    {
        let h = self.hypot();
        let x = self.x as i128;
        let y = self.y as i128;
        assert(x * x <= 0x4000_0000_0000_0000 && y * y <= 0x4000_0000_0000_0000) by (nonlinear_arith)
            requires
                -0x8000_0000 <= x <= 0x8000_0000,
                -0x8000_0000 <= y <= 0x8000_0000,
        ;
        assert(x * x >= 0 && y * y >= 0) by (nonlinear_arith);
        assert(h * h <= 0x1_0000_0000 * 0x1_0000_0000) by (nonlinear_arith)
            requires
                0 <= h <= 0x1_0000_0000,
        ;
        let n = x * x + y * y;
        let radius = if n > (MAX_RADIUS * MAX_RADIUS) as i128 && (h as i128) * (h as i128) < n {
            h + 1
        } else {
            h
        };
        PointPolar::try_new(radius, theta)
    }
}

/// Converting a point to polar form succeeds exactly when its distance from
/// the origin lies within `[MIN_RADIUS, MAX_RADIUS]`, that is when
/// `MIN_RADIUS² <= x² + y² <= MAX_RADIUS²`; the radius is then the distance
/// rounded down. Otherwise the error names the bound that was crossed and
/// carries the distance, rounded towards the outside of the band, and the
/// angle.
pub proof fn lemma_as_polar_in_band(
    p: PointCartesian,
    theta: i32,
    r: Result<PointPolar, OutOfBoundsError>,
)
    requires
        polar_result(r, p.spec_polar_radius() as i64, theta),
    ensures
        r is Ok <==> MIN_RADIUS * MIN_RADIUS <= norm_sq(p) <= MAX_RADIUS * MAX_RADIUS,
        r is Ok ==> r->Ok_0.spec_radius() == p.spec_hypot() && r->Ok_0.spec_theta() == theta,
        norm_sq(p) > MAX_RADIUS * MAX_RADIUS <==> r == Err::<PointPolar, OutOfBoundsError>(
            OutOfBoundsError::AboveMaximumRadius { radius: p.spec_polar_radius() as i64, theta },
        ),
        norm_sq(p) > MAX_RADIUS * MAX_RADIUS ==> p.spec_polar_radius() > MAX_RADIUS,
        norm_sq(p) < MIN_RADIUS * MIN_RADIUS <==> r == Err::<PointPolar, OutOfBoundsError>(
            OutOfBoundsError::BelowMinimumRadius { radius: p.spec_hypot() as i64, theta },
        ),
{
    let x = p.x as int;
    let y = p.y as int;
    let n = x * x + y * y;
    let h = p.spec_hypot();
    assert(0 <= n <= 0x1_0000_0000 * 0x1_0000_0000) by (nonlinear_arith)
        requires
            -0x8000_0000 <= x <= 0x8000_0000,
            -0x8000_0000 <= y <= 0x8000_0000,
            n == x * x + y * y,
    ;
    lemma_isqrt_le(n as nat, 0x1_0000_0000);
    lemma_isqrt_ge_iff(n as nat, MIN_RADIUS as nat);
    lemma_isqrt_ge_iff(n as nat, MAX_RADIUS as nat);
    if n <= MAX_RADIUS * MAX_RADIUS {
        lemma_isqrt_le(n as nat, MAX_RADIUS as nat);
    } else if h * h == n {
        assert(h > MAX_RADIUS) by (nonlinear_arith)
            requires
                h * h == n,
                n > MAX_RADIUS * MAX_RADIUS,
                h >= MAX_RADIUS,
        ;
    }
}

/// The radius of a polar point is recovered from any Cartesian point in the
/// band whose squared distance from the origin lies in `[r², (r + 1)²)`, and
/// the angle handed to the conversion is kept unchanged.
pub proof fn lemma_as_polar_recovers(
    p: PointPolar,
    c: PointCartesian,
    r: Result<PointPolar, OutOfBoundsError>,
)
    requires
        MIN_RADIUS <= p.spec_radius() <= MAX_RADIUS,
        p.spec_radius() * p.spec_radius() <= norm_sq(c) < (p.spec_radius() + 1) * (p.spec_radius()
            + 1),
        norm_sq(c) <= MAX_RADIUS * MAX_RADIUS,
        polar_result(r, c.spec_polar_radius() as i64, p.spec_theta()),
    ensures
        r == Ok::<PointPolar, OutOfBoundsError>(p),
{
    lemma_isqrt_unique(norm_sq(c) as nat, p.spec_radius() as nat);
}

/// A point in polar form: `radius` in micrometres, `theta` in microradians.
/// The radius always lies within `[MIN_RADIUS, MAX_RADIUS]`.
#[derive(Debug, PartialEq, Eq, Structural, Clone, Copy)]
pub struct PointPolar {
    radius: i64,
    theta: i32,
}

impl PointPolar {
    #[verifier::type_invariant]
    spec fn in_bounds(&self) -> bool {
        MIN_RADIUS <= self.radius <= MAX_RADIUS
    }

    pub closed spec fn spec_radius(&self) -> i64 {
        self.radius
    }

    pub closed spec fn spec_theta(&self) -> i32 {
        self.theta
    }

    /// Builds a polar point, refusing a radius outside `[MIN_RADIUS, MAX_RADIUS]`.
    pub fn try_new(radius: i64, theta: i32) -> (r: Result<Self, OutOfBoundsError>)
        ensures
            polar_result(r, radius, theta),
    {
        if radius > MAX_RADIUS {
            Err(OutOfBoundsError::AboveMaximumRadius { radius, theta })
        } else if radius < MIN_RADIUS {
            Err(OutOfBoundsError::BelowMinimumRadius { radius, theta })
        } else {
            Ok(Self { radius, theta })
        }
    }

    pub fn radius(&self) -> (r: i64)
        ensures
            r == self.spec_radius(),
            MIN_RADIUS <= r <= MAX_RADIUS,
    {
        proof {
            use_type_invariant(self);
        }
        self.radius
    }

    pub fn theta(&self) -> (r: i32)
        ensures
            r == self.spec_theta(),
    {
        self.theta
    }
}

} // verus!
