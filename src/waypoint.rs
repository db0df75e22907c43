use crate::points::PointCartesian;
use vstd::arithmetic::div_mod::lemma_fundamental_div_mod;
use vstd::prelude::*;

verus! {

/// `n / l` rounded towards zero, for a positive `l`.
pub open spec fn div_toward_zero(n: int, l: int) -> int {
    if n >= 0 {
        n / l
    } else {
        -((-n) / l)
    }
}

/// `n / l` rounded away from zero, for a positive `l`.
pub open spec fn div_away_from_zero(n: int, l: int) -> int {
    if n >= 0 {
        (n + l - 1) / l
    } else {
        -((-n + l - 1) / l)
    }
}

/// The square of a point's distance from the origin.
pub open spec fn norm_sq(p: PointCartesian) -> int {
    p.x * p.x + p.y * p.y
}

/// Both roundings of `m / l` for `m >= 0`: `t` down and `u` up.
proof fn lemma_div_nonneg(m: int, l: int)
    requires
        m >= 0,
        l > 0,
    ensures
        0 <= m / l <= (m + l - 1) / l <= m / l + 1,
        (m / l) * l <= m < (m / l) * l + l,
        m <= ((m + l - 1) / l) * l < m + l,
{
    lemma_fundamental_div_mod(m, l);
    lemma_fundamental_div_mod(m + l - 1, l);
    let t = m / l;
    let u = (m + l - 1) / l;
    let r = m % l;
    let s = (m + l - 1) % l;
    assert(0 <= r < l && 0 <= s < l);
    assert(0 <= t) by (nonlinear_arith)
        requires
            m == l * t + r,
            0 <= r < l,
            m >= 0,
    ;
    assert(t <= u <= t + 1) by (nonlinear_arith)
        requires
            m == l * t + r,
            m + l - 1 == l * u + s,
            0 <= r < l,
            0 <= s < l,
    ;
    assert(t * l <= m < t * l + l) by (nonlinear_arith)
        requires
            m == l * t + r,
            0 <= r < l,
    ;
    assert(m <= u * l < m + l) by (nonlinear_arith)
        requires
            m + l - 1 == l * u + s,
            0 <= s < l,
    ;
}

/// Rounding `n / l` towards zero never moves away from zero, rounding it away
/// from zero never moves towards it, the two differ by at most one, and both
/// stay within any pair of integer bounds that `n / l` lies between.
pub proof fn lemma_div_rounding(n: int, l: int, lo: int, hi: int)
    requires
        l > 0,
        lo * l <= n <= hi * l,
    ensures
        lo <= div_toward_zero(n, l) <= hi,
        lo <= div_away_from_zero(n, l) <= hi,
        (div_toward_zero(n, l) * l) * (div_toward_zero(n, l) * l) <= n * n,
        (div_away_from_zero(n, l) * l) * (div_away_from_zero(n, l) * l) >= n * n,
        (0 <= div_toward_zero(n, l) <= div_away_from_zero(n, l) <= div_toward_zero(n, l) + 1)
            || (div_toward_zero(n, l) - 1 <= div_away_from_zero(n, l) <= div_toward_zero(n, l)
            <= 0),
{
    let t = div_toward_zero(n, l);
    let u = div_away_from_zero(n, l);
    if n >= 0 {
        lemma_div_nonneg(n, l);
        assert(lo <= t <= hi && lo <= u <= hi) by (nonlinear_arith)
            requires
                lo * l <= n <= hi * l,
                t * l <= n < t * l + l,
                n <= u * l < n + l,
                l > 0,
        ;
        assert((t * l) * (t * l) <= n * n) by (nonlinear_arith)
            requires
                0 <= t * l <= n,
        ;
        assert((u * l) * (u * l) >= n * n) by (nonlinear_arith)
            requires
                0 <= n <= u * l,
        ;
    } else {
        let m = -n;
        lemma_div_nonneg(m, l);
        let tm = m / l;
        let um = (m + l - 1) / l;
        assert(t == -tm && u == -um);
        assert(lo <= t <= hi && lo <= u <= hi) by (nonlinear_arith)
            requires
                lo * l <= n <= hi * l,
                tm * l <= m < tm * l + l,
                m <= um * l < m + l,
                m == -n,
                t == -tm,
                u == -um,
                l > 0,
        ;
        assert((t * l) * (t * l) <= n * n) by (nonlinear_arith)
            requires
                0 <= tm * l <= m,
                t == -tm,
                n == -m,
        ;
        assert((u * l) * (u * l) >= n * n) by (nonlinear_arith)
            requires
                0 <= m <= um * l,
                u == -um,
                n == -m,
        ;
    }
}

proof fn lemma_sq_add(p: int, q: int) by (nonlinear_arith)
    ensures
        (p + q) * (p + q) == p * p + 2 * (p * q) + q * q,
{
}

proof fn lemma_mul4(a: int, b: int, c: int, d: int) by (nonlinear_arith)
    ensures
        (a * b) * (c * d) == (a * c) * (b * d),
{
}

proof fn lemma_sum_prod(a: int, b: int, c: int, d: int) by (nonlinear_arith)
    ensures
        (a + b) * (c + d) == a * c + a * d + b * c + b * d,
{
}

proof fn lemma_lagrange(x: int, y: int, vx: int, vy: int)
    ensures
        (x * x + y * y) * (vx * vx + vy * vy) == (x * vx + y * vy) * (x * vx + y * vy) + (x * vy
            - y * vx) * (x * vy - y * vx),
{
    lemma_sum_prod(x * x, y * y, vx * vx, vy * vy);
    lemma_sq_add(x * vx, y * vy);
    lemma_sq_add(x * vy, -(y * vx));
    lemma_mul4(x, x, vx, vx);
    lemma_mul4(x, x, vy, vy);
    lemma_mul4(y, y, vx, vx);
    lemma_mul4(y, y, vy, vy);
    lemma_mul4(x, vx, y, vy);
    lemma_mul4(x, vy, y, vx);
    lemma_mul4(x, y, vx, vy);
    lemma_mul4(x, y, vy, vx);
    assert(vx * vy == vy * vx) by (nonlinear_arith);
    assert((-(y * vx)) * (-(y * vx)) == (y * vx) * (y * vx)) by (nonlinear_arith);
    assert((x * vy) * (-(y * vx)) == -((x * vy) * (y * vx))) by (nonlinear_arith);
}

proof fn lemma_cross_scaled(ax: int, ay: int, vx: int, vy: int, len: int, d: int)
    by (nonlinear_arith)
    ensures
        (ax * len + d * vx) * vy - (ay * len + d * vy) * vx == len * (ax * vy - ay * vx),
{
}

/// `x` and `y` as weighted sums of two points, and their squared norm.
proof fn lemma_weighted_norm(ax: int, ay: int, bx: int, by: int, len: int, d: int)
    ensures
        len * ((len - d) * (ax * ax + ay * ay) + d * (bx * bx + by * by)) - ((ax * len + d * (bx
            - ax)) * (ax * len + d * (bx - ax)) + (ay * len + d * (by - ay)) * (ay * len + d * (by
            - ay))) == d * (len - d) * ((bx - ax) * (bx - ax) + (by - ay) * (by - ay)),
{
    lemma_weighted_coord(ax, bx, len, d);
    lemma_weighted_coord(ay, by, len, d);
    lemma_split_weights(len, len - d, d, ax * ax, ay * ay, bx * bx, by * by);
    lemma_split_weights(d, len - d, 0, (bx - ax) * (bx - ax), (by - ay) * (by - ay), 0, 0);
    assert(d * (len - d) * ((bx - ax) * (bx - ax) + (by - ay) * (by - ay)) == d * ((len - d) * (
    (bx - ax) * (bx - ax) + (by - ay) * (by - ay)))) by (nonlinear_arith);
    assert(d * (len - d) * ((bx - ax) * (bx - ax)) == d * ((len - d) * ((bx - ax) * (bx - ax))))
        by (nonlinear_arith);
    assert(d * (len - d) * ((by - ay) * (by - ay)) == d * ((len - d) * ((by - ay) * (by - ay))))
        by (nonlinear_arith);
}

proof fn lemma_split_weights(l: int, k: int, d: int, p1: int, p2: int, q1: int, q2: int)
    by (nonlinear_arith)
    ensures
        l * (k * (p1 + p2) + d * (q1 + q2)) == l * (k * p1 + d * q1) + l * (k * p2 + d * q2),
{
}

proof fn lemma_weighted_coord(a: int, b: int, len: int, d: int)
    ensures
        len * ((len - d) * (a * a) + d * (b * b)) - (a * len + d * (b - a)) * (a * len + d * (b
            - a)) == d * (len - d) * ((b - a) * (b - a)),
{
    let e = len - d;
    assert(a * len + d * (b - a) == e * a + d * b) by (nonlinear_arith)
        requires
            e == len - d,
    ;
    lemma_sq_add(e * a, d * b);
    lemma_sum_prod(e, d, e * (a * a), d * (b * b));
    assert(e * (e * (a * a)) == (e * a) * (e * a)) by (nonlinear_arith);
    assert(d * (d * (b * b)) == (d * b) * (d * b)) by (nonlinear_arith);
    assert(e * (d * (b * b)) == (e * d) * (b * b)) by (nonlinear_arith);
    assert(d * (e * (a * a)) == (e * d) * (a * a)) by (nonlinear_arith);
    assert((e * a) * (d * b) == (e * d) * (a * b)) by (nonlinear_arith);
    lemma_sq_add(b, -a);
    assert(b * (-a) == -(a * b)) by (nonlinear_arith);
    assert((-a) * (-a) == a * a) by (nonlinear_arith);
    let ed = e * d;
    assert(ed * ((b * b) + 2 * (-(a * b)) + (a * a)) == ed * (b * b) - 2 * (ed * (a * b)) + ed
        * (a * a)) by (nonlinear_arith);
    assert(d * (len - d) == ed) by (nonlinear_arith)
        requires
            e == len - d,
            ed == e * d,
    ;
}

/// A point on the line through `(ax, ay)` with direction `(vx, vy)`, written
/// with denominator `len` as `(ax * len + d * vx, ay * len + d * vy)`, lies no
/// nearer the origin than the line does: if the line keeps `min` away from the
/// origin, so does the point.
pub proof fn lemma_on_line_outside(ax: int, ay: int, vx: int, vy: int, len: int, d: int, min: int)
    requires
        vx * vx + vy * vy > 0,
        (ax * vy - ay * vx) * (ax * vy - ay * vx) >= min * min * (vx * vx + vy * vy),
    ensures
        (ax * len + d * vx) * (ax * len + d * vx) + (ay * len + d * vy) * (ay * len + d * vy)
            >= min * min * (len * len),
{
    let x = ax * len + d * vx;
    let y = ay * len + d * vy;
    let ll = vx * vx + vy * vy;
    let c = ax * vy - ay * vx;
    lemma_lagrange(x, y, vx, vy);
    lemma_cross_scaled(ax, ay, vx, vy, len, d);
    assert((x * x + y * y) * ll == (x * vx + y * vy) * (x * vx + y * vy) + (len * c) * (len
        * c));
    assert((x * vx + y * vy) * (x * vx + y * vy) >= 0) by (nonlinear_arith);
    assert((len * c) * (len * c) >= (len * len) * (min * min) * ll) by (nonlinear_arith)
        requires
            c * c >= min * min * ll,
    ;
    assert(x * x + y * y >= min * min * (len * len)) by (nonlinear_arith)
        requires
            (x * x + y * y) * ll >= (len * len) * (min * min) * ll,
            ll > 0,
    ;
}

/// A point between `a` and `b`, at weights `len - d` and `d` over `len`, lies
/// no farther from the origin than the farther of the two.
pub proof fn lemma_between_inside(ax: int, ay: int, bx: int, by: int, len: int, d: int, top: int)
    requires
        0 <= d <= len,
        ax * ax + ay * ay <= top,
        bx * bx + by * by <= top,
    ensures
        (ax * len + d * (bx - ax)) * (ax * len + d * (bx - ax)) + (ay * len + d * (by - ay)) * (
        ay * len + d * (by - ay)) <= top * (len * len),
{
    let x = ax * len + d * (bx - ax);
    let y = ay * len + d * (by - ay);
    let na = ax * ax + ay * ay;
    let nb = bx * bx + by * by;
    let gap = (bx - ax) * (bx - ax) + (by - ay) * (by - ay);
    lemma_weighted_norm(ax, ay, bx, by, len, d);
    assert(d * (len - d) * gap >= 0) by (nonlinear_arith)
        requires
            0 <= d <= len,
            gap == (bx - ax) * (bx - ax) + (by - ay) * (by - ay),
    ;
    assert(len * ((len - d) * na + d * nb) <= top * (len * len)) by (nonlinear_arith)
        requires
            0 <= d <= len,
            na <= top,
            nb <= top,
    ;
}

/// A rounding of one coordinate, `t` towards zero and `u` away from it, grows
/// its square by at most `2|t| + 1`.
proof fn lemma_nudge(t: int, u: int, m: int)
    requires
        (0 <= t <= u <= t + 1) || (t - 1 <= u <= t <= 0),
        t * t < m * m,
        m > 0,
    ensures
        u * u <= t * t + 2 * m - 1,
{
    assert(-m < t < m) by (nonlinear_arith)
        requires
            t * t < m * m,
            m > 0,
    ;
    if 0 <= t <= u <= t + 1 {
        assert(u * u <= t * t + 2 * m - 1) by (nonlinear_arith)
            requires
                0 <= t <= u <= t + 1,
                t < m,
        ;
    } else {
        assert(u * u <= t * t + 2 * m - 1) by (nonlinear_arith)
            requires
                t - 1 <= u <= t <= 0,
                -m < t,
        ;
    }
}

/// Where the point rounded towards the origin falls inside the circle of
/// radius `m`, the point rounded away from it stays inside radius `m + 2`.
pub proof fn lemma_away_stays_near(tx: int, ux: int, ty: int, uy: int, m: int)
    requires
        (0 <= tx <= ux <= tx + 1) || (tx - 1 <= ux <= tx <= 0),
        (0 <= ty <= uy <= ty + 1) || (ty - 1 <= uy <= ty <= 0),
        tx * tx + ty * ty < m * m,
        m > 0,
    ensures
        ux * ux + uy * uy < (m + 2) * (m + 2),
{
    assert(tx * tx >= 0 && ty * ty >= 0) by (nonlinear_arith);
    lemma_nudge(tx, ux, m);
    lemma_nudge(ty, uy, m);
    assert((m + 2) * (m + 2) == m * m + 4 * m + 4) by (nonlinear_arith);
}

/// Computes `div_toward_zero(n, l)`.
pub fn quotient_toward_zero(n: i128, l: i128) -> (q: i128)
    requires
        l > 0,
        -0x1_0000_0000_0000_0000_0000 <= n <= 0x1_0000_0000_0000_0000_0000,
    ensures
        q == div_toward_zero(n as int, l as int),
{
    if n >= 0 {
        n / l
    } else {
        -((-n) / l)
    }
}

/// Computes `div_away_from_zero(n, l)`.
pub fn quotient_away_from_zero(n: i128, l: i128) -> (q: i128)
    requires
        0 < l <= 0x1_0000_0000_0000_0000_0000,
        -0x1_0000_0000_0000_0000_0000 <= n <= 0x1_0000_0000_0000_0000_0000,
    ensures
        q == div_away_from_zero(n as int, l as int),
{
    if n >= 0 {
        (n + l - 1) / l
    } else {
        -((-n + l - 1) / l)
    }
}

} // verus!
