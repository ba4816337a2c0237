//! Fixed-point costs and the Euclidean metric.
//!
//! A cost is a `u64` that counts units of 2^-32 of a cell's width, so that one
//! straight step costs `UNIT`. Distances are rounded up to the next unit,
//! which keeps the triangle inequality exact; a cost that does not fit
//! saturates at `COST_MAX`.

use vstd::prelude::*;
use movingai::Coords2D;

verus! {

/// The cost of one straight step.
pub const UNIT: u64 = 4294967296;

/// The cost of one diagonal step: the square root of two, rounded up.
pub const DIAGONAL: u64 = 6074001000;

/// The largest cost; sums and distances saturate here.
pub const COST_MAX: u64 = 18446744073709551615;

/// `r` is the square root of `n`, rounded up: the least number whose square
/// is not below `n`.
pub open spec fn is_ceil_sqrt(n: nat, r: nat) -> bool {
    n <= r * r && (r == 0 || (r - 1) * (r - 1) < n)
}

/// The square root of `n`, rounded up.
pub open spec fn ceil_sqrt(n: nat) -> nat {
    choose|r: nat| is_ceil_sqrt(n, r)
}

/// The distance between two coordinates on one axis.
pub open spec fn gap(a: usize, b: usize) -> nat {
    if a >= b {
        (a - b) as nat
    } else {
        (b - a) as nat
    }
}

/// The squared Euclidean distance between two cells, in cells.
pub open spec fn square_gap(a: Coords2D, b: Coords2D) -> nat {
    gap(a.0, b.0) * gap(a.0, b.0) + gap(a.1, b.1) * gap(a.1, b.1)
}

/// The sum of two costs, saturating at `COST_MAX`.
pub open spec fn cost_sum(a: u64, b: u64) -> u64 {
    if a + b > COST_MAX {
        COST_MAX
    } else {
        (a + b) as u64
    }
}

/// The Euclidean distance between two cells as a cost: `UNIT` times the
/// square root of the squared distance, rounded up, saturating at
/// `COST_MAX`.
pub open spec fn distance_spec(a: Coords2D, b: Coords2D) -> u64 {
    let r = ceil_sqrt(square_gap(a, b) * UNIT as nat * UNIT as nat);
    if r > COST_MAX {
        COST_MAX
    } else {
        r as u64
    }
}

/// Every number has a square root rounded up.
pub proof fn lemma_ceil_sqrt_exists(n: nat)
    ensures
        is_ceil_sqrt(n, ceil_sqrt(n)),
    decreases n,
{
    if n == 0 {
        assert(is_ceil_sqrt(0, 0)) by (nonlinear_arith);
    } else {
        lemma_ceil_sqrt_exists((n - 1) as nat);
        let r = ceil_sqrt((n - 1) as nat);
        if n <= r * r {
            assert(is_ceil_sqrt(n, r));
        } else {
            assert(n <= (r + 1) * (r + 1)) by (nonlinear_arith)
                requires
                    n - 1 <= r * r,
            ;
            assert(is_ceil_sqrt(n, r + 1));
        }
    }
}

/// The square root rounded up is the only number whose square is not below
/// `n` while its predecessor's is.
pub proof fn lemma_ceil_sqrt_unique(n: nat, r: nat)
    requires
        is_ceil_sqrt(n, r),
    ensures
        ceil_sqrt(n) == r,
{
    let s = ceil_sqrt(n);
    assert(is_ceil_sqrt(n, s));
    if s < r {
        assert(s * s <= (r - 1) * (r - 1)) by (nonlinear_arith)
            requires
                0 <= s <= r - 1,
        ;
    } else if r < s {
        assert(r * r <= (s - 1) * (s - 1)) by (nonlinear_arith)
            requires
                0 <= r <= s - 1,
        ;
    }
}

/// A number whose square is not below `n` is not below the square root of
/// `n` rounded up.
pub proof fn lemma_ceil_sqrt_least(n: nat, r: nat)
    requires
        n <= r * r,
    ensures
        ceil_sqrt(n) <= r,
{
    lemma_ceil_sqrt_exists(n);
    let s = ceil_sqrt(n);
    if r < s {
        assert(r * r <= (s - 1) * (s - 1)) by (nonlinear_arith)
            requires
                0 <= r <= s - 1,
        ;
    }
}

/// The square root rounded up grows with its argument.
pub proof fn lemma_ceil_sqrt_monotone(m: nat, n: nat)
    requires
        m <= n,
    ensures
        ceil_sqrt(m) <= ceil_sqrt(n),
{
    lemma_ceil_sqrt_exists(n);
    lemma_ceil_sqrt_least(m, ceil_sqrt(n));
}

/// The square root of `n`, rounded up.
pub fn isqrt_up(n: u128) -> (r: u128)
    ensures
        r as nat == ceil_sqrt(n as nat),
        r <= 18446744073709551616,
{
    let mut lo: u128 = 0;
    let mut hi: u128 = 18446744073709551616;
    assert(n <= 18446744073709551616 * 18446744073709551616) by (nonlinear_arith)
        requires
            n <= u128::MAX,
    ;
    while lo < hi
        invariant
            lo <= hi <= 18446744073709551616,
            n <= hi * hi,
            lo == 0 || (lo - 1) * (lo - 1) < n,
        decreases hi - lo,
    {
        let mid: u128 = lo + (hi - lo) / 2;
        assert(mid * mid <= u128::MAX) by (nonlinear_arith)
            requires
                mid <= 18446744073709551615,
        ;
        if mid * mid >= n {
            hi = mid;
        } else {
            lo = mid + 1;
        }
    }
    proof {
        lemma_ceil_sqrt_unique(n as nat, lo as nat);
    }
    lo
}

/// The distance between two coordinates on one axis.
pub fn axis_gap(a: usize, b: usize) -> (d: usize)
    ensures
        d as nat == gap(a, b),
{
    if a >= b {
        a - b
    } else {
        b - a
    }
}

/// The Euclidean distance between two cells as a cost.
pub fn distance(a: Coords2D, b: Coords2D) -> (d: u64)
    ensures
        d == distance_spec(a, b),
{
    let dx = axis_gap(a.0, b.0);
    let dy = axis_gap(a.1, b.1);
    let ghost n = square_gap(a, b);
    let sx: u128 = dx as u128;
    let sy: u128 = dy as u128;
    if sx >= 4294967296 || sy >= 4294967296 {
        proof {
            assert(n >= 18446744073709551616) by (nonlinear_arith)
                requires
                    n == sx * sx + sy * sy,
                    sx >= 4294967296 || sy >= 4294967296,
                    sx >= 0,
                    sy >= 0,
            ;
            lemma_saturates(n);
        }
        return COST_MAX;
    }
    assert(sx * sx + sy * sy < 36893488147419103232) by (nonlinear_arith)
        requires
            sx < 4294967296,
            sy < 4294967296,
    ;
    let squares: u128 = sx * sx + sy * sy;
    if squares >= 18446744073709551616 {
        proof {
            lemma_saturates(n);
        }
        return COST_MAX;
    }
    assert(squares * 18446744073709551616 <= u128::MAX) by (nonlinear_arith)
        requires
            squares < 18446744073709551616,
    ;
    let r = isqrt_up(squares * 18446744073709551616);
    proof {
        assert(n * UNIT as nat * UNIT as nat == squares * 18446744073709551616) by (nonlinear_arith)
            requires
                n == squares,
                UNIT == 4294967296,
        ;
    }
    if r > 18446744073709551615 {
        COST_MAX
    } else {
        r as u64
    }
}

/// A squared distance of 2^64 cells or more saturates.
proof fn lemma_saturates(n: nat)
    requires
        n >= 18446744073709551616,
    ensures
        ceil_sqrt(n * UNIT as nat * UNIT as nat) > COST_MAX,
{
    let scaled = n * UNIT as nat * UNIT as nat;
    let limit: nat = 18446744073709551616;
    assert(scaled >= limit * limit) by (nonlinear_arith)
        requires
            scaled == n * UNIT as nat * UNIT as nat,
            UNIT == 4294967296,
            n >= limit,
            limit == 18446744073709551616,
    ;
    assert(is_ceil_sqrt(limit * limit, limit)) by (nonlinear_arith)
        requires
            limit == 18446744073709551616,
    ;
    lemma_ceil_sqrt_unique(limit * limit, limit);
    lemma_ceil_sqrt_monotone(limit * limit, scaled);
}

/// A cell is at distance zero from itself.
pub proof fn lemma_distance_to_self(a: Coords2D)
    ensures
        distance_spec(a, a) == 0,
{
    let d = gap(a.0, a.0);
    let e = gap(a.1, a.1);
    assert(d * d + e * e == 0) by (nonlinear_arith)
        requires
            d == 0,
            e == 0,
    ;
    assert(square_gap(a, a) * UNIT as nat * UNIT as nat == 0) by (nonlinear_arith)
        requires
            square_gap(a, a) == 0,
    ;
    assert(is_ceil_sqrt(0, 0)) by (nonlinear_arith);
    lemma_ceil_sqrt_unique(0, 0);
}

/// The distance does not depend on the direction of travel.
pub proof fn lemma_distance_symmetric(a: Coords2D, b: Coords2D)
    ensures
        distance_spec(a, b) == distance_spec(b, a),
{
    assert(square_gap(a, b) == square_gap(b, a));
}

/// Two different cells are at least one straight step apart.
pub proof fn lemma_distance_between_cells(a: Coords2D, b: Coords2D)
    requires
        a != b,
    ensures
        distance_spec(a, b) >= UNIT,
{
    let n = square_gap(a, b);
    let scaled = n * UNIT as nat * UNIT as nat;
    let dx = gap(a.0, b.0);
    let dy = gap(a.1, b.1);
    assert(n >= 1) by (nonlinear_arith)
        requires
            n == dx * dx + dy * dy,
            dx >= 1 || dy >= 1,
    ;
    assert(scaled >= UNIT as nat * UNIT as nat) by (nonlinear_arith)
        requires
            scaled == n * UNIT as nat * UNIT as nat,
            n >= 1,
    ;
    assert(is_ceil_sqrt(UNIT as nat * UNIT as nat, UNIT as nat)) by (nonlinear_arith)
        requires
            UNIT == 4294967296,
    ;
    lemma_ceil_sqrt_unique(UNIT as nat * UNIT as nat, UNIT as nat);
    lemma_ceil_sqrt_monotone(UNIT as nat * UNIT as nat, scaled);
}

/// A straight step costs `UNIT`, a diagonal step `DIAGONAL`.
pub proof fn lemma_step_cost(a: Coords2D, b: Coords2D)
    requires
        gap(a.0, b.0) <= 1,
        gap(a.1, b.1) <= 1,
        a != b,
    ensures
        gap(a.0, b.0) + gap(a.1, b.1) == 1 ==> distance_spec(a, b) == UNIT,
        gap(a.0, b.0) + gap(a.1, b.1) == 2 ==> distance_spec(a, b) == DIAGONAL,
{
    let n = square_gap(a, b);
    let scaled = n * UNIT as nat * UNIT as nat;
    let dx = gap(a.0, b.0);
    let dy = gap(a.1, b.1);
    assert(n == dx + dy) by (nonlinear_arith)
        requires
            n == dx * dx + dy * dy,
            dx <= 1,
            dy <= 1,
    ;
    if n == 1 {
        assert(scaled == 18446744073709551616) by (nonlinear_arith)
            requires
                scaled == n * UNIT as nat * UNIT as nat,
                n == 1,
                UNIT == 4294967296,
        ;
        assert(is_ceil_sqrt(18446744073709551616, 4294967296)) by (nonlinear_arith);
        lemma_ceil_sqrt_unique(scaled, 4294967296);
    } else {
        assert(scaled == 36893488147419103232) by (nonlinear_arith)
            requires
                scaled == n * UNIT as nat * UNIT as nat,
                n == 2,
                UNIT == 4294967296,
        ;
        assert(is_ceil_sqrt(36893488147419103232, 6074001000)) by (nonlinear_arith);
        lemma_ceil_sqrt_unique(scaled, 6074001000);
    }
}

/// The difference of two coordinates, with its sign.
pub open spec fn offset(from: usize, to: usize) -> int {
    to - from
}

/// Of two numbers that are not negative, the one with the smaller square is
/// the smaller.
proof fn lemma_square_order(x: int, y: int)
    requires
        0 <= x,
        0 <= y,
        x * x <= y * y,
    ensures
        x <= y,
{
    if y < x {
        assert(y * y < x * x) by (nonlinear_arith)
            requires
                0 <= y < x,
        ;
    }
}

/// The product of two sums of squares is not below the square of the dot
/// product.
proof fn lemma_dot_product(ux: int, uy: int, vx: int, vy: int)
    ensures
        (ux * vx + uy * vy) * (ux * vx + uy * vy) <= (ux * ux + uy * uy) * (vx * vx + vy * vy),
{
    let a = ux * vx;
    let b = uy * vy;
    let c = ux * vy;
    let d = uy * vx;
    let x2 = ux * ux;
    let y2 = uy * uy;
    let s2 = vx * vx;
    let t2 = vy * vy;
    assert(x2 * s2 == a * a) by (nonlinear_arith)
        requires
            x2 == ux * ux,
            s2 == vx * vx,
            a == ux * vx,
    ;
    assert(y2 * t2 == b * b) by (nonlinear_arith)
        requires
            y2 == uy * uy,
            t2 == vy * vy,
            b == uy * vy,
    ;
    assert(x2 * t2 == c * c) by (nonlinear_arith)
        requires
            x2 == ux * ux,
            t2 == vy * vy,
            c == ux * vy,
    ;
    assert(y2 * s2 == d * d) by (nonlinear_arith)
        requires
            y2 == uy * uy,
            s2 == vx * vx,
            d == uy * vx,
    ;
    assert(a * b == c * d) by (nonlinear_arith)
        requires
            a == ux * vx,
            b == uy * vy,
            c == ux * vy,
            d == uy * vx,
    ;
    assert((x2 + y2) * (s2 + t2) == x2 * s2 + x2 * t2 + y2 * s2 + y2 * t2) by (nonlinear_arith);
    assert((a + b) * (a + b) == a * a + 2 * (a * b) + b * b) by (nonlinear_arith);
    assert((c - d) * (c - d) == c * c - 2 * (c * d) + d * d) by (nonlinear_arith);
    assert((c - d) * (c - d) >= 0) by (nonlinear_arith);
}

/// The triangle inequality for square roots rounded up: the root of the
/// scaled squared length of a sum of two vectors is not above the roots for
/// the two vectors together.
proof fn lemma_triangle_of_roots(ux: int, uy: int, vx: int, vy: int, scale: nat)
    ensures
        ceil_sqrt(((ux + vx) * (ux + vx) + (uy + vy) * (uy + vy)) as nat * scale * scale) <= ceil_sqrt(
            (ux * ux + uy * uy) as nat * scale * scale,
        ) + ceil_sqrt((vx * vx + vy * vy) as nat * scale * scale),
{
    let p = ux * ux + uy * uy;
    let q = vx * vx + vy * vy;
    let sum = (ux + vx) * (ux + vx) + (uy + vy) * (uy + vy);
    let dot = ux * vx + uy * vy;
    assert(p >= 0 && q >= 0 && sum >= 0) by (nonlinear_arith)
        requires
            p == ux * ux + uy * uy,
            q == vx * vx + vy * vy,
            sum == (ux + vx) * (ux + vx) + (uy + vy) * (uy + vy),
    ;
    assert(sum == p + q + 2 * dot) by (nonlinear_arith)
        requires
            p == ux * ux + uy * uy,
            q == vx * vx + vy * vy,
            sum == (ux + vx) * (ux + vx) + (uy + vy) * (uy + vy),
            dot == ux * vx + uy * vy,
    ;
    let k = scale as int * scale as int;
    let np = p as nat * scale * scale;
    let nq = q as nat * scale * scale;
    let nsum = sum as nat * scale * scale;
    assert(np == p * k && nq == q * k && nsum == sum * k && k >= 0) by (nonlinear_arith)
        requires
            k == scale as int * scale as int,
            np == p as nat * scale * scale,
            nq == q as nat * scale * scale,
            nsum == sum as nat * scale * scale,
            p >= 0,
            q >= 0,
            sum >= 0,
    ;
    lemma_ceil_sqrt_exists(np);
    lemma_ceil_sqrt_exists(nq);
    let e = ceil_sqrt(np) as int;
    let f = ceil_sqrt(nq) as int;
    assert(nsum == np + nq + 2 * (k * dot)) by (nonlinear_arith)
        requires
            np == p * k,
            nq == q * k,
            nsum == sum * k,
            sum == p + q + 2 * dot,
    ;
    if dot > 0 {
        lemma_dot_product(ux, uy, vx, vy);
        let x = k * dot;
        assert(x >= 0) by (nonlinear_arith)
            requires
                x == k * dot,
                k >= 0,
                dot > 0,
        ;
        assert(x * x <= np * nq) by (nonlinear_arith)
            requires
                x == k * dot,
                np == p * k,
                nq == q * k,
                dot * dot <= p * q,
                k >= 0,
        ;
        assert(np * nq <= (e * e) * (f * f)) by (nonlinear_arith)
            requires
                0 <= np <= e * e,
                0 <= nq <= f * f,
        ;
        assert((e * e) * (f * f) == (e * f) * (e * f)) by (nonlinear_arith);
        assert(e * f >= 0) by (nonlinear_arith)
            requires
                e >= 0,
                f >= 0,
        ;
        lemma_square_order(x, e * f);
    } else {
        assert(k * dot <= 0) by (nonlinear_arith)
            requires
                k >= 0,
                dot <= 0,
        ;
        assert(e * f >= 0) by (nonlinear_arith)
            requires
                e >= 0,
                f >= 0,
        ;
    }
    assert(nsum <= (e + f) * (e + f)) by (nonlinear_arith)
        requires
            nsum == np + nq + 2 * (k * dot),
            np <= e * e,
            nq <= f * f,
            k * dot <= e * f,
    ;
    lemma_ceil_sqrt_least(nsum, (e + f) as nat);
}

/// The squared distance of two cells is the sum of the squares of their
/// offsets.
proof fn lemma_square_gap(a: Coords2D, b: Coords2D)
    ensures
        square_gap(a, b) == offset(a.0, b.0) * offset(a.0, b.0) + offset(a.1, b.1) * offset(a.1, b.1),
{
    let dx = gap(a.0, b.0) as int;
    let dy = gap(a.1, b.1) as int;
    let ox = offset(a.0, b.0);
    let oy = offset(a.1, b.1);
    assert(dx * dx == ox * ox) by (nonlinear_arith)
        requires
            dx == ox || dx == -ox,
    ;
    assert(dy * dy == oy * oy) by (nonlinear_arith)
        requires
            dy == oy || dy == -oy,
    ;
}

/// The triangle inequality: the way from one cell to another is not longer
/// when it leads straight there than when it passes a third cell.
pub proof fn lemma_distance_triangle(a: Coords2D, b: Coords2D, c: Coords2D)
    ensures
        distance_spec(a, c) <= distance_spec(a, b) + distance_spec(b, c),
{
    lemma_square_gap(a, b);
    lemma_square_gap(b, c);
    lemma_square_gap(a, c);
    lemma_triangle_of_roots(
        offset(a.0, b.0),
        offset(a.1, b.1),
        offset(b.0, c.0),
        offset(b.1, c.1),
        UNIT as nat,
    );
}

} // verus!
