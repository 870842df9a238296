//! Orbits of a complex quadratic map: a candidate offset stays in the
//! picture when a hundred iterations of square, shrink and shift never
//! leave the allowed window.

use vstd::prelude::*;

verus! {

/// A complex number with integer parts.
#[derive(Clone, Copy, PartialEq, Eq, Structural)]
pub struct Complex {
    pub x: i64,
    pub y: i64,
}

impl Complex {
    /// The complex number `x + y i`.
    pub fn new(x: i64, y: i64) -> (r: Complex)
        ensures
            r.x == x,
            r.y == y,
    {
        Complex { x, y }
    }
}

/// Division by a positive constant, rounding toward zero.
pub open spec fn tdiv(a: int, d: int) -> int {
    if a >= 0 {
        a / d
    } else {
        -((-a) / d)
    }
}

/// One iteration: square, shrink both parts a hundred-thousand-fold, and
/// shift by `p`.
pub open spec fn orbit_step(px: int, py: int, rx: int, ry: int) -> (int, int) {
    let sx = rx * rx - ry * ry;
    let sy = rx * ry + ry * rx;
    (tdiv(sx, 100_000) + px, tdiv(sy, 100_000) + py)
}

/// Whether `k` more iterations all stay within the window.
pub open spec fn orbit_stays(px: int, py: int, rx: int, ry: int, k: int) -> bool
    decreases k,
{
    if k <= 0 {
        true
    } else {
        let next = orbit_step(px, py, rx, ry);
        &&& -1_000_000 <= next.0 <= 1_000_000
        &&& -1_000_000 <= next.1 <= 1_000_000
        &&& orbit_stays(px, py, next.0, next.1, k - 1)
    }
}

fn shrink(a: i64) -> (r: i64)
    requires
        -0x4000_0000_0000_0000 <= a <= 0x4000_0000_0000_0000,
    ensures
        r as int == tdiv(a as int, 100_000),
{
    if a >= 0 {
        ((a as u64) / 100_000) as i64
    } else {
        -((((-a) as u64) / 100_000) as i64)
    }
}

/// Whether the offset `(x, y)` added to `a` gives a point whose orbit
/// stays within the window for a hundred iterations.
pub fn cycle(a: Complex, x: i64, y: i64) -> (r: bool)
    requires
        -0x100_0000_0000 <= a.x + x <= 0x100_0000_0000,
        -0x100_0000_0000 <= a.y + y <= 0x100_0000_0000,
    ensures
        r == orbit_stays(a.x + x, a.y + y, 0, 0, 100),
{
    let px = a.x + x;
    let py = a.y + y;
    let mut rx: i64 = 0;
    let mut ry: i64 = 0;
    let mut k: usize = 0;
    while k < 100
        invariant
            k <= 100,
            px as int == a.x + x,
            py as int == a.y + y,
            -0x100_0000_0000 <= px <= 0x100_0000_0000,
            -0x100_0000_0000 <= py <= 0x100_0000_0000,
            -1_000_000 <= rx <= 1_000_000,
            -1_000_000 <= ry <= 1_000_000,
            orbit_stays(px as int, py as int, rx as int, ry as int, 100 - k) == orbit_stays(
                px as int,
                py as int,
                0,
                0,
                100,
            ),
        decreases 100 - k,
    {
        proof {
            assert(rx as int * (rx as int) <= 0x1_0000_0000_0000 && rx as int * (rx as int)
                >= 0) by (nonlinear_arith)
                requires
                    -1_000_000 <= rx as int <= 1_000_000,
            ;
            assert(ry as int * (ry as int) <= 0x1_0000_0000_0000 && ry as int * (ry as int)
                >= 0) by (nonlinear_arith)
                requires
                    -1_000_000 <= ry as int <= 1_000_000,
            ;
            assert(-0x1_0000_0000_0000 <= rx as int * (ry as int) <= 0x1_0000_0000_0000) by (
            nonlinear_arith)
                requires
                    -1_000_000 <= rx as int <= 1_000_000,
                    -1_000_000 <= ry as int <= 1_000_000,
            ;
            assert(-0x1_0000_0000_0000 <= ry as int * (rx as int) <= 0x1_0000_0000_0000) by (
            nonlinear_arith)
                requires
                    -1_000_000 <= rx as int <= 1_000_000,
                    -1_000_000 <= ry as int <= 1_000_000,
            ;
        }
        let sx = rx * rx - ry * ry;
        let sy = rx * ry + ry * rx;
        let nx = shrink(sx) + px;
        let ny = shrink(sy) + py;
        proof {
            assert((nx as int, ny as int) == orbit_step(px as int, py as int, rx as int, ry as int));
        }
        if nx < -1_000_000 || nx > 1_000_000 || ny < -1_000_000 || ny > 1_000_000 {
            proof {
                assert(!orbit_stays(px as int, py as int, rx as int, ry as int, 100 - k));
            }
            return false;
        }
        rx = nx;
        ry = ny;
        k = k + 1;
    }
    true
}

} // verus!
