//! Snails on nested discs: a snail at `(x, y)` sits on the disc numbered
//! `x + y - 1` and is worth `x + 100 y`.

use vstd::prelude::*;

verus! {

/// A snail's position, one-based on both axes.
#[derive(Clone, Copy, PartialEq, Eq, Structural)]
pub struct Point {
    pub x: u64,
    pub y: u64,
}

impl Point {
    /// The scoring value of the position.
    pub fn value(&self) -> (r: u64)
        requires
            self.x + 100 * self.y <= u64::MAX,
        ensures
            r as int == self.x + 100 * self.y,
    {
        self.x + 100 * self.y
    }

    /// The disc the position sits on, found by sliding down the diagonal.
    pub fn disc(&self) -> (r: u64)
        requires
            self.y >= 1,
            self.x + self.y <= u64::MAX,
        ensures
            r as int == self.x + self.y - 1,
    {
        let mut cur = *self;
        while cur.y != 1
            invariant
                cur.y >= 1,
                cur.x + cur.y == self.x + self.y,
                self.x + self.y <= u64::MAX,
            decreases cur.y,
        {
            cur = Point { x: cur.x + 1, y: cur.y - 1 };
        }
        cur.x
    }
}

/// `x` normalised into `[0, m)`: the nonnegative remainder.
pub fn norm(x: i128, m: i128) -> (r: i128)
    requires
        m > 0,
        x > i128::MIN,
    ensures
        r == x % m,
{
    if x >= 0 {
        let u = (x as u128) % (m as u128);
        proof {
            vstd::arithmetic::div_mod::lemma_mod_bound(x as int, m as int);
        }
        u as i128
    } else {
        let u = ((-x) as u128) % (m as u128);
        proof {
            vstd::arithmetic::div_mod::lemma_mod_bound((-x) as int, m as int);
            let q = (-x) as int / (m as int);
            vstd::arithmetic::div_mod::lemma_fundamental_div_mod((-x) as int, m as int);
            assert((-x) as int == (m as int) * q + (u as int));
            if u == 0 {
                assert(x as int == (m as int) * (-q) + 0) by (nonlinear_arith)
                    requires
                        (-x) as int == (m as int) * q + (u as int),
                        u == 0,
                ;
                vstd::arithmetic::div_mod::lemma_fundamental_div_mod_converse(
                    x as int,
                    m as int,
                    -q,
                    0,
                );
            } else {
                assert(x as int == (m as int) * (-q - 1) + ((m as int) - (u as int))) by (
                nonlinear_arith)
                    requires
                        (-x) as int == (m as int) * q + (u as int),
                ;
                vstd::arithmetic::div_mod::lemma_fundamental_div_mod_converse(
                    x as int,
                    m as int,
                    -q - 1,
                    m - u,
                );
            }
        }
        if u == 0 {
            0
        } else {
            m - (u as i128)
        }
    }
}

} // verus!
