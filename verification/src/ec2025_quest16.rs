//! Divisors of a number, smallest first.

use vstd::prelude::*;

verus! {

/// The divisors of `n` among `1..=k`, in increasing order.
pub open spec fn divisors_upto(n: int, k: int) -> Seq<u64>
    decreases k,
{
    if k <= 0 {
        Seq::empty()
    } else {
        divisors_upto(n, k - 1) + (if n % k == 0 {
            seq![k as u64]
        } else {
            Seq::<u64>::empty()
        })
    }
}

/// Every divisor of `n`, in increasing order: `d` appears exactly when it
/// divides `n`.
pub fn factors(n: u64) -> (r: Vec<u64>)
    requires
        1 <= n < 0xffff_ffff_ffff_ffff,
    ensures
        r@ == divisors_upto(n as int, n as int),
        forall|j: int| 0 <= j < r@.len() ==> 1 <= #[trigger] r@[j] <= n && n as int % (r@[j] as int)
            == 0,
    decreases n,
{
    let mut r: Vec<u64> = Vec::new();
    let mut d: u64 = 1;
    proof {
        assert(r@ =~= divisors_upto(n as int, 0));
    }
    while d <= n
        invariant
            1 <= d <= n + 1,
            1 <= n < 0xffff_ffff_ffff_ffff,
            r@ == divisors_upto(n as int, d as int - 1),
            forall|j: int| 0 <= j < r@.len() ==> 1 <= #[trigger] r@[j] <= n && n as int % (
            r@[j] as int) == 0,
        decreases n + 1 - d,
    {
        if n % d == 0 {
            r.push(d);
            proof {
                assert(r@ =~= divisors_upto(n as int, d as int));
            }
        } else {
            proof {
                assert(r@ =~= divisors_upto(n as int, d as int));
            }
        }
        d = d + 1;
    }
    r
}

} // verus!
