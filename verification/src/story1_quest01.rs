//! The remainder-trail score: repeated multiplication under a modulus
//! leaves a trail of remainders, read newest-first as one decimal number.

use vstd::prelude::*;

use crate::cycle::{
    ext_sum, fn_sum, law_cycle_extrapolation, lemma_ext_sum_bounded, lemma_sum_first_bounded,
    sum_first, CycleDetector,
};
use crate::sol2024_quest05::{lemma_ndigits_unique, lemma_pow10_pos, ndigits, pow10};

verus! {

/// The `k`-th power of `n` under the modulus, starting from one.
pub open spec fn powmod(n: int, k: int, m: int) -> int
    decreases k,
{
    if k <= 0 {
        1
    } else {
        (powmod(n, k - 1, m) * n) % m
    }
}

/// The remainders `n^exp, ..., n^1` (mod `m`) read as one decimal number:
/// the first `j` of them folded in.
pub open spec fn eni_spec(n: int, exp: int, m: int, j: int) -> int
    decreases j,
{
    if j <= 0 {
        0
    } else {
        eni_spec(n, exp, m, j - 1) * pow10(ndigits(powmod(n, exp - (j - 1), m))) + powmod(
            n,
            exp - (j - 1),
            m,
        )
    }
}

proof fn lemma_powmod_range(n: int, k: int, m: int)
    requires
        m >= 1,
        n >= 0,
        k >= 1,
    ensures
        0 <= powmod(n, k, m) < m,
{
    vstd::arithmetic::div_mod::lemma_mod_bound(powmod(n, k - 1, m) * n, m);
}

proof fn lemma_eni_nonneg(n: int, exp: int, m: int, j: int)
    requires
        m >= 1,
        n >= 0,
    ensures
        eni_spec(n, exp, m, j) >= 0,
    decreases j,
{
    if j > 0 {
        lemma_eni_nonneg(n, exp, m, j - 1);
        lemma_pow10_pos(ndigits(powmod(n, exp - (j - 1), m)));
        if exp - (j - 1) >= 1 {
            lemma_powmod_range(n, exp - (j - 1), m);
        }
        assert(eni_spec(n, exp, m, j - 1) * pow10(ndigits(powmod(n, exp - (j - 1), m))) >= 0) by (
        nonlinear_arith)
            requires
                eni_spec(n, exp, m, j - 1) >= 0,
                pow10(ndigits(powmod(n, exp - (j - 1), m))) >= 1,
        ;
        assert(powmod(n, exp - (j - 1), m) >= 0) by {
            if exp - (j - 1) <= 0 {
            } else {
                lemma_powmod_range(n, exp - (j - 1), m);
            }
        }
    }
}

proof fn lemma_eni_mono(n: int, exp: int, m: int, j1: int, j2: int)
    requires
        m >= 1,
        n >= 0,
        0 <= j1 <= j2,
    ensures
        0 <= eni_spec(n, exp, m, j1) <= eni_spec(n, exp, m, j2),
    decreases j2 - j1,
{
    lemma_eni_nonneg(n, exp, m, j1);
    if j1 < j2 {
        lemma_eni_mono(n, exp, m, j1, j2 - 1);
        lemma_eni_nonneg(n, exp, m, j2 - 1);
        lemma_pow10_pos(ndigits(powmod(n, exp - (j2 - 1), m)));
        assert(eni_spec(n, exp, m, j2 - 1) * pow10(ndigits(powmod(n, exp - (j2 - 1), m)))
            >= eni_spec(n, exp, m, j2 - 1)) by (nonlinear_arith)
            requires
                eni_spec(n, exp, m, j2 - 1) >= 0,
                pow10(ndigits(powmod(n, exp - (j2 - 1), m))) >= 1,
        ;
        assert(powmod(n, exp - (j2 - 1), m) >= 0) by {
            if exp - (j2 - 1) <= 0 {
            } else {
                lemma_powmod_range(n, exp - (j2 - 1), m);
            }
        }
    }
}

/// The trail score: the remainders of `n^1 .. n^exp` under `m`, newest
/// first, concatenated in decimal.
pub fn eni(n: u64, exp: u64, m: u64) -> (r: u64)
    requires
        1 <= m < 0x8000_0000,
        n < 0x8000_0000,
        exp < 0x1000_0000,
        eni_spec(n as int, exp as int, m as int, exp as int) <= u64::MAX,
    ensures
        r as int == eni_spec(n as int, exp as int, m as int, exp as int),
{
    let mut rems: Vec<u64> = Vec::new();
    let mut cur: u64 = 1;
    let mut k: u64 = 0;
    while k < exp
        invariant
            k <= exp,
            1 <= m < 0x8000_0000,
            n < 0x8000_0000,
            exp < 0x1000_0000,
            cur as int == powmod(n as int, k as int, m as int),
            cur < m || (k == 0 && cur == 1),
            rems@.len() == k,
            forall|q: int| 0 <= q < k ==> #[trigger] rems@[q] as int == powmod(
                n as int,
                q + 1,
                m as int,
            ),
        decreases exp - k,
    {
        proof {
            assert(cur as int * (n as int) <= 0x4000_0000_0000_0000) by (nonlinear_arith)
                requires
                    0 <= cur as int <= 0x8000_0000,
                    0 <= n < 0x8000_0000,
            ;
        }
        cur = (cur * n) % m;
        rems.push(cur);
        k = k + 1;
    }

    // Read the trail newest-first as one decimal number.
    let mut acc: u64 = 0;
    let mut j: usize = 0;
    while j < rems.len()
        invariant
            j <= rems@.len(),
            rems@.len() == exp,
            1 <= m < 0x8000_0000,
            n < 0x8000_0000,
            exp < 0x1000_0000,
            eni_spec(n as int, exp as int, m as int, exp as int) <= u64::MAX,
            forall|q: int| 0 <= q < exp ==> #[trigger] rems@[q] as int == powmod(
                n as int,
                q + 1,
                m as int,
            ),
            acc as int == eni_spec(n as int, exp as int, m as int, j as int),
        decreases rems@.len() - j,
    {
        let v = rems[rems.len() - 1 - j];
        proof {
            assert(rems@[rems@.len() - 1 - j as int] as int == powmod(
                n as int,
                exp - j as int,
                m as int,
            ));
            lemma_powmod_range(n as int, exp - j as int, m as int);
        }
        let mut p: u64 = 10;
        let ghost mut kk: int = 1;
        proof {
            assert(pow10(0) == 1);
            assert(pow10(1) == 10);
        }
        while p <= v
            invariant
                v < 0x8000_0000,
                kk >= 1,
                p as int == pow10(kk),
                pow10(kk - 1) <= v || kk == 1,
                p <= 100_000_000_000,
            decreases 100_000_000_000 - p,
        {
            proof {
                assert(pow10(kk + 1) == 10 * pow10(kk));
                lemma_pow10_pos(kk);
                kk = kk + 1;
            }
            p = p * 10;
        }
        proof {
            if v >= 1 {
                lemma_ndigits_unique(v as int, kk);
            } else {
                assert(ndigits(0) == 1);
                assert(kk == 1);
            }
            lemma_eni_mono(n as int, exp as int, m as int, j + 1, exp as int);
            lemma_eni_mono(n as int, exp as int, m as int, 0, j as int);
            assert(acc as int * (p as int) + v == eni_spec(n as int, exp as int, m as int, j + 1))
                by (nonlinear_arith)
                requires
                    acc as int == eni_spec(n as int, exp as int, m as int, j as int),
                    p as int == pow10(ndigits(v as int)),
                    v as int == powmod(n as int, exp - j as int, m as int),
                    eni_spec(n as int, exp as int, m as int, j + 1) == eni_spec(
                        n as int,
                        exp as int,
                        m as int,
                        j as int,
                    ) * pow10(ndigits(powmod(n as int, exp - j as int, m as int))) + powmod(
                        n as int,
                        exp - j as int,
                        m as int,
                    ),
            ;
        }
        acc = acc * p + v;
        j = j + 1;
    }
    acc
}

/// The sum of `n^1 .. n^k` under the modulus.
pub open spec fn powmod_sum(n: int, m: int, k: int) -> int
    decreases k,
{
    if k <= 0 {
        0
    } else {
        powmod_sum(n, m, k - 1) + powmod(n, k, m)
    }
}

/// The modular power written as the value the detector is fed.
pub open spec fn powmod64(n: int, m: int, k: int) -> u64 {
    powmod(n, k, m) as u64
}

/// Modular powers are deterministic: equal powers stay equal forever after.
proof fn lemma_powmod_shift(n: int, m: int, a: int, b: int, d: int)
    requires
        0 <= a,
        0 <= b,
        powmod(n, a, m) == powmod(n, b, m),
        d >= 0,
    ensures
        powmod(n, a + d, m) == powmod(n, b + d, m),
    decreases d,
{
    if d > 0 {
        lemma_powmod_shift(n, m, a, b, d - 1);
        assert(powmod(n, a + d, m) == (powmod(n, a + d - 1, m) * n) % m);
        assert(powmod(n, b + d, m) == (powmod(n, b + d - 1, m) * n) % m);
    }
}

/// A prefix of values that transcribe the modular powers sums to
/// `powmod_sum`.
proof fn lemma_sum_first_is_powmod_sum(values: Seq<u64>, n: int, m: int, k: int)
    requires
        0 <= k <= values.len(),
        forall|q: int| 0 <= q < values.len() ==> (#[trigger] values[q]) as int == powmod(
            n,
            q + 1,
            m,
        ),
    ensures
        sum_first(values, k) == powmod_sum(n, m, k),
    decreases k,
{
    if k > 0 {
        lemma_sum_first_is_powmod_sum(values, n, m, k - 1);
    }
}

/// A step-value function that transcribes the modular powers sums to
/// `powmod_sum`.
proof fn lemma_fn_sum_is_powmod_sum(v: spec_fn(int) -> u64, n: int, m: int, k: int)
    requires
        forall|u: int| 1 <= u ==> (#[trigger] v(u)) == powmod64(n, m, u),
        1 <= m <= 0x8000_0000,
        0 <= n,
        k >= 0,
    ensures
        fn_sum(v, k) == powmod_sum(n, m, k),
    decreases k,
{
    if k > 0 {
        lemma_fn_sum_is_powmod_sum(v, n, m, k - 1);
        lemma_powmod_range(n, k, m);
    }
}

/// The summed remainders of `n^1 .. n^exp` under `m`. The trail is walked
/// only until a remainder repeats; the library's cycle detector closes the
/// astronomically long rest of the sum algebraically.
pub fn eni3(n: u64, exp: u64, m: u64) -> (r: u64)
    requires
        1 <= m < 0x8000_0000,
        n < 0x8000_0000,
        exp < 0x8000_0000,
    ensures
        r as int == powmod_sum(n as int, m as int, exp as int),
{
    let mut detector = CycleDetector::new(exp);
    let mut cur: u64 = 1;
    let mut t: u64 = 0;
    loop
        invariant
            detector.wf(),
            !detector.done(),
            detector.total_steps() == exp,
            1 <= m < 0x8000_0000,
            n < 0x8000_0000,
            exp < 0x8000_0000,
            t as int == detector.states().len(),
            t <= exp,
            cur as int == powmod(n as int, t as int, m as int),
            cur < m || (t == 0 && cur == 1),
            detector.values() == detector.states(),
            forall|q: int|
                0 <= q < t ==> (#[trigger] detector.states()[q]) as int == powmod(
                    n as int,
                    q + 1,
                    m as int,
                ),
        decreases exp - t,
    {
        proof {
            assert(cur as int * (n as int) <= 0x4000_0000_0000_0000) by (nonlinear_arith)
                requires
                    0 <= cur as int <= 0x8000_0000,
                    0 <= n < 0x8000_0000,
            ;
        }
        cur = (cur * n) % m;
        let ghost hist = detector.states();
        let ghost vals2 = detector.values().push(cur);
        proof {
            // The running-sum precondition: every fed value is below `m`.
            assert(forall|q: int|
                0 <= q < hist.len() ==> (#[trigger] detector.values()[q]) < m) by {
                assert forall|q: int|
                    0 <= q < hist.len() implies (#[trigger] detector.values()[q]) < m by {
                    lemma_powmod_range(n as int, q + 1, m as int);
                }
            }
            lemma_sum_first_bounded(detector.values(), t as int, m as int);
            assert(t as int * (m as int) + m <= u64::MAX) by (nonlinear_arith)
                requires
                    0 <= (t as int) && (t as int) < 0x8000_0000,
                    1 <= (m as int) && (m as int) < 0x8000_0000,
            ;
            // The extrapolation precondition, when this state repeats.
            if hist.contains(cur) {
                let idx = hist.index_of(cur);
                assert(0 <= idx < hist.len() && hist[idx] == cur);
                let lenc = hist.len() - idx;
                assert(forall|q: int| 0 <= q < vals2.len() ==> (#[trigger] vals2[q]) < m) by {
                    assert forall|q: int| 0 <= q < vals2.len() implies (#[trigger] vals2[q])
                        < m by {
                        lemma_powmod_range(n as int, q + 1, m as int);
                    }
                }
                lemma_ext_sum_bounded(vals2, lenc, exp as int, m as int);
                assert(exp as int * (m as int) <= u64::MAX) by (nonlinear_arith)
                    requires
                        0 <= (exp as int) && (exp as int) < 0x8000_0000,
                        1 <= (m as int) && (m as int) < 0x8000_0000,
                ;
            }
        }
        let res = detector.step(cur, cur);
        match res {
            Some(total) => {
                proof {
                    let ni = n as int;
                    let mi = m as int;
                    let v = |u: int| powmod64(ni, mi, u);
                    assert(forall|u: int| 1 <= u ==> (#[trigger] v(u)) == powmod64(ni, mi, u));
                    if hist.contains(cur) {
                        let idx = hist.index_of(cur);
                        let lenc = hist.len() - idx;
                        // The repeated remainder makes the power sequence
                        // truly periodic with period `lenc` past the history.
                        assert(powmod(ni, idx + 1, mi) == powmod(ni, t + 1, mi)) by {
                            assert(hist[idx] as int == powmod(ni, idx + 1, mi));
                            assert(cur as int == powmod(ni, t + 1, mi));
                        }
                        assert(1 <= lenc <= vals2.len());
                        assert(forall|u: int|
                            1 <= u <= vals2.len() ==> vals2[u - 1] == #[trigger] v(u)) by {
                            assert forall|u: int|
                                1 <= u <= vals2.len() implies vals2[u - 1] == #[trigger] v(
                                u,
                            ) by {
                                lemma_powmod_range(ni, u, mi);
                            }
                        }
                        assert(forall|u: int| u > vals2.len() ==> #[trigger] v(u) == v(u - lenc))
                            by {
                            assert forall|u: int| u > vals2.len() implies #[trigger] v(u) == v(
                                u - lenc,
                            ) by {
                                lemma_powmod_shift(ni, mi, idx + 1, t + 1, u - lenc - (idx + 1));
                            }
                        }
                        law_cycle_extrapolation(vals2, lenc, exp as int, v);
                        lemma_fn_sum_is_powmod_sum(v, ni, mi, exp as int);
                    } else {
                        assert(forall|q: int|
                            0 <= q < vals2.len() ==> (#[trigger] vals2[q]) as int == powmod(
                                ni,
                                q + 1,
                                mi,
                            ));
                        lemma_sum_first_is_powmod_sum(vals2, ni, mi, exp as int);
                    }
                }
                return total;
            },
            None => {},
        }
        t = t + 1;
    }
}

} // verus!
