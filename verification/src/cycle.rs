//! Cycle-accelerated simulation.
//!
//! A caller simulates a deterministic process step by step, feeding each new
//! state (encoded as a `u64`) and that step's contribution into the
//! detector. The detector records running prefix sums; the first time a
//! state recurs, the tail of the simulation is provably periodic, so the sum
//! over an astronomically large number of steps closes algebraically instead
//! of being simulated.
//!
//! The meaning of the closed-form answer is `ext_sum`: the sum of the fed
//! values, extended past the recorded history by repeating its last `len`
//! entries forever. `law_cycle_extrapolation` shows that for a sequence
//! that really is periodic from the repeat point on, this equals the
//! brute-force sum of the first `n` true values.

use std::collections::HashMap;

use vstd::prelude::*;
use vstd::arithmetic::div_mod::lemma_fundamental_div_mod;

verus! {

broadcast use vstd::std_specs::hash::group_hash_axioms, vstd::seq_lib::group_seq_properties;

/// The sum of `values[0]` through `values[t-1]` (steps are 1-based).
pub open spec fn sum_first(values: Seq<u64>, t: int) -> int
    decreases t,
{
    if t <= 0 {
        0
    } else {
        sum_first(values, t - 1) + values[t - 1]
    }
}

/// The value of step `t` when the recorded history repeats its last `len`
/// entries forever.
pub open spec fn ext_value(values: Seq<u64>, len: int, t: int) -> int
    decreases t,
        when 1 <= len <= values.len()
{
    if t <= values.len() {
        if 1 <= t {
            values[t - 1] as int
        } else {
            0
        }
    } else {
        ext_value(values, len, t - len)
    }
}

/// The sum of the first `t` periodically-extended values.
pub open spec fn ext_sum(values: Seq<u64>, len: int, t: int) -> int
    decreases t,
        when 1 <= len <= values.len()
{
    if t <= 0 {
        0
    } else {
        ext_sum(values, len, t - 1) + ext_value(values, len, t)
    }
}

/// Within the recorded history the extension is the history itself.
pub proof fn lemma_ext_sum_prefix(values: Seq<u64>, len: int, t: int)
    requires
        1 <= len <= values.len(),
        t <= values.len(),
    ensures
        ext_sum(values, len, t) == sum_first(values, t),
    decreases t,
{
    if t > 0 {
        lemma_ext_sum_prefix(values, len, t - 1);
    }
}

/// Values below a bound keep the periodic extension below it too.
pub proof fn lemma_ext_value_bounded(values: Seq<u64>, len: int, t: int, bound: int)
    requires
        1 <= len <= values.len(),
        forall|i: int| 0 <= i < values.len() ==> (#[trigger] values[i]) < bound,
        t >= 1,
    ensures
        0 <= ext_value(values, len, t) < bound,
    decreases t,
{
    if t > values.len() {
        lemma_ext_value_bounded(values, len, t - len, bound);
    }
}

/// The periodic extension of bounded values sums to at most `t * bound`.
pub proof fn lemma_ext_sum_bounded(values: Seq<u64>, len: int, t: int, bound: int)
    requires
        1 <= len <= values.len(),
        forall|i: int| 0 <= i < values.len() ==> (#[trigger] values[i]) < bound,
        t >= 0,
        bound >= 1,
    ensures
        0 <= ext_sum(values, len, t) <= t * bound,
    decreases t,
{
    if t > 0 {
        lemma_ext_sum_bounded(values, len, t - 1, bound);
        lemma_ext_value_bounded(values, len, t, bound);
        assert((t - 1) * bound + bound == t * bound) by (nonlinear_arith);
    } else {
        assert(t * bound == 0) by (nonlinear_arith)
            requires
                t == 0,
        ;
    }
}

/// Bounded values keep their prefix sums at most `t * bound`.
pub proof fn lemma_sum_first_bounded(values: Seq<u64>, t: int, bound: int)
    requires
        forall|i: int| 0 <= i < values.len() ==> (#[trigger] values[i]) < bound,
        0 <= t <= values.len(),
        bound >= 1,
    ensures
        0 <= sum_first(values, t) <= t * bound,
    decreases t,
{
    if t > 0 {
        lemma_sum_first_bounded(values, t - 1, bound);
        assert((t - 1) * bound + bound == t * bound) by (nonlinear_arith);
    } else {
        assert(t * bound == 0) by (nonlinear_arith)
            requires
                t == 0,
        ;
    }
}

/// Prefix sums never decrease.
pub proof fn lemma_sum_first_mono(values: Seq<u64>, t1: int, t2: int)
    requires
        0 <= t1 <= t2,
    ensures
        sum_first(values, t1) <= sum_first(values, t2),
    decreases t2 - t1,
{
    if t1 < t2 {
        lemma_sum_first_mono(values, t1, t2 - 1);
    }
}

/// Adding one full period past the history start adds one cycle sum.
proof fn lemma_ext_sum_one_cycle(values: Seq<u64>, len: int, t: int)
    requires
        1 <= len <= values.len(),
        t >= values.len() - len,
    ensures
        ext_sum(values, len, t + len) == ext_sum(values, len, t) + sum_first(
            values,
            values.len() as int,
        ) - sum_first(values, values.len() - len),
    decreases t,
{
    let ll = values.len() as int;
    let start = ll - len;
    if t == start {
        lemma_ext_sum_prefix(values, len, ll);
        lemma_ext_sum_prefix(values, len, start);
    } else {
        lemma_ext_sum_one_cycle(values, len, t - 1);
        assert(ext_value(values, len, t + len) == ext_value(values, len, t));
    }
}

/// Adding `q` full periods adds `q` cycle sums.
proof fn lemma_ext_sum_cycles(values: Seq<u64>, len: int, t: int, q: int)
    requires
        1 <= len <= values.len(),
        t >= values.len() - len,
        q >= 0,
    ensures
        ext_sum(values, len, t + q * len) == ext_sum(values, len, t) + q * (sum_first(
            values,
            values.len() as int,
        ) - sum_first(values, values.len() - len)),
    decreases q,
{
    if q > 0 {
        lemma_ext_sum_cycles(values, len, t, q - 1);
        assert(t + (q - 1) * len >= values.len() - len);
        lemma_ext_sum_one_cycle(values, len, t + (q - 1) * len);
        assert(t + (q - 1) * len + len == t + q * len) by (nonlinear_arith);
        assert(q * (sum_first(values, values.len() as int) - sum_first(
            values,
            values.len() - len,
        )) == (q - 1) * (sum_first(values, values.len() as int) - sum_first(
            values,
            values.len() - len,
        )) + (sum_first(values, values.len() as int) - sum_first(values, values.len() - len)))
            by (nonlinear_arith);
    } else {
        assert(t + 0 * len == t) by (nonlinear_arith);
        assert(0 * (sum_first(values, values.len() as int) - sum_first(values, values.len() - len))
            == 0) by (nonlinear_arith);
    }
}

/// The closed form the detector computes: history sum, plus whole cycles,
/// plus a partial cycle read out of the prefix sums.
pub proof fn lemma_extrapolate(values: Seq<u64>, len: int, n: int)
    requires
        1 <= len <= values.len(),
        n >= values.len(),
    ensures
        ext_sum(values, len, n) == sum_first(values, values.len() as int) + ((n - values.len())
            / len) * (sum_first(values, values.len() as int) - sum_first(
            values,
            values.len() - len,
        )) + (sum_first(values, values.len() - len + ((n - values.len()) % len)) - sum_first(
            values,
            values.len() - len,
        )),
{
    let ll = values.len() as int;
    let start = ll - len;
    let rem = (n - ll) % len;
    let q = (n - ll) / len;
    lemma_fundamental_div_mod(n - ll, len);
    assert(n == ll + q * len + rem);
    assert(0 <= rem < len);
    // n == (start + rem) + (q + 1) * len
    assert(ll + q * len + rem == (start + rem) + (q + 1) * len) by (nonlinear_arith)
        requires
            ll == start + len,
    ;
    lemma_ext_sum_cycles(values, len, start + rem, q + 1);
    lemma_ext_sum_prefix(values, len, start + rem);
    let cyc = sum_first(values, ll) - sum_first(values, start);
    assert((q + 1) * cyc == q * cyc + cyc) by (nonlinear_arith);
    assert(ext_sum(values, len, n) == sum_first(values, start + rem) + q * cyc + cyc);
}

/// For a sequence that truly repeats with period `len` past the recorded
/// history, the extension used by the detector is the sequence itself, so
/// the extrapolated sum is the brute-force sum of the first `n` values.
///
/// `v(t)` gives the true value of step `t` (1-based); the history `values`
/// must transcribe it, and past the history every value must equal the one
/// `len` steps earlier.
pub proof fn law_cycle_extrapolation(values: Seq<u64>, len: int, n: int, v: spec_fn(int) -> u64)
    requires
        1 <= len <= values.len(),
        forall|t: int| 1 <= t <= values.len() ==> values[t - 1] == #[trigger] v(t),
        forall|t: int| t > values.len() ==> #[trigger] v(t) == v(t - len),
        n >= 0,
    ensures
        ext_sum(values, len, n) == fn_sum(v, n),
    decreases n,
{
    if n > 0 {
        law_cycle_extrapolation(values, len, n - 1, v);
        lemma_ext_value_matches(values, len, n, v);
    }
}

proof fn lemma_ext_value_matches(values: Seq<u64>, len: int, t: int, v: spec_fn(int) -> u64)
    requires
        1 <= len <= values.len(),
        forall|u: int| 1 <= u <= values.len() ==> values[u - 1] == #[trigger] v(u),
        forall|u: int| u > values.len() ==> #[trigger] v(u) == v(u - len),
        t >= 1,
    ensures
        ext_value(values, len, t) == v(t),
    decreases t,
{
    if t > values.len() {
        lemma_ext_value_matches(values, len, t - len, v);
    }
}

/// The sum of the first `n` values of a step-indexed function.
pub open spec fn fn_sum(v: spec_fn(int) -> u64, n: int) -> int
    decreases n,
{
    if n <= 0 {
        0
    } else {
        fn_sum(v, n - 1) + v(n)
    }
}

/// Detects a repeated state while accumulating per-step values, and closes
/// the remaining steps algebraically once the tail is known to repeat.
pub struct CycleDetector {
    seen: HashMap<u64, u64>,
    prefix: Vec<u64>,
    total: u64,
    states: Ghost<Seq<u64>>,
    values: Ghost<Seq<u64>>,
    done: Ghost<bool>,
}

impl CycleDetector {
    /// The target step count fixed at construction.
    pub closed spec fn total_steps(self) -> u64 {
        self.total
    }

    /// Every state fed so far, in order.
    pub closed spec fn states(self) -> Seq<u64> {
        self.states@
    }

    /// Every per-step value fed so far, in order.
    pub closed spec fn values(self) -> Seq<u64> {
        self.values@
    }

    /// Whether a step has already produced a final answer.
    pub closed spec fn done(self) -> bool {
        self.done@
    }

    pub closed spec fn wf(self) -> bool {
        self.done@ || {
            let ll = self.states@.len() as int;
            &&& self.values@.len() == ll
            &&& self.prefix@.len() == ll + 1
            &&& forall|t: int| 0 <= t <= ll ==> #[trigger] self.prefix@[t] as int == sum_first(
                self.values@,
                t,
            )
            &&& forall|a: int, b: int|
                0 <= a < b < ll ==> #[trigger] self.states@[a] != #[trigger] self.states@[b]
            &&& forall|s: u64| #[trigger] self.seen@.dom().contains(s) <==> self.states@.contains(s)
            &&& forall|s: u64| #[trigger] self.seen@.dom().contains(s) ==> 1 <= self.seen@[s] <= ll
                && self.states@[self.seen@[s] - 1] == s
            &&& (ll == 0 || ll < self.total)
        }
    }

    /// A detector aiming at `total_steps` simulated steps.
    pub fn new(total_steps: u64) -> (r: CycleDetector)
        ensures
            r.wf(),
            !r.done(),
            r.total_steps() == total_steps,
            r.states() == Seq::<u64>::empty(),
            r.values() == Seq::<u64>::empty(),
    {
        let mut prefix: Vec<u64> = Vec::new();
        prefix.push(0);
        CycleDetector {
            seen: HashMap::new(),
            prefix,
            total: total_steps,
            states: Ghost(Seq::empty()),
            values: Ghost(Seq::empty()),
            done: Ghost(false),
        }
    }

    /// Feed one simulated step: the state after the transition and that
    /// step's contribution.
    ///
    /// Returns `Some(total)` once the answer for `total_steps` steps is
    /// known: either the state recurred (the tail repeats, and `total` is
    /// the extrapolated sum `ext_sum`), or the step count reached
    /// `total_steps` without a repeat (and `total` is the plain prefix sum).
    /// Otherwise returns `None` and the caller continues simulating.
    pub fn step(&mut self, state: u64, value: u64) -> (r: Option<u64>)
        requires
            old(self).wf(),
            !old(self).done(),
            sum_first(old(self).values(), old(self).values().len() as int) + value <= u64::MAX,
            old(self).states().contains(state) ==> ext_sum(
                old(self).values().push(value),
                old(self).states().len() - old(self).states().index_of(state),
                old(self).total_steps() as int,
            ) <= u64::MAX,
        ensures
            final(self).wf(),
            final(self).total_steps() == old(self).total_steps(),
            final(self).states() == old(self).states().push(state),
            final(self).values() == old(self).values().push(value),
            ({
                let h = old(self).states();
                let vals = old(self).values().push(value);
                let n = old(self).total_steps() as int;
                let round = h.len() + 1;
                if h.contains(state) {
                    &&& r is Some
                    &&& r->0 as int == ext_sum(vals, h.len() - h.index_of(state), n)
                    &&& final(self).done()
                } else if round >= n {
                    &&& r is Some
                    &&& r->0 as int == sum_first(vals, n)
                    &&& final(self).done()
                } else {
                    &&& r is None
                    &&& !final(self).done()
                }
            }),
    {
        let ghost oldvals = self.values@;
        let ghost oldstates = self.states@;
        let round: u64 = self.prefix.len() as u64;
        let last = self.prefix[self.prefix.len() - 1];
        self.prefix.push(last + value);
        proof {
            self.states@ = oldstates.push(state);
            self.values@ = oldvals.push(value);
            assert forall|t: int| 0 <= t <= oldvals.len() + 1 implies #[trigger] self.prefix@[t]
                as int == sum_first(self.values@, t) by {
                lemma_sum_first_push(oldvals, value, t);
            }
        }
        let ghost vals = self.values@;
        match self.seen.insert(state, round) {
            Some(start) => {
                proof {
                    self.done@ = true;
                    assert(oldstates.contains(state));
                    // The recorded first occurrence is the only occurrence.
                    let idx = oldstates.index_of(state);
                    assert(0 <= idx < oldstates.len() && oldstates[idx] == state);
                    assert(oldstates[start - 1] == state);
                    assert(idx == start - 1);
                }
                let len = round - start;
                let remaining = self.total - round;
                let q = remaining / len;
                let rem = remaining % len;
                proof {
                    lemma_fundamental_div_mod(remaining as int, len as int);
                    lemma_extrapolate(vals, len as int, self.total as int);
                    lemma_sum_first_mono(vals, 0, start as int);
                    lemma_sum_first_mono(vals, start as int, (start + rem) as int);
                    lemma_sum_first_mono(vals, (start + rem) as int, round as int);
                    assert(q * (sum_first(vals, round as int) - sum_first(vals, start as int))
                        >= 0) by (nonlinear_arith)
                        requires
                            q >= 0,
                            sum_first(vals, round as int) - sum_first(vals, start as int) >= 0,
                    ;
                }
                let cyc = self.prefix[round as usize] - self.prefix[start as usize];
                let partial = self.prefix[(start + rem) as usize] - self.prefix[start as usize];
                let whole = q * cyc;
                let total = self.prefix[round as usize] + whole + partial;
                Some(total)
            },
            None => {
                if round >= self.total {
                    proof {
                        self.done@ = true;
                        lemma_sum_first_mono(vals, self.total as int, round as int);
                    }
                    Some(self.prefix[self.total as usize])
                } else {
                    proof {
                        assert(self.states@.len() < self.total);
                    }
                    None
                }
            },
        }
    }
}

proof fn lemma_sum_first_push(values: Seq<u64>, value: u64, t: int)
    requires
        0 <= t <= values.len() + 1,
    ensures
        t <= values.len() ==> sum_first(values.push(value), t) == sum_first(values, t),
        t == values.len() + 1 ==> sum_first(values.push(value), t) == sum_first(
            values,
            values.len() as int,
        ) + value,
    decreases t,
{
    if t > 0 {
        lemma_sum_first_push(values, value, t - 1);
    }
}

} // verus!
