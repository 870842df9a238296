//! A numbered wheel assembled from ranges: spinning it a huge number of
//! ticks lands on a slot found by walking the ranges, some of which run
//! backwards.

use vstd::prelude::*;

verus! {

/// The slots a wheel segment holds.
pub open spec fn seg_size(seg: (u64, u64, bool)) -> int {
    seg.1 - seg.0 + 1
}

/// The total slot count of the first `k` segments.
pub open spec fn wheel_size(wheel: Seq<(u64, u64, bool)>, k: int) -> int
    decreases k,
{
    if k <= 0 {
        0
    } else {
        wheel_size(wheel, k - 1) + seg_size(wheel[k - 1])
    }
}

/// A wheel is well formed when every segment runs upward.
pub open spec fn wheel_ok(wheel: Seq<(u64, u64, bool)>) -> bool {
    forall|i: int| 0 <= i < wheel.len() ==> (#[trigger] wheel[i]).0 <= wheel[i].1
}

/// The slot label `t` ticks into the wheel, walking segments from `k` on.
pub open spec fn wheel_value(wheel: Seq<(u64, u64, bool)>, k: int, t: int) -> int
    decreases wheel.len() - k,
{
    if k < 0 || k >= wheel.len() {
        0
    } else {
        let seg = wheel[k];
        if t <= seg.1 - seg.0 {
            if seg.2 {
                seg.1 - t
            } else {
                seg.0 + t
            }
        } else {
            wheel_value(wheel, k + 1, t - (seg.1 - seg.0 + 1))
        }
    }
}

proof fn lemma_wheel_size_mono(wheel: Seq<(u64, u64, bool)>, k1: int, k2: int)
    requires
        0 <= k1 <= k2 <= wheel.len(),
        wheel_ok(wheel),
    ensures
        wheel_size(wheel, k1) <= wheel_size(wheel, k2),
    decreases k2 - k1,
{
    if k1 < k2 {
        lemma_wheel_size_mono(wheel, k1, k2 - 1);
    }
}

/// Where the wheel stops after `ticks` ticks: whole revolutions are taken
/// out first, then the remainder walks the segments in order, backwards
/// segments counting down.
pub fn spin_wheel(wheel: &Vec<(u64, u64, bool)>, ticks: u64) -> (r: u64)
    requires
        wheel_ok(wheel@),
        wheel_size(wheel@, wheel@.len() as int) <= u64::MAX,
        wheel_size(wheel@, wheel@.len() as int) > 0,
    ensures
        r as int == wheel_value(
            wheel@,
            0,
            (ticks as int) % wheel_size(wheel@, wheel@.len() as int),
        ),
{
    let ghost total = wheel_size(wheel@, wheel@.len() as int);
    let mut size: u64 = 0;
    let mut i: usize = 0;
    while i < wheel.len()
        invariant
            i <= wheel@.len(),
            wheel_ok(wheel@),
            wheel_size(wheel@, wheel@.len() as int) <= u64::MAX,
            size as int == wheel_size(wheel@, i as int),
        decreases wheel@.len() - i,
    {
        proof {
            lemma_wheel_size_mono(wheel@, i + 1, wheel@.len() as int);
        }
        let (l, r, _) = wheel[i];
        size = size + (r - l + 1);
        i = i + 1;
    }
    let mut t = ticks % size;
    let mut k: usize = 0;
    while k < wheel.len()
        invariant
            k <= wheel@.len(),
            wheel_ok(wheel@),
            size as int == wheel_size(wheel@, wheel@.len() as int),
            wheel_size(wheel@, k as int) + (t as int) < wheel_size(wheel@, wheel@.len() as int),
            wheel_value(wheel@, 0, (ticks as int) % (size as int)) == wheel_value(
                wheel@,
                k as int,
                t as int,
            ),
        decreases wheel@.len() - k,
    {
        let (l, r, backwards) = wheel[k];
        let diff = r - l;
        if t <= diff {
            if backwards {
                return r - t;
            } else {
                return l + t;
            }
        }
        proof {
            lemma_wheel_size_mono(wheel@, k + 1, wheel@.len() as int);
        }
        t = t - (diff + 1);
        k = k + 1;
    }
    proof {
        lemma_wheel_size_mono(wheel@, 0, wheel@.len() as int);
        assert(false);
    }
    0
}

} // verus!
