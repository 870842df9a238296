//! Fishbone numbers: values fall one by one into segments with a middle
//! slot and two side hooks, new segments opening whenever a value fits
//! nowhere.

use vstd::prelude::*;

verus! {

/// One segment: a middle value, and hooks for one smaller and one larger
/// value.
#[derive(Clone, Copy, PartialEq, Eq)]
pub struct Segment {
    pub left: Option<u64>,
    pub middle: u64,
    pub right: Option<u64>,
}

/// Whether `value` can hook onto this segment.
pub open spec fn placeable(seg: Segment, value: u64) -> bool {
    ||| (value < seg.middle && seg.left is None)
    ||| (value > seg.middle && seg.right is None)
}

/// The segment after `value` hooks on.
pub open spec fn placed(seg: Segment, value: u64) -> Segment {
    if value < seg.middle {
        Segment { left: Some(value), middle: seg.middle, right: seg.right }
    } else {
        Segment { left: seg.left, middle: seg.middle, right: Some(value) }
    }
}

/// The three-digit-style reading of a segment.
pub open spec fn number_spec(seg: Segment) -> int {
    match (seg.left, seg.right) {
        (Some(l), Some(r)) => l * 100 + seg.middle * 10 + r,
        (None, Some(r)) => seg.middle * 10 + r,
        (Some(l), None) => l * 10 + seg.middle,
        (None, None) => seg.middle as int,
    }
}

impl Segment {
    /// A fresh segment holding one value.
    pub fn new(value: u64) -> (r: Segment)
        ensures
            r.left is None,
            r.middle == value,
            r.right is None,
    {
        Segment { left: None, middle: value, right: None }
    }

    /// The segment's reading.
    pub fn number(&self) -> (r: u64)
        requires
            number_spec(*self) <= u64::MAX,
        ensures
            r as int == number_spec(*self),
    {
        match (self.left, self.right) {
            (Some(l), Some(r)) => l * 100 + self.middle * 10 + r,
            (None, Some(r)) => self.middle * 10 + r,
            (Some(l), None) => l * 10 + self.middle,
            (None, None) => self.middle,
        }
    }

    /// Hooks `value` on when a matching side is open; reports whether it
    /// was placed.
    pub fn try_place(&mut self, value: u64) -> (r: bool)
        ensures
            r == placeable(*old(self), value),
            r ==> *final(self) == placed(*old(self), value),
            !r ==> *final(self) == *old(self),
    {
        if value < self.middle {
            match self.left {
                Some(_) => false,
                None => {
                    self.left = Some(value);
                    true
                },
            }
        } else if value > self.middle {
            match self.right {
                Some(_) => false,
                None => {
                    self.right = Some(value);
                    true
                },
            }
        } else {
            false
        }
    }
}

/// The first segment index at or after `i` where `value` fits.
pub open spec fn first_fit(nodes: Seq<Segment>, value: u64, i: int) -> int
    decreases nodes.len() - i,
{
    if i < 0 || i >= nodes.len() {
        nodes.len() as int
    } else if placeable(nodes[i], value) {
        i
    } else {
        first_fit(nodes, value, i + 1)
    }
}

/// The segments after one value falls in: it hooks onto the first segment
/// with a matching open side, or opens a new segment at the end.
pub open spec fn insert_spec(nodes: Seq<Segment>, value: u64) -> Seq<Segment> {
    let idx = first_fit(nodes, value, 0);
    if idx < nodes.len() {
        nodes.update(idx, placed(nodes[idx], value))
    } else {
        nodes.push(Segment { left: None, middle: value, right: None })
    }
}

/// The segments after a whole run of values falls in.
pub open spec fn insert_all(nodes: Seq<Segment>, values: Seq<u64>, k: int) -> Seq<Segment>
    decreases k,
{
    if k <= 0 {
        nodes
    } else {
        insert_spec(insert_all(nodes, values, k - 1), values[k - 1])
    }
}

/// The fishbone's quality: its middles read as one number.
pub open spec fn quality_spec(nodes: Seq<Segment>, k: int) -> int
    decreases k,
{
    if k <= 0 {
        0
    } else {
        quality_spec(nodes, k - 1) * 10 + nodes[k - 1].middle
    }
}

proof fn lemma_quality_nonneg(nodes: Seq<Segment>, k: int)
    ensures
        quality_spec(nodes, k) >= 0,
    decreases k,
{
    if k > 0 {
        lemma_quality_nonneg(nodes, k - 1);
    }
}

proof fn lemma_quality_mono(nodes: Seq<Segment>, k1: int, k2: int)
    requires
        0 <= k1 <= k2,
    ensures
        0 <= quality_spec(nodes, k1) <= quality_spec(nodes, k2),
    decreases k2 - k1,
{
    lemma_quality_nonneg(nodes, k1);
    if k1 < k2 {
        lemma_quality_mono(nodes, k1, k2 - 1);
    }
}

/// One fishbone: its id and its segments in order.
pub struct Fishbone {
    pub id: u64,
    pub nodes: Vec<Segment>,
}

impl Fishbone {
    /// Builds a fishbone by dropping each value in turn.
    pub fn new(id: u64, values: &Vec<u64>) -> (r: Fishbone)
        ensures
            r.id == id,
            r.nodes@ == insert_all(Seq::empty(), values@, values@.len() as int),
    {
        let mut fishbone = Fishbone { id, nodes: Vec::new() };
        let mut k: usize = 0;
        while k < values.len()
            invariant
                k <= values@.len(),
                fishbone.id == id,
                fishbone.nodes@ == insert_all(Seq::empty(), values@, k as int),
            decreases values@.len() - k,
        {
            fishbone.insert(values[k]);
            k = k + 1;
        }
        fishbone
    }

    /// Drops one value in.
    pub fn insert(&mut self, value: u64)
        ensures
            final(self).id == old(self).id,
            final(self).nodes@ == insert_spec(old(self).nodes@, value),
    {
        let ghost nodes0 = self.nodes@;
        let mut i: usize = 0;
        while i < self.nodes.len()
            invariant
                i <= self.nodes@.len(),
                nodes0 == old(self).nodes@,
                self.nodes@ == nodes0,
                self.id == old(self).id,
                first_fit(nodes0, value, 0) == first_fit(nodes0, value, i as int),
            decreases self.nodes@.len() - i,
        {
            let mut seg = self.nodes[i];
            if seg.try_place(value) {
                self.nodes.set(i, seg);
                proof {
                    assert(first_fit(nodes0, value, i as int) == i);
                    assert(self.nodes@ =~= insert_spec(nodes0, value));
                }
                return;
            }
            i = i + 1;
        }
        self.nodes.push(Segment::new(value));
        proof {
            assert(first_fit(nodes0, value, nodes0.len() as int) == nodes0.len());
            assert(self.nodes@ =~= insert_spec(nodes0, value));
        }
    }

    /// The readings of every segment, in order.
    pub fn numbers(&self) -> (r: Vec<u64>)
        requires
            forall|i: int|
                0 <= i < self.nodes@.len() ==> number_spec(#[trigger] self.nodes@[i]) <= u64::MAX,
        ensures
            r@.len() == self.nodes@.len(),
            forall|i: int| 0 <= i < r@.len() ==> #[trigger] r@[i] as int == number_spec(
                self.nodes@[i],
            ),
    {
        let mut r: Vec<u64> = Vec::new();
        let mut i: usize = 0;
        while i < self.nodes.len()
            invariant
                i <= self.nodes@.len(),
                forall|j: int|
                    0 <= j < self.nodes@.len() ==> number_spec(#[trigger] self.nodes@[j])
                        <= u64::MAX,
                r@.len() == i,
                forall|j: int| 0 <= j < i ==> #[trigger] r@[j] as int == number_spec(
                    self.nodes@[j],
                ),
            decreases self.nodes@.len() - i,
        {
            let seg = self.nodes[i];
            r.push(seg.number());
            i = i + 1;
        }
        r
    }

    /// The middles read as one number.
    pub fn quality(&self) -> (r: u64)
        requires
            quality_spec(self.nodes@, self.nodes@.len() as int) <= u64::MAX,
        ensures
            r as int == quality_spec(self.nodes@, self.nodes@.len() as int),
    {
        let mut acc: u64 = 0;
        let mut i: usize = 0;
        while i < self.nodes.len()
            invariant
                i <= self.nodes@.len(),
                quality_spec(self.nodes@, self.nodes@.len() as int) <= u64::MAX,
                acc as int == quality_spec(self.nodes@, i as int),
            decreases self.nodes@.len() - i,
        {
            proof {
                lemma_quality_mono(self.nodes@, i + 1, self.nodes@.len() as int);
                lemma_quality_mono(self.nodes@, 0, i as int);
            }
            acc = acc * 10 + self.nodes[i].middle;
            i = i + 1;
        }
        acc
    }
}

} // verus!
