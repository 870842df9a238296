//! Climbing through walls: each wall sits at a distance and has gap ranges;
//! a climber moving diagonally can pass from a set of reachable heights
//! through a gap in the next wall. The answer is derived from the lowest
//! height still reachable at the last wall.

use vstd::prelude::*;
use vstd::string::{StrSliceExecFns, StringSliceAdditionalSpecFns};

use itertools::Itertools;

use crate::text::{dec_value, is_digit, lines_spec, parse_u64, split_bytes, split_lines, split_spec,
    trim_bytes, trim_spec};

verus! {

/// Coordinates are kept within this bound so that every derived quantity
/// fits comfortably in an `i64`.
pub const COORD_BOUND: i64 = 0x4000_0000;

/// One gap in the input: wall distance, gap start height, gap size.
#[derive(Clone, Copy, PartialEq, Eq, Structural)]
pub struct Opening {
    pub dist: i64,
    pub start: i64,
    pub size: i64,
}

/// An inclusive run of heights, possibly empty (`start > end`).
#[derive(Clone, Copy, PartialEq, Eq, Structural)]
pub struct Range {
    pub start: i64,
    pub end: i64,
}

impl Range {
    /// The inclusive range from `start` to `end`.
    pub fn new(start: i64, end: i64) -> (r: Range)
        ensures
            r.start == start,
            r.end == end,
    {
        Range { start, end }
    }

    /// Whether `y` lies in the range.
    pub open spec fn holds(self, y: int) -> bool {
        self.start <= y <= self.end
    }

    /// Whether no height lies in the range.
    pub fn is_empty(&self) -> (r: bool)
        ensures
            r == (self.start > self.end),
            r == (forall|y: int| !self.holds(y)),
    {
        proof {
            if self.start <= self.end {
                assert(self.holds(self.start as int));
            }
        }
        self.start > self.end
    }

    /// The overlap with `other`: exactly the heights in both.
    pub fn intersection(&self, other: &Range) -> (r: Range)
        ensures
            r.start == if self.start >= other.start {
                self.start
            } else {
                other.start
            },
            r.end == if self.end <= other.end {
                self.end
            } else {
                other.end
            },
            forall|y: int| r.holds(y) <==> self.holds(y) && other.holds(y),
    {
        let s = if self.start >= other.start {
            self.start
        } else {
            other.start
        };
        let e = if self.end <= other.end {
            self.end
        } else {
            other.end
        };
        Range { start: s, end: e }
    }

    /// The range as a standard inclusive iterator over its heights.
    pub fn iter(&self) -> (r: core::ops::RangeInclusive<i64>)
        ensures
            r@.start == self.start,
            r@.end == self.end,
            !r@.exhausted,
    {
        core::ops::RangeInclusive::new(self.start, self.end)
    }

    /// The range widened by `amount` on both ends.
    pub fn expand(&self, amount: i64) -> (r: Range)
        requires
            i64::MIN <= self.start - amount <= i64::MAX,
            i64::MIN <= self.end + amount <= i64::MAX,
        ensures
            r.start == self.start - amount,
            r.end == self.end + amount,
    {
        Range { start: self.start - amount, end: self.end + amount }
    }
}

/// Relies on num's `Integer::is_multiple_of` for `i64`: a zero divisor
/// tests for zero, otherwise plain divisibility.
#[verifier::external_body]
fn is_multiple_of_i64(v: i64, m: i64) -> (r: bool)
    requires
        !(v == i64::MIN && m == -1),
    ensures
        r == if m == 0 {
            v == 0
        } else {
            v % m == 0
        },
{
    num::Integer::is_multiple_of(&v, &m)
}

/// A parsed opening's three numbers lie in `[0, COORD_BOUND]`.
pub open spec fn opening_bounded(op: Opening) -> bool {
    &&& 0 <= op.dist <= COORD_BOUND
    &&& 0 <= op.start <= COORD_BOUND
    &&& 0 <= op.size <= COORD_BOUND
}

/// All coordinates of interest stay small enough that the derived
/// arithmetic fits an `i64` with room to spare.
pub open spec fn small(v: int) -> bool {
    -0x2000_0000_0000 <= v <= 0x2000_0000_0000
}

/// A range with both bounds small.
pub open spec fn range_small(r: Range) -> bool {
    small(r.start as int) && small(r.end as int)
}

/// The candidate condition at height `y` of the next wall: the heights of
/// the current range that can diagonally reach `y` overlap, and the lowest
/// of them can be aligned to the current wall's parity.
pub open spec fn cand_min(cur_range: Range, cur: int, dist: int, y: int) -> bool {
    let s2 = if cur_range.start >= y - dist {
        cur_range.start as int
    } else {
        y - dist
    };
    let e2 = if cur_range.end <= y + dist {
        cur_range.end as int
    } else {
        y + dist
    };
    s2 <= e2 && (if (s2 - cur) % 2 == 0 {
        s2
    } else {
        s2 + 1
    }) <= e2
}

/// As `cand_min`, with the highest reachable height aligned instead.
pub open spec fn cand_max(cur_range: Range, cur: int, dist: int, y: int) -> bool {
    let s2 = if cur_range.start >= y - dist {
        cur_range.start as int
    } else {
        y - dist
    };
    let e2 = if cur_range.end <= y + dist {
        cur_range.end as int
    } else {
        y + dist
    };
    s2 <= e2 && (if (e2 - cur) % 2 == 0 {
        e2
    } else {
        e2 - 1
    }) >= s2
}

/// A landing height must also share parity with the next wall's distance.
pub open spec fn pmin(cur_range: Range, cur: int, next: int, y: int) -> bool {
    (next - y) % 2 == 0 && cand_min(cur_range, cur, next - cur, y)
}

pub open spec fn pmax(cur_range: Range, cur: int, next: int, y: int) -> bool {
    (next - y) % 2 == 0 && cand_max(cur_range, cur, next - cur, y)
}

/// The least `y` in `[lo, hi]` satisfying `pmin` (meaningful when one
/// exists).
pub open spec fn least_pmin(cr: Range, cur: int, next: int, lo: int, hi: int) -> int
    decreases hi - lo,
{
    if lo >= hi {
        hi
    } else if pmin(cr, cur, next, lo) {
        lo
    } else {
        least_pmin(cr, cur, next, lo + 1, hi)
    }
}

/// The greatest `y` in `[lo, hi]` satisfying `pmax` (meaningful when one
/// exists).
pub open spec fn greatest_pmax(cr: Range, cur: int, next: int, lo: int, hi: int) -> int
    decreases hi - lo,
{
    if lo >= hi {
        lo
    } else if pmax(cr, cur, next, hi) {
        hi
    } else {
        greatest_pmax(cr, cur, next, lo, hi - 1)
    }
}

proof fn lemma_least_pmin(cr: Range, cur: int, next: int, lo: int, hi: int, m: int)
    requires
        lo <= m <= hi,
        pmin(cr, cur, next, m),
        forall|y: int| lo <= y < m ==> !#[trigger] pmin(cr, cur, next, y),
    ensures
        least_pmin(cr, cur, next, lo, hi) == m,
    decreases m - lo,
{
    if lo < m {
        lemma_least_pmin(cr, cur, next, lo + 1, hi, m);
    }
}

proof fn lemma_greatest_pmax(cr: Range, cur: int, next: int, lo: int, hi: int, m: int)
    requires
        lo <= m <= hi,
        pmax(cr, cur, next, m),
        forall|y: int| m < y <= hi ==> !#[trigger] pmax(cr, cur, next, y),
    ensures
        greatest_pmax(cr, cur, next, lo, hi) == m,
    decreases hi - m,
{
    if m < hi {
        lemma_greatest_pmax(cr, cur, next, lo, hi - 1, m);
    }
}

/// What `reachable` returns: the least and greatest landing heights inside
/// the opening that a height of `cur_range` can reach, or `None` when there
/// are none.
pub open spec fn reachable_spec(cur_range: Range, opening: Range, cur: int, next: int) -> Option<
    Range,
> {
    let dist = next - cur;
    let lo = if cur_range.start - dist >= opening.start {
        cur_range.start - dist
    } else {
        opening.start as int
    };
    let hi = if cur_range.end + dist <= opening.end {
        cur_range.end + dist
    } else {
        opening.end as int
    };
    if (exists|y: int| lo <= y <= hi && #[trigger] pmin(cur_range, cur, next, y)) && (exists|y: int|
        lo <= y <= hi && #[trigger] pmax(cur_range, cur, next, y)) {
        Some(
            Range {
                start: least_pmin(cur_range, cur, next, lo, hi) as i64,
                end: greatest_pmax(cur_range, cur, next, lo, hi) as i64,
            },
        )
    } else {
        None
    }
}

impl Range {
    /// The landing heights in `opening` (a gap of the wall at `next`)
    /// reachable from this range of heights at the wall at `cur`.
    pub fn reachable(&self, opening: &Range, cur: i64, next: i64) -> (r: Option<Range>)
        requires
            range_small(*self),
            range_small(*opening),
            small(cur as int),
            small(next as int),
        ensures
            r == reachable_spec(*self, *opening, cur as int, next as int),
            r is Some ==> opening.start <= r->0.start <= opening.end && opening.start <= r->0.end
                <= opening.end && self.start - (next - cur) <= r->0.start && r->0.end <= self.end
                + (next - cur),
    {
        let dist = next - cur;
        let lo = if self.start - dist >= opening.start {
            self.start - dist
        } else {
            opening.start
        };
        let hi = if self.end + dist <= opening.end {
            self.end + dist
        } else {
            opening.end
        };

        let mut y = lo;
        let mut found_min = false;
        let mut vmin: i64 = 0;
        while !found_min && y <= hi
            invariant
                lo <= y,
                !found_min ==> forall|y2: int| lo <= y2 < y ==> !#[trigger] pmin(*self, cur as int, next as int, y2),
                found_min ==> lo <= vmin <= hi && pmin(*self, cur as int, next as int, vmin as int) && forall|y2: int|
                    lo <= y2 < vmin ==> !#[trigger] pmin(*self, cur as int, next as int, y2),
                range_small(*self),
                small(cur as int),
                small(next as int),
                lo >= self.start - dist || lo >= -0x2000_0000_0000,
                hi <= self.end + dist || hi <= 0x2000_0000_0000,
                dist == next - cur,
            decreases (if found_min {
                0int
            } else {
                hi - y + 2
            }),
        {
            let ok_parity = is_multiple_of_i64(next - y, 2);
            let s2 = if self.start >= y - dist {
                self.start
            } else {
                y - dist
            };
            let e2 = if self.end <= y + dist {
                self.end
            } else {
                y + dist
            };
            let mut ok = false;
            if ok_parity && s2 <= e2 {
                let aligned = if is_multiple_of_i64(s2 - cur, 2) {
                    s2
                } else {
                    s2 + 1
                };
                if aligned <= e2 {
                    ok = true;
                }
            }
            proof {
                assert(ok == pmin(*self, cur as int, next as int, y as int));
            }
            if ok {
                found_min = true;
                vmin = y;
            } else {
                y = y + 1;
            }
        }
        if !found_min {
            proof {
                if exists|y2: int| lo <= y2 <= hi && #[trigger] pmin(
                    *self,
                    cur as int,
                    next as int,
                    y2,
                ) {
                    let w = choose|y2: int|
                        lo <= y2 <= hi && #[trigger] pmin(*self, cur as int, next as int, y2);
                    assert(!pmin(*self, cur as int, next as int, w));
                }
                assert(reachable_spec(*self, *opening, cur as int, next as int) is None);
            }
            return None;
        }

        let mut z = hi;
        let mut found_max = false;
        let mut vmax: i64 = 0;
        while !found_max && z >= lo
            invariant
                z <= hi,
                !found_max ==> forall|y2: int| z < y2 <= hi ==> !#[trigger] pmax(*self, cur as int, next as int, y2),
                found_max ==> lo <= vmax <= hi && pmax(*self, cur as int, next as int, vmax as int) && forall|y2: int|
                    vmax < y2 <= hi ==> !#[trigger] pmax(*self, cur as int, next as int, y2),
                range_small(*self),
                small(cur as int),
                small(next as int),
                lo >= self.start - dist || lo >= -0x2000_0000_0000,
                hi <= self.end + dist || hi <= 0x2000_0000_0000,
                dist == next - cur,
            decreases (if found_max {
                0int
            } else {
                z - lo + 2
            }),
        {
            let ok_parity = is_multiple_of_i64(next - z, 2);
            let s2 = if self.start >= z - dist {
                self.start
            } else {
                z - dist
            };
            let e2 = if self.end <= z + dist {
                self.end
            } else {
                z + dist
            };
            let mut ok = false;
            if ok_parity && s2 <= e2 {
                let aligned = if is_multiple_of_i64(e2 - cur, 2) {
                    e2
                } else {
                    e2 - 1
                };
                if aligned >= s2 {
                    ok = true;
                }
            }
            proof {
                assert(ok == pmax(*self, cur as int, next as int, z as int));
            }
            if ok {
                found_max = true;
                vmax = z;
            } else {
                z = z - 1;
            }
        }
        if !found_max {
            proof {
                if exists|y2: int| lo <= y2 <= hi && #[trigger] pmax(
                    *self,
                    cur as int,
                    next as int,
                    y2,
                ) {
                    let w = choose|y2: int|
                        lo <= y2 <= hi && #[trigger] pmax(*self, cur as int, next as int, y2);
                    assert(!pmax(*self, cur as int, next as int, w));
                }
                assert(reachable_spec(*self, *opening, cur as int, next as int) is None);
            }
            return None;
        }
        proof {
            lemma_least_pmin(*self, cur as int, next as int, lo as int, hi as int, vmin as int);
            lemma_greatest_pmax(*self, cur as int, next as int, lo as int, hi as int, vmax as int);
            assert(exists|y2: int|
                lo <= y2 <= hi && #[trigger] pmin(*self, cur as int, next as int, y2)) by {
                assert(pmin(*self, cur as int, next as int, vmin as int));
            }
            assert(exists|y2: int|
                lo <= y2 <= hi && #[trigger] pmax(*self, cur as int, next as int, y2)) by {
                assert(pmax(*self, cur as int, next as int, vmax as int));
            }
        }
        Some(Range { start: vmin, end: vmax })
    }
}

/// A wall: its distance and the gaps a climber can pass through.
pub struct Wall {
    pub dist: i64,
    pub gaps: Vec<Range>,
}

/// The model of one wall.
pub open spec fn wall_view(w: Wall) -> (i64, Seq<Range>) {
    (w.dist, w.gaps@)
}

/// How `Wall::layout` folds openings into walls: a gap on the distance of
/// the last wall joins it, anything else opens a new wall.
pub open spec fn layout_spec(ops: Seq<Opening>) -> Seq<(i64, Seq<Range>)>
    decreases ops.len(),
{
    if ops.len() == 0 {
        Seq::empty()
    } else {
        let prev = layout_spec(ops.drop_last());
        let op = ops.last();
        let gap = Range { start: op.start, end: (op.start + op.size - 1) as i64 };
        if prev.len() > 0 && prev.last().0 == op.dist {
            prev.update(prev.len() - 1, (op.dist, prev.last().1.push(gap)))
        } else {
            prev.push((op.dist, seq![gap]))
        }
    }
}

/// Openings within the input bound yield walls whose distances and gap
/// ends stay small.
proof fn lemma_layout_bounds(ops: Seq<Opening>)
    requires
        forall|i: int|
            0 <= i < ops.len() ==> 0 <= #[trigger] ops[i].dist <= COORD_BOUND && 0 <= ops[i].start
                <= COORD_BOUND && 0 <= ops[i].size <= COORD_BOUND,
    ensures
        forall|k: int| 0 <= k < layout_spec(ops).len() ==> small(#[trigger] layout_spec(ops)[k].0 as int),
        forall|k: int, g: int|
            0 <= k < layout_spec(ops).len() && 0 <= g < layout_spec(ops)[k].1.len() ==> range_small(
                #[trigger] layout_spec(ops)[k].1[g],
            ),
    decreases ops.len(),
{
    if ops.len() > 0 {
        lemma_layout_bounds(ops.drop_last());
        let prev = layout_spec(ops.drop_last());
        let cur = layout_spec(ops);
        let op = ops.last();
        assert(0 <= op.dist <= COORD_BOUND && 0 <= op.start <= COORD_BOUND && 0 <= op.size
            <= COORD_BOUND);
        let gap = Range { start: op.start, end: (op.start + op.size - 1) as i64 };
        assert(range_small(gap));
        assert forall|k: int| 0 <= k < cur.len() implies small(#[trigger] cur[k].0 as int) by {
            if !(prev.len() > 0 && prev.last().0 == op.dist) && k == cur.len() - 1 {
                assert(cur[k].0 == op.dist);
            } else if k < prev.len() {
                assert(small(prev[k].0 as int));
            }
        }
        assert forall|k: int, g: int|
            0 <= k < cur.len() && 0 <= g < cur[k].1.len() implies range_small(
            #[trigger] cur[k].1[g],
        ) by {
            if prev.len() > 0 && prev.last().0 == op.dist {
                if k < prev.len() - 1 {
                    assert(cur[k].1[g] == prev[k].1[g]);
                    assert(range_small(prev[k].1[g]));
                } else {
                    if g < prev.last().1.len() {
                        assert(cur[k].1[g] == prev[k].1[g]);
                        assert(range_small(prev[k].1[g]));
                    } else {
                        assert(cur[k].1[g] == gap);
                    }
                }
            } else {
                if k < prev.len() {
                    assert(cur[k].1[g] == prev[k].1[g]);
                    assert(range_small(prev[k].1[g]));
                } else {
                    assert(cur[k].1[g] == gap);
                }
            }
        }
    }
}

impl Wall {
    /// A wall with a single gap.
    pub fn new(dist: i64, gap: Range) -> (r: Wall)
        ensures
            r.dist == dist,
            r.gaps@ == seq![gap],
    {
        let mut gaps: Vec<Range> = Vec::new();
        gaps.push(gap);
        proof {
            assert(gaps@ =~= seq![gap]);
        }
        Wall { dist, gaps }
    }

    /// Folds the distance-sorted openings into walls, merging the gaps that
    /// share a distance.
    pub fn layout(openings: Vec<Opening>) -> (r: Vec<Wall>)
        requires
            forall|i: int|
                0 <= i < openings@.len() ==> small(#[trigger] openings@[i].start as int) && small(
                    openings@[i].size as int,
                ),
        ensures
            r@.map_values(|w: Wall| wall_view(w)) == layout_spec(openings@),
    {
        let mut acc: Vec<Wall> = Vec::new();
        let mut i: usize = 0;
        proof {
            assert(acc@.map_values(|w: Wall| wall_view(w)) =~= layout_spec(openings@.take(0)));
        }
        while i < openings.len()
            invariant
                i <= openings@.len(),
                forall|k: int|
                    0 <= k < openings@.len() ==> small(#[trigger] openings@[k].start as int)
                        && small(openings@[k].size as int),
                acc@.map_values(|w: Wall| wall_view(w)) == layout_spec(openings@.take(i as int)),
            decreases openings@.len() - i,
        {
            let op = openings[i];
            let gap = Range::new(op.start, op.start + op.size - 1);
            let ghost pre = openings@.take(i as int);
            proof {
                assert(openings@.take(i + 1).drop_last() =~= pre);
                assert(openings@.take(i + 1).last() == openings@[i as int]);
            }
            let n = acc.len();
            let mut extend = false;
            if n > 0 {
                if acc[n - 1].dist == op.dist {
                    extend = true;
                }
            }
            if extend {
                let mut last = match acc.pop() {
                    Some(w) => w,
                    None => Wall::new(op.dist, gap),
                };
                last.gaps.push(gap);
                acc.push(last);
                proof {
                    assert(acc@.map_values(|w: Wall| wall_view(w)) =~= layout_spec(
                        openings@.take(i + 1),
                    ));
                }
            } else {
                acc.push(Wall::new(op.dist, gap));
                proof {
                    assert(acc@.map_values(|w: Wall| wall_view(w)) =~= layout_spec(
                        openings@.take(i + 1),
                    ));
                }
            }
            i = i + 1;
        }
        proof {
            assert(openings@.take(openings@.len() as int) =~= openings@);
        }
        acc
    }
}

/// Merging a new range into an ascending, gap-merged accumulator: it joins
/// the last range when adjacent or overlapping, otherwise stands alone.
pub open spec fn merge_push(acc: Seq<Range>, nr: Range) -> Seq<Range> {
    if acc.len() > 0 && nr.start <= acc.last().end + 1 {
        acc.update(
            acc.len() - 1,
            Range {
                start: acc.last().start,
                end: if acc.last().end >= nr.end {
                    acc.last().end
                } else {
                    nr.end
                },
            },
        )
    } else {
        acc.push(nr)
    }
}

/// The fold over all (current range, gap) pairs that produces the next set
/// of reachable ranges.
pub open spec fn next_ranges_spec(
    pairs: Seq<(Range, Range)>,
    cur: int,
    next: int,
) -> Seq<Range>
    decreases pairs.len(),
{
    if pairs.len() == 0 {
        Seq::empty()
    } else {
        let prev = next_ranges_spec(pairs.drop_last(), cur, next);
        match reachable_spec(pairs.last().0, pairs.last().1, cur, next) {
            Some(nr) => merge_push(prev, nr),
            None => prev,
        }
    }
}

/// Relies on `Itertools::cartesian_product`: all pairs, in row-major order.
#[verifier::external_body]
fn range_pairs(a: &Vec<Range>, b: &Vec<Range>) -> (r: Vec<(Range, Range)>)
    ensures
        r@.len() == a@.len() * b@.len(),
        forall|i: int, j: int|
            0 <= i < a@.len() && 0 <= j < b@.len() ==> #[trigger] r@[i * b@.len() + j] == (
            a@[i],
            b@[j],
            ),
{
    a.iter().cartesian_product(b.iter()).map(|(x, y)| (*x, *y)).collect()
}

/// The heights reachable at the wall most recently crossed.
pub struct Reachables {
    pub cur: i64,
    pub ranges: Vec<Range>,
}

/// All ranges are within the opening bounds.
pub open spec fn ranges_small(rs: Seq<Range>) -> bool {
    forall|i: int| 0 <= i < rs.len() ==> range_small(#[trigger] rs[i])
}

impl Reachables {
    /// The climber starts on the ground: height zero at distance zero.
    pub fn new() -> (r: Reachables)
        ensures
            r.cur == 0,
            r.ranges@ == seq![Range { start: 0, end: 0 }],
    {
        let mut ranges: Vec<Range> = Vec::new();
        ranges.push(Range::new(0, 0));
        proof {
            assert(ranges@ =~= seq![Range { start: 0i64, end: 0i64 }]);
        }
        Reachables { cur: 0, ranges }
    }

    /// The reachable heights after crossing `wall`: for every current range
    /// and every gap, the reachable landing heights, merged in order.
    pub fn next(&self, wall: &Wall) -> (r: Reachables)
        requires
            ranges_small(self.ranges@),
            ranges_small(wall.gaps@),
            small(self.cur as int),
            small(wall.dist as int),
        ensures
            r.cur == wall.dist,
            ({
                let pairs = Seq::new(
                    self.ranges@.len() * wall.gaps@.len(),
                    |k: int|
                        (
                            self.ranges@[k / (wall.gaps@.len() as int)],
                            wall.gaps@[k % (wall.gaps@.len() as int)],
                        ),
                );
                r.ranges@ == next_ranges_spec(pairs, self.cur as int, wall.dist as int)
            }),
            ranges_small(r.ranges@),
    {
        let pairs = range_pairs(&self.ranges, &wall.gaps);
        let ghost pseq = Seq::new(
            self.ranges@.len() * wall.gaps@.len(),
            |k: int|
                (
                    self.ranges@[k / (wall.gaps@.len() as int)],
                    wall.gaps@[k % (wall.gaps@.len() as int)],
                ),
        );
        proof {
            assert(pairs@ =~= pseq) by {
                assert forall|k: int| 0 <= k < pseq.len() implies pairs@[k] == pseq[k] by {
                    let bl = wall.gaps@.len() as int;
                    let i = k / bl;
                    let j = k % bl;
                    vstd::arithmetic::div_mod::lemma_fundamental_div_mod(k, bl);
                    assert(0 <= i < self.ranges@.len()) by (nonlinear_arith)
                        requires
                            k == bl * (k / bl) + k % bl,
                            0 <= k < self.ranges@.len() * bl,
                            bl > 0,
                            i == k / bl,
                            0 <= k % bl < bl,
                    ;
                    assert(pairs@[i * bl + j] == (self.ranges@[i], wall.gaps@[j]));
                    assert(i * bl + j == k) by (nonlinear_arith)
                        requires
                            k == bl * (k / bl) + k % bl,
                            i == k / bl,
                            j == k % bl,
                    ;
                }
            }
        }
        let mut acc: Vec<Range> = Vec::new();
        let mut k: usize = 0;
        proof {
            assert(acc@ =~= next_ranges_spec(pairs@.take(0), self.cur as int, wall.dist as int));
            assert forall|t: int| 0 <= t < pairs@.len() implies range_small(
                #[trigger] pairs@[t].0,
            ) && range_small(pairs@[t].1) by {
                let bl = wall.gaps@.len() as int;
                assert(bl > 0) by (nonlinear_arith)
                    requires
                        0 <= t < self.ranges@.len() * bl,
                        bl >= 0,
                ;
                vstd::arithmetic::div_mod::lemma_fundamental_div_mod(t, bl);
                assert(0 <= t / bl < self.ranges@.len() && 0 <= t % bl < bl) by (nonlinear_arith)
                    requires
                        t == bl * (t / bl) + t % bl,
                        0 <= t < self.ranges@.len() * bl,
                        bl > 0,
                        0 <= t % bl < bl,
                ;
            }
        }
        while k < pairs.len()
            invariant
                k <= pairs@.len(),
                acc@ == next_ranges_spec(
                    pairs@.take(k as int),
                    self.cur as int,
                    wall.dist as int,
                ),
                forall|i: int|
                    0 <= i < pairs@.len() ==> range_small(#[trigger] pairs@[i].0) && range_small(
                        pairs@[i].1,
                    ),
                small(self.cur as int),
                small(wall.dist as int),
                ranges_small(acc@),
            decreases pairs@.len() - k,
        {
            let (pr, gap) = pairs[k];
            proof {
                assert(pairs@.take(k + 1).drop_last() =~= pairs@.take(k as int));
                assert(pairs@.take(k + 1).last() == pairs@[k as int]);
            }
            match pr.reachable(&gap, self.cur, wall.dist) {
                Some(nr) => {
                    let n = acc.len();
                    let mut join = false;
                    if n > 0 {
                        if nr.start <= acc[n - 1].end + 1 {
                            join = true;
                        }
                    }
                    if join {
                        let mut last = match acc.pop() {
                            Some(rg) => rg,
                            None => nr,
                        };
                        if nr.end > last.end {
                            last.end = nr.end;
                        }
                        acc.push(last);
                        proof {
                            assert(acc@ =~= merge_push(
                                next_ranges_spec(
                                    pairs@.take(k as int),
                                    self.cur as int,
                                    wall.dist as int,
                                ),
                                nr,
                            ));
                        }
                    } else {
                        acc.push(nr);
                        proof {
                            assert(acc@ =~= merge_push(
                                next_ranges_spec(
                                    pairs@.take(k as int),
                                    self.cur as int,
                                    wall.dist as int,
                                ),
                                nr,
                            ));
                        }
                    }
                },
                None => {},
            }
            k = k + 1;
        }
        proof {
            assert(pairs@.take(pairs@.len() as int) =~= pairs@);
        }
        Reachables { cur: wall.dist, ranges: acc }
    }

    /// The answer: half the sum of the final wall distance and the lowest
    /// reachable height.
    pub fn solution(&self) -> (r: i64)
        requires
            self.ranges@.len() > 0,
            0 <= self.cur,
            small(self.cur as int),
            0 <= self.ranges@[0].start,
            small(self.ranges@[0].start as int),
        ensures
            r as int == (self.cur + self.ranges@[0].start as int) / 2,
    {
        let sum = (self.cur + self.ranges[0].start) as u64;
        (sum / 2) as i64
    }
}

/// One parsed line `dist,start,size`, each a decimal within the coordinate
/// bound.
pub open spec fn parse_opening_spec(line: Seq<u8>) -> Option<Opening> {
    let fields = split_spec(line, 44);
    if fields.len() != 3 {
        None
    } else if exists|f: int, j: int|
        0 <= f < 3 && 0 <= j < fields[f].len() && !is_digit(#[trigger] fields[f][j]) {
        None
    } else if fields[0].len() == 0 || fields[1].len() == 0 || fields[2].len() == 0 {
        None
    } else if dec_value(fields[0]) > COORD_BOUND || dec_value(fields[1]) > COORD_BOUND
        || dec_value(fields[2]) > COORD_BOUND {
        None
    } else {
        Some(
            Opening {
                dist: dec_value(fields[0]) as i64,
                start: dec_value(fields[1]) as i64,
                size: dec_value(fields[2]) as i64,
            },
        )
    }
}

/// Every line of the input parses.
pub open spec fn all_lines_ok(ls: Seq<Seq<u8>>) -> bool {
    forall|i: int| 0 <= i < ls.len() ==> (#[trigger] parse_opening_spec(ls[i])) is Some
}

proof fn lemma_bad_line_means_none(bytes: Seq<u8>)
    requires
        !all_lines_ok(lines_spec(trim_spec(bytes))),
    ensures
        parse_spec(bytes) is None,
{
}

/// All lines parsed, or `None` if any line is malformed.
pub open spec fn parse_spec(bytes: Seq<u8>) -> Option<Seq<Opening>> {
    let ls = lines_spec(trim_spec(bytes));
    if all_lines_ok(ls) {
        Some(Seq::new(ls.len(), |i: int| parse_opening_spec(ls[i])->0))
    } else {
        None
    }
}

fn parse_opening(line: &Vec<u8>) -> (r: Option<Opening>)
    ensures
        r == parse_opening_spec(line@),
{
    let fields = split_bytes(line, 44);
    proof {
        assert(fields@.map_values(|f: Vec<u8>| f@).len() == fields@.len());
    }
    if fields.len() != 3 {
        return None;
    }
    proof {
        assert(fields@.map_values(|f: Vec<u8>| f@)[0] == fields@[0]@);
        assert(fields@.map_values(|f: Vec<u8>| f@)[1] == fields@[1]@);
        assert(fields@.map_values(|f: Vec<u8>| f@)[2] == fields@[2]@);
    }
    let d0 = parse_u64(&fields[0]);
    let d1 = parse_u64(&fields[1]);
    let d2 = parse_u64(&fields[2]);
    match (d0, d1, d2) {
        (Some(a), Some(b), Some(c)) => {
            if a > COORD_BOUND as u64 || b > COORD_BOUND as u64 || c > COORD_BOUND as u64 {
                proof {
                    crate::text::lemma_dec_nonneg_pub(fields@[0]@);
                    crate::text::lemma_dec_nonneg_pub(fields@[1]@);
                    crate::text::lemma_dec_nonneg_pub(fields@[2]@);
                }
                None
            } else {
                Some(Opening { dist: a as i64, start: b as i64, size: c as i64 })
            }
        },
        _ => {
            proof {
                let sf = split_spec(line@, 44);
                if d0 is None {
                    assert(sf[0].len() == 0 || (exists|j: int|
                        0 <= j < sf[0].len() && !is_digit(#[trigger] sf[0][j])) || dec_value(sf[0])
                        > u64::MAX);
                }
            }
            None
        },
    }
}

/// The parsed openings of the whole input.
pub fn parse(input: &str) -> (r: Option<Vec<Opening>>)
    ensures
        match r {
            Some(ops) => parse_spec(input.spec_bytes()) == Some(ops@),
            None => parse_spec(input.spec_bytes()) is None,
        },
{
    let bytes = input.as_bytes_vec();
    let trimmed = trim_bytes(&bytes);
    let ls = split_lines(&trimmed);
    let ghost lss = lines_spec(trim_spec(input.spec_bytes()));
    let mut ops: Vec<Opening> = Vec::new();
    let mut i: usize = 0;
    while i < ls.len()
        invariant
            i <= ls@.len(),
            lss == lines_spec(trim_spec(input.spec_bytes())),
            ls@.map_values(|f: Vec<u8>| f@) == lss,
            ops@.len() == i,
            forall|k: int|
                0 <= k < i ==> (#[trigger] parse_opening_spec(lss[k])) is Some && ops@[k]
                    == parse_opening_spec(lss[k])->0,
        decreases ls@.len() - i,
    {
        proof {
            assert(ls@.map_values(|f: Vec<u8>| f@)[i as int] == ls@[i as int]@);
        }
        match parse_opening(&ls[i]) {
            Some(op) => {
                ops.push(op);
            },
            None => {
                proof {
                    assert(lss.len() == ls@.map_values(|f: Vec<u8>| f@).len());
                    assert(0 <= i < lss.len());
                    assert(parse_opening_spec(lss[i as int]) is None);
                    assert(!all_lines_ok(lss));
                    lemma_bad_line_means_none(input.spec_bytes());
                }
                return None;
            },
        }
        i = i + 1;
    }
    proof {
        assert(ops@ =~= Seq::new(lss.len(), |k: int| parse_opening_spec(lss[k])->0));
    }
    Some(ops)
}

/// The state after folding every wall, walked from the starting point.
pub open spec fn walk_spec(ops: Seq<Opening>) -> (i64, Seq<Range>) {
    walk_to(layout_spec(ops), layout_spec(ops).len() as int)
}

/// The reachable state after the first `n` walls.
pub open spec fn walk_to(walls: Seq<(i64, Seq<Range>)>, n: int) -> (i64, Seq<Range>)
    decreases n,
{
    if n <= 0 {
        (0, seq![Range { start: 0, end: 0 }])
    } else {
        let prev = walk_to(walls, n - 1);
        let wall = walls[n - 1];
        let pairs = Seq::new(
            prev.1.len() * wall.1.len(),
            |k: int| (prev.1[k / (wall.1.len() as int)], wall.1[k % (wall.1.len() as int)]),
        );
        (wall.0, next_ranges_spec(pairs, prev.0 as int, wall.0 as int))
    }
}

/// The whole solve: `None` for malformed input or when nothing is
/// reachable, otherwise half the sum of the last wall's distance and the
/// lowest reachable height.
pub open spec fn answer_spec(bytes: Seq<u8>) -> Option<i64> {
    match parse_spec(bytes) {
        None => None,
        Some(ops) => {
            let fin = walk_spec(ops);
            if fin.1.len() == 0 || fin.0 < 0 || fin.1[0].start < 0 {
                None
            } else {
                Some(((fin.0 + fin.1[0].start) / 2) as i64)
            }
        },
    }
}

/// Part one: walk every wall and read off the answer.
pub fn p1(input: &str) -> (r: Option<i64>)
    ensures
        r == answer_spec(input.spec_bytes()),
{
    let ops = match parse(input) {
        Some(ops) => ops,
        None => {
            return None;
        },
    };
    proof {
        let lss = lines_spec(trim_spec(input.spec_bytes()));
        assert(all_lines_ok(lss));
        assert(ops@.len() == lss.len());
        assert forall|k: int| 0 <= k < ops@.len() implies opening_bounded(#[trigger] ops@[k]) by {
            assert(parse_opening_spec(lss[k]) is Some);
            assert(ops@[k] == parse_opening_spec(lss[k])->0);
            let fields = split_spec(lss[k], 44);
            assert(forall|j: int| 0 <= j < fields[0].len() ==> is_digit(#[trigger] fields[0][j]));
            assert(forall|j: int| 0 <= j < fields[1].len() ==> is_digit(#[trigger] fields[1][j]));
            assert(forall|j: int| 0 <= j < fields[2].len() ==> is_digit(#[trigger] fields[2][j]));
            crate::text::lemma_dec_nonneg_pub(fields[0]);
            crate::text::lemma_dec_nonneg_pub(fields[1]);
            crate::text::lemma_dec_nonneg_pub(fields[2]);
        }
        assert(forall|k: int|
            0 <= k < ops@.len() ==> 0 <= #[trigger] ops@[k].dist <= COORD_BOUND && 0
                <= ops@[k].start <= COORD_BOUND && 0 <= ops@[k].size <= COORD_BOUND);
        assert(forall|k: int|
            0 <= k < ops@.len() ==> small(#[trigger] ops@[k].start as int) && small(
                ops@[k].size as int,
            ));
        lemma_layout_bounds(ops@);
    }
    let walls = Wall::layout(ops);
    let ghost wallviews = layout_spec(ops@);
    let mut state = Reachables::new();
    let mut i: usize = 0;
    proof {
        assert((state.cur, state.ranges@) == walk_to(wallviews, 0));
        assert(ranges_small(state.ranges@));
    }
    while i < walls.len()
        invariant
            i <= walls@.len(),
            wallviews == layout_spec(ops@),
            walls@.map_values(|w: Wall| wall_view(w)) == wallviews,
            (state.cur, state.ranges@) == walk_to(wallviews, i as int),
            ranges_small(state.ranges@),
            small(state.cur as int),
            forall|k: int, g: int|
                0 <= k < wallviews.len() && 0 <= g < wallviews[k].1.len() ==> range_small(
                    #[trigger] wallviews[k].1[g],
                ),
            forall|k: int| 0 <= k < wallviews.len() ==> small(#[trigger] wallviews[k].0 as int),
        decreases walls@.len() - i,
    {
        proof {
            assert(walls@.map_values(|w: Wall| wall_view(w))[i as int] == wall_view(
                walls@[i as int],
            ));
            assert(wall_view(walls@[i as int]) == wallviews[i as int]);
            assert(walls@[i as int].dist == wallviews[i as int].0);
            assert forall|g: int| 0 <= g < walls@[i as int].gaps@.len() implies range_small(
                #[trigger] walls@[i as int].gaps@[g],
            ) by {
                assert(walls@[i as int].gaps@[g] == wallviews[i as int].1[g]);
                assert(range_small(wallviews[i as int].1[g]));
            }
            assert(ranges_small(walls@[i as int].gaps@));
            assert(small(walls@[i as int].dist as int));
        }
        let prev = state;
        state = prev.next(&walls[i]);
        i = i + 1;
    }
    if state.ranges.len() == 0 {
        return None;
    }
    if state.cur < 0 || state.ranges[0].start < 0 {
        return None;
    }
    Some(state.solution())
}

/// Part two: the same walk.
pub fn p2(input: &str) -> (r: Option<i64>)
    ensures
        r == answer_spec(input.spec_bytes()),
{
    p1(input)
}

/// Part three: the same walk.
pub fn p3(input: &str) -> (r: Option<i64>)
    ensures
        r == answer_spec(input.spec_bytes()),
{
    p1(input)
}

} // verus!
