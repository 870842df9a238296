//! A diagonal-neighbor cellular automaton: a cell flips when it has an even
//! number of active diagonal neighbors. Summing the active-cell counts over
//! a bounded number of rounds is verified here; driving the automaton for an
//! astronomical number of rounds belongs to the cycle detector.

use vstd::prelude::*;
use vstd::string::{StrSliceExecFns, StringSliceAdditionalSpecFns};

use crate::text::{lines_spec, split_lines, trim_bytes, trim_spec};

verus! {

/// A rectangular grid of active flags.
pub open spec fn grid_rect(cv: Seq<Seq<bool>>) -> bool {
    forall|r: int| 0 <= r < cv.len() ==> (#[trigger] cv[r]).len() == cv[0].len()
}

/// How many of the four diagonal neighbors are active.
pub open spec fn diag_count(cv: Seq<Seq<bool>>, r: int, c: int) -> int {
    let h = cv.len() as int;
    let w = cv[0].len() as int;
    (if r + 1 < h && c + 1 < w && cv[r + 1][c + 1] {
        1int
    } else {
        0int
    }) + (if r + 1 < h && c - 1 >= 0 && cv[r + 1][c - 1] {
        1int
    } else {
        0int
    }) + (if r - 1 >= 0 && c + 1 < w && cv[r - 1][c + 1] {
        1int
    } else {
        0int
    }) + (if r - 1 >= 0 && c - 1 >= 0 && cv[r - 1][c - 1] {
        1int
    } else {
        0int
    })
}

/// One cell after a round: flipped exactly when its diagonal count is even.
pub open spec fn next_cell(cv: Seq<Seq<bool>>, r: int, c: int) -> bool {
    if diag_count(cv, r, c) % 2 == 0 {
        !cv[r][c]
    } else {
        cv[r][c]
    }
}

/// The whole grid after one round.
pub open spec fn next_spec(cv: Seq<Seq<bool>>) -> Seq<Seq<bool>> {
    Seq::new(cv.len(), |r: int| Seq::new(cv[0].len(), |c: int| next_cell(cv, r, c)))
}

/// Active cells in the first `c` columns of row `r`.
pub open spec fn row_active(cv: Seq<Seq<bool>>, r: int, c: int) -> int
    decreases c,
{
    if c <= 0 {
        0
    } else {
        row_active(cv, r, c - 1) + (if cv[r][c - 1] {
            1int
        } else {
            0int
        })
    }
}

/// Active cells in the first `r` rows.
pub open spec fn grid_active(cv: Seq<Seq<bool>>, r: int) -> int
    decreases r,
{
    if r <= 0 {
        0
    } else {
        grid_active(cv, r - 1) + row_active(cv, r - 1, cv[r - 1].len() as int)
    }
}

/// The model of the cells.
pub open spec fn bools_view(cells: Vec<Vec<bool>>) -> Seq<Seq<bool>> {
    cells@.map_values(|row: Vec<bool>| row@)
}

/// The parsed grid: `#` is active.
pub fn parse(input: &str) -> (r: Vec<Vec<bool>>)
    ensures
        ({
            let ls = lines_spec(trim_spec(input.spec_bytes()));
            bools_view(r).len() == ls.len() && forall|q: int|
                0 <= q < ls.len() ==> (#[trigger] bools_view(r)[q]).len() == ls[q].len()
                    && forall|c: int|
                    0 <= c < ls[q].len() ==> bools_view(r)[q][c] == (ls[q][c] == 35)
        }),
{
    let bytes = input.as_bytes_vec();
    let trimmed = trim_bytes(&bytes);
    let ls = split_lines(&trimmed);
    let ghost lsv = lines_spec(trim_spec(input.spec_bytes()));
    let mut out: Vec<Vec<bool>> = Vec::new();
    let mut q: usize = 0;
    while q < ls.len()
        invariant
            q <= ls@.len(),
            lsv == lines_spec(trim_spec(input.spec_bytes())),
            ls@.map_values(|l: Vec<u8>| l@) == lsv,
            out@.len() == q,
            forall|k: int|
                0 <= k < q ==> (#[trigger] out@[k]@).len() == lsv[k].len() && forall|c: int|
                    0 <= c < lsv[k].len() ==> out@[k]@[c] == (lsv[k][c] == 35),
        decreases ls@.len() - q,
    {
        proof {
            assert(lsv[q as int] == ls@[q as int]@);
        }
        let line = &ls[q];
        let mut row: Vec<bool> = Vec::new();
        let mut c: usize = 0;
        while c < line.len()
            invariant
                c <= line@.len(),
                row@.len() == c,
                forall|k: int| 0 <= k < c ==> row@[k] == (line@[k] == 35),
            decreases line@.len() - c,
        {
            row.push(line[c] == 35);
            c = c + 1;
        }
        out.push(row);
        q = q + 1;
    }
    proof {
        assert forall|k: int| 0 <= k < lsv.len() implies (#[trigger] bools_view(out)[k]).len()
            == lsv[k].len() && forall|c: int|
            0 <= c < lsv[k].len() ==> bools_view(out)[k][c] == (lsv[k][c] == 35) by {
            assert(bools_view(out)[k] == out@[k]@);
        }
    }
    out
}

/// One round of the automaton.
pub fn next(cells: &Vec<Vec<bool>>) -> (r: Vec<Vec<bool>>)
    requires
        grid_rect(bools_view(*cells)),
    ensures
        bools_view(r) == next_spec(bools_view(*cells)),
{
    let ghost cv = bools_view(*cells);
    let h = cells.len();
    let w = if h > 0 {
        proof {
            assert(cv[0] == cells@[0]@);
        }
        cells[0].len()
    } else {
        0
    };
    let mut out: Vec<Vec<bool>> = Vec::new();
    let mut r: usize = 0;
    while r < h
        invariant
            r <= h,
            cv == bools_view(*cells),
            grid_rect(cv),
            h == cv.len(),
            h > 0 ==> w == cv[0].len(),
            out@.len() == r,
            forall|k: int|
                0 <= k < r ==> (#[trigger] out@[k]@) == Seq::new(
                    cv[0].len(),
                    |c: int| next_cell(cv, k, c),
                ),
        decreases h - r,
    {
        proof {
            assert(cv[r as int] == cells@[r as int]@);
        }
        let mut row: Vec<bool> = Vec::new();
        let mut c: usize = 0;
        while c < w
            invariant
                c <= w,
                r < h,
                cv == bools_view(*cells),
                cv[r as int] == cells@[r as int]@,
                grid_rect(cv),
                h == cv.len(),
                w == cv[0].len(),
                row@.len() == c,
                forall|k: int| 0 <= k < c ==> #[trigger] row@[k] == next_cell(cv, r as int, k),
            decreases w - c,
        {
            let mut diag: u64 = 0;
            if r + 1 < h && c + 1 < w {
                proof {
                    assert(cv[r + 1] == cells@[r + 1]@);
                }
                if cells[r + 1][c + 1] {
                    diag = diag + 1;
                }
            }
            if r + 1 < h && c >= 1 {
                proof {
                    assert(cv[r + 1] == cells@[r + 1]@);
                }
                if cells[r + 1][c - 1] {
                    diag = diag + 1;
                }
            }
            if r >= 1 && c + 1 < w {
                proof {
                    assert(cv[r - 1] == cells@[r - 1]@);
                }
                if cells[r - 1][c + 1] {
                    diag = diag + 1;
                }
            }
            if r >= 1 && c >= 1 {
                proof {
                    assert(cv[r - 1] == cells@[r - 1]@);
                }
                if cells[r - 1][c - 1] {
                    diag = diag + 1;
                }
            }
            proof {
                assert(diag as int == diag_count(cv, r as int, c as int));
            }
            let v = cells[r][c];
            let nv = if diag % 2 == 0 {
                !v
            } else {
                v
            };
            row.push(nv);
            c = c + 1;
        }
        proof {
            assert(row@ =~= Seq::new(cv[0].len(), |k: int| next_cell(cv, r as int, k)));
        }
        out.push(row);
        r = r + 1;
    }
    proof {
        assert(bools_view(out) =~~= next_spec(cv)) by {
            assert forall|k: int| 0 <= k < cv.len() implies bools_view(out)[k] == next_spec(
                cv,
            )[k] by {
                assert(bools_view(out)[k] == out@[k]@);
                assert(next_spec(cv)[k] =~= Seq::new(cv[0].len(), |c: int| next_cell(cv, k, c)));
            }
        }
    }
    out
}

/// How many cells are active.
pub fn value(cells: &Vec<Vec<bool>>) -> (r: u64)
    requires
        bools_view(*cells).len() < 0x1_0000_0000,
        forall|k: int|
            0 <= k < bools_view(*cells).len() ==> (#[trigger] bools_view(*cells)[k]).len()
                < 0x1_0000_0000,
    ensures
        r as int == grid_active(bools_view(*cells), bools_view(*cells).len() as int),
{
    let ghost cv = bools_view(*cells);
    let mut total: u64 = 0;
    let mut r: usize = 0;
    while r < cells.len()
        invariant
            r <= cells@.len(),
            cv == bools_view(*cells),
            cv.len() < 0x1_0000_0000,
            forall|k: int| 0 <= k < cv.len() ==> (#[trigger] cv[k]).len() < 0x1_0000_0000,
            total as int == grid_active(cv, r as int),
            total <= (r as u64) * 0x1_0000_0000,
        decreases cells@.len() - r,
    {
        proof {
            assert(cv[r as int] == cells@[r as int]@);
        }
        let row = &cells[r];
        let mut cnt: u64 = 0;
        let mut c: usize = 0;
        while c < row.len()
            invariant
                c <= row@.len(),
                r < cells@.len(),
                cv == bools_view(*cells),
                row@ == cv[r as int],
                cv[r as int].len() < 0x1_0000_0000,
                cnt as int == row_active(cv, r as int, c as int),
                cnt <= c as u64,
            decreases row@.len() - c,
        {
            if row[c] {
                cnt = cnt + 1;
            }
            c = c + 1;
        }
        total = total + cnt;
        r = r + 1;
    }
    total
}

/// Whether the pattern sits at the centre of the grid.
pub fn center_matches(cells: &Vec<Vec<bool>>, center: &Vec<Vec<bool>>) -> (r: bool)
    requires
        center@.len() <= cells@.len(),
        bools_view(*center).len() > 0 ==> bools_view(*center)[0].len() <= bools_view(
            *cells,
        )[0].len(),
        bools_view(*cells).len() > 0,
        grid_rect(bools_view(*cells)),
        grid_rect(bools_view(*center)),
        bools_view(*center).len() > 0,
        bools_view(*center)[0].len() > 0,
    ensures
        ({
            let cv = bools_view(*cells);
            let pv = bools_view(*center);
            let sr = (cv.len() - pv.len()) / 2;
            let sc = (cv[0].len() - pv[0].len()) / 2;
            r == forall|a: int, b: int|
                0 <= a < pv.len() && 0 <= b < pv[0].len() ==> cv[sr + a][sc + b] == #[trigger] pv[a][b]
        }),
{
    let ghost cv = bools_view(*cells);
    let ghost pv = bools_view(*center);
    proof {
        assert(cv[0] == cells@[0]@);
        assert(pv[0] == center@[0]@);
    }
    let h = cells.len();
    let wexec = cells[0].len();
    let sr = (cells.len() - center.len()) / 2;
    let sc = (cells[0].len() - center[0].len()) / 2;
    let mut a: usize = 0;
    while a < center.len()
        invariant
            a <= center@.len(),
            cv == bools_view(*cells),
            pv == bools_view(*center),
            grid_rect(cv),
            grid_rect(pv),
            cv.len() > 0,
            pv.len() > 0,
            pv[0].len() > 0,
            pv.len() <= cv.len(),
            pv[0].len() <= cv[0].len(),
            sr == (cv.len() - pv.len()) / 2,
            sc == (cv[0].len() - pv[0].len()) / 2,
            h == cv.len(),
            wexec == cv[0].len(),
            forall|x: int, y: int|
                0 <= x < a && 0 <= y < pv[0].len() ==> cv[sr + x][sc + y] == #[trigger] pv[x][y],
        decreases center@.len() - a,
    {
        proof {
            assert(pv[a as int] == center@[a as int]@);
            assert(cv[sr + a] == cells@[sr + a as int]@);
            assert(sr + a < cv.len()) by {
                assert(sr <= cv.len() - pv.len());
            }
        }
        let mut b: usize = 0;
        while b < center[a].len()
            invariant
                b <= pv[a as int].len(),
                a < center@.len(),
                cv == bools_view(*cells),
                pv == bools_view(*center),
                grid_rect(cv),
                grid_rect(pv),
                cv.len() > 0,
                pv.len() > 0,
                pv[0].len() > 0,
                pv.len() <= cv.len(),
                pv[0].len() <= cv[0].len(),
                sr == (cv.len() - pv.len()) / 2,
                sc == (cv[0].len() - pv[0].len()) / 2,
                h == cv.len(),
                wexec == cv[0].len(),
                sr + a < cv.len(),
                pv[a as int] == center@[a as int]@,
                cv[sr + a] == cells@[sr + a as int]@,
                forall|y: int| 0 <= y < b ==> cv[sr + a as int][sc + y] == #[trigger] pv[a as int][y],
            decreases pv[a as int].len() - b,
        {
            proof {
                assert(sc + b < cv[sr + a].len()) by {
                    assert(cv[sr + a].len() == cv[0].len());
                    assert(pv[a as int].len() == pv[0].len());
                    assert(sc <= cv[0].len() - pv[0].len());
                }
            }
            if cells[sr + a][sc + b] != center[a][b] {
                proof {
                    assert(cv[sr + a as int][sc + b as int] != pv[a as int][b as int]);
                }
                return false;
            }
            b = b + 1;
        }
        a = a + 1;
    }
    true
}

/// The grid after `k` rounds.
pub open spec fn iterate(cv: Seq<Seq<bool>>, k: int) -> Seq<Seq<bool>>
    decreases k,
{
    if k <= 0 {
        cv
    } else {
        next_spec(iterate(cv, k - 1))
    }
}

/// The summed active-cell counts of the first `k` rounds.
pub open spec fn sim_sum(cv: Seq<Seq<bool>>, k: int) -> int
    decreases k,
{
    if k <= 0 {
        0
    } else {
        sim_sum(cv, k - 1) + grid_active(iterate(cv, k), iterate(cv, k).len() as int)
    }
}

/// A grid whose dimensions the counting loops can index.
pub open spec fn grid_small(cv: Seq<Seq<bool>>) -> bool {
    cv.len() < 0x1_0000_0000 && forall|k: int|
        0 <= k < cv.len() ==> (#[trigger] cv[k]).len() < 0x1_0000_0000
}

/// Stepping keeps the grid rectangular and its dimensions unchanged.
proof fn lemma_next_keeps_shape(cv: Seq<Seq<bool>>)
    requires
        grid_rect(cv),
    ensures
        grid_rect(next_spec(cv)),
        next_spec(cv).len() == cv.len(),
        cv.len() > 0 ==> next_spec(cv)[0].len() == cv[0].len(),
{
}

proof fn lemma_iterate_keeps_shape(cv: Seq<Seq<bool>>, k: int)
    requires
        grid_rect(cv),
        k >= 0,
    ensures
        grid_rect(iterate(cv, k)),
        iterate(cv, k).len() == cv.len(),
        cv.len() > 0 ==> iterate(cv, k)[0].len() == cv[0].len(),
        grid_small(cv) ==> grid_small(iterate(cv, k)),
    decreases k,
{
    if k > 0 {
        lemma_iterate_keeps_shape(cv, k - 1);
        lemma_next_keeps_shape(iterate(cv, k - 1));
    }
}

proof fn lemma_active_nonneg(cv: Seq<Seq<bool>>, r: int)
    ensures
        grid_active(cv, r) >= 0,
    decreases r,
{
    if r > 0 {
        lemma_active_nonneg(cv, r - 1);
        lemma_row_active_nonneg(cv, r - 1, cv[r - 1].len() as int);
    }
}

proof fn lemma_row_active_nonneg(cv: Seq<Seq<bool>>, r: int, c: int)
    ensures
        row_active(cv, r, c) >= 0,
    decreases c,
{
    if c > 0 {
        lemma_row_active_nonneg(cv, r, c - 1);
    }
}

proof fn lemma_sim_sum_mono(cv: Seq<Seq<bool>>, k1: int, k2: int)
    requires
        0 <= k1 <= k2,
    ensures
        sim_sum(cv, k1) <= sim_sum(cv, k2),
    decreases k2 - k1,
{
    if k1 < k2 {
        lemma_sim_sum_mono(cv, k1, k2 - 1);
        lemma_active_nonneg(iterate(cv, k2), iterate(cv, k2).len() as int);
    }
}

/// Runs the automaton `rounds` times, summing the active count after every
/// round; `None` exactly when that total leaves `u64`.
pub fn simulate(cells: &Vec<Vec<bool>>, rounds: u64) -> (r: Option<u64>)
    requires
        grid_rect(bools_view(*cells)),
        grid_small(bools_view(*cells)),
    ensures
        match r {
            Some(v) => v as int == sim_sum(bools_view(*cells), rounds as int),
            None => sim_sum(bools_view(*cells), rounds as int) > u64::MAX,
        },
{
    let ghost cv = bools_view(*cells);
    let mut grid = next(cells);
    let ghost one = bools_view(grid);
    proof {
        assert(iterate(cv, 0) == cv);
        assert(iterate(cv, 1) == next_spec(cv));
        lemma_iterate_keeps_shape(cv, 1);
        assert(one == iterate(cv, 1));
    }
    let mut total: u64 = 0;
    let mut t: u64 = 0;
    while t < rounds
        invariant
            t <= rounds,
            cv == bools_view(*cells),
            grid_rect(cv),
            grid_small(cv),
            t < rounds ==> bools_view(grid) == iterate(cv, t + 1),
            total as int == sim_sum(cv, t as int),
        decreases rounds - t,
    {
        proof {
            lemma_iterate_keeps_shape(cv, t + 1);
        }
        let v = value(&grid);
        proof {
            assert(v as int == grid_active(iterate(cv, t + 1), iterate(cv, t + 1).len() as int));
            assert(sim_sum(cv, t + 1) == sim_sum(cv, t as int) + v);
        }
        let t2 = match total.checked_add(v) {
            Some(t2) => t2,
            None => {
                proof {
                    lemma_sim_sum_mono(cv, t + 1, rounds as int);
                }
                return None;
            },
        };
        total = t2;
        t = t + 1;
        if t < rounds {
            let ghost cur = bools_view(grid);
            grid = next(&grid);
            proof {
                assert(bools_view(grid) == next_spec(cur));
            }
        }
    }
    Some(total)
}

/// The parsed view of the input lines.
pub open spec fn parsed_spec(ls: Seq<Seq<u8>>) -> Seq<Seq<bool>> {
    Seq::new(ls.len(), |q: int| Seq::new(ls[q].len(), |c: int| ls[q][c] == 35))
}

/// The bounded-round answer: `None` for a ragged or oversized grid, or a
/// total beyond `u64`.
pub open spec fn sim_answer(bytes: Seq<u8>, rounds: int) -> Option<u64> {
    let pv = parsed_spec(lines_spec(trim_spec(bytes)));
    if !grid_rect(pv) || !grid_small(pv) {
        None
    } else if sim_sum(pv, rounds) > u64::MAX {
        None
    } else {
        Some(sim_sum(pv, rounds) as u64)
    }
}

fn solve(input: &str, rounds: u64) -> (r: Option<u64>)
    ensures
        r == sim_answer(input.spec_bytes(), rounds as int),
{
    let cells = parse(input);
    let ghost pv = parsed_spec(lines_spec(trim_spec(input.spec_bytes())));
    proof {
        assert(bools_view(cells) =~~= pv) by {
            let ls = lines_spec(trim_spec(input.spec_bytes()));
            assert forall|q: int| 0 <= q < ls.len() implies bools_view(cells)[q] =~= pv[q] by {
                assert(bools_view(cells)[q].len() == ls[q].len());
            }
        }
    }
    // The verified runner asks for a rectangular, modestly sized grid.
    let h = cells.len();
    let w = if h > 0 {
        proof {
            assert(bools_view(cells)[0] == cells@[0]@);
        }
        cells[0].len()
    } else {
        0
    };
    if (h as u64) >= 0x1_0000_0000u64 || (w as u64) >= 0x1_0000_0000u64 {
        proof {
            if (h as u64) >= 0x1_0000_0000u64 {
                assert(!grid_small(pv));
            } else {
                assert(h > 0);
                assert(pv[0].len() == w as int);
                assert(!grid_small(pv));
            }
        }
        return None;
    }
    let mut q: usize = 0;
    while q < h
        invariant
            q <= h,
            h == cells@.len(),
            (h as u64) < 0x1_0000_0000u64,
            (w as u64) < 0x1_0000_0000u64,
            pv == bools_view(cells),
            pv == parsed_spec(lines_spec(trim_spec(input.spec_bytes()))),
            h > 0 ==> pv[0].len() == w,
            forall|k: int| 0 <= k < q ==> (#[trigger] pv[k]).len() == w,
        decreases h - q,
    {
        proof {
            assert(pv[q as int] == cells@[q as int]@);
        }
        if cells[q].len() != w {
            proof {
                assert(!grid_rect(pv));
            }
            return None;
        }
        q = q + 1;
    }
    proof {
        assert(grid_rect(pv));
        assert(grid_small(pv));
        lemma_sim_sum_mono(pv, 0, rounds as int);
    }
    simulate(&cells, rounds)
}

/// Part one: the summed counts over ten rounds.
pub fn p1(input: &str) -> (r: Option<u64>)
    ensures
        r == sim_answer(input.spec_bytes(), 10),
{
    solve(input, 10)
}

/// Part two: the summed counts over two thousand and twenty-five rounds.
pub fn p2(input: &str) -> (r: Option<u64>)
    ensures
        r == sim_answer(input.spec_bytes(), 2025),
{
    solve(input, 2025)
}

} // verus!
