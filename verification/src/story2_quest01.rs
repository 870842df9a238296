//! Token drops on a bumper board: a token starts above a slot, each move
//! nudges it left or right, and it falls to the next bumper. Part one
//! scores paired starts and move strings, part two takes each move
//! string's best start, and part three assigns move strings to starts to
//! minimise and maximise the total, evaluated with the memoized engine.

use vstd::prelude::*;
use vstd::string::{StrSliceExecFns, StringSliceAdditionalSpecFns};

use crate::search::{eval, eval_fold, eval_wf, evaluate, EvalGraph};
use crate::text::{ascii_chars, ascii_string, dec_str, dec_digits, lines_spec, split_lines, trim_bytes,
    trim_spec};

verus! {

/// Whether every byte is an `R` or an `L`.
pub open spec fn moves_ok(mv: Seq<u8>) -> bool {
    forall|j: int| 0 <= j < mv.len() ==> mv[j] == 82 || #[trigger] mv[j] == 76
}

/// A rectangular bumper grid at least two columns wide.
pub open spec fn grid_ok(grid: Seq<Seq<u8>>) -> bool {
    grid.len() > 0 && grid[0].len() >= 2 && forall|r: int|
        0 <= r < grid.len() ==> (#[trigger] grid[r]).len() == grid[0].len()
}

/// Falling: the row of the next bumper at or below `row` in this column.
pub open spec fn drop_row(grid: Seq<Seq<u8>>, row: int, col: int) -> int
    decreases grid.len() - row,
{
    if row >= grid.len() || row < 0 {
        row
    } else if grid[row][col] == 42 {
        row
    } else {
        drop_row(grid, row + 1, col)
    }
}

/// The position after the first `i` moves.
pub open spec fn run_moves(grid: Seq<Seq<u8>>, mv: Seq<u8>, start: int, i: int) -> (int, int)
    decreases i,
{
    if i <= 0 {
        (0, start)
    } else {
        let prev = run_moves(grid, mv, start, i - 1);
        if prev.0 >= grid.len() {
            prev
        } else {
            let w = grid[0].len() as int;
            let col = if mv[i - 1] == 82 {
                if prev.1 == w - 1 {
                    prev.1 - 1
                } else {
                    prev.1 + 1
                }
            } else {
                if prev.1 == 0 {
                    prev.1 + 1
                } else {
                    prev.1 - 1
                }
            };
            (drop_row(grid, prev.0, col), col)
        }
    }
}

/// The score of one start and one move string.
pub open spec fn score_spec(grid: Seq<Seq<u8>>, mv: Seq<u8>, start: int) -> int {
    let fin = run_moves(grid, mv, start, mv.len() as int);
    let won = (fin.1 / 2 + 1) * 2;
    let cost = start / 2 + 1;
    if won >= cost {
        won - cost
    } else {
        0
    }
}

proof fn lemma_run_moves_bounds(grid: Seq<Seq<u8>>, mv: Seq<u8>, start: int, i: int)
    requires
        grid_ok(grid),
        0 <= start < grid[0].len(),
        0 <= i <= mv.len(),
        moves_ok(mv),
    ensures
        0 <= run_moves(grid, mv, start, i).1 < grid[0].len(),
        0 <= run_moves(grid, mv, start, i).0 <= grid.len(),
    decreases i,
{
    if i > 0 {
        lemma_run_moves_bounds(grid, mv, start, i - 1);
        let prev = run_moves(grid, mv, start, i - 1);
        if prev.0 < grid.len() {
            lemma_drop_row_bounds(grid, prev.0, run_moves(grid, mv, start, i).1);
        }
    }
}

proof fn lemma_drop_row_bounds(grid: Seq<Seq<u8>>, row: int, col: int)
    requires
        0 <= row,
    ensures
        row <= drop_row(grid, row, col) <= (if row <= grid.len() {
            grid.len() as int
        } else {
            row
        }),
    decreases grid.len() - row,
{
    if row < grid.len() && grid[row][col] != 42 {
        lemma_drop_row_bounds(grid, row + 1, col);
    }
}

/// The score of one start position against one move string.
pub fn score(grid: &Vec<Vec<u8>>, mv: &Vec<u8>, start: usize) -> (r: u64)
    requires
        grid_ok(grid@.map_values(|l: Vec<u8>| l@)),
        moves_ok(mv@),
        start < grid@[0]@.len(),
        grid@[0]@.len() < 0x4000_0000_0000_0000,
    ensures
        r as int == score_spec(grid@.map_values(|l: Vec<u8>| l@), mv@, start as int),
{
    let ghost gv = grid@.map_values(|l: Vec<u8>| l@);
    proof {
        assert(gv[0] == grid@[0]@);
    }
    let w = grid[0].len();
    let h = grid.len();
    let mut row: usize = 0;
    let mut col: usize = start;
    let mut i: usize = 0;
    while i < mv.len() && row < h
        invariant
            gv == grid@.map_values(|l: Vec<u8>| l@),
            grid_ok(gv),
            moves_ok(mv@),
            start < gv[0].len(),
            w == gv[0].len(),
            h == gv.len(),
            i <= mv@.len(),
            (row as int, col as int) == run_moves(gv, mv@, start as int, i as int),
            col < w,
            row <= h,
        decreases mv@.len() - i,
    {
        let b = mv[i];
        let newcol = if b == 82 {
            if col == w - 1 {
                col - 1
            } else {
                col + 1
            }
        } else {
            if col == 0 {
                col + 1
            } else {
                col - 1
            }
        };
        let mut nr = row;
        while nr < h && grid[nr][newcol] != 42
            invariant
                gv == grid@.map_values(|l: Vec<u8>| l@),
                grid_ok(gv),
                h == gv.len(),
                w == gv[0].len(),
                newcol < w,
                row <= nr <= h,
                drop_row(gv, row as int, newcol as int) == drop_row(gv, nr as int, newcol as int),
            decreases h - nr,
        {
            proof {
                assert(gv[nr as int] == grid@[nr as int]@);
            }
            nr = nr + 1;
        }
        proof {
            if nr < h {
                assert(gv[nr as int] == grid@[nr as int]@);
                assert(gv[nr as int][newcol as int] == 42);
            }
            assert(drop_row(gv, nr as int, newcol as int) == nr as int);
        }
        row = nr;
        col = newcol;
        i = i + 1;
    }
    proof {
        if i < mv@.len() {
            lemma_run_frozen(gv, mv@, start as int, i as int, mv@.len() as int);
        }
        assert((row as int, col as int) == run_moves(gv, mv@, start as int, mv@.len() as int));
        assert(gv[0] == grid@[0]@);
        assert(col < 0x4000_0000_0000_0000);
    }
    let won = ((col as u64) / 2 + 1) * 2;
    let cost = (start as u64) / 2 + 1;
    if won >= cost {
        won - cost
    } else {
        0
    }
}

/// Once the token leaves the board, later moves change nothing.
proof fn lemma_run_frozen(grid: Seq<Seq<u8>>, mv: Seq<u8>, start: int, i: int, n: int)
    requires
        0 <= i <= n <= mv.len(),
        run_moves(grid, mv, start, i).0 >= grid.len(),
    ensures
        run_moves(grid, mv, start, n) == run_moves(grid, mv, start, i),
    decreases n - i,
{
    if i < n {
        lemma_run_frozen(grid, mv, start, i, n - 1);
    }
}

/// The start columns: the bumpers of the top row.
pub open spec fn starts_spec(top: Seq<u8>, j: int) -> Seq<int>
    decreases j,
{
    if j <= 0 {
        Seq::empty()
    } else {
        starts_spec(top, j - 1) + (if top[j - 1] == 42 {
            seq![j - 1]
        } else {
            Seq::<int>::empty()
        })
    }
}

fn find_starts(top: &Vec<u8>) -> (r: Vec<usize>)
    ensures
        r@.map_values(|s: usize| s as int) == starts_spec(top@, top@.len() as int),
        forall|k: int| 0 <= k < r@.len() ==> #[trigger] r@[k] < top@.len(),
    decreases top@.len(),
{
    let mut r: Vec<usize> = Vec::new();
    let mut j: usize = 0;
    proof {
        assert(r@.map_values(|s: usize| s as int) =~= starts_spec(top@, 0));
    }
    while j < top.len()
        invariant
            j <= top@.len(),
            r@.map_values(|s: usize| s as int) == starts_spec(top@, j as int),
            forall|k: int| 0 <= k < r@.len() ==> #[trigger] r@[k] < top@.len(),
        decreases top@.len() - j,
    {
        if top[j] == 42 {
            r.push(j);
        }
        proof {
            assert(r@.map_values(|s: usize| s as int) =~= starts_spec(top@, j + 1));
        }
        j = j + 1;
    }
    r
}

/// The index of the first blank line, or the line count.
pub open spec fn first_blank(ls: Seq<Seq<u8>>) -> int
    decreases ls.len(),
{
    if ls.len() == 0 {
        0
    } else if ls[0].len() == 0 {
        0
    } else {
        1 + first_blank(ls.drop_first())
    }
}

proof fn lemma_first_blank(ls: Seq<Seq<u8>>, idx: int)
    requires
        0 <= idx <= ls.len(),
        forall|j: int| 0 <= j < idx ==> #[trigger] ls[j].len() > 0,
        idx == ls.len() || ls[idx].len() == 0,
    ensures
        first_blank(ls) == idx,
    decreases idx,
{
    if ls.len() == 0 {
    } else if idx == 0 {
    } else {
        lemma_first_blank(ls.drop_first(), idx - 1);
    }
}

/// The grid lines and the move lines: everything before the first blank
/// line, and everything after it.
pub open spec fn parse_spec(bytes: Seq<u8>) -> (Seq<Seq<u8>>, Seq<Seq<u8>>) {
    let ls = lines_spec(trim_spec(bytes));
    let fb = first_blank(ls);
    (ls.take(fb), if fb >= ls.len() {
        Seq::empty()
    } else {
        ls.skip(fb + 1)
    })
}

/// Splits the input at its first blank line.
pub fn parse(input: &str) -> (r: (Vec<Vec<u8>>, Vec<Vec<u8>>))
    ensures
        r.0@.map_values(|l: Vec<u8>| l@) == parse_spec(input.spec_bytes()).0,
        r.1@.map_values(|l: Vec<u8>| l@) == parse_spec(input.spec_bytes()).1,
{
    let bytes = input.as_bytes_vec();
    let trimmed = trim_bytes(&bytes);
    let ls = split_lines(&trimmed);
    let ghost lsv = lines_spec(trim_spec(input.spec_bytes()));
    let mut fb: usize = 0;
    while fb < ls.len() && ls[fb].len() > 0
        invariant
            fb <= ls@.len(),
            lsv == lines_spec(trim_spec(input.spec_bytes())),
            ls@.map_values(|l: Vec<u8>| l@) == lsv,
            forall|j: int| 0 <= j < fb ==> #[trigger] lsv[j].len() > 0,
        decreases ls@.len() - fb,
    {
        proof {
            assert(lsv[fb as int] == ls@[fb as int]@);
        }
        fb = fb + 1;
    }
    proof {
        if fb < ls@.len() {
            assert(lsv[fb as int] == ls@[fb as int]@);
        }
        lemma_first_blank(lsv, fb as int);
    }
    let mut grid: Vec<Vec<u8>> = Vec::new();
    let mut i: usize = 0;
    while i < fb
        invariant
            i <= fb <= ls@.len(),
            ls@.map_values(|l: Vec<u8>| l@) == lsv,
            grid@.len() == i,
            forall|j: int| 0 <= j < i ==> #[trigger] grid@[j]@ == lsv[j],
        decreases fb - i,
    {
        proof {
            assert(lsv[i as int] == ls@[i as int]@);
        }
        let line = crate::text::copy_bytes(&ls[i]);
        grid.push(line);
        i = i + 1;
    }
    let mut moves: Vec<Vec<u8>> = Vec::new();
    if fb < ls.len() {
        let mut k: usize = fb + 1;
        while k < ls.len()
            invariant
                fb + 1 <= k <= ls@.len(),
                ls@.map_values(|l: Vec<u8>| l@) == lsv,
                moves@.len() == k - fb - 1,
                forall|j: int| 0 <= j < moves@.len() ==> #[trigger] moves@[j]@ == lsv[fb + 1 + j],
            decreases ls@.len() - k,
        {
            proof {
                assert(lsv[k as int] == ls@[k as int]@);
            }
            let line = crate::text::copy_bytes(&ls[k]);
            moves.push(line);
            k = k + 1;
        }
    }
    proof {
        assert(grid@.map_values(|l: Vec<u8>| l@) =~~= parse_spec(input.spec_bytes()).0);
        assert(moves@.map_values(|l: Vec<u8>| l@) =~~= parse_spec(input.spec_bytes()).1);
    }
    (grid, moves)
}

/// All the checks the solvers make before scoring: a proper grid, pure
/// move strings, and a grid narrow enough for the arithmetic.
pub open spec fn input_ok(gv: Seq<Seq<u8>>, mvs: Seq<Seq<u8>>) -> bool {
    &&& grid_ok(gv)
    &&& gv[0].len() < 0x4000_0000_0000_0000
    &&& forall|r: int| 0 <= r < mvs.len() ==> moves_ok(#[trigger] mvs[r])
}

fn check_input(grid: &Vec<Vec<u8>>, moves: &Vec<Vec<u8>>) -> (ok: bool)
    ensures
        ok == input_ok(
            grid@.map_values(|l: Vec<u8>| l@),
            moves@.map_values(|l: Vec<u8>| l@),
        ),
{
    let ghost gv = grid@.map_values(|l: Vec<u8>| l@);
    let ghost mvs = moves@.map_values(|l: Vec<u8>| l@);
    if grid.len() == 0 {
        return false;
    }
    proof {
        assert(gv[0] == grid@[0]@);
    }
    let w = grid[0].len();
    if w < 2 || (w as u64) >= 0x4000_0000_0000_0000u64 {
        proof {
            assert(!input_ok(gv, mvs));
        }
        return false;
    }
    let mut r: usize = 0;
    while r < grid.len()
        invariant
            r <= grid@.len(),
            gv == grid@.map_values(|l: Vec<u8>| l@),
            gv.len() > 0,
            w == gv[0].len(),
            forall|j: int| 0 <= j < r ==> (#[trigger] gv[j]).len() == w,
        decreases grid@.len() - r,
    {
        proof {
            assert(gv[r as int] == grid@[r as int]@);
        }
        if grid[r].len() != w {
            proof {
                assert(!grid_ok(gv));
            }
            return false;
        }
        r = r + 1;
    }
    let mut m: usize = 0;
    while m < moves.len()
        invariant
            m <= moves@.len(),
            gv == grid@.map_values(|l: Vec<u8>| l@),
            mvs == moves@.map_values(|l: Vec<u8>| l@),
            grid_ok(gv),
            w == gv[0].len(),
            w < 0x4000_0000_0000_0000,
            forall|j: int| 0 <= j < m ==> moves_ok(#[trigger] mvs[j]),
        decreases moves@.len() - m,
    {
        proof {
            assert(mvs[m as int] == moves@[m as int]@);
        }
        let mvrow = &moves[m];
        let mut j: usize = 0;
        while j < mvrow.len()
            invariant
                j <= mvrow@.len(),
                m < moves@.len(),
                mvs == moves@.map_values(|l: Vec<u8>| l@),
                gv == grid@.map_values(|l: Vec<u8>| l@),
                mvrow@ == moves@[m as int]@,
                forall|q: int| 0 <= q < j ==> mvrow@[q] == 82 || #[trigger] mvrow@[q] == 76,
            decreases mvrow@.len() - j,
        {
            if mvrow[j] != 82 && mvrow[j] != 76 {
                proof {
                    assert(mvs[m as int] == moves@[m as int]@);
                    assert(!moves_ok(moves@[m as int]@));
                }
                return false;
            }
            j = j + 1;
        }
        proof {
            assert(moves_ok(mvs[m as int]));
        }
        m = m + 1;
    }
    true
}

/// The paired sum of part one: the `k`-th start against the `k`-th move
/// string.
pub open spec fn sum1_spec(gv: Seq<Seq<u8>>, mvs: Seq<Seq<u8>>, starts: Seq<int>, k: int) -> int
    decreases k,
{
    if k <= 0 {
        0
    } else {
        sum1_spec(gv, mvs, starts, k - 1) + score_spec(gv, mvs[k - 1], starts[k - 1])
    }
}

proof fn lemma_sum1_mono(gv: Seq<Seq<u8>>, mvs: Seq<Seq<u8>>, starts: Seq<int>, k1: int, k2: int)
    requires
        0 <= k1 <= k2,
    ensures
        sum1_spec(gv, mvs, starts, k1) <= sum1_spec(gv, mvs, starts, k2),
    decreases k2 - k1,
{
    if k1 < k2 {
        lemma_sum1_mono(gv, mvs, starts, k1, k2 - 1);
    }
}

/// Part one's answer: each start paired with one move string, summed.
pub open spec fn answer1_spec(bytes: Seq<u8>) -> Option<u64> {
    let pr = parse_spec(bytes);
    let gv = pr.0;
    let mvs = pr.1;
    if !input_ok(gv, mvs) {
        None
    } else {
        let starts = starts_spec(gv[0], gv[0].len() as int);
        let n = if starts.len() <= mvs.len() {
            starts.len() as int
        } else {
            mvs.len() as int
        };
        if sum1_spec(gv, mvs, starts, n) > u64::MAX {
            None
        } else {
            Some(sum1_spec(gv, mvs, starts, n) as u64)
        }
    }
}

/// Part one: sum the score of each start against its paired move string.
pub fn p1(input: &str) -> (r: Option<u64>)
    ensures
        r == answer1_spec(input.spec_bytes()),
{
    let (grid, moves) = parse(input);
    let ghost gv = grid@.map_values(|l: Vec<u8>| l@);
    let ghost mvs = moves@.map_values(|l: Vec<u8>| l@);
    if !check_input(&grid, &moves) {
        return None;
    }
    proof {
        assert(gv[0] == grid@[0]@);
    }
    let starts = find_starts(&grid[0]);
    let ghost sts = starts_spec(gv[0], gv[0].len() as int);
    let n = if starts.len() <= moves.len() {
        starts.len()
    } else {
        moves.len()
    };
    let mut total: u64 = 0;
    let mut k: usize = 0;
    while k < n
        invariant
            k <= n,
            gv == grid@.map_values(|l: Vec<u8>| l@),
            mvs == moves@.map_values(|l: Vec<u8>| l@),
            gv == parse_spec(input.spec_bytes()).0,
            mvs == parse_spec(input.spec_bytes()).1,
            input_ok(gv, mvs),
            sts == starts_spec(gv[0], gv[0].len() as int),
            starts@.map_values(|s2: usize| s2 as int) == sts,
            forall|q: int| 0 <= q < starts@.len() ==> #[trigger] starts@[q] < gv[0].len(),
            n <= starts@.len(),
            n <= moves@.len(),
            n as int == (if sts.len() <= mvs.len() {
                sts.len() as int
            } else {
                mvs.len() as int
            }),
            total as int == sum1_spec(gv, mvs, sts, k as int),
        decreases n - k,
    {
        proof {
            assert(starts@.map_values(|s2: usize| s2 as int)[k as int] == starts@[k as int] as int);
            assert(mvs[k as int] == moves@[k as int]@);
        }
        let sc = score(&grid, &moves[k], starts[k]);
        let t2 = match total.checked_add(sc) {
            Some(t2) => t2,
            None => {
                proof {
                    lemma_sum1_mono(gv, mvs, sts, k + 1, n as int);
                }
                return None;
            },
        };
        total = t2;
        k = k + 1;
    }
    Some(total)
}

/// The best score any start earns against one move string.
pub open spec fn best_spec(gv: Seq<Seq<u8>>, mv: Seq<u8>, starts: Seq<int>, j: int) -> int
    decreases j,
{
    if j <= 0 {
        0
    } else {
        let prev = best_spec(gv, mv, starts, j - 1);
        let here = score_spec(gv, mv, starts[j - 1]);
        if here > prev {
            here
        } else {
            prev
        }
    }
}

/// The per-row best-start sum of part two.
pub open spec fn sum2_spec(gv: Seq<Seq<u8>>, mvs: Seq<Seq<u8>>, starts: Seq<int>, k: int) -> int
    decreases k,
{
    if k <= 0 {
        0
    } else {
        sum2_spec(gv, mvs, starts, k - 1) + best_spec(gv, mvs[k - 1], starts, starts.len() as int)
    }
}

proof fn lemma_sum2_mono(gv: Seq<Seq<u8>>, mvs: Seq<Seq<u8>>, starts: Seq<int>, k1: int, k2: int)
    requires
        0 <= k1 <= k2,
        forall|k: int|
            0 <= k < k2 ==> best_spec(gv, #[trigger] mvs[k], starts, starts.len() as int) >= 0,
    ensures
        sum2_spec(gv, mvs, starts, k1) <= sum2_spec(gv, mvs, starts, k2),
    decreases k2 - k1,
{
    if k1 < k2 {
        lemma_sum2_mono(gv, mvs, starts, k1, k2 - 1);
    }
}

proof fn lemma_best_nonneg(gv: Seq<Seq<u8>>, mv: Seq<u8>, starts: Seq<int>, j: int)
    requires
        j >= 0,
    ensures
        best_spec(gv, mv, starts, j) >= 0,
    decreases j,
{
    if j > 0 {
        lemma_best_nonneg(gv, mv, starts, j - 1);
    }
}

/// Part two's answer: every move string takes its best start; `None` when
/// there are no starts at all.
pub open spec fn answer2_spec(bytes: Seq<u8>) -> Option<u64> {
    let pr = parse_spec(bytes);
    let gv = pr.0;
    let mvs = pr.1;
    if !input_ok(gv, mvs) {
        None
    } else {
        let starts = starts_spec(gv[0], gv[0].len() as int);
        if starts.len() == 0 {
            None
        } else if sum2_spec(gv, mvs, starts, mvs.len() as int) > u64::MAX {
            None
        } else {
            Some(sum2_spec(gv, mvs, starts, mvs.len() as int) as u64)
        }
    }
}

/// Part two: sum each move string's best score over all starts.
pub fn p2(input: &str) -> (r: Option<u64>)
    ensures
        r == answer2_spec(input.spec_bytes()),
{
    let (grid, moves) = parse(input);
    let ghost gv = grid@.map_values(|l: Vec<u8>| l@);
    let ghost mvs = moves@.map_values(|l: Vec<u8>| l@);
    if !check_input(&grid, &moves) {
        return None;
    }
    proof {
        assert(gv[0] == grid@[0]@);
    }
    let starts = find_starts(&grid[0]);
    let ghost sts = starts_spec(gv[0], gv[0].len() as int);
    if starts.len() == 0 {
        return None;
    }
    let mut total: u64 = 0;
    let mut k: usize = 0;
    while k < moves.len()
        invariant
            k <= moves@.len(),
            gv == grid@.map_values(|l: Vec<u8>| l@),
            mvs == moves@.map_values(|l: Vec<u8>| l@),
            gv == parse_spec(input.spec_bytes()).0,
            mvs == parse_spec(input.spec_bytes()).1,
            input_ok(gv, mvs),
            sts == starts_spec(gv[0], gv[0].len() as int),
            starts@.map_values(|s2: usize| s2 as int) == sts,
            forall|q: int| 0 <= q < starts@.len() ==> #[trigger] starts@[q] < gv[0].len(),
            starts@.len() > 0,
            total as int == sum2_spec(gv, mvs, sts, k as int),
        decreases moves@.len() - k,
    {
        proof {
            assert(mvs[k as int] == moves@[k as int]@);
        }
        let mut best: u64 = 0;
        let mut j: usize = 0;
        while j < starts.len()
            invariant
                j <= starts@.len(),
                gv == grid@.map_values(|l: Vec<u8>| l@),
                mvs == moves@.map_values(|l: Vec<u8>| l@),
                input_ok(gv, mvs),
                k < moves@.len(),
                mvs[k as int] == moves@[k as int]@,
                sts == starts_spec(gv[0], gv[0].len() as int),
                starts@.map_values(|s2: usize| s2 as int) == sts,
                forall|q: int| 0 <= q < starts@.len() ==> #[trigger] starts@[q] < gv[0].len(),
                best as int == best_spec(gv, mvs[k as int], sts, j as int),
            decreases starts@.len() - j,
        {
            proof {
                assert(starts@.map_values(|s2: usize| s2 as int)[j as int] == starts@[j as int] as int);
            }
            let sc = score(&grid, &moves[k], starts[j]);
            if sc > best {
                best = sc;
            }
            j = j + 1;
        }
        let t2 = match total.checked_add(best) {
            Some(t2) => t2,
            None => {
                proof {
                    assert forall|q: int| 0 <= q < mvs.len() implies best_spec(
                        gv,
                        #[trigger] mvs[q],
                        sts,
                        sts.len() as int,
                    ) >= 0 by {
                        lemma_best_nonneg(gv, mvs[q], sts, sts.len() as int);
                    }
                    lemma_sum2_mono(gv, mvs, sts, k + 1, mvs.len() as int);
                }
                return None;
            },
        };
        total = t2;
        k = k + 1;
    }
    Some(total)
}

/// Powers of two.
pub open spec fn pow2(k: int) -> int
    decreases k,
{
    if k <= 0 {
        1
    } else {
        2 * pow2(k - 1)
    }
}

proof fn lemma_pow2_pos(k: int)
    ensures
        pow2(k) >= 1,
    decreases k,
{
    if k > 0 {
        lemma_pow2_pos(k - 1);
    }
}

proof fn lemma_pow2_mono(k1: int, k2: int)
    requires
        k1 <= k2,
    ensures
        pow2(k1) <= pow2(k2),
    decreases k2 - k1,
{
    lemma_pow2_pos(k1);
    if k1 < k2 {
        lemma_pow2_mono(k1 + 1, k2);
    }
}

fn pow2_exec(k: usize) -> (r: u64)
    requires
        k <= 62,
    ensures
        r as int == pow2(k as int),
{
    let mut r: u64 = 1;
    let mut i: usize = 0;
    while i < k
        invariant
            i <= k <= 62,
            r as int == pow2(i as int),
            r <= 0x4000_0000_0000_0000,
        decreases k - i,
    {
        proof {
            lemma_pow2_mono(i + 1, 62);
            assert(pow2(62) == 0x4000_0000_0000_0000) by {
                reveal_with_fuel(pow2, 64);
            }
        }
        r = r * 2;
        i = i + 1;
    }
    r
}

/// The index of the single set bit of a power of two.
pub open spec fn bit_idx(x: int) -> int
    decreases x,
{
    if x <= 1 {
        0
    } else {
        1 + bit_idx(x / 2)
    }
}

proof fn lemma_bit_idx_pow2(k: int)
    requires
        k >= 0,
    ensures
        bit_idx(pow2(k)) == k,
    decreases k,
{
    lemma_pow2_pos(k);
    if k > 0 {
        lemma_bit_idx_pow2(k - 1);
        lemma_pow2_pos(k - 1);
    }
}

/// Whether slot `j` is still free in the assignment mask.
pub open spec fn slot_free(used: int, j: int) -> bool {
    (used / pow2(j)) % 2 == 0
}

/// One dynamic-programming state: `cur * pow2(nslots) + used`.
pub open spec fn dp_enc(nslots: int, cur: int, used: int) -> int {
    cur * pow2(nslots) + used
}

/// The child states of `(cur, used)`: one per free slot, in slot order.
pub open spec fn kids_spec(nslots: int, cur: int, used: int, j: int) -> Seq<u64>
    decreases j,
{
    if j <= 0 {
        Seq::empty()
    } else {
        kids_spec(nslots, cur, used, j - 1) + (if slot_free(used, j - 1) {
            seq![dp_enc(nslots, cur + 1, used + pow2(j - 1)) as u64]
        } else {
            Seq::<u64>::empty()
        })
    }
}

/// Setting a free bit keeps the mask below `pow2(nslots)` and fills that
/// bit.
proof fn lemma_set_bit(used: int, j: int, nslots: int)
    requires
        0 <= j < nslots,
        0 <= used < pow2(nslots),
        slot_free(used, j),
    ensures
        0 <= used + pow2(j) < pow2(nslots),
        used + pow2(j) - used == pow2(j),
    decreases nslots - j,
{
    lemma_pow2_pos(j);
    if j + 1 == nslots {
        // used = a * 2^j + b with a even and b < 2^j, and used < 2^(j+1),
        // so a == 0 and used + 2^j < 2^(j+1).
        vstd::arithmetic::div_mod::lemma_fundamental_div_mod(used, pow2(j));
        assert(used == pow2(j) * (used / pow2(j)) + used % pow2(j));
        assert(0 <= used % pow2(j) < pow2(j)) by {
            vstd::arithmetic::div_mod::lemma_mod_bound(used, pow2(j));
        }
        assert(used / pow2(j) % 2 == 0);
        assert(used / pow2(j) >= 0) by (nonlinear_arith)
            requires
                used >= 0,
                pow2(j) >= 1,
        ;
        assert(used / pow2(j) < 2) by (nonlinear_arith)
            requires
                used < 2 * pow2(j),
                pow2(j) >= 1,
                used == pow2(j) * (used / pow2(j)) + used % pow2(j),
                0 <= used % pow2(j),
        ;
        assert(used / pow2(j) == 0);
        assert(used < pow2(j));
    } else {
        // Split off the top bit if it is set.
        let top = pow2(nslots - 1);
        lemma_pow2_mono(j + 1, nslots - 1);
        lemma_pow2_pos(nslots - 1 - j);
        if used >= top {
            let rest = used - top;
            assert(top == pow2(nslots - 1 - j) * pow2(j)) by {
                lemma_pow2_mul(j, nslots - 1 - j);
            }
            assert(slot_free(rest, j)) by {
                lemma_div_add_multiple(rest, pow2(nslots - 1 - j), pow2(j));
                assert((rest / pow2(j) + pow2(nslots - 1 - j)) % 2 == (used / pow2(j)) % 2) by {
                    assert(pow2(nslots - 1 - j) % 2 == 0) by {
                        lemma_pow2_even(nslots - 1 - j);
                    }
                    vstd::arithmetic::div_mod::lemma_add_mod_noop(
                        rest / pow2(j),
                        pow2(nslots - 1 - j),
                        2,
                    );
                }
            }
            lemma_set_bit(rest, j, nslots - 1);
        } else {
            lemma_set_bit(used, j, nslots - 1);
            lemma_pow2_mono(nslots - 1, nslots);
        }
    }
}

proof fn lemma_pow2_mul(a: int, b: int)
    requires
        a >= 0,
        b >= 0,
    ensures
        pow2(a) * pow2(b) == pow2(a + b),
    decreases b,
{
    if b > 0 {
        lemma_pow2_mul(a, b - 1);
        assert(pow2(a) * (2 * pow2(b - 1)) == 2 * (pow2(a) * pow2(b - 1))) by (nonlinear_arith);
    }
}

proof fn lemma_pow2_even(k: int)
    requires
        k >= 1,
    ensures
        pow2(k) % 2 == 0,
{
    assert(pow2(k) == 2 * pow2(k - 1));
    assert((2 * pow2(k - 1)) % 2 == 0) by (nonlinear_arith);
}

proof fn lemma_div_add_multiple(x: int, m: int, d: int)
    requires
        x >= 0,
        m >= 0,
        d >= 1,
    ensures
        (x + m * d) / d == x / d + m,
{
    vstd::arithmetic::div_mod::lemma_div_plus_one(x, d);
    vstd::arithmetic::div_mod::lemma_hoist_over_denominator(x, m, d as nat);
}

/// Every child comes from setting one free slot.
proof fn lemma_kids_member(nslots: int, cur: int, used: int, j: int, k: int)
    requires
        0 <= k < kids_spec(nslots, cur, used, j).len(),
        0 <= j <= nslots,
        0 <= cur,
        0 <= used,
        (cur + 1) * pow2(nslots) + used + pow2(nslots) <= u64::MAX,
    ensures
        exists|sl: int|
            0 <= sl < j && slot_free(used, sl) && kids_spec(nslots, cur, used, j)[k] as int
                == dp_enc(nslots, cur + 1, used + pow2(sl)),
    decreases j,
{
    let ks = kids_spec(nslots, cur, used, j);
    let prev = kids_spec(nslots, cur, used, j - 1);
    if j > 0 {
        if k < prev.len() {
            lemma_kids_member(nslots, cur, used, j - 1, k);
            let sl = choose|sl: int|
                0 <= sl < j - 1 && slot_free(used, sl) && prev[k] as int == dp_enc(
                    nslots,
                    cur + 1,
                    used + pow2(sl),
                );
            assert(ks[k] == prev[k]);
            assert(0 <= sl < j && slot_free(used, sl) && ks[k] as int == dp_enc(
                nslots,
                cur + 1,
                used + pow2(sl),
            ));
        } else {
            assert(slot_free(used, j - 1));
            lemma_pow2_mono(j - 1, nslots);
            lemma_pow2_pos(j - 1);
            assert(0 <= dp_enc(nslots, cur + 1, used + pow2(j - 1)) <= u64::MAX) by (
            nonlinear_arith)
                requires
                    0 <= cur,
                    0 <= used,
                    pow2(j - 1) <= pow2(nslots),
                    pow2(j - 1) >= 1,
                    pow2(nslots) >= 1,
                    (cur + 1) * pow2(nslots) + used + pow2(nslots) <= u64::MAX,
                    dp_enc(nslots, cur + 1, used + pow2(j - 1)) == (cur + 1) * pow2(nslots) + used
                        + pow2(j - 1),
            ;
            assert(ks[k] as int == dp_enc(nslots, cur + 1, used + pow2(j - 1)));
        }
    }
}

#[verifier::nonlinear]
proof fn lemma_enc_step(cur: int, used: int, p: int, slen: int)
    requires
        0 <= cur < slen,
        0 <= used < p,
        1 <= p,
    ensures
        (cur + 1) * p + used + p < (slen + 2) * p,
{
}

#[verifier::nonlinear]
proof fn lemma_enc_cap(a: int, p: int)
    requires
        0 <= a <= 0x10_0002,
        0 <= p <= 0x100_0000_0000,
    ensures
        0 <= a * p <= 0x10_0002 * 0x100_0000_0000,
{
}

proof fn lemma_enc_fits(cur: int, used: int, p: int, slen: int)
    requires
        0 <= cur < slen,
        slen <= 0x10_0000,
        0 <= used < p,
        1 <= p <= 0x100_0000_0000,
    ensures
        (cur + 1) * p + used + p <= u64::MAX,
        0 <= (slen + 1) * p <= u64::MAX,
{
    lemma_enc_step(cur, used, p, slen);
    lemma_enc_cap(slen + 2, p);
    lemma_enc_cap(slen + 1, p);
}

#[verifier::nonlinear]
proof fn lemma_enc_lt(cur: int, rest: int, p: int, slen: int)
    requires
        cur + 1 <= slen,
        0 <= rest < p,
        p >= 1,
    ensures
        (cur + 1) * p + rest < (slen + 1) * p,
{
}

/// The assignment problem behind part three, phrased for the memoized
/// engine: a state pairs the next move string to place with the mask of
/// starts already taken; placing it on a free start adds that score.
pub struct DpGraph {
    scores: Vec<Vec<u64>>,
    nslots: usize,
    maximize: bool,
}

impl DpGraph {
    #[verifier::type_invariant]
    spec fn inv(self) -> bool {
        &&& self.nslots <= 40
        &&& self.scores@.len() <= 0x10_0000
        &&& forall|r: int|
            0 <= r < self.scores@.len() ==> (#[trigger] self.scores@[r]@).len() == self.nslots
    }

    /// The score matrix, move strings by starts.
    pub closed spec fn sv(self) -> Seq<Seq<u64>> {
        self.scores@.map_values(|r: Vec<u64>| r@)
    }

    /// How many starts there are.
    pub closed spec fn ns(self) -> int {
        self.nslots as int
    }

    /// Whether the fold keeps the larger total.
    pub closed spec fn maxing(self) -> bool {
        self.maximize
    }

    /// Wraps a score matrix for the engine.
    pub fn new(scores: Vec<Vec<u64>>, nslots: usize, maximize: bool) -> (g: DpGraph)
        requires
            nslots <= 40,
            scores@.len() <= 0x10_0000,
            forall|r: int| 0 <= r < scores@.len() ==> (#[trigger] scores@[r]@).len() == nslots,
        ensures
            g.sv() == scores@.map_values(|r: Vec<u64>| r@),
            g.ns() == nslots,
            g.maxing() == maximize,
    {
        DpGraph { scores, nslots, maximize }
    }
}

impl EvalGraph for DpGraph {
    closed spec fn bound(&self) -> u64 {
        ((self.scores@.len() + 1) * pow2(self.nslots as int)) as u64
    }

    closed spec fn rank(&self, s: u64) -> nat {
        let cur = s as int / pow2(self.nslots as int);
        if cur <= self.scores@.len() {
            (self.scores@.len() - cur) as nat
        } else {
            0
        }
    }

    closed spec fn terminal(&self, s: u64) -> bool {
        s as int / pow2(self.nslots as int) >= self.scores@.len()
    }

    closed spec fn terminal_value(&self, s: u64) -> u64 {
        0
    }

    closed spec fn children(&self, s: u64) -> Seq<u64> {
        let p = pow2(self.nslots as int);
        kids_spec(self.nslots as int, s as int / p, s as int % p, self.nslots as int)
    }

    closed spec fn base(&self, s: u64) -> u64 {
        if self.maximize {
            0
        } else {
            u64::MAX
        }
    }

    closed spec fn combine_spec(&self, s: u64, c: u64, v: u64, acc: u64) -> u64 {
        let p = pow2(self.nslots as int);
        let cur = s as int / p;
        let sl = bit_idx(c as int % p - s as int % p);
        let w = vstd::wrapping::u64_specs::wrapping_add(self.sv()[cur][sl], v);
        if self.maximize {
            if w > acc {
                w
            } else {
                acc
            }
        } else {
            if w < acc {
                w
            } else {
                acc
            }
        }
    }

    fn is_terminal(&self, s: u64) -> (r: bool) {
        proof {
            use_type_invariant(&*self);
        }
        let p = pow2_exec(self.nslots);
        s / p >= self.scores.len() as u64
    }

    fn value_of(&self, s: u64) -> (r: u64) {
        0
    }

    fn base_value(&self, s: u64) -> (r: u64) {
        if self.maximize {
            0
        } else {
            u64::MAX
        }
    }

    fn branch(&self, s: u64) -> (r: Vec<u64>) {
        proof {
            use_type_invariant(&*self);
        }
        let p = pow2_exec(self.nslots);
        let cur = s / p;
        let used = s % p;
        let ghost nsl = self.nslots as int;
        proof {
            lemma_pow2_pos(nsl);
            assert(s as int / pow2(nsl) < self.scores@.len());
            vstd::arithmetic::div_mod::lemma_fundamental_div_mod(s as int, pow2(nsl));
            vstd::arithmetic::div_mod::lemma_mod_bound(s as int, pow2(nsl));
        }
        let mut out: Vec<u64> = Vec::new();
        let mut sl: usize = 0;
        proof {
            assert(out@ =~= kids_spec(nsl, cur as int, used as int, 0));
        }
        while sl < self.nslots
            invariant
                sl <= self.nslots,
                self.nslots <= 40,
                self.scores@.len() <= 0x10_0000,
                p as int == pow2(nsl),
                nsl == self.nslots as int,
                cur as int == s as int / pow2(nsl),
                used as int == s as int % pow2(nsl),
                cur < self.scores@.len(),
                0 <= used < p,
                out@ == kids_spec(nsl, cur as int, used as int, sl as int),
            decreases self.nslots - sl,
        {
            let psl = pow2_exec(sl);
            proof {
                lemma_pow2_pos(sl as int);
                lemma_pow2_mono(sl as int, nsl);
            }
            if (used / psl) % 2 == 0 {
                proof {
                    lemma_set_bit(used as int, sl as int, nsl);
                    assert(pow2(40) == 0x100_0000_0000) by {
                        reveal_with_fuel(pow2, 41);
                    }
                    lemma_pow2_mono(nsl, 40);
                    lemma_enc_lt(
                        cur as int,
                        used as int + pow2(sl as int),
                        pow2(nsl),
                        self.scores@.len() as int,
                    );
                    lemma_enc_cap(self.scores@.len() as int + 1, pow2(nsl));
                }
                let child = (cur + 1) * p + used + psl;
                out.push(child);
                proof {
                    assert(out@ =~= kids_spec(nsl, cur as int, used as int, sl + 1));
                }
            } else {
                proof {
                    assert(out@ =~= kids_spec(nsl, cur as int, used as int, sl + 1));
                }
            }
            sl = sl + 1;
        }
        out
    }

    fn combine(&self, s: u64, c: u64, v: u64, acc: u64) -> (r: u64) {
        proof {
            use_type_invariant(&*self);
        }
        let p = pow2_exec(self.nslots);
        let cur = s / p;
        let used = s % p;
        let usedc = c % p;
        let ghost nsl = self.nslots as int;
        proof {
            lemma_pow2_pos(nsl);
            vstd::arithmetic::div_mod::lemma_mod_bound(s as int, pow2(nsl));
            vstd::arithmetic::div_mod::lemma_mod_bound(c as int, pow2(nsl));
            assert(self.children(s).contains(c));
            let k = choose|k: int| 0 <= k < self.children(s).len() && self.children(s)[k] == c;
            assert(pow2(40) == 0x100_0000_0000) by {
                reveal_with_fuel(pow2, 41);
            }
            lemma_pow2_mono(nsl, 40);
            vstd::arithmetic::div_mod::lemma_div_pos_is_pos(s as int, pow2(nsl));
            lemma_enc_fits(cur as int, used as int, pow2(nsl), self.scores@.len() as int);
            lemma_kids_member(nsl, cur as int, used as int, nsl, k);
        }
        let ghost sl = choose|sl: int|
            0 <= sl < nsl && slot_free(used as int, sl) && c as int == dp_enc(
                nsl,
                cur as int + 1,
                used as int + pow2(sl),
            );
        proof {
            lemma_pow2_pos(sl);
            lemma_set_bit(used as int, sl, nsl);
            // The child's mask recovers the slot.
            assert(c as int % pow2(nsl) == used as int + pow2(sl)) by {
                vstd::arithmetic::div_mod::lemma_fundamental_div_mod_converse(
                    c as int,
                    pow2(nsl),
                    cur as int + 1,
                    used as int + pow2(sl),
                );
            }
        }
        let diff = usedc - used;
        let mut d = diff;
        let mut slot: usize = 0;
        proof {
            assert(d as int == pow2(sl - slot));
        }
        while d > 1
            invariant
                0 <= slot <= sl,
                sl <= 40,
                d as int == pow2(sl - slot),
            decreases d,
        {
            proof {
                assert(sl - slot >= 1) by {
                    if sl - slot <= 0 {
                        assert(pow2(sl - slot) == 1);
                    }
                }
                assert(pow2(sl - slot) / 2 == pow2(sl - slot - 1));
                lemma_pow2_pos(sl - slot - 1);
            }
            d = d / 2;
            slot = slot + 1;
        }
        proof {
            lemma_pow2_pos(sl - slot);
            assert(pow2(sl - slot) == 1);
            assert(sl - slot <= 0) by {
                if sl - slot >= 1 {
                    lemma_pow2_mono(1, sl - slot);
                }
            }
            assert(slot == sl);
            assert(slot < self.nslots);
            assert(self.sv()[cur as int] == self.scores@[cur as int]@);
            lemma_bit_idx_pow2(sl);
        }
        let w = self.scores[cur as usize][slot].wrapping_add(v);
        if self.maximize {
            if w > acc {
                w
            } else {
                acc
            }
        } else {
            if w < acc {
                w
            } else {
                acc
            }
        }
    }
}

/// The engine precondition holds of every score matrix graph.
proof fn lemma_dp_wf(g: &DpGraph)
    requires
        g.inv(),
    ensures
        eval_wf(g),
{
    let nsl = g.nslots as int;
    lemma_pow2_pos(nsl);
    assert forall|s: u64, k: int|
        s < g.bound() && !g.terminal(s) && 0 <= k < g.children(s).len() implies (
    #[trigger] g.children(s)[k]) < g.bound() && g.rank(g.children(s)[k]) < g.rank(s) by {
        let p = pow2(nsl);
        let cur = s as int / p;
        let used = s as int % p;
        vstd::arithmetic::div_mod::lemma_mod_bound(s as int, p);
        assert(pow2(40) == 0x100_0000_0000) by {
            reveal_with_fuel(pow2, 41);
        }
        lemma_pow2_mono(nsl, 40);
        let slen = g.scores@.len() as int;
        vstd::arithmetic::div_mod::lemma_div_pos_is_pos(s as int, p);
        lemma_enc_fits(cur, used, p, slen);
        lemma_kids_member(nsl, cur, used, nsl, k);
        let sl = choose|sl: int|
            0 <= sl < nsl && slot_free(used, sl) && g.children(s)[k] as int == dp_enc(
                nsl,
                cur + 1,
                used + pow2(sl),
            );
        lemma_set_bit(used, sl, nsl);
        let child = g.children(s)[k];
        assert(child as int == (cur + 1) * p + (used + pow2(sl)));
        assert(child as int / p == cur + 1) by {
            vstd::arithmetic::div_mod::lemma_fundamental_div_mod_converse(
                child as int,
                p,
                cur + 1,
                used + pow2(sl),
            );
        }
        lemma_enc_lt(cur, used + pow2(sl), p, slen);
        assert((slen + 1) * p == g.bound() as int);
    }
}

/// The value of the assignment problem, stated directly: from move string
/// `cur` on, with `used` marking the taken starts, fold every free slot's
/// score plus the rest, keeping the larger or smaller total.
pub open spec fn dp_value(sc: Seq<Seq<u64>>, ns: int, maximize: bool, cur: int, used: int) -> u64
    decreases sc.len() - cur + 1, 0int,
        when 0 <= cur <= sc.len() && 0 <= ns
{
    if cur >= sc.len() {
        0
    } else {
        dp_fold(sc, ns, maximize, cur, used, ns)
    }
}

/// The fold over the first `j` slots.
pub open spec fn dp_fold(
    sc: Seq<Seq<u64>>,
    ns: int,
    maximize: bool,
    cur: int,
    used: int,
    j: int,
) -> u64
    decreases sc.len() - cur, j,
        when 0 <= cur < sc.len() && 0 <= j <= ns
{
    if j <= 0 {
        if maximize {
            0
        } else {
            u64::MAX
        }
    } else {
        let rest = dp_fold(sc, ns, maximize, cur, used, j - 1);
        if slot_free(used, j - 1) {
            let w = vstd::wrapping::u64_specs::wrapping_add(
                sc[cur][j - 1],
                dp_value(sc, ns, maximize, cur + 1, used + pow2(j - 1)),
            );
            if maximize {
                if w > rest {
                    w
                } else {
                    rest
                }
            } else {
                if w < rest {
                    w
                } else {
                    rest
                }
            }
        } else {
            rest
        }
    }
}

proof fn lemma_kids_prefix(nslots: int, cur: int, used: int, j1: int, j2: int)
    requires
        0 <= j1 <= j2,
    ensures
        kids_spec(nslots, cur, used, j1) == kids_spec(nslots, cur, used, j2).take(
            kids_spec(nslots, cur, used, j1).len() as int,
        ),
        kids_spec(nslots, cur, used, j1).len() <= kids_spec(nslots, cur, used, j2).len(),
    decreases j2 - j1,
{
    if j1 < j2 {
        lemma_kids_prefix(nslots, cur, used, j1, j2 - 1);
        assert(kids_spec(nslots, cur, used, j1) =~= kids_spec(nslots, cur, used, j2).take(
            kids_spec(nslots, cur, used, j1).len() as int,
        ));
    } else {
        assert(kids_spec(nslots, cur, used, j1) =~= kids_spec(nslots, cur, used, j2).take(
            kids_spec(nslots, cur, used, j1).len() as int,
        ));
    }
}

/// The engine's value of an encoded state is the assignment problem's
/// value.
proof fn lemma_eval_is_dp(g: &DpGraph, cur: int, used: int)
    requires
        g.inv(),
        0 <= cur <= g.sv().len(),
        0 <= used < pow2(g.ns()),
    ensures
        eval(g, dp_enc(g.ns(), cur, used) as u64) == dp_value(g.sv(), g.ns(), g.maxing(), cur, used),
    decreases g.sv().len() - cur + 1, 0int,
{
    lemma_dp_wf(g);
    lemma_pow2_pos(g.ns());
    let p = pow2(g.ns());
    let s = dp_enc(g.ns(), cur, used);
    assert(pow2(40) == 0x100_0000_0000) by {
        reveal_with_fuel(pow2, 41);
    }
    lemma_pow2_mono(g.ns(), 40);
    lemma_enc_cap(cur + 1, p);
    assert(0 <= s <= u64::MAX) by (nonlinear_arith)
        requires
            s == cur * p + used,
            0 <= cur,
            0 <= used < p,
            0 <= (cur + 1) * p <= 0x10_0002 * 0x100_0000_0000,
    ;
    assert(s as u64 as int / p == cur && s as u64 as int % p == used) by {
        vstd::arithmetic::div_mod::lemma_fundamental_div_mod_converse(s, p, cur, used);
    }
    assert(s < (g.sv().len() + 1) * p) by (nonlinear_arith)
        requires
            s == cur * p + used,
            cur <= g.sv().len(),
            0 <= used < p,
            p >= 1,
    ;
    lemma_enc_cap(g.sv().len() as int + 1, p);
    assert(g.bound() as int == (g.sv().len() + 1) * p);
    assert((s as u64) < g.bound());
    if cur >= g.sv().len() {
        assert(g.terminal(s as u64));
    } else {
        assert(!g.terminal(s as u64));
        lemma_eval_fold_is_dp(g, cur, used, g.ns());
        assert(g.children(s as u64) == kids_spec(g.ns(), cur, used, g.ns()));
        lemma_kids_prefix(g.ns(), cur, used, g.ns(), g.ns());
    }
}

proof fn lemma_eval_fold_is_dp(g: &DpGraph, cur: int, used: int, j: int)
    requires
        g.inv(),
        0 <= cur < g.sv().len(),
        0 <= used < pow2(g.ns()),
        0 <= j <= g.ns(),
    ensures
        eval_fold(
            g,
            dp_enc(g.ns(), cur, used) as u64,
            kids_spec(g.ns(), cur, used, j).len() as int,
        ) == dp_fold(g.sv(), g.ns(), g.maxing(), cur, used, j),
    decreases g.sv().len() - cur, j,
{
    lemma_dp_wf(g);
    lemma_pow2_pos(g.ns());
    let p = pow2(g.ns());
    let s = dp_enc(g.ns(), cur, used);
    assert(pow2(40) == 0x100_0000_0000) by {
        reveal_with_fuel(pow2, 41);
    }
    lemma_pow2_mono(g.ns(), 40);
    lemma_enc_cap(cur + 1, p);
    assert(0 <= s <= u64::MAX) by (nonlinear_arith)
        requires
            s == cur * p + used,
            0 <= cur,
            0 <= used < p,
            0 <= (cur + 1) * p <= 0x10_0002 * 0x100_0000_0000,
    ;
    assert(s as u64 as int / p == cur && s as u64 as int % p == used) by {
        vstd::arithmetic::div_mod::lemma_fundamental_div_mod_converse(s, p, cur, used);
    }
    assert(!g.terminal(s as u64));
    assert(g.children(s as u64) == kids_spec(g.ns(), cur, used, g.ns()));
    assert(s < (g.sv().len() + 1) * p) by (nonlinear_arith)
        requires
            s == cur * p + used,
            cur <= g.sv().len(),
            0 <= used < p,
            p >= 1,
    ;
    lemma_enc_cap(g.sv().len() as int + 1, p);
    assert(g.bound() as int == (g.sv().len() + 1) * p);
    assert((s as u64) < g.bound());
    if j > 0 {
        lemma_eval_fold_is_dp(g, cur, used, j - 1);
        lemma_kids_prefix(g.ns(), cur, used, j - 1, g.ns());
        lemma_kids_prefix(g.ns(), cur, used, j, g.ns());
        let kprev = kids_spec(g.ns(), cur, used, j - 1);
        let kj = kids_spec(g.ns(), cur, used, j);
        if slot_free(used, j - 1) {
            let c = dp_enc(g.ns(), cur + 1, used + pow2(j - 1)) as u64;
            assert(kj =~= kprev.push(c));
            lemma_set_bit(used, j - 1, g.ns());
            lemma_pow2_pos(j - 1);
            lemma_eval_is_dp(g, cur + 1, used + pow2(j - 1));
            assert(g.children(s as u64)[kj.len() - 1] == c) by {
                assert(kj[kj.len() - 1] == c);
                assert(kj == kids_spec(g.ns(), cur, used, g.ns()).take(kj.len() as int));
                assert(kids_spec(g.ns(), cur, used, g.ns()).take(kj.len() as int)[kj.len() - 1]
                    == kids_spec(g.ns(), cur, used, g.ns())[kj.len() - 1]);
            }
            lemma_enc_cap(cur + 2, p);
            assert(0 <= dp_enc(g.ns(), cur + 1, used + pow2(j - 1)) <= u64::MAX) by (
            nonlinear_arith)
                requires
                    dp_enc(g.ns(), cur + 1, used + pow2(j - 1)) == (cur + 1) * p + (used + pow2(
                        j - 1,
                    )),
                    0 <= cur + 1,
                    0 <= used + pow2(j - 1) < p,
                    0 <= (cur + 2) * p <= 0x10_0002 * 0x100_0000_0000,
            ;
            assert(c as int % p == used + pow2(j - 1)) by {
                vstd::arithmetic::div_mod::lemma_fundamental_div_mod_converse(
                    c as int,
                    p,
                    cur + 1,
                    used + pow2(j - 1),
                );
            }
            lemma_bit_idx_pow2(j - 1);
            assert(g.combine_spec(
                s as u64,
                c,
                eval(g, c),
                eval_fold(g, s as u64, kprev.len() as int),
            ) == dp_fold(g.sv(), g.ns(), g.maxing(), cur, used, j));
        } else {
            assert(kj == kprev);
        }
    }
}

/// The score matrix: one row per move string, one column per start.
pub open spec fn matrix_spec(gv: Seq<Seq<u8>>, mvs: Seq<Seq<u8>>, starts: Seq<int>) -> Seq<
    Seq<u64>,
> {
    Seq::new(mvs.len(), |r: int| Seq::new(starts.len(), |j: int| score_spec(gv, mvs[r], starts[j]) as u64))
}

/// Part three's two totals: the move strings assigned to distinct starts,
/// minimising and maximising the summed scores.
pub open spec fn answer3_spec(bytes: Seq<u8>) -> Option<(u64, u64)> {
    let pr = parse_spec(bytes);
    let gv = pr.0;
    let mvs = pr.1;
    if !input_ok(gv, mvs) {
        None
    } else {
        let starts = starts_spec(gv[0], gv[0].len() as int);
        if starts.len() > 40 || mvs.len() > 0x10_0000 {
            None
        } else {
            let sc = matrix_spec(gv, mvs, starts);
            Some(
                (
                    dp_value(sc, starts.len() as int, false, 0, 0),
                    dp_value(sc, starts.len() as int, true, 0, 0),
                ),
            )
        }
    }
}

/// The rendered pair: the two totals in decimal, space separated.
pub open spec fn render_spec(m: u64, n: u64) -> Seq<char> {
    ascii_chars(dec_str(m as int) + seq![32u8] + dec_str(n as int))
}

/// Part three: assign each move string a distinct start; report the least
/// and greatest possible totals, space separated.
pub fn p3(input: &str) -> (r: Option<String>)
    ensures
        match r {
            Some(st) => answer3_spec(input.spec_bytes()) matches Some(mn) && st@ == render_spec(
                mn.0,
                mn.1,
            ),
            None => answer3_spec(input.spec_bytes()) is None,
        },
{
    let (grid, moves) = parse(input);
    let ghost gv = grid@.map_values(|l: Vec<u8>| l@);
    let ghost mvs = moves@.map_values(|l: Vec<u8>| l@);
    if !check_input(&grid, &moves) {
        return None;
    }
    proof {
        assert(gv[0] == grid@[0]@);
    }
    let starts = find_starts(&grid[0]);
    let ghost sts = starts_spec(gv[0], gv[0].len() as int);
    if starts.len() > 40 || moves.len() > 0x10_0000 {
        return None;
    }

    // The score matrix, built twice over: each graph consumes one copy.
    let mut scores: Vec<Vec<u64>> = Vec::new();
    let mut scores2: Vec<Vec<u64>> = Vec::new();
    let mut r: usize = 0;
    let ghost msp = matrix_spec(gv, mvs, sts);
    while r < moves.len()
        invariant
            r <= moves@.len(),
            gv == grid@.map_values(|l: Vec<u8>| l@),
            mvs == moves@.map_values(|l: Vec<u8>| l@),
            gv == parse_spec(input.spec_bytes()).0,
            mvs == parse_spec(input.spec_bytes()).1,
            input_ok(gv, mvs),
            sts == starts_spec(gv[0], gv[0].len() as int),
            msp == matrix_spec(gv, mvs, sts),
            starts@.map_values(|s2: usize| s2 as int) == sts,
            forall|q: int| 0 <= q < starts@.len() ==> #[trigger] starts@[q] < gv[0].len(),
            starts@.len() <= 40,
            moves@.len() <= 0x10_0000,
            scores@.len() == r,
            scores2@.len() == r,
            forall|q: int| 0 <= q < r ==> #[trigger] scores@[q]@ == msp[q],
            forall|q: int| 0 <= q < r ==> #[trigger] scores2@[q]@ == msp[q],
        decreases moves@.len() - r,
    {
        proof {
            assert(mvs[r as int] == moves@[r as int]@);
        }
        let mut rowv: Vec<u64> = Vec::new();
        let mut rowv2: Vec<u64> = Vec::new();
        let mut j: usize = 0;
        while j < starts.len()
            invariant
                j <= starts@.len(),
                r < moves@.len(),
                gv == grid@.map_values(|l: Vec<u8>| l@),
                mvs == moves@.map_values(|l: Vec<u8>| l@),
                input_ok(gv, mvs),
                mvs[r as int] == moves@[r as int]@,
                sts == starts_spec(gv[0], gv[0].len() as int),
                msp == matrix_spec(gv, mvs, sts),
                starts@.map_values(|s2: usize| s2 as int) == sts,
                forall|q: int| 0 <= q < starts@.len() ==> #[trigger] starts@[q] < gv[0].len(),
                rowv@.len() == j,
                rowv2@ == rowv@,
                forall|q: int| 0 <= q < j ==> #[trigger] rowv@[q] == msp[r as int][q],
            decreases starts@.len() - j,
        {
            proof {
                assert(starts@.map_values(|s2: usize| s2 as int)[j as int] == starts@[j as int] as int);
            }
            let sc = score(&grid, &moves[r], starts[j]);
            rowv.push(sc);
            rowv2.push(sc);
            j = j + 1;
        }
        proof {
            assert(rowv@ =~= msp[r as int]);
        }
        scores.push(rowv);
        scores2.push(rowv2);
        r = r + 1;
    }
    proof {
        assert(scores@.map_values(|rw: Vec<u64>| rw@) =~~= msp) by {
            assert forall|q: int| 0 <= q < msp.len() implies scores@.map_values(
                |rw: Vec<u64>| rw@,
            )[q] == msp[q] by {
                assert(scores@.map_values(|rw: Vec<u64>| rw@)[q] == scores@[q]@);
            }
        }
    }

    let nslots = starts.len();
    let gmin = DpGraph::new(scores, nslots, false);
    proof {
        use_type_invariant(&gmin);
        lemma_dp_wf(&gmin);
        lemma_pow2_pos(nslots as int);
        lemma_eval_is_dp(&gmin, 0, 0);
        assert(dp_enc(nslots as int, 0, 0) == 0) by (nonlinear_arith);
        assert(pow2(40) == 0x100_0000_0000) by {
            reveal_with_fuel(pow2, 41);
        }
        lemma_pow2_mono(nslots as int, 40);
        lemma_enc_cap(gmin.sv().len() as int + 1, pow2(nslots as int));
        assert(0 < (gmin.sv().len() + 1) * pow2(nslots as int)) by (nonlinear_arith)
            requires
                pow2(nslots as int) >= 1,
                gmin.sv().len() >= 0,
        ;
        assert(gmin.bound() as int == (gmin.sv().len() + 1) * pow2(nslots as int));
    }
    let m = evaluate(&gmin, 0);

    proof {
        assert(scores2@.map_values(|rw: Vec<u64>| rw@) =~~= msp) by {
            assert forall|q: int| 0 <= q < msp.len() implies scores2@.map_values(
                |rw: Vec<u64>| rw@,
            )[q] == msp[q] by {
                assert(scores2@.map_values(|rw: Vec<u64>| rw@)[q] == scores2@[q]@);
            }
        }
    }
    let gmax = DpGraph::new(scores2, nslots, true);
    proof {
        use_type_invariant(&gmax);
        lemma_dp_wf(&gmax);
        lemma_pow2_pos(nslots as int);
        lemma_eval_is_dp(&gmax, 0, 0);
        assert(dp_enc(nslots as int, 0, 0) == 0) by (nonlinear_arith);
        assert(pow2(40) == 0x100_0000_0000) by {
            reveal_with_fuel(pow2, 41);
        }
        lemma_pow2_mono(nslots as int, 40);
        lemma_enc_cap(gmax.sv().len() as int + 1, pow2(nslots as int));
        assert(0 < (gmax.sv().len() + 1) * pow2(nslots as int)) by (nonlinear_arith)
            requires
                pow2(nslots as int) >= 1,
                gmax.sv().len() >= 0,
        ;
        assert(gmax.bound() as int == (gmax.sv().len() + 1) * pow2(nslots as int));
    }
    let n = evaluate(&gmax, 0);

    let mdigits = dec_digits(m);
    let ndigits = dec_digits(n);
    let mut bytes = mdigits;
    bytes.push(32);
    let mut q: usize = 0;
    let ghost nb = ndigits@;
    while q < ndigits.len()
        invariant
            q <= ndigits@.len(),
            nb == ndigits@,
            bytes@ == dec_str(m as int) + seq![32u8] + nb.take(q as int),
        decreases ndigits@.len() - q,
    {
        bytes.push(ndigits[q]);
        proof {
            assert(bytes@ =~= dec_str(m as int) + seq![32u8] + nb.take(q + 1));
        }
        q = q + 1;
    }
    proof {
        assert(bytes@ =~= dec_str(m as int) + seq![32u8] + dec_str(n as int));
        lemma_dec_str_ascii(m as int);
        lemma_dec_str_ascii(n as int);
    }
    Some(ascii_string(&bytes))
}

proof fn lemma_dec_str_ascii(v: int)
    ensures
        forall|i: int| 0 <= i < dec_str(v).len() ==> #[trigger] dec_str(v)[i] < 128,
    decreases v,
{
    if v >= 10 {
        lemma_dec_str_ascii(v / 10);
        assert forall|i: int| 0 <= i < dec_str(v).len() implies #[trigger] dec_str(v)[i]
            < 128 by {
            if i < dec_str(v).len() - 1 {
                assert(dec_str(v)[i] == dec_str(v / 10)[i]);
            }
        }
    }
}


} // verus!
