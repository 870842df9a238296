//! Trampoline triangles: a triangular grid of cells, each a trampoline or
//! empty, each pointing up or down. Part one counts adjacent trampoline
//! pairs; parts two and three find the fewest hops from start to end with
//! the breadth-first engine, part three rotating the triangle before every
//! hop.

use vstd::prelude::*;
use vstd::string::{StrSliceExecFns, StringSliceAdditionalSpecFns};

use crate::search::{graph_closed, goal_in, reach, shortest_path, StateGraph};
use crate::text::{lines_spec, split_lines, trim_bytes, trim_spec};

verus! {

/// Whether a cell can be landed on.
#[derive(Clone, Copy, PartialEq, Eq, Structural)]
pub enum CellType {
    Trampoline,
    Empty,
}

/// Which way a triangular cell points.
#[derive(Clone, Copy, PartialEq, Eq, Structural)]
pub enum Edge {
    Up,
    Down,
}

/// One cell of the grid.
#[derive(Clone, Copy, PartialEq, Eq, Structural)]
pub struct Cell {
    pub typ: CellType,
    pub edge: Edge,
}

/// The cell a byte of the input denotes: `T`, `E` and `S` are trampolines.
pub open spec fn cell_type_spec(b: u8) -> CellType {
    if b == 84 || b == 69 || b == 83 {
        CellType::Trampoline
    } else {
        CellType::Empty
    }
}

impl Cell {
    /// The cell for one input byte and orientation.
    pub fn new(b: u8, dir: Edge) -> (r: Cell)
        ensures
            r.typ == cell_type_spec(b),
            r.edge == dir,
    {
        let typ = if b == 84 || b == 69 || b == 83 {
            CellType::Trampoline
        } else {
            CellType::Empty
        };
        Cell { typ, edge: dir }
    }
}

/// Row `r` of the grid keeps the bytes of line `r` from offset `r` up to
/// the first `.`; this is its length.
pub open spec fn row_len(line: Seq<u8>, r: int, j: int) -> int
    decreases line.len() - r - j,
{
    if r + j >= line.len() || j < 0 || r < 0 || line[r + j] == 46 {
        0
    } else {
        1 + row_len(line, r, j + 1)
    }
}

/// The cell at `(r, c)`: the line byte, with even columns pointing up.
pub open spec fn cell_spec(line: Seq<u8>, r: int, c: int) -> Cell {
    Cell {
        typ: cell_type_spec(line[r + c]),
        edge: if c % 2 == 0 {
            Edge::Up
        } else {
            Edge::Down
        },
    }
}

/// The column of the last byte equal to `m` among the first `j` cells of
/// row `r`, if any.
pub open spec fn row_marker(line: Seq<u8>, r: int, m: u8, j: int) -> Option<int>
    decreases j,
{
    if j <= 0 {
        None
    } else if line[r + j - 1] == m {
        Some(j - 1)
    } else {
        row_marker(line, r, m, j - 1)
    }
}

/// The row-major-last position of marker `m` within the first `n` rows.
pub open spec fn grid_marker(ls: Seq<Seq<u8>>, m: u8, n: int) -> Option<(int, int)>
    decreases n,
{
    if n <= 0 {
        None
    } else {
        match row_marker(ls[n - 1], n - 1, m, row_len(ls[n - 1], n - 1, 0)) {
            Some(c) => Some((n - 1, c)),
            None => grid_marker(ls, m, n - 1),
        }
    }
}

/// The parsed triangle.
pub struct Grid {
    pub cells: Vec<Vec<Cell>>,
    pub start_r: usize,
    pub start_c: usize,
    pub end_r: usize,
    pub end_c: usize,
    pub rotate: bool,
}

/// The model of the cells.
pub open spec fn cells_view(cells: Vec<Vec<Cell>>) -> Seq<Seq<Cell>> {
    cells@.map_values(|row: Vec<Cell>| row@)
}

/// Grids are kept small so that states pack into a `u64`.
pub const DIM_BOUND: usize = 0xffff;

impl Grid {
    pub open spec fn wf(self) -> bool {
        let cv = cells_view(self.cells);
        &&& cv.len() <= DIM_BOUND
        &&& forall|r: int| 0 <= r < cv.len() ==> #[trigger] cv[r].len() <= DIM_BOUND
    }
}

fn parse_row(line: &Vec<u8>, r: usize) -> (out: Vec<Cell>)
    ensures
        out@.len() == row_len(line@, r as int, 0),
        forall|c: int| 0 <= c < out@.len() ==> #[trigger] out@[c] == cell_spec(line@, r as int, c),
{
    let n = line.len();
    let mut out: Vec<Cell> = Vec::new();
    if r >= n {
        proof {
            assert(row_len(line@, r as int, 0) == 0);
        }
        return out;
    }
    let mut j: usize = 0;
    while r + j < n && line[r + j] != 46
        invariant
            r < n,
            n == line@.len(),
            r + j <= n,
            out@.len() == j,
            forall|c: int| 0 <= c < j ==> #[trigger] out@[c] == cell_spec(line@, r as int, c),
            row_len(line@, r as int, 0) == j + row_len(line@, r as int, j as int),
        decreases n - r - j,
    {
        let dir = if j % 2 == 0 {
            Edge::Up
        } else {
            Edge::Down
        };
        let cell = Cell::new(line[r + j], dir);
        out.push(cell);
        proof {
            assert(row_len(line@, r as int, j as int) == 1 + row_len(line@, r as int, j + 1));
        }
        j = j + 1;
    }
    proof {
        assert(row_len(line@, r as int, j as int) == 0);
    }
    out
}

fn find_row_marker(line: &Vec<u8>, r: usize, m: u8, len: usize) -> (out: Option<usize>)
    requires
        len == 0 || r + len <= line@.len(),
    ensures
        match out {
            Some(c) => row_marker(line@, r as int, m, len as int) == Some(c as int),
            None => row_marker(line@, r as int, m, len as int) is None,
        },
{
    if len == 0 {
        return None;
    }
    let n = line.len();
    let mut j: usize = len;
    while j > 0
        invariant
            j <= len,
            n == line@.len(),
            r + len <= line@.len(),
            row_marker(line@, r as int, m, len as int) == row_marker(line@, r as int, m, j as int),
        decreases j,
    {
        if line[r + j - 1] == m {
            return Some(j - 1);
        }
        j = j - 1;
    }
    None
}

/// Parses the triangle; `None` when it is too large to index.
pub fn parse(input: &str) -> (r: Option<Grid>)
    ensures
        match r {
            Some(g) => {
                let ls = lines_spec(trim_spec(input.spec_bytes()));
                &&& g.wf()
                &&& !g.rotate
                &&& cells_view(g.cells).len() == ls.len()
                &&& forall|q: int|
                    0 <= q < ls.len() ==> (#[trigger] cells_view(g.cells)[q]).len() == row_len(
                        ls[q],
                        q,
                        0,
                    ) && forall|c: int|
                        0 <= c < cells_view(g.cells)[q].len() ==> cells_view(g.cells)[q][c]
                            == cell_spec(ls[q], q, c)
                &&& match grid_marker(ls, 83, ls.len() as int) {
                    Some(pos) => g.start_r == pos.0 && g.start_c == pos.1,
                    None => g.start_r == 0 && g.start_c == 0,
                }
                &&& match grid_marker(ls, 69, ls.len() as int) {
                    Some(pos) => g.end_r == pos.0 && g.end_c == pos.1,
                    None => g.end_r == 0 && g.end_c == 0,
                }
            },
            None => {
                let ls = lines_spec(trim_spec(input.spec_bytes()));
                ls.len() > DIM_BOUND || exists|q: int|
                    0 <= q < ls.len() && row_len(#[trigger] ls[q], q, 0) > DIM_BOUND
            },
        },
{
    let bytes = input.as_bytes_vec();
    let trimmed = trim_bytes(&bytes);
    let ls = split_lines(&trimmed);
    let ghost lsv = lines_spec(trim_spec(input.spec_bytes()));
    if ls.len() > DIM_BOUND {
        return None;
    }
    let mut cells: Vec<Vec<Cell>> = Vec::new();
    let mut sr: usize = 0;
    let mut sc: usize = 0;
    let mut er: usize = 0;
    let mut ec: usize = 0;
    let mut r: usize = 0;
    while r < ls.len()
        invariant
            r <= ls@.len(),
            ls@.len() <= DIM_BOUND,
            lsv == lines_spec(trim_spec(input.spec_bytes())),
            ls@.map_values(|l: Vec<u8>| l@) == lsv,
            cells@.len() == r,
            forall|q: int|
                0 <= q < r ==> (#[trigger] cells@[q]@).len() == row_len(lsv[q], q, 0)
                    && cells@[q]@.len() <= DIM_BOUND && forall|c: int|
                    0 <= c < cells@[q]@.len() ==> cells@[q]@[c] == cell_spec(lsv[q], q, c),
            match grid_marker(lsv, 83, r as int) {
                Some(pos) => sr == pos.0 && sc == pos.1,
                None => sr == 0 && sc == 0,
            },
            match grid_marker(lsv, 69, r as int) {
                Some(pos) => er == pos.0 && ec == pos.1,
                None => er == 0 && ec == 0,
            },
        decreases ls@.len() - r,
    {
        proof {
            assert(ls@.map_values(|l: Vec<u8>| l@)[r as int] == ls@[r as int]@);
        }
        let row = parse_row(&ls[r], r);
        if row.len() > DIM_BOUND {
            proof {
                assert(row_len(lsv[r as int], r as int, 0) > DIM_BOUND);
            }
            return None;
        }
        proof {
            lemma_row_len_bound(ls@[r as int]@, r as int, 0);
            assert(row@.len() == 0 || r + row@.len() <= ls@[r as int]@.len());
        }
        match find_row_marker(&ls[r], r, 83, row.len()) {
            Some(c) => {
                sr = r;
                sc = c;
            },
            None => {},
        }
        match find_row_marker(&ls[r], r, 69, row.len()) {
            Some(c) => {
                er = r;
                ec = c;
            },
            None => {},
        }
        cells.push(row);
        r = r + 1;
    }
    let g = Grid { cells, start_r: sr, start_c: sc, end_r: er, end_c: ec, rotate: false };
    proof {
        assert forall|q: int| 0 <= q < lsv.len() implies (#[trigger] cells_view(g.cells)[q]).len()
            == row_len(lsv[q], q, 0) && forall|c: int|
            0 <= c < cells_view(g.cells)[q].len() ==> cells_view(g.cells)[q][c] == cell_spec(
                lsv[q],
                q,
                c,
            ) by {
            assert(cells_view(g.cells)[q] == g.cells@[q]@);
        }
        assert(g.wf()) by {
            assert forall|q: int| 0 <= q < cells_view(g.cells).len() implies #[trigger] cells_view(
                g.cells,
            )[q].len() <= DIM_BOUND by {
                assert(cells_view(g.cells)[q] == g.cells@[q]@);
            }
        }
    }
    Some(g)
}

proof fn lemma_row_len_bound(line: Seq<u8>, r: int, j: int)
    requires
        0 <= r,
        0 <= j,
    ensures
        r + j + row_len(line, r, j) <= line.len() || row_len(line, r, j) == 0,
    decreases line.len() - r - j,
{
    if !(r + j >= line.len() || line[r + j] == 46) {
        lemma_row_len_bound(line, r, j + 1);
        assert(row_len(line, r, j) == 1 + row_len(line, r, j + 1));
        if row_len(line, r, j + 1) == 0 {
            assert(r + j + 1 <= line.len());
        }
    }
}

/// The triangle rotated a third of a turn: where a cell lands.
pub open spec fn rotate_spec(rows: int, r: int, c: int) -> (int, int) {
    let nr = rows - 1 - r - ((c + 1) / 2);
    let nc = if c % 2 == 0 {
        2 * r
    } else {
        2 * r + 1
    };
    (nr, nc)
}

/// Where the rotation carries `(r, c)`, when that lands on a trampoline
/// inside the grid.
pub open spec fn rot_landing(cv: Seq<Seq<Cell>>, r: int, c: int) -> Option<(int, int)> {
    let rot = rotate_spec(cv.len() as int, r, c);
    if 0 <= rot.0 < cv.len() && 0 <= rot.1 < cv[rot.0].len() {
        Some(rot)
    } else {
        None
    }
}

/// The effective position after an optional rotation.
pub open spec fn hop_cur(cv: Seq<Seq<Cell>>, rotate: bool, r: int, c: int) -> (int, int) {
    if rotate {
        match rot_landing(cv, r, c) {
            Some(rot) => rot,
            None => (r, c),
        }
    } else {
        (r, c)
    }
}

/// The rotated position itself, when it is a trampoline.
pub open spec fn hop_base(cv: Seq<Seq<Cell>>, rotate: bool, r: int, c: int) -> Seq<(int, int)> {
    if rotate {
        match rot_landing(cv, r, c) {
            Some(rot) => if cv[rot.0][rot.1].typ == CellType::Trampoline {
                seq![rot]
            } else {
                Seq::empty()
            },
            None => Seq::empty(),
        }
    } else {
        Seq::empty()
    }
}

/// The trampoline to the left, if any.
pub open spec fn hop_left(cv: Seq<Seq<Cell>>, rr: int, cc: int) -> Seq<(int, int)> {
    if cc > 0 && cv[rr][cc - 1].typ == CellType::Trampoline {
        seq![(rr, cc - 1)]
    } else {
        Seq::empty()
    }
}

/// The trampoline to the right, if any.
pub open spec fn hop_right(cv: Seq<Seq<Cell>>, rr: int, cc: int) -> Seq<(int, int)> {
    if cc + 1 < cv[rr].len() && cv[rr][cc + 1].typ == CellType::Trampoline {
        seq![(rr, cc + 1)]
    } else {
        Seq::empty()
    }
}

/// The trampoline across the touching edge, if any.
pub open spec fn hop_vert(cv: Seq<Seq<Cell>>, rr: int, cc: int) -> Seq<(int, int)> {
    if cv[rr][cc].edge == Edge::Up {
        if rr > 0 && cc + 1 < cv[rr - 1].len() && cv[rr - 1][cc + 1].typ == CellType::Trampoline {
            seq![(rr - 1, cc + 1)]
        } else {
            Seq::empty()
        }
    } else {
        if rr + 1 < cv.len() && cc >= 1 && cc - 1 < cv[rr + 1].len() && cv[rr + 1][cc - 1].typ
            == CellType::Trampoline {
            seq![(rr + 1, cc - 1)]
        } else {
            Seq::empty()
        }
    }
}

/// Positions reachable in one hop.
pub open spec fn hop_targets(cv: Seq<Seq<Cell>>, rotate: bool, r: int, c: int) -> Seq<(int, int)> {
    if !(0 <= r < cv.len() && 0 <= c < cv[r].len()) {
        Seq::empty()
    } else {
        let cur = hop_cur(cv, rotate, r, c);
        hop_base(cv, rotate, r, c) + hop_left(cv, cur.0, cur.1) + hop_right(cv, cur.0, cur.1)
            + hop_vert(cv, cur.0, cur.1)
    }
}

/// A grid position packed into a search state.
pub open spec fn encode(r: int, c: int) -> int {
    r * (DIM_BOUND + 1) + c
}

/// The hop targets of a packed state, packed again.
pub open spec fn code_targets(cv: Seq<Seq<Cell>>, rotate: bool, s: u64) -> Seq<u64> {
    let r = s as int / (DIM_BOUND + 1) as int;
    let c = s as int % (DIM_BOUND + 1) as int;
    hop_targets(cv, rotate, r, c).map_values(|p: (int, int)| encode(p.0, p.1) as u64)
}

/// The packed states reachable in at most `k` hops, mirroring the engine's
/// `reach` for this grid.
pub open spec fn creach(cv: Seq<Seq<Cell>>, rotate: bool, start: u64, k: nat) -> Set<u64>
    decreases k,
{
    if k == 0 {
        Set::<u64>::empty().insert(start)
    } else {
        let prev = creach(cv, rotate, start, (k - 1) as nat);
        prev.union(
            Set::new(
                |t: u64| exists|s: u64| #[trigger] prev.contains(s) && code_targets(
                    cv,
                    rotate,
                    s,
                ).contains(t),
            ),
        )
    }
}

/// The grid seen by the breadth-first engine.
pub struct HopGraph {
    cells: Vec<Vec<Cell>>,
    rotate: bool,
    end_code: u64,
}

impl HopGraph {
    #[verifier::type_invariant]
    spec fn inv(self) -> bool {
        &&& cells_view(self.cells).len() <= DIM_BOUND
        &&& forall|r: int|
            0 <= r < cells_view(self.cells).len() ==> (#[trigger] cells_view(self.cells)[r]).len()
                <= DIM_BOUND
    }

    /// The grid's cells.
    pub closed spec fn cv(self) -> Seq<Seq<Cell>> {
        cells_view(self.cells)
    }

    /// Whether hops rotate the triangle first.
    pub closed spec fn rot(self) -> bool {
        self.rotate
    }

    /// The packed goal state.
    pub closed spec fn end_of(self) -> u64 {
        self.end_code
    }

    /// Wraps a parsed grid for the engine.
    pub fn new(cells: Vec<Vec<Cell>>, rotate: bool, end_code: u64) -> (g: HopGraph)
        requires
            cells_view(cells).len() <= DIM_BOUND,
            forall|r: int|
                0 <= r < cells_view(cells).len() ==> (#[trigger] cells_view(cells)[r]).len()
                    <= DIM_BOUND,
        ensures
            g.cv() == cells_view(cells),
            g.rot() == rotate,
            g.end_of() == end_code,
    {
        HopGraph { cells, rotate, end_code }
    }

    /// The effective position after an optional rotation, together with
    /// the rotated landing when it is a trampoline.
    #[verifier::rlimit(60)]
    #[verifier::spinoff_prover]
    fn rotated(&self, r: usize, c: usize) -> (res: (usize, usize, Vec<(usize, usize)>))
        requires
            r < cells_view(self.cells).len(),
            c < cells_view(self.cells)[r as int].len(),
        ensures
            (res.0 as int, res.1 as int) == hop_cur(self.cv(), self.rot(), r as int, c as int),
            res.2@.map_values(|p: (usize, usize)| (p.0 as int, p.1 as int)) == hop_base(
                self.cv(),
                self.rot(),
                r as int,
                c as int,
            ),
            res.0 < self.cv().len(),
            res.1 < self.cv()[res.0 as int].len(),
            forall|k: int|
                0 <= k < res.2@.len() ==> (#[trigger] res.2@[k]).0 < self.cv().len()
                    && res.2@[k].1 < self.cv()[res.2@[k].0 as int].len(),
    {
        proof {
            use_type_invariant(&*self);
        }
        let ghost cv = cells_view(self.cells);
        let mut out: Vec<(usize, usize)> = Vec::new();
        let rows = self.cells.len();
        let mut rr = r;
        let mut cc = c;
        proof {
            assert(cv[r as int] == self.cells@[r as int]@);
        }
        if self.rotate {
            let down = rows - 1;
            let half = (c + 1) / 2;
            let nc = if c % 2 == 0 {
                2 * r
            } else {
                2 * r + 1
            };
            let mut landed = false;
            if down >= r + half {
                let nr = down - r - half;
                if nr < rows {
                    proof {
                        assert(cv[nr as int] == self.cells@[nr as int]@);
                    }
                    if nc < self.cells[nr].len() {
                        proof {
                            assert(rot_landing(cv, r as int, c as int) == Some(
                                (nr as int, nc as int),
                            ));
                        }
                        if self.cells[nr][nc].typ == CellType::Trampoline {
                            out.push((nr, nc));
                        }
                        rr = nr;
                        cc = nc;
                        landed = true;
                    }
                }
            }
            proof {
                if !landed {
                    assert(rot_landing(cv, r as int, c as int) is None);
                }
            }
        }
        proof {
            assert(out@.map_values(|p: (usize, usize)| (p.0 as int, p.1 as int)) =~= hop_base(
                cv,
                self.rotate,
                r as int,
                c as int,
            ));
        }
        (rr, cc, out)
    }

    /// The hop targets from `(r, c)`, in a fixed order.
    #[verifier::rlimit(100)]
    #[verifier::spinoff_prover]
    fn neighbors_of(&self, r: usize, c: usize) -> (out: Vec<(usize, usize)>)
        ensures
            out@.map_values(|p: (usize, usize)| (p.0 as int, p.1 as int)) == hop_targets(
                self.cv(),
                self.rot(),
                r as int,
                c as int,
            ),
            forall|k: int|
                0 <= k < out@.len() ==> (#[trigger] out@[k]).0 < self.cv().len() && out@[k].1
                    < self.cv()[out@[k].0 as int].len(),
    {
        proof {
            use_type_invariant(&*self);
        }
        let ghost cv = cells_view(self.cells);
        if !(r < self.cells.len() && c < self.cells[r].len()) {
            let out: Vec<(usize, usize)> = Vec::new();
            proof {
                if r < self.cells@.len() {
                    assert(cv[r as int] == self.cells@[r as int]@);
                }
                assert(out@.map_values(|p: (usize, usize)| (p.0 as int, p.1 as int)) =~= hop_targets(
                    cv,
                    self.rotate,
                    r as int,
                    c as int,
                ));
            }
            return out;
        }
        proof {
            assert(cv[r as int] == self.cells@[r as int]@);
        }
        let (rr, cc, mut out) = self.rotated(r, c);
        let rows = self.cells.len();
        proof {
            assert(cv[rr as int] == self.cells@[rr as int]@);
        }
        let ghost stage0 = out@;
        // Left.
        if cc > 0 {
            if self.cells[rr][cc - 1].typ == CellType::Trampoline {
                out.push((rr, cc - 1));
            }
        }
        proof {
            assert(out@.map_values(|p: (usize, usize)| (p.0 as int, p.1 as int)) =~= stage0
                .map_values(|p: (usize, usize)| (p.0 as int, p.1 as int)) + hop_left(
                cv,
                rr as int,
                cc as int,
            ));
        }
        let ghost stage1 = out@;
        // Right.
        if cc + 1 < self.cells[rr].len() {
            if self.cells[rr][cc + 1].typ == CellType::Trampoline {
                out.push((rr, cc + 1));
            }
        }
        proof {
            assert(out@.map_values(|p: (usize, usize)| (p.0 as int, p.1 as int)) =~= stage1
                .map_values(|p: (usize, usize)| (p.0 as int, p.1 as int)) + hop_right(
                cv,
                rr as int,
                cc as int,
            ));
        }
        let ghost stage2 = out@;
        // Along the touching edge.
        if self.cells[rr][cc].edge == Edge::Up {
            if rr > 0 {
                proof {
                    assert(cv[rr - 1] == self.cells@[rr - 1]@);
                }
                if cc + 1 < self.cells[rr - 1].len() {
                    if self.cells[rr - 1][cc + 1].typ == CellType::Trampoline {
                        out.push((rr - 1, cc + 1));
                    }
                }
            }
        } else {
            if rr + 1 < rows && cc >= 1 {
                proof {
                    assert(cv[rr + 1] == self.cells@[rr + 1]@);
                }
                if cc - 1 < self.cells[rr + 1].len() {
                    if self.cells[rr + 1][cc - 1].typ == CellType::Trampoline {
                        out.push((rr + 1, cc - 1));
                    }
                }
            }
        }
        proof {
            assert(out@.map_values(|p: (usize, usize)| (p.0 as int, p.1 as int)) =~= stage2
                .map_values(|p: (usize, usize)| (p.0 as int, p.1 as int)) + hop_vert(
                cv,
                rr as int,
                cc as int,
            ));
            assert(out@.map_values(|p: (usize, usize)| (p.0 as int, p.1 as int)) =~= hop_targets(
                cv,
                self.rotate,
                r as int,
                c as int,
            ));
        }
        out
    }
}

impl StateGraph for HopGraph {
    closed spec fn bound(&self) -> u64 {
        ((DIM_BOUND + 1) * (DIM_BOUND + 1)) as u64
    }

    closed spec fn nbrs(&self, s: u64) -> Seq<u64> {
        code_targets(cells_view(self.cells), self.rotate, s)
    }

    closed spec fn goal(&self, s: u64) -> bool {
        s == self.end_code
    }

    fn neighbors(&self, s: u64) -> (out: Vec<u64>) {
        proof {
            use_type_invariant(&*self);
        }
        let dim: u64 = (DIM_BOUND + 1) as u64;
        let r = (s / dim) as usize;
        let c = (s % dim) as usize;
        let hops = self.neighbors_of(r, c);
        let mut out: Vec<u64> = Vec::new();
        let mut k: usize = 0;
        while k < hops.len()
            invariant
                k <= hops@.len(),
                cells_view(self.cells).len() <= DIM_BOUND,
                forall|r2: int|
                    0 <= r2 < cells_view(self.cells).len() ==> (#[trigger] cells_view(
                        self.cells,
                    )[r2]).len() <= DIM_BOUND,
                forall|q: int|
                    0 <= q < hops@.len() ==> (#[trigger] hops@[q]).0 < cells_view(
                        self.cells,
                    ).len() && hops@[q].1 < cells_view(self.cells)[hops@[q].0 as int].len(),
                out@.len() == k,
                forall|q: int|
                    0 <= q < k ==> #[trigger] out@[q] as int == encode(
                        hops@[q].0 as int,
                        hops@[q].1 as int,
                    ),
            decreases hops@.len() - k,
        {
            let (hr, hc) = hops[k];
            proof {
                assert(hops@[k as int].0 < cells_view(self.cells).len());
                assert(cells_view(self.cells)[hr as int].len() <= DIM_BOUND);
            }
            let code: u64 = (hr as u64) * ((DIM_BOUND + 1) as u64) + (hc as u64);
            out.push(code);
            k = k + 1;
        }
        proof {
            let cv = cells_view(self.cells);
            let ht = hop_targets(cv, self.rotate, s as int / (DIM_BOUND + 1) as int, s as int % (
            DIM_BOUND + 1) as int);
            assert(hops@.map_values(|p: (usize, usize)| (p.0 as int, p.1 as int)) == ht);
            assert(out@ =~= self.nbrs(s)) by {
                assert(self.nbrs(s) == ht.map_values(|p: (int, int)| encode(p.0, p.1) as u64));
                assert forall|q: int| 0 <= q < out@.len() implies out@[q] == self.nbrs(s)[q] by {
                    assert(ht[q] == (hops@[q].0 as int, hops@[q].1 as int));
                }
            }
        }
        out
    }

    fn is_goal(&self, s: u64) -> (res: bool) {
        s == self.end_code
    }
}

/// Every hop target is in bounds, so the packed graph stays below the
/// engine bound.
proof fn lemma_hop_closed(g: &HopGraph)
    requires
        g.inv(),
    ensures
        graph_closed(g),
{
    assert forall|s: u64, k: int| s < g.bound() && 0 <= k < g.nbrs(s).len() implies #[trigger] g
        .nbrs(s)[k] < g.bound() by {
        let cv = g.cv();
        let r = s as int / (DIM_BOUND + 1) as int;
        let c = s as int % (DIM_BOUND + 1) as int;
        let ht = hop_targets(cv, g.rot(), r, c);
        assert(g.nbrs(s)[k] == encode(ht[k].0, ht[k].1) as u64);
        lemma_hop_targets_bounded(cv, g.rot(), r, c);
        assert(0 <= ht[k].0 < cv.len() && 0 <= ht[k].1 < cv[ht[k].0].len());
        assert(encode(ht[k].0, ht[k].1) < (DIM_BOUND + 1) * (DIM_BOUND + 1)) by (nonlinear_arith)
            requires
                0 <= ht[k].0 <= DIM_BOUND,
                0 <= ht[k].1 <= DIM_BOUND,
                encode(ht[k].0, ht[k].1) == ht[k].0 * (DIM_BOUND + 1) + ht[k].1,
        ;
    }
}

proof fn lemma_hop_targets_bounded(cv: Seq<Seq<Cell>>, rotate: bool, r: int, c: int)
    ensures
        forall|k: int|
            0 <= k < hop_targets(cv, rotate, r, c).len() ==> {
                let p = #[trigger] hop_targets(cv, rotate, r, c)[k];
                0 <= p.0 < cv.len() && 0 <= p.1 < cv[p.0].len()
            },
{
}

/// The engine's reachable set and this module's mirror agree.
proof fn lemma_reach_creach(g: &HopGraph, start: u64, k: nat)
    ensures
        reach(g, start, k) == creach(g.cv(), g.rot(), start, k),
    decreases k,
{
    if k > 0 {
        lemma_reach_creach(g, start, (k - 1) as nat);
        assert(reach(g, start, k) =~= creach(g.cv(), g.rot(), start, k)) by {
            assert(forall|s: u64| g.nbrs(s) == code_targets(g.cv(), g.rot(), s));
        }
    } else {
        assert(reach(g, start, k) =~= creach(g.cv(), g.rot(), start, k));
    }
}

/// The parsed cell grid of an input.
pub open spec fn grid_cells_spec(ls: Seq<Seq<u8>>) -> Seq<Seq<Cell>> {
    Seq::new(ls.len(), |r: int| Seq::new(row_len(ls[r], r, 0) as nat, |c: int| cell_spec(ls[r], r, c)))
}

/// A marker position, with `(0, 0)` when the marker is absent.
pub open spec fn marker_or_origin(ls: Seq<Seq<u8>>, m: u8) -> (int, int) {
    match grid_marker(ls, m, ls.len() as int) {
        Some(pos) => pos,
        None => (0, 0),
    }
}

/// The input is small enough to pack positions into the engine's states.
pub open spec fn grid_ok(ls: Seq<Seq<u8>>) -> bool {
    ls.len() <= DIM_BOUND && forall|q: int|
        0 <= q < ls.len() ==> row_len(#[trigger] ls[q], q, 0) <= DIM_BOUND
}

proof fn lemma_row_marker_bounds(line: Seq<u8>, r: int, m: u8, j: int)
    ensures
        row_marker(line, r, m, j) matches Some(c) ==> 0 <= c < j,
    decreases j,
{
    if j > 0 {
        lemma_row_marker_bounds(line, r, m, j - 1);
    }
}

proof fn lemma_grid_marker_bounds(ls: Seq<Seq<u8>>, m: u8, n: int)
    requires
        n <= ls.len(),
    ensures
        grid_marker(ls, m, n) matches Some(pos) ==> 0 <= pos.0 < n && 0 <= pos.1 < row_len(
            ls[pos.0],
            pos.0,
            0,
        ),
    decreases n,
{
    if n > 0 {
        lemma_grid_marker_bounds(ls, m, n - 1);
        lemma_row_marker_bounds(ls[n - 1], n - 1, m, row_len(ls[n - 1], n - 1, 0));
    }
}

/// The fewest hops from the start marker to the end marker, rotating first
/// when `rotate` is set. `None` when the grid is too large or the end is
/// unreachable.
pub open spec fn hops_answer(bytes: Seq<u8>, rotate: bool, r: Option<u64>) -> bool {
    let ls = lines_spec(trim_spec(bytes));
    let cv = grid_cells_spec(ls);
    let start = marker_or_origin(ls, 83);
    let endp = marker_or_origin(ls, 69);
    let sc = encode(start.0, start.1) as u64;
    let ec = encode(endp.0, endp.1) as u64;
    match r {
        Some(d) => grid_ok(ls) && creach(cv, rotate, sc, d as nat).contains(ec) && (d > 0
            ==> !creach(cv, rotate, sc, (d - 1) as nat).contains(ec)),
        None => !grid_ok(ls) || forall|k: nat| !#[trigger] creach(cv, rotate, sc, k).contains(ec),
    }
}

fn solve(input: &str, rotate: bool) -> (r: Option<u64>)
    ensures
        hops_answer(input.spec_bytes(), rotate, r),
{
    let ghost ls = lines_spec(trim_spec(input.spec_bytes()));
    let grid = match parse(input) {
        Some(g) => g,
        None => {
            return None;
        },
    };
    proof {
        assert(grid_ok(ls)) by {
            assert forall|q: int| 0 <= q < ls.len() implies row_len(#[trigger] ls[q], q, 0)
                <= DIM_BOUND by {
                assert(cells_view(grid.cells)[q].len() == row_len(ls[q], q, 0));
            }
        }
        lemma_grid_marker_bounds(ls, 83, ls.len() as int);
        lemma_grid_marker_bounds(ls, 69, ls.len() as int);
    }
    let dim: u64 = (DIM_BOUND + 1) as u64;
    let start_code: u64 = (grid.start_r as u64) * dim + (grid.start_c as u64);
    let end_code: u64 = (grid.end_r as u64) * dim + (grid.end_c as u64);
    let ghost cvg = cells_view(grid.cells);
    proof {
        assert(cvg =~~= grid_cells_spec(ls)) by {
            assert forall|q: int| 0 <= q < ls.len() implies cvg[q] =~= grid_cells_spec(ls)[q] by {
                assert(cvg[q].len() == row_len(ls[q], q, 0));
            }
        }
        assert(start_code as int == encode(grid.start_r as int, grid.start_c as int));
        assert(end_code as int == encode(grid.end_r as int, grid.end_c as int));
    }
    let graph = HopGraph::new(grid.cells, rotate, end_code);
    proof {
        use_type_invariant(&graph);
        lemma_hop_closed(&graph);
        assert(start_code < graph.bound()) by (nonlinear_arith)
            requires
                start_code as int == (grid.start_r as int) * ((DIM_BOUND + 1) as int)
                    + grid.start_c as int,
                0 <= grid.start_r as int <= DIM_BOUND,
                0 <= grid.start_c as int <= DIM_BOUND,
                graph.bound() as int == ((DIM_BOUND + 1) * (DIM_BOUND + 1)) as int,
        ;
    }
    let res = shortest_path(&graph, start_code);
    proof {
        match res {
            Ok(d) => {
                lemma_reach_creach(&graph, start_code, d as nat);
                if d > 0 {
                    lemma_reach_creach(&graph, start_code, (d - 1) as nat);
                }
                assert(goal_in(&graph, reach(&graph, start_code, d as nat)));
                let w = choose|s: u64|
                    reach(&graph, start_code, d as nat).contains(s) && #[trigger] graph.goal(s);
                assert(w == end_code);
                if d > 0 {
                    if creach(cvg, rotate, start_code, (d - 1) as nat).contains(end_code) {
                        assert(reach(&graph, start_code, (d - 1) as nat).contains(end_code));
                        assert(graph.goal(end_code));
                        assert(goal_in(&graph, reach(&graph, start_code, (d - 1) as nat)));
                    }
                }
            },
            Err(_) => {
                assert forall|k: nat| !#[trigger] creach(cvg, rotate, start_code, k).contains(
                    end_code,
                ) by {
                    lemma_reach_creach(&graph, start_code, k);
                    if creach(cvg, rotate, start_code, k).contains(end_code) {
                        assert(graph.goal(end_code));
                        assert(goal_in(&graph, reach(&graph, start_code, k)));
                    }
                }
            },
        }
    }
    match res {
        Ok(d) => Some(d),
        Err(_) => None,
    }
}

/// Counted pairs of touching trampolines in one row prefix: a trampoline
/// with a trampoline to its right, plus a down-pointing cell whose
/// neighbor below is an up-pointing trampoline.
pub open spec fn adj_row(cv: Seq<Seq<Cell>>, r: int, c: int) -> int
    decreases c,
{
    if c <= 0 || r < 0 || r >= cv.len() {
        0
    } else {
        adj_row(cv, r, c - 1) + adj_cell(cv, r, c - 1)
    }
}

/// The pairs counted at one cell.
pub open spec fn adj_cell(cv: Seq<Seq<Cell>>, r: int, c: int) -> int {
    if !(0 <= r < cv.len() - 1 && 0 <= c < cv[r].len() - 1) {
        0
    } else if cv[r][c].typ == CellType::Empty {
        0
    } else {
        (if cv[r][c + 1].typ == CellType::Trampoline {
            1int
        } else {
            0int
        }) + (if cv[r][c].edge == Edge::Down && c >= 1 && c - 1 < cv[r + 1].len() && cv[r + 1][c
            - 1].typ == CellType::Trampoline && cv[r + 1][c - 1].edge == Edge::Up {
            1int
        } else {
            0int
        })
    }
}

/// The pair count over the first `r` rows.
pub open spec fn adj_total(cv: Seq<Seq<Cell>>, r: int) -> int
    decreases r,
{
    if r <= 0 {
        0
    } else {
        adj_total(cv, r - 1) + adj_row(cv, r - 1, if cv[r - 1].len() > 0 {
            cv[r - 1].len() - 1
        } else {
            0
        })
    }
}

/// Part one: count touching trampoline pairs. `None` when the grid is too
/// large to index.
pub fn p1(input: &str) -> (r: Option<u64>)
    ensures
        ({
            let ls = lines_spec(trim_spec(input.spec_bytes()));
            match r {
                Some(v) => grid_ok(ls) && v as int == adj_total(
                    grid_cells_spec(ls),
                    grid_cells_spec(ls).len() as int,
                ),
                None => !grid_ok(ls),
            }
        }),
{
    let ghost ls = lines_spec(trim_spec(input.spec_bytes()));
    let grid = match parse(input) {
        Some(g) => g,
        None => {
            return None;
        },
    };
    proof {
        assert(grid_ok(ls)) by {
            assert forall|q: int| 0 <= q < ls.len() implies row_len(#[trigger] ls[q], q, 0)
                <= DIM_BOUND by {
                assert(cells_view(grid.cells)[q].len() == row_len(ls[q], q, 0));
            }
        }
    }
    let ghost cv = cells_view(grid.cells);
    proof {
        assert(cv =~~= grid_cells_spec(ls)) by {
            assert forall|q: int| 0 <= q < ls.len() implies cv[q] =~= grid_cells_spec(ls)[q] by {
                assert(cv[q].len() == row_len(ls[q], q, 0));
            }
        }
    }
    let mut total: u64 = 0;
    let mut r: usize = 0;
    while r < grid.cells.len()
        invariant
            r <= grid.cells@.len(),
            cv == cells_view(grid.cells),
            cv.len() <= DIM_BOUND,
            forall|q: int| 0 <= q < cv.len() ==> (#[trigger] cv[q]).len() <= DIM_BOUND,
            total as int == adj_total(cv, r as int),
            total <= 0x2_0000_0000u64 * (r as u64),
        decreases grid.cells@.len() - r,
    {
        proof {
            assert(cv[r as int] == grid.cells@[r as int]@);
        }
        let w = grid.cells[r].len();
        let lim = if w > 0 {
            w - 1
        } else {
            0
        };
        let mut c: usize = 0;
        let mut rowtotal: u64 = 0;
        while c < lim
            invariant
                c <= lim,
                r < grid.cells@.len(),
                cv == cells_view(grid.cells),
                cv.len() <= DIM_BOUND,
                forall|q: int| 0 <= q < cv.len() ==> (#[trigger] cv[q]).len() <= DIM_BOUND,
                cv[r as int] == grid.cells@[r as int]@,
                w == cv[r as int].len(),
                lim == (if w > 0 {
                    w - 1
                } else {
                    0
                }),
                rowtotal as int == adj_row(cv, r as int, c as int),
                rowtotal <= 2 * (c as u64),
            decreases lim - c,
        {
            let mut here: u64 = 0;
            if r + 1 < grid.cells.len() {
                proof {
                    assert(cv[r + 1] == grid.cells@[r + 1]@);
                }
                if grid.cells[r][c].typ == CellType::Trampoline || grid.cells[r][c].typ
                    != CellType::Empty {
                    if grid.cells[r][c + 1].typ == CellType::Trampoline {
                        here = here + 1;
                    }
                    if grid.cells[r][c].edge == Edge::Down && c >= 1 {
                        if c - 1 < grid.cells[r + 1].len() {
                            if grid.cells[r + 1][c - 1].typ == CellType::Trampoline
                                && grid.cells[r + 1][c - 1].edge == Edge::Up {
                                here = here + 1;
                            }
                        }
                    }
                }
            }
            proof {
                assert(here as int == adj_cell(cv, r as int, c as int));
            }
            rowtotal = rowtotal + here;
            c = c + 1;
        }
        proof {
            assert(adj_row(cv, r as int, lim as int) == rowtotal as int);
            assert(adj_total(cv, r + 1) == adj_total(cv, r as int) + adj_row(
                cv,
                r as int,
                if cv[r as int].len() > 0 {
                    cv[r as int].len() - 1
                } else {
                    0
                },
            ));
        }
        total = total + rowtotal;
        r = r + 1;
    }
    Some(total)
}

/// Part two: fewest hops from start to end.
pub fn p2(input: &str) -> (r: Option<u64>)
    ensures
        hops_answer(input.spec_bytes(), false, r),
{
    solve(input, false)
}

/// Part three: fewest hops when every hop first rides the rotation.
pub fn p3(input: &str) -> (r: Option<u64>)
    ensures
        hops_answer(input.spec_bytes(), true, r),
{
    solve(input, true)
}


} // verus!
