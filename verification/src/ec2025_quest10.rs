//! Knight moves on a sheep-and-dragon board: squares, and the game state
//! the search explores.

use vstd::prelude::*;

verus! {

/// Whose turn it is.
#[derive(Clone, Copy, PartialEq, Eq, Structural)]
pub enum Turn {
    Dragon,
    Sheep,
}

/// A board square.
#[derive(Clone, Copy, PartialEq, Eq, Structural)]
pub struct Square {
    pub column: i64,
    pub row: i64,
}

/// The eight knight moves.
pub open spec fn knight_deltas() -> Seq<(int, int)> {
    seq![(-2, -1), (-2, 1), (2, -1), (2, 1), (1, 2), (-1, 2), (1, -2), (-1, -2)]
}

/// The in-bounds knight moves from a square, in a fixed order.
pub open spec fn knight_moves(sq: Square, columns: int, rows: int, k: int) -> Seq<Square>
    decreases k,
{
    if k <= 0 {
        Seq::empty()
    } else {
        let d = knight_deltas()[k - 1];
        let nc = sq.column + d.0;
        let nr = sq.row + d.1;
        knight_moves(sq, columns, rows, k - 1) + (if 0 <= nc < columns && 0 <= nr < rows {
            seq![Square { column: nc as i64, row: nr as i64 }]
        } else {
            Seq::<Square>::empty()
        })
    }
}

impl Square {
    /// The square at a column and row.
    pub fn new(column: usize, row: usize) -> (r: Square)
        requires
            column <= 0x7fff_ffff_ffff_ffff,
            row <= 0x7fff_ffff_ffff_ffff,
        ensures
            r.column == column,
            r.row == row,
    {
        Square { column: column as i64, row: row as i64 }
    }

    /// All knight moves that stay on a `columns` by `rows` board.
    pub fn neighbors(&self, columns: i64, rows: i64) -> (r: Vec<Square>)
        requires
            -0x1000_0000_0000 <= self.column <= 0x1000_0000_0000,
            -0x1000_0000_0000 <= self.row <= 0x1000_0000_0000,
        ensures
            r@ == knight_moves(*self, columns as int, rows as int, 8),
    {
        let mut r: Vec<Square> = Vec::new();
        let deltas: [(i64, i64); 8] = [
            (-2, -1),
            (-2, 1),
            (2, -1),
            (2, 1),
            (1, 2),
            (-1, 2),
            (1, -2),
            (-1, -2),
        ];
        let mut k: usize = 0;
        proof {
            assert(r@ =~= knight_moves(*self, columns as int, rows as int, 0));
        }
        while k < 8
            invariant
                k <= 8,
            -0x1000_0000_0000 <= self.column <= 0x1000_0000_0000,
            -0x1000_0000_0000 <= self.row <= 0x1000_0000_0000,
                deltas@ =~= knight_deltas().map_values(
                    |d: (int, int)| (d.0 as i64, d.1 as i64),
                ),
                r@ == knight_moves(*self, columns as int, rows as int, k as int),
            decreases 8 - k,
        {
            proof {
                assert(deltas@[k as int] == (
                    knight_deltas()[k as int].0 as i64,
                    knight_deltas()[k as int].1 as i64,
                ));
            }
            let (dc, dr) = deltas[k];
            let nc = self.column + dc;
            let nr = self.row + dr;
            if 0 <= nc && nc < columns && 0 <= nr && nr < rows {
                r.push(Square { column: nc, row: nr });
            }
            proof {
                assert(r@ =~= knight_moves(*self, columns as int, rows as int, k + 1));
            }
            k = k + 1;
        }
        r
    }
}

/// One position of the pursuit: where each column's sheep stands, the
/// dragon's square, and whose move it is.
pub struct State {
    pub sheep: Vec<Option<i64>>,
    pub dragon: Square,
    pub turn: Turn,
}

impl State {
    /// Assembles a state.
    pub fn new(sheep: Vec<Option<i64>>, dragon: Square, turn: Turn) -> (r: State)
        ensures
            r.sheep@ == sheep@,
            r.dragon == dragon,
            r.turn == turn,
    {
        State { sheep, dragon, turn }
    }
}

} // verus!
