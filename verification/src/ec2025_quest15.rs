//! Plane geometry for a maze of thin walls: grid points, quarter turns and
//! taxicab distances.

use vstd::prelude::*;

verus! {

/// A point of the plane.
#[derive(Clone, Copy, PartialEq, Eq, Structural)]
pub struct Point {
    pub x: i64,
    pub y: i64,
}

/// Coordinates stay well within `i64` so sums and differences fit.
pub open spec fn point_small(p: Point) -> bool {
    -0x1000_0000_0000 <= p.x <= 0x1000_0000_0000 && -0x1000_0000_0000 <= p.y <= 0x1000_0000_0000
}

/// The taxicab distance between two points.
pub open spec fn distance_spec(a: Point, b: Point) -> int {
    (if a.x >= b.x {
        a.x - b.x
    } else {
        b.x - a.x
    }) + (if a.y >= b.y {
        a.y - b.y
    } else {
        b.y - a.y
    })
}

/// The eight surrounding offsets, in row-major order.
pub open spec fn around_deltas() -> Seq<(int, int)> {
    seq![(-1, -1), (-1, 0), (-1, 1), (0, -1), (0, 1), (1, -1), (1, 0), (1, 1)]
}

impl Point {
    /// The point with the given coordinates.
    pub fn new(x: i64, y: i64) -> (r: Point)
        ensures
            r.x == x,
            r.y == y,
    {
        Point { x, y }
    }

    /// A quarter turn of a direction vector: left negates the new `y`,
    /// right negates the new `x`, and the axes swap either way.
    pub fn turn(&self, dir: u8) -> (r: Point)
        requires
            dir == 76 || dir == 82,
            -0x1000_0000_0000 <= self.x <= 0x1000_0000_0000,
            -0x1000_0000_0000 <= self.y <= 0x1000_0000_0000,
        ensures
            dir == 76 ==> r.x == self.y && r.y == -self.x,
            dir == 82 ==> r.x == -self.y && r.y == self.x,
    {
        if dir == 76 {
            Point { x: self.y, y: -self.x }
        } else {
            Point { x: -self.y, y: self.x }
        }
    }

    /// The taxicab distance to `other`.
    pub fn distance(&self, other: &Point) -> (r: u64)
        requires
            point_small(*self),
            point_small(*other),
        ensures
            r as int == distance_spec(*self, *other),
    {
        let dx = if self.x >= other.x {
            (self.x - other.x) as u64
        } else {
            (other.x - self.x) as u64
        };
        let dy = if self.y >= other.y {
            (self.y - other.y) as u64
        } else {
            (other.y - self.y) as u64
        };
        dx + dy
    }

    /// The eight surrounding points, in a fixed order.
    pub fn neighbors(&self) -> (r: Vec<Point>)
        requires
            point_small(*self),
        ensures
            r@.len() == 8,
            forall|k: int|
                0 <= k < 8 ==> #[trigger] r@[k].x == self.x + around_deltas()[k].0 && r@[k].y
                    == self.y + around_deltas()[k].1,
    {
        let mut r: Vec<Point> = Vec::new();
        r.push(Point { x: self.x - 1, y: self.y - 1 });
        r.push(Point { x: self.x - 1, y: self.y });
        r.push(Point { x: self.x - 1, y: self.y + 1 });
        r.push(Point { x: self.x, y: self.y - 1 });
        r.push(Point { x: self.x, y: self.y + 1 });
        r.push(Point { x: self.x + 1, y: self.y - 1 });
        r.push(Point { x: self.x + 1, y: self.y });
        r.push(Point { x: self.x + 1, y: self.y + 1 });
        r
    }
}

/// Whether the straight move from `a` to `b` crosses none of the wall
/// segments: the move's bounding box is disjoint from every wall's.
pub open spec fn valid_move_spec(walls: Seq<(Point, Point)>, a: Point, b: Point) -> bool {
    forall|k: int| 0 <= k < walls.len() ==> boxes_clear(#[trigger] walls[k], a, b)
}

/// The bounding boxes of the move and of one wall do not touch.
pub open spec fn boxes_clear(wall: (Point, Point), a: Point, b: Point) -> bool {
    let x_min = if a.x <= b.x {
        a.x
    } else {
        b.x
    };
    let x_max = if a.x >= b.x {
        a.x
    } else {
        b.x
    };
    let y_min = if a.y <= b.y {
        a.y
    } else {
        b.y
    };
    let y_max = if a.y >= b.y {
        a.y
    } else {
        b.y
    };
    let wx_min = if wall.0.x <= wall.1.x {
        wall.0.x
    } else {
        wall.1.x
    };
    let wx_max = if wall.0.x >= wall.1.x {
        wall.0.x
    } else {
        wall.1.x
    };
    let wy_min = if wall.0.y <= wall.1.y {
        wall.0.y
    } else {
        wall.1.y
    };
    let wy_max = if wall.0.y >= wall.1.y {
        wall.0.y
    } else {
        wall.1.y
    };
    x_min > wx_max || x_max < wx_min || y_min > wy_max || y_max < wy_min
}

/// Whether a straight move crosses any wall.
pub fn valid_move(walls: &Vec<(Point, Point)>, from: Point, to: Point) -> (r: bool)
    ensures
        r == valid_move_spec(walls@, from, to),
{
    let mut k: usize = 0;
    while k < walls.len()
        invariant
            k <= walls@.len(),
            forall|q: int| 0 <= q < k ==> boxes_clear(#[trigger] walls@[q], from, to),
        decreases walls@.len() - k,
    {
        let (w1, w2) = walls[k];
        let x_min = if from.x <= to.x {
            from.x
        } else {
            to.x
        };
        let x_max = if from.x >= to.x {
            from.x
        } else {
            to.x
        };
        let y_min = if from.y <= to.y {
            from.y
        } else {
            to.y
        };
        let y_max = if from.y >= to.y {
            from.y
        } else {
            to.y
        };
        let wx_min = if w1.x <= w2.x {
            w1.x
        } else {
            w2.x
        };
        let wx_max = if w1.x >= w2.x {
            w1.x
        } else {
            w2.x
        };
        let wy_min = if w1.y <= w2.y {
            w1.y
        } else {
            w2.y
        };
        let wy_max = if w1.y >= w2.y {
            w1.y
        } else {
            w2.y
        };
        if !(x_min > wx_max || x_max < wx_min || y_min > wy_max || y_max < wy_min) {
            proof {
                assert(!boxes_clear(walls@[k as int], from, to));
            }
            return false;
        }
        k = k + 1;
    }
    true
}

/// One turtle step of the wall builder: turn, then walk `dist` cells,
/// recording the wall's inner span and the far corner.
pub open spec fn walk_state(moves: Seq<(u8, i64)>, k: int) -> (Point, Point)
    decreases k,
{
    if k <= 0 {
        (Point { x: 0i64, y: -1i64 }, Point { x: 0i64, y: 0i64 })
    } else {
        let prev = walk_state(moves, k - 1);
        let d = turn_spec(prev.0, moves[k - 1].0);
        let dist = moves[k - 1].1;
        (d, Point { x: (prev.1.x + d.x * dist) as i64, y: (prev.1.y + d.y * dist) as i64 })
    }
}

/// What `turn` computes.
pub open spec fn turn_spec(d: Point, dir: u8) -> Point {
    if dir == 76 {
        Point { x: d.y, y: (-d.x) as i64 }
    } else {
        Point { x: (-d.y) as i64, y: d.x }
    }
}

/// The wall segment laid by step `k`: from one cell past the old corner to
/// one cell before the new one.
pub open spec fn wall_of(moves: Seq<(u8, i64)>, k: int) -> (Point, Point) {
    let prev = walk_state(moves, k);
    let d = turn_spec(prev.0, moves[k].0);
    let dist = moves[k].1;
    (
        Point { x: (prev.1.x + d.x) as i64, y: (prev.1.y + d.y) as i64 },
        Point { x: (prev.1.x + d.x * (dist - 1)) as i64, y: (prev.1.y + d.y * (dist - 1)) as i64 },
    )
}

/// Bounded instructions: directions are `L` or `R` and distances small.
pub open spec fn moves_ok(moves: Seq<(u8, i64)>) -> bool {
    &&& moves.len() < 0x10_0000
    &&& forall|k: int|
        0 <= k < moves.len() ==> ((#[trigger] moves[k]).0 == 76 || moves[k].0 == 82) && 1
            <= moves[k].1 <= 0x10_0000
}

proof fn lemma_walk_bounded(moves: Seq<(u8, i64)>, k: int)
    requires
        moves_ok(moves),
        0 <= k <= moves.len(),
    ensures
        ({
            let st = walk_state(moves, k);
            &&& -1 <= st.0.x <= 1 && -1 <= st.0.y <= 1
            &&& -(k * 0x10_0000) <= st.1.x <= k * 0x10_0000
            &&& -(k * 0x10_0000) <= st.1.y <= k * 0x10_0000
        }),
    decreases k,
{
    if k > 0 {
        lemma_walk_bounded(moves, k - 1);
        let prev = walk_state(moves, k - 1);
        let d = turn_spec(prev.0, moves[k - 1].0);
        assert(-1 <= d.x <= 1 && -1 <= d.y <= 1);
        let dist = moves[k - 1].1;
        assert(-0x10_0000 <= d.x * dist <= 0x10_0000 && -0x10_0000 <= d.y * dist <= 0x10_0000)
            by (nonlinear_arith)
            requires
                -1 <= d.x <= 1,
                -1 <= d.y <= 1,
                1 <= dist <= 0x10_0000,
        ;
        assert((k - 1) * 0x10_0000 + 0x10_0000 == k * 0x10_0000) by (nonlinear_arith);
    } else {
        assert(k * 0x10_0000 == 0) by (nonlinear_arith)
            requires
                k == 0,
        ;
    }
}

/// The walked positions stay small.
proof fn lemma_walk_small(moves: Seq<(u8, i64)>, k: int)
    requires
        moves_ok(moves),
        0 <= k <= moves.len(),
    ensures
        ({
            let st = walk_state(moves, k);
            &&& -1 <= st.0.x <= 1 && -1 <= st.0.y <= 1
            &&& -0x100_0000_0000 <= st.1.x <= 0x100_0000_0000
            &&& -0x100_0000_0000 <= st.1.y <= 0x100_0000_0000
        }),
{
    lemma_walk_bounded(moves, k);
    assert(k * 0x10_0000 <= 0x100_0000_0000) by (nonlinear_arith)
        requires
            0 <= k < 0x10_0000,
    ;
}

/// The walls and corners the turtle walk lays down: one wall span and one
/// corner per instruction, ending at the maze's exit.
pub fn build_walls(moves: &Vec<(u8, i64)>) -> (r: (Vec<(Point, Point)>, Vec<Point>, Point))
    requires
        moves_ok(moves@),
    ensures
        r.0@.len() == moves@.len(),
        forall|k: int| 0 <= k < moves@.len() ==> #[trigger] r.0@[k] == wall_of(moves@, k),
        r.1@.len() == moves@.len() + 1,
        forall|k: int| 0 <= k < moves@.len() + 1 ==> #[trigger] r.1@[k] == walk_state(moves@, k).1,
        r.2 == walk_state(moves@, moves@.len() as int).1,
{
    let mut walls: Vec<(Point, Point)> = Vec::new();
    let mut corners: Vec<Point> = Vec::new();
    let mut delta = Point::new(0, -1);
    let mut cur = Point::new(0, 0);
    corners.push(cur);
    let mut k: usize = 0;
    while k < moves.len()
        invariant
            k <= moves@.len(),
            moves_ok(moves@),
            (delta, cur) == walk_state(moves@, k as int),
            walls@.len() == k,
            forall|q: int| 0 <= q < k ==> #[trigger] walls@[q] == wall_of(moves@, q),
            corners@.len() == k + 1,
            forall|q: int| 0 <= q < k + 1 ==> #[trigger] corners@[q] == walk_state(moves@, q).1,
        decreases moves@.len() - k,
    {
        proof {
            lemma_walk_small(moves@, k as int);
            assert(walk_state(moves@, k + 1) == ({
                let d = turn_spec(delta, moves@[k as int].0);
                let dist = moves@[k as int].1;
                (d, Point { x: (cur.x + d.x * dist) as i64, y: (cur.y + d.y * dist) as i64 })
            }));
        }
        let (dir, dist) = moves[k];
        delta = delta.turn(dir);
        proof {
            assert(delta == turn_spec(walk_state(moves@, k as int).0, moves@[k as int].0));
            assert(delta.x * dist <= 0x10_0000 && delta.x * dist >= -0x10_0000 && delta.y * dist
                <= 0x10_0000 && delta.y * dist >= -0x10_0000) by (nonlinear_arith)
                requires
                    -1 <= delta.x <= 1,
                    -1 <= delta.y <= 1,
                    1 <= dist <= 0x10_0000,
            ;
            assert(delta.x * (dist - 1) <= 0x10_0000 && delta.x * (dist - 1) >= -0x10_0000
                && delta.y * (dist - 1) <= 0x10_0000 && delta.y * (dist - 1) >= -0x10_0000) by (
            nonlinear_arith)
                requires
                    -1 <= delta.x <= 1,
                    -1 <= delta.y <= 1,
                    1 <= dist <= 0x10_0000,
            ;
        }
        let begin = Point::new(cur.x + delta.x, cur.y + delta.y);
        let inner_end = Point::new(cur.x + delta.x * (dist - 1), cur.y + delta.y * (dist - 1));
        walls.push((begin, inner_end));
        cur = Point::new(cur.x + delta.x * dist, cur.y + delta.y * dist);
        corners.push(cur);
        k = k + 1;
    }
    (walls, corners, cur)
}

} // verus!
