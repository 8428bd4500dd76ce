//! Cells, directions and the mathematical model of the pixel grid.
//!
//! A grid is modelled as a sequence of rows, `g[y][x]`, with `x` growing to
//! the right and `y` growing downwards. Every position in this crate is
//! written `(x, y)`.

use vstd::prelude::*;

verus! {

/// State of one pixel of the maze.
#[derive(Clone, Copy, Debug, PartialEq, Eq, Structural)]
pub enum MazePixel {
    Wall,
    Space,
    Target,
    Player,
}

/// A single-step movement request.
#[derive(Clone, Copy, Debug, PartialEq, Eq, Structural)]
pub enum Direction {
    Up,
    Down,
    Left,
    Right,
}

/// The rows of a nested vector, each taken by its view.
pub open spec fn matrix_of<T>(rows: Seq<Vec<T>>) -> Seq<Seq<T>> {
    Seq::new(rows.len(), |y: int| rows[y]@)
}

/// `m` has `h` rows of `w` entries each.
pub open spec fn has_shape<T>(m: Seq<Seq<T>>, w: int, h: int) -> bool {
    &&& m.len() == h
    &&& forall|y: int| 0 <= y < h ==> (#[trigger] m[y]).len() == w
}

/// The matrix `m` with the entry at column `x` of row `y` replaced by `v`.
pub open spec fn put<T>(m: Seq<Seq<T>>, x: int, y: int, v: T) -> Seq<Seq<T>> {
    m.update(y, m[y].update(x, v))
}

/// `(x, y)` lies inside `g` and is not a wall.
pub open spec fn open_at(g: Seq<Seq<MazePixel>>, x: int, y: int) -> bool {
    &&& 0 <= y < g.len()
    &&& 0 <= x < g[y].len()
    &&& g[y][x] != MazePixel::Wall
}

/// `(x, y)` lies on the outer rim of a square of side `s`.
pub open spec fn on_rim(s: int, x: int, y: int) -> bool {
    x == 0 || y == 0 || x == s - 1 || y == s - 1
}

/// Both coordinates are odd: the pixel of a room.
pub open spec fn is_room(x: int, y: int) -> bool {
    x % 2 == 1 && y % 2 == 1
}

/// Both coordinates are even: a pillar, which is never opened.
pub open spec fn is_pillar(x: int, y: int) -> bool {
    x % 2 == 0 && y % 2 == 0
}

/// Exactly one coordinate is even: the pixel between two neighbouring rooms.
pub open spec fn is_passage(x: int, y: int) -> bool {
    (x % 2 == 0) != (y % 2 == 0)
}

/// `g` and `h` are open at the same positions.
pub open spec fn same_openings(g: Seq<Seq<MazePixel>>, h: Seq<Seq<MazePixel>>) -> bool {
    forall|x: int, y: int|
        #![trigger open_at(g, x, y)]
        #![trigger open_at(h, x, y)]
        open_at(g, x, y) == open_at(h, x, y)
}

/// A matrix of `h` rows, each holding `w` copies of `v`.
pub(crate) fn filled<T: Copy>(w: usize, h: usize, v: T) -> (m: Vec<Vec<T>>)
    ensures
        has_shape(matrix_of(m@), w as int, h as int),
        forall|x: int, y: int| 0 <= x < w && 0 <= y < h ==> #[trigger] matrix_of(m@)[y][x] == v,
{
    let mut m: Vec<Vec<T>> = Vec::new();
    let mut y: usize = 0;
    while y < h
        invariant
            y <= h,
            has_shape(matrix_of(m@), w as int, y as int),
            forall|c: int, r: int| 0 <= c < w && 0 <= r < y ==> #[trigger] matrix_of(m@)[r][c] == v,
        decreases h - y,
    {
        let mut row: Vec<T> = Vec::new();
        let mut x: usize = 0;
        while x < w
            invariant
                x <= w,
                row@.len() == x,
                forall|c: int| 0 <= c < x ==> #[trigger] row@[c] == v,
            decreases w - x,
        {
            row.push(v);
            x += 1;
        }
        let ghost before = matrix_of(m@);
        m.push(row);
        proof {
            assert forall|r: int| 0 <= r < y + 1 implies (#[trigger] matrix_of(m@)[r]).len() == w by {
                if r < y {
                    assert(matrix_of(m@)[r] == before[r]);
                }
            }
            assert forall|c: int, r: int| 0 <= c < w && 0 <= r < y + 1 implies #[trigger] matrix_of(
                m@,
            )[r][c] == v by {
                if r < y {
                    assert(matrix_of(m@)[r] == before[r]);
                }
            }
        }
        y += 1;
    }
    m
}

/// Replaces the entry at column `x` of row `y`.
pub(crate) fn store<T>(m: &mut Vec<Vec<T>>, x: usize, y: usize, v: T)
    requires
        y < old(m)@.len(),
        x < old(m)@[y as int]@.len(),
    ensures
        matrix_of(final(m)@) == put(matrix_of(old(m)@), x as int, y as int, v),
{
    m[y][x] = v;
    proof {
        assert(matrix_of(m@) =~= put(matrix_of(old(m)@), x as int, y as int, v));
    }
}

} // verus!
