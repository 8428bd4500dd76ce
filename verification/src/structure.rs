//! What the open pixels of a carved grid look like as a whole: how they
//! hang together, and how many walls are open.

use vstd::prelude::*;
use crate::carve::{CarveState, entered_in};
use crate::coverage::{ended, lemma_ended_is_settled, lemma_every_room_is_entered};
use crate::grid::{MazePixel, open_at, same_openings};
use crate::path::{joined, lemma_joined_same_openings, lemma_joined_step};
use crate::upkeep::{east_open, passage_in, passages, pixel_fits, south_open};
use crate::tally::{lemma_tally_all, lemma_tally_same};
use crate::trail::{Trail, traced};

verus! {

/// Every open pixel can be walked to from the start room.
pub open spec fn hangs_together(g: Seq<Seq<MazePixel>>) -> bool {
    forall|x: int, y: int| #[trigger] open_at(g, x, y) ==> joined(g, (1, 1), (x, y))
}

/// There is one open wall less than there are rooms.
pub open spec fn one_wall_per_room(g: Seq<Seq<MazePixel>>, n: int) -> bool {
    passages(g, n) == n * n - 1
}

/// What carving leaves behind, stated of the grid alone: the open pixels
/// form one piece, with one open wall less than there are rooms. So the
/// `n * n` rooms and the open walls between them form a tree, in which
/// exactly one way leads from any room to any other.
pub open spec fn well_carved(g: Seq<Seq<MazePixel>>, n: int) -> bool {
    &&& hangs_together(g)
    &&& one_wall_per_room(g, n)
}

/// Grids that are open at the same positions are carved equally well.
pub proof fn lemma_well_carved_same_openings(g: Seq<Seq<MazePixel>>, h: Seq<Seq<MazePixel>>, n: int)
    requires
        well_carved(g, n),
        same_openings(g, h),
    ensures
        well_carved(h, n),
{
    assert forall|x: int, y: int| #[trigger] open_at(h, x, y) implies joined(h, (1, 1), (x, y)) by {
        assert(open_at(g, x, y));
        lemma_joined_same_openings(g, h, (1, 1), (x, y));
    }
    assert forall|x: int, y: int| #[trigger] passage_in(g)(x, y) == #[trigger] passage_in(h)(x, y) by {}
    lemma_tally_same(passage_in(g), passage_in(h), 2 * n + 1, 2 * n + 1);
}

/// The pixel of a room that has been entered can be walked to from the
/// start room.
proof fn lemma_room_is_joined(s: CarveState, i: int, j: int)
    requires
        s.linked(),
        s.entered_at(i, j),
    ensures
        joined(s.grid, (1, 1), (2 * i + 1, 2 * j + 1)),
{
}

/// An open wall to the right of a room can be walked to from the start room.
proof fn lemma_east_wall_is_joined(s: CarveState, i: int, j: int)
    requires
        s.linked(),
        east_open(s.grid, i, j),
    ensures
        joined(s.grid, (1, 1), (2 * i + 2, 2 * j + 1)),
{
    assert(s.entered_at(i, j));
    lemma_joined_step(s.grid, (1, 1), (2 * i + 1, 2 * j + 1), (2 * i + 2, 2 * j + 1));
}

/// An open wall below a room can be walked to from the start room.
proof fn lemma_south_wall_is_joined(s: CarveState, i: int, j: int)
    requires
        s.linked(),
        south_open(s.grid, i, j),
    ensures
        joined(s.grid, (1, 1), (2 * i + 1, 2 * j + 2)),
{
    assert(s.entered_at(i, j));
    lemma_joined_step(s.grid, (1, 1), (2 * i + 1, 2 * j + 1), (2 * i + 1, 2 * j + 2));
}

/// An open pixel is a room on the board or a wall between two rooms.
proof fn lemma_open_pixel_kind(s: CarveState, x: int, y: int)
    requires
        s.framed(),
        open_at(s.grid, x, y),
    ensures
        x % 2 == 1 || y % 2 == 1,
        x % 2 == 1 && y % 2 == 1 ==> s.on_board((x - 1) / 2, (y - 1) / 2),
{
    assert(pixel_fits(s.n, x, y, s.grid[y][x]));
}

/// If every room has been entered, every open pixel can be walked to from
/// the start room.
proof fn lemma_carving_hangs_together(s: CarveState)
    requires
        s.framed(),
        s.linked(),
        forall|i: int, j: int| s.on_board(i, j) ==> #[trigger] s.entered_at(i, j),
    ensures
        hangs_together(s.grid),
{
    let g = s.grid;
    assert forall|x: int, y: int| #[trigger] open_at(g, x, y) implies joined(g, (1, 1), (x, y)) by {
        lemma_open_pixel_kind(s, x, y);
        if x % 2 == 1 && y % 2 == 1 {
            let i = (x - 1) / 2;
            let j = (y - 1) / 2;
            assert(x == 2 * i + 1 && y == 2 * j + 1);
            assert(s.entered_at(i, j));
            lemma_room_is_joined(s, i, j);
        } else if x % 2 == 0 {
            let i = (x - 2) / 2;
            let j = (y - 1) / 2;
            assert(x == 2 * i + 2 && y == 2 * j + 1);
            lemma_east_wall_is_joined(s, i, j);
        } else {
            let i = (x - 1) / 2;
            let j = (y - 2) / 2;
            assert(x == 2 * i + 1 && y == 2 * j + 2);
            lemma_south_wall_is_joined(s, i, j);
        }
    }
}

/// Once the walk has ended, every room has been entered.
pub proof fn lemma_walk_covers_board(s: CarveState)
    requires
        s.inv(),
        ended(s),
    ensures
        forall|i: int, j: int| s.on_board(i, j) ==> #[trigger] s.entered_at(i, j),
        s.entered() == s.n * s.n,
        passages(s.grid, s.n) == s.n * s.n - 1,
{
    if s.n >= 2 {
        let h = choose|h: Trail| traced(s, h);
        lemma_ended_is_settled(s, h);
        assert forall|i: int, j: int| s.on_board(i, j) implies #[trigger] s.entered_at(i, j) by {
            lemma_every_room_is_entered(s, h, i, j);
        }
    }
    assert forall|i: int, j: int| 0 <= i < s.n && 0 <= j < s.n implies #[trigger] entered_in(s.carved)(
        i,
        j,
    ) by {
        assert(s.entered_at(i, j));
    }
    lemma_tally_all(entered_in(s.carved), s.n, s.n);
}

/// Once the walk has ended, the grid is well carved.
pub proof fn lemma_carving_is_well_carved(s: CarveState)
    requires
        s.inv(),
        ended(s),
    ensures
        well_carved(s.grid, s.n),
{
    lemma_walk_covers_board(s);
    lemma_carving_hangs_together(s);
}

} // verus!
