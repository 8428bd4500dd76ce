//! What holds of every state that carving passes through, and why each step
//! keeps it.

use vstd::prelude::*;
use crate::carve::{CarveState, Opening, MAX_SIZE, entered_in, initial, untouched};
use crate::grid::{MazePixel, has_shape, is_passage, is_room, on_rim, open_at};
use crate::trail::{Trail, lemma_carve_keeps_traced, lemma_initial_traced, lemma_retreat_keeps_traced, traced};
use crate::path::{adjacent, joined, lemma_joined_grows, lemma_joined_self, lemma_joined_step};
use crate::tally::{lemma_tally_bound, lemma_tally_gain, lemma_tally_none, lemma_tally_same, tally};

verus! {

/// What the pixel `c` at `(x, y)` may hold while carving: rooms never change,
/// a wall between two rooms is closed or open, and everything else stays
/// closed.
pub open spec fn pixel_fits(n: int, x: int, y: int, c: MazePixel) -> bool {
    if is_room(x, y) {
        c == untouched(x, y)
    } else if is_passage(x, y) && !on_rim(2 * n + 1, x, y) {
        c == MazePixel::Wall || c == MazePixel::Space
    } else {
        c == MazePixel::Wall
    }
}

/// The wall between room `(i, j)` and its right neighbour is open.
pub open spec fn east_open(g: Seq<Seq<MazePixel>>, i: int, j: int) -> bool {
    open_at(g, 2 * i + 2, 2 * j + 1)
}

/// The wall between room `(i, j)` and the room below it is open.
pub open spec fn south_open(g: Seq<Seq<MazePixel>>, i: int, j: int) -> bool {
    open_at(g, 2 * i + 1, 2 * j + 2)
}

/// The predicate "`(x, y)` is an open wall between two rooms", for counting.
pub open spec fn passage_in(g: Seq<Seq<MazePixel>>) -> spec_fn(int, int) -> bool {
    |x: int, y: int| is_passage(x, y) && open_at(g, x, y)
}

/// How many walls between rooms are open in a grid of side `2n + 1`.
pub open spec fn passages(g: Seq<Seq<MazePixel>>, n: int) -> nat {
    tally(passage_in(g), 2 * n + 1, 2 * n + 1)
}

impl CarveState {
    /// Room `(i, j)` is on the board and has been entered.
    pub open spec fn entered_at(self, i: int, j: int) -> bool {
        self.on_board(i, j) && self.carved[j][i]
    }

    /// The shapes are right, every pixel holds what its position allows, the
    /// start room counts as entered, and the bookkeeping only names rooms
    /// that have been entered. The deepest room is the start room as long
    /// as nothing has gone on the stack, and never after.
    pub open spec fn framed(self) -> bool {
        &&& 1 <= self.n <= MAX_SIZE
        &&& has_shape(self.grid, 2 * self.n + 1, 2 * self.n + 1)
        &&& has_shape(self.carved, self.n, self.n)
        &&& forall|x: int, y: int|
            0 <= x < 2 * self.n + 1 && 0 <= y < 2 * self.n + 1 ==> pixel_fits(
                self.n,
                x,
                y,
                #[trigger] self.grid[y][x],
            )
        &&& self.entered_at(self.current.0 as int, self.current.1 as int)
        &&& self.entered_at(self.deepest.1.0 as int, self.deepest.1.1 as int)
        &&& forall|k: int|
            0 <= k < self.stack.len() ==> self.entered_at(
                (#[trigger] self.stack[k]).0 as int,
                self.stack[k].1 as int,
            )
        &&& self.entered_at(0, 0)
        &&& self.stack.len() <= self.deepest.0
        &&& (self.deepest.0 == 0) == (self.deepest.1 == (0u32, 0u32))
        &&& self.n >= 2 && !self.fresh ==> self.deepest.0 >= 1
        &&& self.fresh ==> self == initial(self.n)
    }

    /// Open walls only lie between rooms that have been entered, and each
    /// such room can be walked to from the start.
    pub open spec fn linked(self) -> bool {
        &&& forall|i: int, j: int| #[trigger]
            east_open(self.grid, i, j) ==> self.entered_at(i, j) && self.entered_at(i + 1, j)
        &&& forall|i: int, j: int| #[trigger]
            south_open(self.grid, i, j) ==> self.entered_at(i, j) && self.entered_at(i, j + 1)
        &&& forall|i: int, j: int| #[trigger]
            self.entered_at(i, j) ==> joined(self.grid, (1, 1), (2 * i + 1, 2 * j + 1))
    }

    /// Each room but the start room was entered through a wall of its own:
    /// there is one open wall less than there are rooms entered.
    pub open spec fn counted(self) -> bool {
        passages(self.grid, self.n) + 1 == self.entered()
    }

    /// What holds of every state that carving passes through.
    pub open spec fn inv(self) -> bool {
        &&& self.framed()
        &&& self.linked()
        &&& self.counted()
        &&& self.retraceable()
    }
}

/// What it takes for `o` to be among the options of `s`: its room is a
/// neighbour of the current one that has not been entered, and its wall is
/// the pixel between the two.
pub proof fn lemma_option_shape(s: CarveState, o: Opening)
    requires
        s.framed(),
        s.options().contains(o),
    ensures
        s.uncarved(o.room.0 as int, o.room.1 as int),
        adjacent(
            (s.current.0 as int, s.current.1 as int),
            (o.room.0 as int, o.room.1 as int),
        ),
        o.wall.0 == s.current.0 + o.room.0 + 1,
        o.wall.1 == s.current.1 + o.room.1 + 1,
{
    let a = s.toward(-1, 0);
    let b = s.toward(0, -1);
    let c = s.toward(1, 0);
    let d = s.toward(0, 1);
    let k = choose|k: int| 0 <= k < s.options().len() && s.options()[k] == o;
    assert(s.options() == a + b + c + d);
    if k < a.len() {
        assert(o == a[k]);
    } else if k < a.len() + b.len() {
        assert(o == b[k - a.len()]);
    } else if k < a.len() + b.len() + c.len() {
        assert(o == c[k - a.len() - b.len()]);
    } else {
        assert(o == d[k - a.len() - b.len() - c.len()]);
    }
}

/// The state that carving starts from satisfies the invariant.
pub proof fn lemma_initial_inv(n: int)
    requires
        1 <= n <= MAX_SIZE,
    ensures
        initial(n).inv(),
{
    let s = initial(n);
    lemma_initial_traced(n);
    assert(s.framed());
    assert(open_at(s.grid, 1, 1));
    lemma_joined_self(s.grid, (1, 1));
    assert forall|x: int, y: int| !(is_passage(x, y) && #[trigger] open_at(s.grid, x, y)) by {}
    assert(s.linked());
    assert forall|x: int, y: int| 0 <= x < 2 * n + 1 && 0 <= y < 2 * n + 1 implies !#[trigger] passage_in(
        s.grid,
    )(x, y) by {}
    lemma_tally_none(passage_in(s.grid), 2 * n + 1, 2 * n + 1);
    lemma_initial_entered(n);
}

/// At the outset one room counts as entered, the start room.
pub proof fn lemma_initial_entered(n: int)
    requires
        1 <= n,
    ensures
        initial(n).entered() == 1,
{
    let s = initial(n);
    let none = |i: int, j: int| false;
    lemma_tally_none(none, n, n);
    lemma_tally_gain(none, entered_in(s.carved), n, n, 0, 0);
}

/// Opening a wall opens that one pixel and leaves every other pixel as it
/// was.
pub proof fn lemma_carve_grid(s: CarveState, o: Opening)
    requires
        s.framed(),
        s.options().contains(o),
    ensures
        has_shape(s.carve(o).grid, 2 * s.n + 1, 2 * s.n + 1),
        0 < o.wall.0 < 2 * s.n,
        0 < o.wall.1 < 2 * s.n,
        is_passage(o.wall.0 as int, o.wall.1 as int),
        open_at(s.carve(o).grid, o.wall.0 as int, o.wall.1 as int),
        forall|x: int, y: int| #[trigger] open_at(s.grid, x, y) ==> open_at(s.carve(o).grid, x, y),
        forall|x: int, y: int| #[trigger]
            open_at(s.carve(o).grid, x, y) ==> open_at(s.grid, x, y) || (x == o.wall.0 && y
                == o.wall.1),
        forall|x: int, y: int|
            0 <= x < 2 * s.n + 1 && 0 <= y < 2 * s.n + 1 && !(x == o.wall.0 && y == o.wall.1)
                ==> #[trigger] s.carve(o).grid[y][x] == s.grid[y][x],
{
    lemma_option_shape(s, o);
    let t = s.carve(o);
    let wx = o.wall.0 as int;
    let wy = o.wall.1 as int;
    assert(s.grid[wy].len() == 2 * s.n + 1);
    assert forall|y: int| 0 <= y < 2 * s.n + 1 implies (#[trigger] t.grid[y]).len() == 2 * s.n
        + 1 by {
        assert(s.grid[y].len() == 2 * s.n + 1);
    }
}

/// Entering a room marks that one room and leaves every other mark as it
/// was.
pub proof fn lemma_carve_marks(s: CarveState, o: Opening)
    requires
        s.framed(),
        s.options().contains(o),
    ensures
        has_shape(s.carve(o).carved, s.n, s.n),
        s.carve(o).entered_at(o.room.0 as int, o.room.1 as int),
        !s.entered_at(o.room.0 as int, o.room.1 as int),
        !(o.room.0 == 0 && o.room.1 == 0),
        forall|i: int, j: int| #[trigger] s.entered_at(i, j) ==> s.carve(o).entered_at(i, j),
        forall|i: int, j: int| #[trigger]
            s.carve(o).entered_at(i, j) ==> s.entered_at(i, j) || (i == o.room.0 && j == o.room.1),
{
    lemma_option_shape(s, o);
    let t = s.carve(o);
    let rj = o.room.1 as int;
    assert(s.carved[rj].len() == s.n);
    assert forall|j: int| 0 <= j < s.n implies (#[trigger] t.carved[j]).len() == s.n by {
        assert(s.carved[j].len() == s.n);
    }
}

/// Carving on keeps the frame.
proof fn lemma_carve_keeps_framed(s: CarveState, o: Opening)
    requires
        s.framed(),
        s.options().contains(o),
    ensures
        s.carve(o).framed(),
{
    lemma_option_shape(s, o);
    lemma_carve_grid(s, o);
    lemma_carve_marks(s, o);
    let t = s.carve(o);
    assert forall|x: int, y: int| 0 <= x < 2 * t.n + 1 && 0 <= y < 2 * t.n + 1 implies pixel_fits(
        t.n,
        x,
        y,
        #[trigger] t.grid[y][x],
    ) by {
        assert(pixel_fits(s.n, x, y, s.grid[y][x]));
    }
    assert forall|k: int| 0 <= k < t.stack.len() implies t.entered_at(
        (#[trigger] t.stack[k]).0 as int,
        t.stack[k].1 as int,
    ) by {
        if k < s.stack.len() {
            assert(s.entered_at(s.stack[k].0 as int, s.stack[k].1 as int));
        }
    }
    assert(s.entered_at(s.deepest.1.0 as int, s.deepest.1.1 as int));
    assert(s.entered_at(s.current.0 as int, s.current.1 as int));
}

/// After carving on, open walls still lie between rooms the walk has been
/// to: the newly opened wall lies between the room left and the room
/// entered.
proof fn lemma_carve_keeps_wall_ends(s: CarveState, o: Opening)
    requires
        s.framed(),
        s.linked(),
        s.options().contains(o),
    ensures
        forall|i: int, j: int| #[trigger]
            east_open(s.carve(o).grid, i, j) ==> s.carve(o).entered_at(i, j) && s.carve(o).entered_at(
                i + 1,
                j,
            ),
        forall|i: int, j: int| #[trigger]
            south_open(s.carve(o).grid, i, j) ==> s.carve(o).entered_at(i, j) && s.carve(o).entered_at(
                i,
                j + 1,
            ),
{
    lemma_option_shape(s, o);
    lemma_carve_grid(s, o);
    lemma_carve_marks(s, o);
    let t = s.carve(o);
    let ci = s.current.0 as int;
    let cj = s.current.1 as int;
    let ri = o.room.0 as int;
    let rj = o.room.1 as int;
    let wx = o.wall.0 as int;
    let wy = o.wall.1 as int;
    assert(s.entered_at(ci, cj));
    assert(t.entered_at(ci, cj));
    assert(t.entered_at(ri, rj));
    assert forall|i: int, j: int| #[trigger] east_open(t.grid, i, j) implies t.entered_at(i, j)
        && t.entered_at(i + 1, j) by {
        if 2 * i + 2 == wx && 2 * j + 1 == wy {
            assert(cj == rj && j == cj);
            assert((i == ci && i + 1 == ri) || (i == ri && i + 1 == ci));
        } else {
            assert(open_at(s.grid, 2 * i + 2, 2 * j + 1));
            assert(east_open(s.grid, i, j));
            assert(s.entered_at(i, j) && s.entered_at(i + 1, j));
        }
    }
    assert forall|i: int, j: int| #[trigger] south_open(t.grid, i, j) implies t.entered_at(i, j)
        && t.entered_at(i, j + 1) by {
        if 2 * i + 1 == wx && 2 * j + 2 == wy {
            assert(ci == ri && i == ci);
            assert((j == cj && j + 1 == rj) || (j == rj && j + 1 == cj));
        } else {
            assert(open_at(s.grid, 2 * i + 1, 2 * j + 2));
            assert(south_open(s.grid, i, j));
            assert(s.entered_at(i, j) && s.entered_at(i, j + 1));
        }
    }
}

/// After carving on, every room that has been entered can still be walked to
/// from the start; the room just entered is walked to through the wall just
/// opened.
proof fn lemma_carve_keeps_joined(s: CarveState, o: Opening)
    requires
        s.framed(),
        s.linked(),
        s.options().contains(o),
    ensures
        forall|i: int, j: int| #[trigger]
            s.carve(o).entered_at(i, j) ==> joined(s.carve(o).grid, (1, 1), (2 * i + 1, 2 * j + 1)),
{
    lemma_option_shape(s, o);
    lemma_carve_grid(s, o);
    lemma_carve_marks(s, o);
    let t = s.carve(o);
    let ci = s.current.0 as int;
    let cj = s.current.1 as int;
    let ri = o.room.0 as int;
    let rj = o.room.1 as int;
    let wx = o.wall.0 as int;
    let wy = o.wall.1 as int;
    assert(s.entered_at(ci, cj));
    assert(joined(s.grid, (1, 1), (2 * ci + 1, 2 * cj + 1)));
    assert(pixel_fits(s.n, 2 * ri + 1, 2 * rj + 1, s.grid[2 * rj + 1][2 * ri + 1]));
    assert(open_at(s.grid, 2 * ri + 1, 2 * rj + 1));
    assert(open_at(t.grid, 2 * ri + 1, 2 * rj + 1));
    lemma_joined_grows(s.grid, t.grid, (1, 1), (2 * ci + 1, 2 * cj + 1));
    lemma_joined_step(t.grid, (1, 1), (2 * ci + 1, 2 * cj + 1), (wx, wy));
    lemma_joined_step(t.grid, (1, 1), (wx, wy), (2 * ri + 1, 2 * rj + 1));
    assert forall|i: int, j: int| #[trigger] t.entered_at(i, j) implies joined(
        t.grid,
        (1, 1),
        (2 * i + 1, 2 * j + 1),
    ) by {
        if i == ri && j == rj {
        } else {
            assert(s.entered_at(i, j));
            lemma_joined_grows(s.grid, t.grid, (1, 1), (2 * i + 1, 2 * j + 1));
        }
    }
}

/// Carving on keeps the links.
proof fn lemma_carve_keeps_linked(s: CarveState, o: Opening)
    requires
        s.framed(),
        s.linked(),
        s.options().contains(o),
    ensures
        s.carve(o).linked(),
{
    lemma_carve_keeps_wall_ends(s, o);
    lemma_carve_keeps_joined(s, o);
}

/// Carving on enters one more room, and opens one more wall unless the wall
/// was open already.
pub proof fn lemma_carve_counts(s: CarveState, o: Opening)
    requires
        s.framed(),
        s.options().contains(o),
    ensures
        s.carve(o).entered() == s.entered() + 1,
        passages(s.carve(o).grid, s.n) == passages(s.grid, s.n) + if open_at(
            s.grid,
            o.wall.0 as int,
            o.wall.1 as int,
        ) {
            0nat
        } else {
            1nat
        },
{
    lemma_option_shape(s, o);
    lemma_carve_grid(s, o);
    lemma_carve_marks(s, o);
    let t = s.carve(o);
    let ri = o.room.0 as int;
    let rj = o.room.1 as int;
    let wx = o.wall.0 as int;
    let wy = o.wall.1 as int;
    let side = 2 * s.n + 1;
    lemma_tally_gain(entered_in(s.carved), entered_in(t.carved), s.n, s.n, ri, rj);
    assert forall|x: int, y: int|
        0 <= x < side && 0 <= y < side && (x != wx || y != wy) implies #[trigger] passage_in(s.grid)(
        x,
        y,
    ) == #[trigger] passage_in(t.grid)(x, y) by {
        assert(open_at(t.grid, x, y) ==> open_at(s.grid, x, y));
        assert(open_at(s.grid, x, y) ==> open_at(t.grid, x, y));
    }
    if open_at(s.grid, wx, wy) {
        lemma_tally_same(passage_in(s.grid), passage_in(t.grid), side, side);
    } else {
        lemma_tally_gain(passage_in(s.grid), passage_in(t.grid), side, side, wx, wy);
    }
}

/// The wall of an option is closed: both rooms at an open wall have been
/// entered, and the room of an option has not.
pub proof fn lemma_option_wall_is_closed(s: CarveState, o: Opening)
    requires
        s.framed(),
        s.linked(),
        s.options().contains(o),
    ensures
        !open_at(s.grid, o.wall.0 as int, o.wall.1 as int),
{
    lemma_option_shape(s, o);
    let ri = o.room.0 as int;
    let rj = o.room.1 as int;
    let ci = s.current.0 as int;
    let cj = s.current.1 as int;
    let wx = o.wall.0 as int;
    let wy = o.wall.1 as int;
    if open_at(s.grid, wx, wy) {
        if cj == rj {
            let i = if ri < ci {
                ri
            } else {
                ci
            };
            assert(wx == 2 * i + 2 && wy == 2 * cj + 1);
            assert(east_open(s.grid, i, cj));
        } else {
            let j = if rj < cj {
                rj
            } else {
                cj
            };
            assert(wx == 2 * ci + 1 && wy == 2 * j + 2);
            assert(south_open(s.grid, ci, j));
        }
        assert(s.entered_at(ri, rj));
    }
}

/// Carving on keeps the count: it enters one room and opens one wall.
proof fn lemma_carve_keeps_counted(s: CarveState, o: Opening)
    requires
        s.framed(),
        s.linked(),
        s.counted(),
        s.options().contains(o),
    ensures
        s.carve(o).counted(),
{
    lemma_option_shape(s, o);
    lemma_carve_marks(s, o);
    lemma_carve_counts(s, o);
    lemma_option_wall_is_closed(s, o);
}

/// On a board of more than one room, some room next to the start room can
/// be entered at the first step.
pub proof fn lemma_first_step_has_options(n: int)
    requires
        2 <= n <= MAX_SIZE,
    ensures
        initial(n).options().len() > 0,
{
    let s = initial(n);
    assert(s.uncarved(1, 0));
    assert(s.toward(1, 0).len() == 1);
}

/// Falling back keeps the frame: the room fallen back to was entered
/// before.
proof fn lemma_retreat_keeps_framed(s: CarveState)
    requires
        s.framed(),
        s.options().len() == 0,
    ensures
        s.retreat().framed(),
{
    let t = s.retreat();
    if s.fresh && s.n >= 2 {
        lemma_first_step_has_options(s.n);
    }
    if s.stack.len() > 0 {
        assert(s.entered_at(s.stack.last().0 as int, s.stack.last().1 as int));
        assert forall|k: int| 0 <= k < t.stack.len() implies t.entered_at(
            (#[trigger] t.stack[k]).0 as int,
            t.stack[k].1 as int,
        ) by {
            assert(s.entered_at(s.stack[k].0 as int, s.stack[k].1 as int));
        }
    }
}

/// Falling back keeps the links: the grid and the marks stay as they are.
proof fn lemma_retreat_keeps_linked(s: CarveState)
    requires
        s.linked(),
    ensures
        s.retreat().linked(),
{
    let t = s.retreat();
    assert forall|i: int, j: int| #[trigger] t.entered_at(i, j) implies joined(
        t.grid,
        (1, 1),
        (2 * i + 1, 2 * j + 1),
    ) by {
        assert(s.entered_at(i, j));
    }
    assert forall|i: int, j: int| #[trigger] east_open(t.grid, i, j) implies t.entered_at(i, j)
        && t.entered_at(i + 1, j) by {
        assert(east_open(s.grid, i, j));
    }
    assert forall|i: int, j: int| #[trigger] south_open(t.grid, i, j) implies t.entered_at(i, j)
        && t.entered_at(i, j + 1) by {
        assert(south_open(s.grid, i, j));
    }
}

/// Every due step that a chooser may answer with keeps the invariant.
pub proof fn lemma_step_keeps_inv(s: CarveState, choice: Option<Opening>)
    requires
        s.inv(),
        s.running(),
        s.admits(choice),
    ensures
        s.step(choice).inv(),
{
    let h = choose|h: Trail| traced(s, h);
    match choice {
        Some(o) => {
            lemma_carve_keeps_framed(s, o);
            lemma_carve_keeps_linked(s, o);
            lemma_carve_keeps_counted(s, o);
            lemma_carve_keeps_traced(s, h, o);
        },
        None => {
            lemma_retreat_keeps_framed(s);
            lemma_retreat_keeps_linked(s);
            lemma_retreat_keeps_traced(s, h);
        },
    }
}

/// Every due step lowers the fuel, which never runs below zero. So carving
/// ends, whatever the chooser answers.
pub proof fn lemma_step_burns_fuel(s: CarveState, choice: Option<Opening>)
    requires
        s.inv(),
        s.admits(choice),
        s.running(),
    ensures
        0 <= s.step(choice).fuel() < s.fuel(),
{
    let t = s.step(choice);
    lemma_step_keeps_inv(s, choice);
    lemma_tally_bound(entered_in(t.carved), t.n, t.n);
    match choice {
        Some(o) => {
            lemma_carve_counts(s, o);
        },
        None => {},
    }
}

} // verus!
