//! The carving procedure, one step at a time.
//!
//! Carving walks over an `n` by `n` board of rooms. Room `(i, j)` sits at
//! pixel `(2i + 1, 2j + 1)` of a square grid of side `2n + 1`; the pixel
//! half-way between two neighbouring rooms is the wall between them.
//!
//! The walk starts in room `(0, 0)`, which counts as entered from the
//! outset. At each step it looks at the neighbours of the current room that
//! have not been entered. If there are any, it is handed one of them, opens
//! the wall to it, enters it and puts it on the stack. If there is none, it
//! takes the top of the stack off and makes that the current room. It ends
//! when the stack is empty.
//!
//! Every room but the start room is entered once, through one wall, so the
//! rooms and the open walls form a tree. A room taken off the stack is
//! looked at once more and then left for good.

use vstd::prelude::*;
use crate::grid::{MazePixel, filled, has_shape, is_room, matrix_of, put, store};
use crate::upkeep::{lemma_initial_inv, lemma_option_shape, lemma_step_burns_fuel, lemma_step_keeps_inv};
use crate::tally::tally;

verus! {

/// The largest board size whose grid side still fits the coordinate type.
pub const MAX_SIZE: u32 = 0x7fff_ffff;

/// One way to carve on: the room to enter and the wall pixel to open on the
/// way there.
#[derive(Clone, Copy, Debug, PartialEq, Eq)]
pub struct Opening {
    pub room: (u32, u32),
    pub wall: (u32, u32),
}

/// The mathematical state of a carving in progress.
pub struct CarveState {
    /// Rooms per side.
    pub n: int,
    /// The pixel grid, `grid[y][x]`.
    pub grid: Seq<Seq<MazePixel>>,
    /// Which rooms have been entered, `carved[j][i]` for room `(i, j)`.
    pub carved: Seq<Seq<bool>>,
    /// The rooms to fall back to, most recent last.
    pub stack: Seq<(u32, u32)>,
    /// The room the carving stands in.
    pub current: (u32, u32),
    /// The greatest stack depth seen so far and the room that first reached it.
    pub deepest: (nat, (u32, u32)),
    /// No step has been taken yet.
    pub fresh: bool,
}

/// What the pixel at `(x, y)` holds before any wall is opened.
pub open spec fn untouched(x: int, y: int) -> MazePixel {
    if !is_room(x, y) {
        MazePixel::Wall
    } else if x == 1 && y == 1 {
        MazePixel::Player
    } else {
        MazePixel::Space
    }
}

/// The state carving starts from on a board of `n` by `n` rooms: the walk
/// stands in the start room, which counts as entered, and no wall is open.
pub open spec fn initial(n: int) -> CarveState {
    CarveState {
        n,
        grid: Seq::new((2 * n + 1) as nat, |y: int| Seq::new((2 * n + 1) as nat, |x: int| untouched(x, y))),
        carved: Seq::new(n as nat, |j: int| Seq::new(n as nat, |i: int| i == 0 && j == 0)),
        stack: Seq::empty(),
        current: (0, 0),
        deepest: (0, (0, 0)),
        fresh: true,
    }
}

impl CarveState {
    /// Room `(i, j)` is on the board.
    pub open spec fn on_board(self, i: int, j: int) -> bool {
        0 <= i < self.n && 0 <= j < self.n
    }

    /// Room `(i, j)` is on the board and has not been entered.
    pub open spec fn uncarved(self, i: int, j: int) -> bool {
        self.on_board(i, j) && !self.carved[j][i]
    }

    /// The opening that leads `(di, dj)` away from the current room, if the
    /// room there can still be entered.
    pub open spec fn toward(self, di: int, dj: int) -> Seq<Opening> {
        let i = self.current.0 + di;
        let j = self.current.1 + dj;
        if self.uncarved(i, j) {
            seq![
                Opening {
                    room: (i as u32, j as u32),
                    wall: ((2 * self.current.0 + 1 + di) as u32, (2 * self.current.1 + 1 + dj) as u32),
                },
            ]
        } else {
            Seq::empty()
        }
    }

    /// The openings available from the current room, in the order left, up,
    /// right, down.
    pub open spec fn options(self) -> Seq<Opening> {
        self.toward(-1, 0) + self.toward(0, -1) + self.toward(1, 0) + self.toward(0, 1)
    }

    /// Carving goes on while there is a room to fall back to, and for the
    /// very first step.
    pub open spec fn running(self) -> bool {
        self.stack.len() > 0 || self.fresh
    }

    /// The state after opening `o.wall` and entering `o.room`.
    pub open spec fn carve(self, o: Opening) -> CarveState {
        let stack = self.stack.push(o.room);
        CarveState {
            grid: put(self.grid, o.wall.0 as int, o.wall.1 as int, MazePixel::Space),
            carved: put(self.carved, o.room.0 as int, o.room.1 as int, true),
            stack,
            current: o.room,
            deepest: if stack.len() > self.deepest.0 {
                (stack.len(), o.room)
            } else {
                self.deepest
            },
            fresh: false,
            ..self
        }
    }

    /// The state after falling back: the room on top of the stack is taken
    /// off and becomes the current one. With nothing to fall back to, the
    /// carving stays where it is.
    pub open spec fn retreat(self) -> CarveState {
        if self.stack.len() == 0 {
            CarveState { fresh: false, ..self }
        } else {
            CarveState {
                stack: self.stack.drop_last(),
                current: self.stack.last(),
                fresh: false,
                ..self
            }
        }
    }

    /// The state after one step: carve on through the chosen opening, or
    /// fall back when none was chosen.
    pub open spec fn step(self, choice: Option<Opening>) -> CarveState {
        match choice {
            Some(o) => self.carve(o),
            None => self.retreat(),
        }
    }

    /// `choice` is an answer that a chooser may give in this state: one of
    /// the options, or nothing when there is none.
    pub open spec fn admits(self, choice: Option<Opening>) -> bool {
        match choice {
            Some(o) => self.options().contains(o),
            None => self.options().len() == 0,
        }
    }
}

/// The state after the steps answered by `picks`, taken in order from the
/// state that carving starts from on a board of `n` by `n` rooms.
pub open spec fn walk(n: int, picks: Seq<Option<Opening>>) -> CarveState
    decreases picks.len(),
{
    if picks.len() == 0 {
        initial(n)
    } else {
        walk(n, picks.drop_last()).step(picks.last())
    }
}

/// Each of the steps answered by `picks` was due when it was taken, and was
/// answered as a chooser may.
pub open spec fn lawful(n: int, picks: Seq<Option<Opening>>) -> bool
    decreases picks.len(),
{
    picks.len() == 0 || {
        let before = walk(n, picks.drop_last());
        &&& lawful(n, picks.drop_last())
        &&& before.running()
        &&& before.admits(picks.last())
    }
}

/// The predicate "room `(i, j)` has been entered", for counting.
pub open spec fn entered_in(carved: Seq<Seq<bool>>) -> spec_fn(int, int) -> bool {
    |i: int, j: int| carved[j][i]
}

impl CarveState {
    /// How many rooms have been entered.
    pub open spec fn entered(self) -> nat {
        tally(entered_in(self.carved), self.n, self.n)
    }

    /// A measure that every due step lowers: two for each room not yet
    /// entered, one for each room on the stack, one for the first step.
    pub open spec fn fuel(self) -> int {
        2 * (self.n * self.n - self.entered()) + self.stack.len() + if self.fresh {
            1int
        } else {
            0int
        }
    }
}

/// A carving in progress: the grid under construction together with the
/// bookkeeping of the depth-first walk.
pub struct Carver {
    pub(crate) n: u32,
    pub(crate) pixels: Vec<Vec<MazePixel>>,
    pub(crate) carved: Vec<Vec<bool>>,
    pub(crate) stack: Vec<(u32, u32)>,
    pub(crate) current: (u32, u32),
    pub(crate) top: (usize, (u32, u32)),
    pub(crate) init: bool,
}

impl View for Carver {
    type V = CarveState;

    closed spec fn view(&self) -> CarveState {
        CarveState {
            n: self.n as int,
            grid: matrix_of(self.pixels@),
            carved: matrix_of(self.carved@),
            stack: self.stack@,
            current: self.current,
            deepest: (self.top.0 as nat, self.top.1),
            fresh: self.init,
        }
    }
}

/// The pixel that position `(x, y)` holds before any wall is opened.
fn untouched_pixel(x: usize, y: usize) -> (c: MazePixel)
    ensures
        c == untouched(x as int, y as int),
{
    if x % 2 == 1 && y % 2 == 1 {
        if x == 1 && y == 1 {
            MazePixel::Player
        } else {
            MazePixel::Space
        }
    } else {
        MazePixel::Wall
    }
}

/// The grid of side `side` in which every room is open and every wall closed.
fn untouched_grid(side: usize) -> (pixels: Vec<Vec<MazePixel>>)
    ensures
        has_shape(matrix_of(pixels@), side as int, side as int),
        forall|x: int, y: int|
            0 <= x < side && 0 <= y < side ==> #[trigger] matrix_of(pixels@)[y][x] == untouched(x, y),
{
    let mut pixels: Vec<Vec<MazePixel>> = Vec::new();
    let mut y: usize = 0;
    while y < side
        invariant
            y <= side,
            has_shape(matrix_of(pixels@), side as int, y as int),
            forall|c: int, r: int|
                0 <= c < side && 0 <= r < y ==> #[trigger] matrix_of(pixels@)[r][c] == untouched(c, r),
        decreases side - y,
    {
        let mut row: Vec<MazePixel> = Vec::new();
        let mut x: usize = 0;
        while x < side
            invariant
                x <= side,
                row@.len() == x,
                forall|c: int| 0 <= c < x ==> #[trigger] row@[c] == untouched(c, y as int),
            decreases side - x,
        {
            row.push(untouched_pixel(x, y));
            x += 1;
        }
        let ghost before = matrix_of(pixels@);
        pixels.push(row);
        proof {
            assert forall|r: int| 0 <= r < y + 1 implies (#[trigger] matrix_of(pixels@)[r]).len()
                == side by {
                if r < y {
                    assert(matrix_of(pixels@)[r] == before[r]);
                }
            }
            assert forall|c: int, r: int| 0 <= c < side && 0 <= r < y + 1 implies #[trigger] matrix_of(
                pixels@,
            )[r][c] == untouched(c, r) by {
                if r < y {
                    assert(matrix_of(pixels@)[r] == before[r]);
                }
            }
        }
        y += 1;
    }
    pixels
}

impl Carver {
    /// Sets up the carving of a board of `n` by `n` rooms: all rooms open,
    /// all walls closed, the player in the start room, and no room entered
    /// but the start room.
    pub fn new(n: u32) -> (c: Carver)
        requires
            1 <= n <= MAX_SIZE,
        ensures
            c@ == initial(n as int),
            c@.inv(),
    {
        let side: usize = (n as usize) * 2 + 1;
        let pixels = untouched_grid(side);
        let mut carved = filled(n as usize, n as usize, false);
        proof {
            assert(matrix_of(carved@)[0].len() == n);
        }
        store(&mut carved, 0, 0, true);
        let c = Carver {
            n,
            pixels,
            carved,
            stack: Vec::new(),
            current: (0, 0),
            top: (0, (0, 0)),
            init: true,
        };
        proof {
            assert(c@.grid =~~= initial(n as int).grid);
            assert(c@.carved =~~= initial(n as int).carved);
            assert(c@.stack =~= initial(n as int).stack);
            lemma_initial_inv(n as int);
        }
        c
    }

    /// Rooms per side of the board.
    pub fn size(&self) -> (n: u32)
        ensures
            n == self@.n,
    {
        self.n
    }

    /// Whether another step is due.
    pub fn running(&self) -> (r: bool)
        ensures
            r == self@.running(),
    {
        self.stack.len() > 0 || self.init
    }

    /// The room that first reached the greatest stack depth seen so far.
    pub fn deepest(&self) -> (room: (u32, u32))
        ensures
            room == self@.deepest.1,
    {
        self.top.1
    }

    /// Gives up the carving and hands out the grid as it stands.
    pub fn into_pixels(self) -> (pixels: Vec<Vec<MazePixel>>)
        ensures
            matrix_of(pixels@) == self@.grid,
    {
        self.pixels
    }

    /// Whether room `(i, j)` has been entered.
    fn entered(&self, i: u32, j: u32) -> (b: bool)
        requires
            self@.framed(),
            self@.on_board(i as int, j as int),
        ensures
            b == self@.carved[j as int][i as int],
    {
        assert(self@.carved[j as int].len() == self.n);
        self.carved[j as usize][i as usize]
    }

    /// The openings available from the current room: for each of left, up,
    /// right and down, in that order, the neighbour there if it is on the
    /// board and has not been entered, with the wall that leads to it.
    pub fn options(&self) -> (v: Vec<Opening>)
        requires
            self@.framed(),
        ensures
            v@ == self@.options(),
    {
        let mut v: Vec<Opening> = Vec::new();
        let (i, j) = self.current;
        let ghost s = self@;
        if i > 0 && !self.entered(i - 1, j) {
            v.push(Opening { room: (i - 1, j), wall: (i * 2, j * 2 + 1) });
        }
        let ghost left = v@;
        assert(left == s.toward(-1, 0)) by {
            assert(left =~= s.toward(-1, 0));
        }
        if j > 0 && !self.entered(i, j - 1) {
            v.push(Opening { room: (i, j - 1), wall: (i * 2 + 1, j * 2) });
        }
        let ghost up = v@;
        assert(up == left + s.toward(0, -1)) by {
            assert(up =~= left + s.toward(0, -1));
        }
        if i + 1 < self.n && !self.entered(i + 1, j) {
            v.push(Opening { room: (i + 1, j), wall: (i * 2 + 2, j * 2 + 1) });
        }
        let ghost right = v@;
        assert(right == up + s.toward(1, 0)) by {
            assert(right =~= up + s.toward(1, 0));
        }
        if j + 1 < self.n && !self.entered(i, j + 1) {
            v.push(Opening { room: (i, j + 1), wall: (i * 2 + 1, j * 2 + 2) });
        }
        assert(v@ == right + s.toward(0, 1)) by {
            assert(v@ =~= right + s.toward(0, 1));
        }
        v
    }

    /// Takes one step of a walk that is still under way. With an opening,
    /// the wall is opened, and its room is entered, becomes the current room
    /// and goes on the stack. Without one, the room on top of the stack is
    /// taken off and becomes the current room; an empty stack leaves the
    /// current room as it is. Either way the deepest room is updated when the
    /// stack is deeper than ever before.
    ///
    /// Every step keeps the invariant and lowers the fuel, so a loop of steps
    /// ends whatever is chosen.
    pub fn advance(&mut self, choice: Option<Opening>)
        requires
            old(self)@.inv(),
            old(self)@.running(),
            old(self)@.admits(choice),
        ensures
            final(self)@ == old(self)@.step(choice),
            final(self)@.inv(),
            0 <= final(self)@.fuel() < old(self)@.fuel(),
    {
        let ghost before = self@;
        proof {
            lemma_step_keeps_inv(before, choice);
            lemma_step_burns_fuel(before, choice);
        }
        self.init = false;
        match choice {
            None => {
                match self.stack.pop() {
                    Some(room) => {
                        self.current = room;
                    },
                    None => {},
                }
            },
            Some(o) => {
                proof {
                    lemma_option_shape(before, o);
                    assert(before.grid[o.wall.1 as int].len() == 2 * self.n + 1);
                    assert(before.carved[o.room.1 as int].len() == self.n);
                }
                self.current = o.room;
                store(&mut self.pixels, o.wall.0 as usize, o.wall.1 as usize, MazePixel::Space);
                self.stack.push(self.current);
                store(&mut self.carved, o.room.0 as usize, o.room.1 as usize, true);
            },
        }
        if self.stack.len() > self.top.0 {
            self.top = (self.stack.len(), self.current);
        }
        proof {
            assert(self@.stack =~= old(self)@.step(choice).stack);
        }
    }
}

} // verus!
