//! The maze: a carved grid with the player's position and the target's.

use vstd::prelude::*;
use crate::carve::{CarveState, Carver, Opening, MAX_SIZE, lawful, walk};
use crate::coverage::ended;
use crate::grid::{
    Direction,
    MazePixel,
    has_shape,
    is_pillar,
    is_room,
    matrix_of,
    on_rim,
    open_at,
    put,
    same_openings,
    store,
};
use crate::random::choose_opening;
use crate::render::{Charset, draw, render};
use crate::upkeep::{passages, pixel_fits};
use crate::walks::lemma_lawful_walk;
use crate::structure::{lemma_carving_is_well_carved, lemma_well_carved_same_openings, well_carved};

verus! {

/// A maze on a square grid of odd side. Positions are `(x, y)` pixels, `x`
/// growing to the right and `y` growing downwards.
#[derive(Debug)]
pub struct Maze {
    pub(crate) size: (u32, u32),
    pub(crate) pixels: Vec<Vec<MazePixel>>,
    /// Where the player stands.
    pub player: (u32, u32),
    /// Where the target is.
    pub target: (u32, u32),
}

/// The pixel one step from `from` in direction `d`.
pub open spec fn ahead(from: (u32, u32), d: Direction) -> (int, int) {
    match d {
        Direction::Up => (from.0 as int, from.1 - 1),
        Direction::Down => (from.0 as int, from.1 + 1),
        Direction::Left => (from.0 - 1, from.1 as int),
        Direction::Right => (from.0 + 1, from.1 as int),
    }
}

/// The mathematical content of a maze.
pub struct MazeView {
    /// The pixels, `grid[y][x]`.
    pub grid: Seq<Seq<MazePixel>>,
    /// Pixels per row.
    pub width: int,
    /// Number of rows.
    pub height: int,
    /// Where the player stands.
    pub player: (u32, u32),
    /// Where the target is.
    pub target: (u32, u32),
}

impl MazeView {
    /// Rooms per side.
    pub open spec fn rooms(self) -> int {
        (self.width - 1) / 2
    }

    /// What holds of every maze: the grid is a square of odd side at least
    /// three; rim and pillars are walls and rooms are not; the player's
    /// position shows the player and no other pixel does; no pixel but the
    /// target's position shows the target; and the open pixels are well
    /// carved, which is to say that they form one piece and that there is
    /// one open wall less than there are rooms.
    pub open spec fn wf(self) -> bool {
        let s = self.width;
        let g = self.grid;
        &&& self.height == s
        &&& 3 <= s <= u32::MAX
        &&& s % 2 == 1
        &&& has_shape(g, s, s)
        &&& forall|x: int, y: int|
            0 <= x < s && 0 <= y < s && (on_rim(s, x, y) || is_pillar(x, y)) ==> #[trigger] g[y][x]
                == MazePixel::Wall
        &&& forall|x: int, y: int|
            0 <= x < s && 0 <= y < s && is_room(x, y) ==> #[trigger] g[y][x] != MazePixel::Wall
        &&& forall|x: int, y: int|
            0 <= x < s && 0 <= y < s && #[trigger] g[y][x] == MazePixel::Player ==> x == self.player.0
                && y == self.player.1
        &&& forall|x: int, y: int|
            0 <= x < s && 0 <= y < s && #[trigger] g[y][x] == MazePixel::Target ==> x == self.target.0
                && y == self.target.1
        &&& self.player.0 < s
        &&& self.player.1 < s
        &&& g[self.player.1 as int][self.player.0 as int] == MazePixel::Player
        &&& well_carved(g, self.rooms())
    }

    /// The maze after the player has stepped to `(x, y)`: the pixel left is
    /// empty space and the pixel entered shows the player.
    pub open spec fn step_to(self, x: int, y: int) -> MazeView {
        MazeView {
            grid: put(
                put(self.grid, self.player.0 as int, self.player.1 as int, MazePixel::Space),
                x,
                y,
                MazePixel::Player,
            ),
            player: (x as u32, y as u32),
            ..self
        }
    }

    /// The maze after a request to move in direction `d`: the player steps
    /// there if that pixel is open, and nothing changes if it is not.
    pub open spec fn after_move(self, d: Direction) -> MazeView {
        let a = ahead(self.player, d);
        if open_at(self.grid, a.0, a.1) {
            self.step_to(a.0, a.1)
        } else {
            self
        }
    }
}

/// A move keeps the maze well formed and opens or closes nothing: the two
/// pixels it changes were open before and are open after.
pub proof fn lemma_move_keeps_wf(v: MazeView, d: Direction)
    requires
        v.wf(),
    ensures
        v.after_move(d).wf(),
        same_openings(v.grid, v.after_move(d).grid),
{
    let a = ahead(v.player, d);
    let g = v.grid;
    let s = v.width;
    if open_at(g, a.0, a.1) {
        let w = v.step_to(a.0, a.1);
        let h = w.grid;
        let px = v.player.0 as int;
        let py = v.player.1 as int;
        assert(g[py].len() == s);
        assert(g[a.1].len() == s);
        assert forall|y: int| 0 <= y < s implies (#[trigger] h[y]).len() == s by {
            assert(g[y].len() == s);
        }
        assert forall|x: int, y: int| 0 <= x < s && 0 <= y < s implies #[trigger] h[y][x] == (if x
            == a.0 && y == a.1 {
            MazePixel::Player
        } else if x == px && y == py {
            MazePixel::Space
        } else {
            g[y][x]
        }) by {
            assert(g[y].len() == s);
        }
        assert forall|x: int, y: int|
            #![trigger open_at(g, x, y)]
            #![trigger open_at(h, x, y)]
            open_at(g, x, y) == open_at(h, x, y) by {
            if 0 <= y < s && 0 <= x < s {
                assert(g[y].len() == s);
                assert(h[y][x] == h[y][x]);
            }
        }
        lemma_well_carved_same_openings(g, h, v.rooms());
        assert forall|x: int, y: int|
            0 <= x < s && 0 <= y < s && (on_rim(s, x, y) || is_pillar(x, y)) implies #[trigger] h[y][x]
            == MazePixel::Wall by {
            assert(g[y][x] == MazePixel::Wall);
        }
        assert forall|x: int, y: int| 0 <= x < s && 0 <= y < s && is_room(x, y) implies #[trigger] h[y][x]
            != MazePixel::Wall by {
            assert(g[y][x] != MazePixel::Wall);
        }
        assert forall|x: int, y: int|
            0 <= x < s && 0 <= y < s && #[trigger] h[y][x] == MazePixel::Player implies x == w.player.0
            && y == w.player.1 by {
            if !(x == a.0 && y == a.1) && !(x == px && y == py) {
                assert(g[y][x] == MazePixel::Player);
            }
        }
        assert forall|x: int, y: int|
            0 <= x < s && 0 <= y < s && #[trigger] h[y][x] == MazePixel::Target implies x == w.target.0
            && y == w.target.1 by {
            assert(g[y][x] == MazePixel::Target);
        }
    }
}

impl MazeView {
    /// The maze that a walk leaves behind: its grid with the target marked
    /// in the room that first reached the greatest depth, and the player in
    /// the start room. On a board of one room that room is the start room;
    /// it goes on showing the player, and no pixel shows the target.
    pub open spec fn finished(s: CarveState) -> MazeView {
        let x = 2 * s.deepest.1.0 + 1;
        let y = 2 * s.deepest.1.1 + 1;
        MazeView {
            grid: if s.deepest.1 == (0u32, 0u32) {
                s.grid
            } else {
                put(s.grid, x, y, MazePixel::Target)
            },
            width: 2 * s.n + 1,
            height: 2 * s.n + 1,
            player: (1u32, 1u32),
            target: (x as u32, y as u32),
        }
    }

    /// What holds of a maze of `n` by `n` rooms before any move: the grid
    /// has side `2n + 1`; the player stands in the start room, which shows
    /// the player; the target's position is a room; on a board of more than
    /// one room it is another room than the start room and shows the target,
    /// on a board of one room it is the start room; and every other pixel
    /// holds what carving allows there, so that exactly one pixel shows the
    /// player and, with more than one room, exactly one the target.
    pub open spec fn fresh(self, n: int) -> bool {
        &&& self.width == 2 * n + 1
        &&& self.height == 2 * n + 1
        &&& self.player == (1u32, 1u32)
        &&& self.grid[1][1] == MazePixel::Player
        &&& is_room(self.target.0 as int, self.target.1 as int)
        &&& self.target.0 < self.width
        &&& self.target.1 < self.height
        &&& n >= 2 ==> self.target != self.player && self.grid[self.target.1 as int][self.target.0 as int]
            == MazePixel::Target
        &&& n == 1 ==> self.target == self.player
        &&& forall|x: int, y: int|
            0 <= x < self.width && 0 <= y < self.height && !(x == self.target.0 && y == self.target.1)
                ==> pixel_fits(n, x, y, #[trigger] self.grid[y][x])
    }
}

/// Marking the target opens and closes nothing: the target goes to a room,
/// and rooms are open.
pub proof fn lemma_finished_same_openings(s: CarveState)
    requires
        s.framed(),
    ensures
        same_openings(s.grid, MazeView::finished(s).grid),
{
    let g = MazeView::finished(s).grid;
    let n = s.n;
    let tx = 2 * s.deepest.1.0 + 1;
    let ty = 2 * s.deepest.1.1 + 1;
    assert(s.entered_at(s.deepest.1.0 as int, s.deepest.1.1 as int));
    assert(s.grid[ty].len() == 2 * n + 1);
    assert(pixel_fits(n, tx, ty, s.grid[ty][tx]));
    assert forall|x: int, y: int|
        #![trigger open_at(s.grid, x, y)]
        #![trigger open_at(g, x, y)]
        open_at(s.grid, x, y) == open_at(g, x, y) by {
        if 0 <= y < 2 * n + 1 && 0 <= x < 2 * n + 1 {
            assert(s.grid[y].len() == 2 * n + 1);
            assert(g[y][x] == g[y][x]);
        }
    }
}

/// What a walk leaves behind once it has ended is a well-formed, fresh maze.
pub proof fn lemma_finished_maze(s: CarveState)
    requires
        s.inv(),
        ended(s),
    ensures
        MazeView::finished(s).wf(),
        MazeView::finished(s).fresh(s.n),
{
    let v = MazeView::finished(s);
    let g = v.grid;
    let n = s.n;
    let tx = 2 * s.deepest.1.0 + 1;
    let ty = 2 * s.deepest.1.1 + 1;
    lemma_carving_is_well_carved(s);
    lemma_finished_same_openings(s);
    lemma_well_carved_same_openings(s.grid, g, n);
    assert(s.entered_at(s.deepest.1.0 as int, s.deepest.1.1 as int));
    assert(s.grid[ty].len() == 2 * n + 1);
    assert forall|y: int| 0 <= y < 2 * n + 1 implies (#[trigger] g[y]).len() == 2 * n + 1 by {
        assert(s.grid[y].len() == 2 * n + 1);
    }
    assert forall|x: int, y: int| 0 <= x < 2 * n + 1 && 0 <= y < 2 * n + 1 implies #[trigger] g[y][x]
        == (if x == tx && y == ty && !(tx == 1 && ty == 1) {
        MazePixel::Target
    } else {
        s.grid[y][x]
    }) && pixel_fits(n, x, y, s.grid[y][x]) by {
        assert(pixel_fits(n, x, y, s.grid[y][x]));
    }
    assert(v.rooms() == n);
    assert(s.grid[1].len() == 2 * n + 1);
    assert(pixel_fits(n, 1, 1, s.grid[1][1]));
    assert(g[1][1] == MazePixel::Player);
}

impl View for Maze {
    type V = MazeView;

    closed spec fn view(&self) -> MazeView {
        MazeView {
            grid: matrix_of(self.pixels@),
            width: self.size.0 as int,
            height: self.size.1 as int,
            player: self.player,
            target: self.target,
        }
    }
}

impl Clone for Maze {
    /// A maze with the same grid, player and target.
    fn clone(&self) -> (copy: Maze)
        ensures
            copy@ == self@,
    {
        Maze { size: self.size, pixels: self.as_vec(), player: self.player, target: self.target }
    }
}

impl Maze {
    /// What holds of every maze that this library hands out.
    pub open spec fn wf(&self) -> bool {
        self@.wf()
    }

    /// Pixels per row.
    pub fn width(&self) -> (w: u32)
        ensures
            w == self@.width,
    {
        self.size.0
    }

    /// Number of rows.
    pub fn height(&self) -> (h: u32)
        ensures
            h == self@.height,
    {
        self.size.1
    }

    /// Whether `(x, y)` is a position of the grid.
    pub fn in_bounds(&self, x: u32, y: u32) -> (inside: bool)
        ensures
            inside == (x < self@.width && y < self@.height),
    {
        x < self.size.0 && y < self.size.1
    }

    /// The pixel at `(x, y)`, which the caller has made sure is a position
    /// of the grid.
    pub fn pixel(&self, x: u32, y: u32) -> (p: MazePixel)
        requires
            self.wf(),
            x < self@.width,
            y < self@.height,
        ensures
            p == self@.grid[y as int][x as int],
    {
        proof {
            assert(self@.grid[y as int].len() == self@.width);
        }
        self.pixels[y as usize][x as usize]
    }

    /// Where the player stands.
    pub fn player(&self) -> (at: (u32, u32))
        ensures
            at == self@.player,
    {
        self.player
    }

    /// Where the target is.
    pub fn target(&self) -> (at: (u32, u32))
        ensures
            at == self@.target,
    {
        self.target
    }

    /// Generates a maze of `size` by `size` rooms by a randomized depth-first
    /// walk that starts in the top left room. The player starts in that
    /// room; the target goes to the room that first reached the greatest
    /// depth of the walk, which is another room whenever there is one. A
    /// maze of one room has the target where the player is, and shows the
    /// player there.
    ///
    /// Which maze comes out is up to the random source. Whatever it answers,
    /// the maze is what some lawful walk leaves behind once it has ended, and
    /// so is well formed and fresh: its rooms and open walls form a tree.
    pub fn new(size: u32) -> (maze: Maze)
        requires
            1 <= size <= MAX_SIZE,
        ensures
            maze.wf(),
            maze@.fresh(size as int),
            passages(maze@.grid, size as int) == size * size - 1,
            maze@.grid[1][1] == MazePixel::Player,
            size >= 2 ==> maze@.target != maze@.player && maze@.grid[maze@.target.1 as int][maze@.target.0 as int]
                == MazePixel::Target,
            exists|picks: Seq<Option<Opening>>|
                lawful(size as int, picks) && ended(#[trigger] walk(size as int, picks)) && maze@
                    == MazeView::finished(walk(size as int, picks)),
    {
        let mut carver = Carver::new(size);
        let mut rng = rand::thread_rng();
        let ghost mut picks: Seq<Option<Opening>> = Seq::empty();
        while carver.running()
            invariant
                1 <= size <= MAX_SIZE,
                carver@.inv(),
                carver@ == walk(size as int, picks),
                lawful(size as int, picks),
            decreases carver@.fuel(),
        {
            let options = carver.options();
            let choice = match choose_opening(&options, &mut rng) {
                Some(o) => Some(*o),
                None => None,
            };
            carver.advance(choice);
            proof {
                assert(picks.push(choice).drop_last() =~= picks);
                picks = picks.push(choice);
            }
        }
        let room = carver.deepest();
        let ghost s = carver@;
        proof {
            lemma_lawful_walk(size as int, picks);
            lemma_finished_maze(s);
            assert(s.entered_at(room.0 as int, room.1 as int));
            assert(s.grid[2 * room.1 + 1].len() == 2 * size + 1);
        }
        let target = (room.0 * 2 + 1, room.1 * 2 + 1);
        let mut pixels = carver.into_pixels();
        if room.0 != 0 || room.1 != 0 {
            store(&mut pixels, target.0 as usize, target.1 as usize, MazePixel::Target);
        }
        let maze = Maze { size: (size * 2 + 1, size * 2 + 1), pixels, player: (1, 1), target };
        proof {
            assert(maze@ == MazeView::finished(s));
        }
        maze
    }

    /// Moves the player one step in `direction` if the pixel there is open,
    /// and says whether it did. A refused move changes nothing. A move that
    /// takes place changes exactly two pixels: the one left becomes empty
    /// space and the one entered shows the player.
    pub fn player_move(&mut self, direction: Direction) -> (moved: bool)
        requires
            old(self).wf(),
        ensures
            final(self).wf(),
            moved == open_at(
                old(self)@.grid,
                ahead(old(self)@.player, direction).0,
                ahead(old(self)@.player, direction).1,
            ),
            final(self)@ == old(self)@.after_move(direction),
            !moved ==> *final(self) == *old(self),
            same_openings(old(self)@.grid, final(self)@.grid),
    {
        let ghost g = self@.grid;
        let ghost s = self@.width;
        proof {
            lemma_move_keeps_wf(self@, direction);
            assert(g[self.player.1 as int].len() == s);
        }
        let will_overflow = match direction {
            Direction::Up => self.player.1 <= 1,
            Direction::Left => self.player.0 <= 1,
            _ => false,
        };
        if will_overflow {
            proof {
                let a = ahead(self.player, direction);
                if 0 <= a.0 && 0 <= a.1 {
                    assert(g[a.1][a.0] == MazePixel::Wall);
                }
            }
            return false;
        }
        let new_pos = match direction {
            Direction::Up => (self.player.0, self.player.1 - 1),
            Direction::Down => (self.player.0, self.player.1 + 1),
            Direction::Left => (self.player.0 - 1, self.player.1),
            Direction::Right => (self.player.0 + 1, self.player.1),
        };
        if new_pos.0 >= self.size.0 || new_pos.1 >= self.size.1 {
            return false;
        }
        proof {
            assert(g[new_pos.1 as int].len() == s);
        }
        let target_cell = self.pixels[new_pos.1 as usize][new_pos.0 as usize];
        if target_cell == MazePixel::Wall {
            return false;
        }
        store(&mut self.pixels, self.player.0 as usize, self.player.1 as usize, MazePixel::Space);
        proof {
            assert(self@.grid[new_pos.1 as int].len() == s);
        }
        store(&mut self.pixels, new_pos.0 as usize, new_pos.1 as usize, MazePixel::Player);
        self.player = new_pos;
        true
    }

    /// A copy of the pixels, row by row from the top: `as_vec()[y][x]` is
    /// the pixel at `(x, y)`.
    pub fn as_vec(&self) -> (rows: Vec<Vec<MazePixel>>)
        ensures
            matrix_of(rows@) == self@.grid,
    {
        let mut rows: Vec<Vec<MazePixel>> = Vec::new();
        let mut y: usize = 0;
        while y < self.pixels.len()
            invariant
                y <= self.pixels.len(),
                rows@.len() == y,
                forall|r: int| 0 <= r < y ==> (#[trigger] rows@[r])@ == self.pixels@[r]@,
            decreases self.pixels.len() - y,
        {
            let source = &self.pixels[y];
            let mut row: Vec<MazePixel> = Vec::new();
            let mut x: usize = 0;
            while x < source.len()
                invariant
                    x <= source.len(),
                    row@ == source@.take(x as int),
                decreases source.len() - x,
            {
                row.push(source[x]);
                proof {
                    assert(row@ =~= source@.take(x + 1));
                }
                x += 1;
            }
            proof {
                assert(source@.take(x as int) =~= source@);
            }
            rows.push(row);
            y += 1;
        }
        proof {
            assert(matrix_of(rows@) =~~= self@.grid);
        }
        rows
    }

    /// The maze as text: one line per row from the top, each pixel drawn
    /// with the symbol that `charset` holds for its state, and a line feed
    /// after every row.
    pub fn as_string(&self, charset: &Charset) -> (out: String)
        ensures
            out@ == render(self@.grid, *charset),
    {
        let apixels = self.as_vec();
        draw(&apixels, charset)
    }
}

} // verus!
