//! Laws that relate the operations of the library to one another.

use vstd::prelude::*;
use crate::carve::{MAX_SIZE, Opening, lawful, walk};
use crate::coverage::ended;
use crate::grid::{Direction, MazePixel, open_at};
use crate::maze::{MazeView, ahead, lemma_finished_same_openings, lemma_move_keeps_wf};
use crate::path::{joined, lemma_joined_back, lemma_joined_through};
use crate::render::{Charset, render, render_row};
use crate::upkeep::{passage_in, passages, pixel_fits};
use crate::tally::lemma_tally_same;
use crate::walks::{lemma_lawful_walk, lemma_walls_opened};

verus! {

/// The open pixels of a maze form one piece: from any open pixel one can
/// walk to any other.
pub proof fn lemma_one_piece(v: MazeView, a: (int, int), b: (int, int))
    requires
        v.wf(),
        open_at(v.grid, a.0, a.1),
        open_at(v.grid, b.0, b.1),
    ensures
        joined(v.grid, a, b),
{
    assert(joined(v.grid, (1, 1), a));
    assert(joined(v.grid, (1, 1), b));
    lemma_joined_back(v.grid, (1, 1), a);
    lemma_joined_through(v.grid, a, (1, 1), b);
}

/// A maze as a lawful walk leaves it behind has one open wall less than it
/// has rooms. Since its open pixels form one piece, its rooms and open walls
/// form a tree: there is exactly one way from any room to any other.
pub proof fn lemma_fresh_maze_walls(n: int, picks: Seq<Option<Opening>>)
    requires
        1 <= n <= MAX_SIZE,
        lawful(n, picks),
        ended(walk(n, picks)),
    ensures
        passages(MazeView::finished(walk(n, picks)).grid, n) == n * n - 1,
{
    let s = walk(n, picks);
    let g = MazeView::finished(s).grid;
    lemma_lawful_walk(n, picks);
    lemma_walls_opened(n, picks);
    lemma_finished_same_openings(s);
    assert forall|x: int, y: int| #[trigger] passage_in(s.grid)(x, y) == #[trigger] passage_in(g)(x, y) by {}
    lemma_tally_same(passage_in(s.grid), passage_in(g), 2 * n + 1, 2 * n + 1);
}

/// A fresh maze shows the player on exactly one pixel, the start room. With
/// more than one room it shows the target on exactly one pixel, the target's
/// position, which is not the start room; with one room no pixel shows the
/// target.
pub proof fn lemma_fresh_marks(v: MazeView, n: int, x: int, y: int)
    requires
        1 <= n,
        v.fresh(n),
        0 <= x < v.width,
        0 <= y < v.height,
    ensures
        v.grid[y][x] == MazePixel::Player <==> x == 1 && y == 1,
        v.grid[y][x] == MazePixel::Target <==> n >= 2 && x == v.target.0 && y == v.target.1,
        n >= 2 ==> v.target != v.player,
{
    if !(x == v.target.0 && y == v.target.1) {
        assert(pixel_fits(n, x, y, v.grid[y][x]));
    }
}

/// The direction that leads back.
pub open spec fn opposite(d: Direction) -> Direction {
    match d {
        Direction::Up => Direction::Down,
        Direction::Down => Direction::Up,
        Direction::Left => Direction::Right,
        Direction::Right => Direction::Left,
    }
}

/// A move that is refused leaves the maze as it is. A move that takes place
/// changes exactly two pixels: where the player stood the player showed and
/// now there is empty space, and where the player stands the player shows,
/// which it did not before.
pub proof fn lemma_move_changes_two_pixels(v: MazeView, d: Direction, x: int, y: int)
    requires
        v.wf(),
        0 <= x < v.width,
        0 <= y < v.height,
    ensures
        ({
            let w = v.after_move(d);
            let a = ahead(v.player, d);
            if open_at(v.grid, a.0, a.1) {
                &&& w.player.0 == a.0 && w.player.1 == a.1
                &&& v.grid[v.player.1 as int][v.player.0 as int] == MazePixel::Player
                &&& w.grid[v.player.1 as int][v.player.0 as int] == MazePixel::Space
                &&& v.grid[a.1][a.0] != MazePixel::Player
                &&& w.grid[a.1][a.0] == MazePixel::Player
                &&& w.grid[y][x] != v.grid[y][x] <==> (x == v.player.0 && y == v.player.1) || (x == a.0
                    && y == a.1)
            } else {
                w == v
            }
        }),
{
    let a = ahead(v.player, d);
    lemma_move_keeps_wf(v, d);
    if open_at(v.grid, a.0, a.1) {
        let w = v.after_move(d);
        assert(v.grid[y].len() == v.width);
        assert(v.grid[a.1].len() == v.width);
        assert(v.grid[v.player.1 as int].len() == v.width);
        assert(v.grid[a.1][a.0] != MazePixel::Player);
    }
}

/// A step onto empty space and the step back leave the maze as it was.
pub proof fn lemma_move_there_and_back(v: MazeView, d: Direction)
    requires
        v.wf(),
        open_at(v.grid, ahead(v.player, d).0, ahead(v.player, d).1),
        v.grid[ahead(v.player, d).1][ahead(v.player, d).0] == MazePixel::Space,
    ensures
        open_at(
            v.after_move(d).grid,
            ahead(v.after_move(d).player, opposite(d)).0,
            ahead(v.after_move(d).player, opposite(d)).1,
        ),
        v.after_move(d).after_move(opposite(d)) == v,
{
    let a = ahead(v.player, d);
    let w = v.after_move(d);
    let b = ahead(w.player, opposite(d));
    let u = w.after_move(opposite(d));
    let s = v.width;
    lemma_move_keeps_wf(v, d);
    assert(v.grid[v.player.1 as int].len() == s);
    assert(v.grid[a.1].len() == s);
    assert(b.0 == v.player.0 && b.1 == v.player.1);
    assert(w.grid[a.1].len() == s);
    assert(w.grid[b.1].len() == s);
    assert(w.grid[b.1][b.0] == MazePixel::Space);
    assert(u.player == v.player);
    assert(u.grid =~~= v.grid) by {
        assert forall|y: int| 0 <= y < s implies #[trigger] u.grid[y] =~= v.grid[y] by {
            assert(v.grid[y].len() == s);
            assert(w.grid[y].len() == s);
        }
    }
}

/// A move that does not step onto the target leaves the target's mark where
/// it is. So the target's position shows the target until the player first
/// stands there.
pub proof fn lemma_move_keeps_target_mark(v: MazeView, d: Direction)
    requires
        v.wf(),
        v.target.0 < v.width,
        v.target.1 < v.height,
        v.grid[v.target.1 as int][v.target.0 as int] == MazePixel::Target,
        v.after_move(d).player != v.target,
    ensures
        v.after_move(d).target == v.target,
        v.after_move(d).grid[v.target.1 as int][v.target.0 as int] == MazePixel::Target,
{
    let a = ahead(v.player, d);
    if open_at(v.grid, a.0, a.1) {
        assert(v.grid[v.target.1 as int].len() == v.width);
        assert(v.grid[v.player.1 as int].len() == v.width);
        assert(v.grid[a.1].len() == v.width);
    }
}

/// The text of a row that is made of two parts is the text of the first
/// part followed by the text of the second.
pub proof fn lemma_render_row_concat(a: Seq<MazePixel>, b: Seq<MazePixel>, charset: Charset)
    ensures
        render_row(a + b, charset) == render_row(a, charset) + render_row(b, charset),
    decreases b.len(),
{
    if b.len() == 0 {
        assert(a + b =~= a);
        assert(render_row(a, charset) + render_row(b, charset) =~= render_row(a, charset));
    } else {
        lemma_render_row_concat(a, b.drop_last(), charset);
        assert((a + b).drop_last() =~= a + b.drop_last());
        assert((a + b).last() == b.last());
        assert((render_row(a, charset) + render_row(b.drop_last(), charset)) + charset.symbol(b.last())
            =~= render_row(a, charset) + (render_row(b.drop_last(), charset) + charset.symbol(
            b.last(),
        )));
    }
}

/// Each pixel contributes its own symbol to the text of its row, between
/// the text of the pixels before it and the text of the pixels after it.
pub proof fn lemma_render_row_at(row: Seq<MazePixel>, k: int, charset: Charset)
    requires
        0 <= k < row.len(),
    ensures
        render_row(row, charset) == render_row(row.take(k), charset) + charset.symbol(row[k])
            + render_row(row.skip(k + 1), charset),
{
    let head = row.take(k + 1);
    assert(row =~= head + row.skip(k + 1));
    lemma_render_row_concat(head, row.skip(k + 1), charset);
    assert(head.drop_last() =~= row.take(k));
    assert(head.last() == row[k]);
}

/// Two charsets that hold the same symbol for every state that occurs in a
/// row draw that row alike.
pub proof fn lemma_render_row_same_symbols(row: Seq<MazePixel>, a: Charset, b: Charset)
    requires
        forall|k: int| 0 <= k < row.len() ==> a.symbol(#[trigger] row[k]) == b.symbol(row[k]),
    ensures
        render_row(row, a) == render_row(row, b),
    decreases row.len(),
{
    if row.len() > 0 {
        let front = row.drop_last();
        assert forall|k: int| 0 <= k < front.len() implies a.symbol(#[trigger] front[k]) == b.symbol(
            front[k],
        ) by {
            assert(front[k] == row[k]);
        }
        lemma_render_row_same_symbols(front, a, b);
    }
}

/// Two charsets that hold the same symbol for every state that occurs in a
/// grid draw that grid alike. So changing the symbol of one state changes
/// nothing but what is drawn for pixels in that state.
pub proof fn lemma_render_same_symbols(g: Seq<Seq<MazePixel>>, a: Charset, b: Charset)
    requires
        forall|y: int, x: int|
            0 <= y < g.len() && 0 <= x < g[y].len() ==> a.symbol(#[trigger] g[y][x]) == b.symbol(
                g[y][x],
            ),
    ensures
        render(g, a) == render(g, b),
    decreases g.len(),
{
    if g.len() > 0 {
        let front = g.drop_last();
        assert forall|y: int, x: int| 0 <= y < front.len() && 0 <= x < front[y].len() implies a.symbol(
            #[trigger] front[y][x],
        ) == b.symbol(front[y][x]) by {
            assert(front[y] == g[y]);
        }
        lemma_render_same_symbols(front, a, b);
        let row = g.last();
        assert forall|k: int| 0 <= k < row.len() implies a.symbol(#[trigger] row[k]) == b.symbol(
            row[k],
        ) by {
            assert(row[k] == g[g.len() - 1][k]);
        }
        lemma_render_row_same_symbols(row, a, b);
    }
}

} // verus!
