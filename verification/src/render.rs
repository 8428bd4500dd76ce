//! The symbols a grid is drawn with, and the text it is drawn as.

use vstd::prelude::*;
use crate::grid::MazePixel;

verus! {

/// The display symbol of each pixel state. A symbol is any string, not
/// necessarily a single character, and none is checked.
#[derive(Debug)]
pub struct Charset {
    pub wall: String,
    pub air: String,
    pub target: String,
    pub player: String,
}

impl Clone for Charset {
    /// A charset with the same four symbols.
    fn clone(&self) -> (copy: Charset)
        ensures
            copy == *self,
    {
        Charset {
            wall: self.wall.clone(),
            air: self.air.clone(),
            target: self.target.clone(),
            player: self.player.clone(),
        }
    }
}

impl Charset {
    /// The characters that a pixel in state `c` is drawn as.
    pub open spec fn symbol(self, c: MazePixel) -> Seq<char> {
        match c {
            MazePixel::Wall => self.wall@,
            MazePixel::Space => self.air@,
            MazePixel::Target => self.target@,
            MazePixel::Player => self.player@,
        }
    }
}

/// The symbols of the pixels of `row`, left to right, one after another.
pub open spec fn render_row(row: Seq<MazePixel>, charset: Charset) -> Seq<char>
    decreases row.len(),
{
    if row.len() == 0 {
        Seq::empty()
    } else {
        render_row(row.drop_last(), charset) + charset.symbol(row.last())
    }
}

/// The text of a grid: its rows from top to bottom, each followed by a line
/// feed, the last one too.
pub open spec fn render(g: Seq<Seq<MazePixel>>, charset: Charset) -> Seq<char>
    decreases g.len(),
{
    if g.len() == 0 {
        Seq::empty()
    } else {
        render(g.drop_last(), charset) + render_row(g.last(), charset) + seq!['\n']
    }
}

/// The symbol that `charset` holds for a pixel in state `c`.
pub(crate) fn symbol_for(charset: &Charset, c: MazePixel) -> (s: &str)
    ensures
        s@ == charset.symbol(c),
{
    match c {
        MazePixel::Wall => charset.wall.as_str(),
        MazePixel::Space => charset.air.as_str(),
        MazePixel::Target => charset.target.as_str(),
        MazePixel::Player => charset.player.as_str(),
    }
}

/// Draws `rows` with the symbols of `charset`.
pub(crate) fn draw(rows: &Vec<Vec<MazePixel>>, charset: &Charset) -> (out: String)
    ensures
        out@ == render(crate::grid::matrix_of(rows@), *charset),
{
    let ghost g = crate::grid::matrix_of(rows@);
    let mut out = String::new();
    let mut y: usize = 0;
    proof {
        assert(g.take(0) =~= Seq::empty());
    }
    while y < rows.len()
        invariant
            y <= rows.len(),
            g == crate::grid::matrix_of(rows@),
            out@ == render(g.take(y as int), *charset),
        decreases rows.len() - y,
    {
        let row = &rows[y];
        let ghost head = out@;
        let mut x: usize = 0;
        proof {
            assert(row@.take(0) =~= Seq::empty());
        }
        while x < row.len()
            invariant
                x <= row.len(),
                out@ == head + render_row(row@.take(x as int), *charset),
            decreases row.len() - x,
        {
            out.append(symbol_for(charset, row[x]));
            proof {
                assert(row@.take(x + 1).drop_last() =~= row@.take(x as int));
                assert(row@.take(x + 1).last() == row@[x as int]);
            }
            x += 1;
        }
        out.append("\n");
        proof {
            reveal_strlit("\n");
            assert("\n"@ =~= seq!['\n']);
            assert(row@.take(x as int) =~= row@);
            assert(g.take(y + 1).drop_last() =~= g.take(y as int));
            assert(g.take(y + 1).last() == row@);
        }
        y += 1;
    }
    proof {
        assert(g.take(y as int) =~= g);
    }
    out
}

} // verus!
