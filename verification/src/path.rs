//! Walks through the open pixels of a grid, and what it means for two
//! pixels to be joined by one.

use vstd::prelude::*;
use crate::grid::{MazePixel, open_at, same_openings};

verus! {

/// `a` and `b` are one step apart, horizontally or vertically.
pub open spec fn adjacent(a: (int, int), b: (int, int)) -> bool {
    ||| a.1 == b.1 && (a.0 == b.0 + 1 || a.0 + 1 == b.0)
    ||| a.0 == b.0 && (a.1 == b.1 + 1 || a.1 + 1 == b.1)
}

/// `p` is a non-empty sequence of open pixels, each adjacent to the next.
pub open spec fn is_walk(g: Seq<Seq<MazePixel>>, p: Seq<(int, int)>) -> bool {
    &&& p.len() > 0
    &&& forall|i: int| 0 <= i < p.len() ==> open_at(g, (#[trigger] p[i]).0, p[i].1)
    &&& forall|i: int| 0 <= i < p.len() - 1 ==> adjacent(#[trigger] p[i], p[i + 1])
}

/// Some walk through the open pixels of `g` leads from `a` to `b`.
#[verifier::opaque]
pub open spec fn joined(g: Seq<Seq<MazePixel>>, a: (int, int), b: (int, int)) -> bool {
    exists|p: Seq<(int, int)>| is_walk(g, p) && p[0] == a && #[trigger] p.last() == b
}

/// An open pixel is joined to itself.
pub proof fn lemma_joined_self(g: Seq<Seq<MazePixel>>, a: (int, int))
    requires
        open_at(g, a.0, a.1),
    ensures
        joined(g, a, a),
{
    reveal(joined);
    let p = seq![a];
    assert(is_walk(g, p));
    assert(p[0] == a && p.last() == a);
}

/// A walk can be extended by one adjacent open pixel.
pub proof fn lemma_joined_step(g: Seq<Seq<MazePixel>>, a: (int, int), b: (int, int), c: (int, int))
    requires
        joined(g, a, b),
        adjacent(b, c),
        open_at(g, c.0, c.1),
    ensures
        joined(g, a, c),
{
    reveal(joined);
    let p = choose|p: Seq<(int, int)>| is_walk(g, p) && p[0] == a && #[trigger] p.last() == b;
    let q = p.push(c);
    assert forall|i: int| 0 <= i < q.len() - 1 implies adjacent(#[trigger] q[i], q[i + 1]) by {
        if i < p.len() - 1 {
            assert(adjacent(p[i], p[i + 1]));
        }
    }
    assert(is_walk(g, q));
    assert(q[0] == a && q.last() == c);
}

/// Walking is symmetric: a walk read backwards is a walk.
pub proof fn lemma_joined_back(g: Seq<Seq<MazePixel>>, a: (int, int), b: (int, int))
    requires
        joined(g, a, b),
    ensures
        joined(g, b, a),
{
    reveal(joined);
    let p = choose|p: Seq<(int, int)>| is_walk(g, p) && p[0] == a && #[trigger] p.last() == b;
    let q = Seq::new(p.len(), |i: int| p[p.len() - 1 - i]);
    assert forall|i: int| 0 <= i < q.len() - 1 implies adjacent(#[trigger] q[i], q[i + 1]) by {
        let k = p.len() - 2 - i;
        assert(adjacent(p[k], p[k + 1]));
    }
    assert(is_walk(g, q));
    assert(q[0] == b && q.last() == a);
}

/// Walking is transitive: two walks that meet can be glued.
pub proof fn lemma_joined_through(
    g: Seq<Seq<MazePixel>>,
    a: (int, int),
    b: (int, int),
    c: (int, int),
)
    requires
        joined(g, a, b),
        joined(g, b, c),
    ensures
        joined(g, a, c),
{
    reveal(joined);
    let p = choose|p: Seq<(int, int)>| is_walk(g, p) && p[0] == a && #[trigger] p.last() == b;
    let r = choose|r: Seq<(int, int)>| is_walk(g, r) && r[0] == b && #[trigger] r.last() == c;
    let q = p + r.subrange(1, r.len() as int);
    assert forall|i: int| 0 <= i < q.len() - 1 implies adjacent(#[trigger] q[i], q[i + 1]) by {
        if i < p.len() - 1 {
            assert(adjacent(p[i], p[i + 1]));
        } else {
            let k = i - (p.len() - 1);
            assert(adjacent(r[k], r[k + 1]));
        }
    }
    assert forall|i: int| 0 <= i < q.len() implies open_at(g, (#[trigger] q[i]).0, q[i].1) by {
        if i >= p.len() {
            assert(q[i] == r[i - p.len() + 1]);
        }
    }
    assert(is_walk(g, q));
    assert(q[0] == a && q.last() == c);
}

/// A walk survives every change of the grid that closes none of its pixels.
pub proof fn lemma_joined_grows(
    g: Seq<Seq<MazePixel>>,
    h: Seq<Seq<MazePixel>>,
    a: (int, int),
    b: (int, int),
)
    requires
        joined(g, a, b),
        forall|x: int, y: int| #[trigger] open_at(g, x, y) ==> open_at(h, x, y),
    ensures
        joined(h, a, b),
{
    reveal(joined);
    let p = choose|p: Seq<(int, int)>| is_walk(g, p) && p[0] == a && #[trigger] p.last() == b;
    assert(is_walk(h, p));
}

/// Whether two pixels are joined depends on the open positions alone.
pub proof fn lemma_joined_same_openings(
    g: Seq<Seq<MazePixel>>,
    h: Seq<Seq<MazePixel>>,
    a: (int, int),
    b: (int, int),
)
    requires
        same_openings(g, h),
    ensures
        joined(g, a, b) == joined(h, a, b),
{
    reveal(joined);
    if joined(g, a, b) {
        lemma_joined_grows(g, h, a, b);
    }
    if joined(h, a, b) {
        lemma_joined_grows(h, g, a, b);
    }
}

} // verus!
