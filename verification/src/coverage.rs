//! Why the walk, once it has ended, has entered every room.
//!
//! The walk does not come back to a room a third time, so a room may be left
//! behind with a neighbour that was never entered. Such a room has all four
//! neighbours on the board: the one it was entered from, two that were
//! entered from it, and the one never entered. Along the rim no room has
//! four neighbours, and inside the board a room left behind always leads to
//! one that was left behind later, which cannot go on for ever. Two rooms
//! are looked at only once, the start room and the first room entered; they
//! lie side by side in a corner, and the rooms around them make up for it.

use vstd::prelude::*;
use crate::carve::CarveState;
use crate::path::adjacent;
use crate::trail::{
    Trail,
    distinct,
    hemmed,
    is_current,
    kid,
    kids,
    left,
    looked,
    ranked,
    rooted,
    rooted_at,
    shaped,
    stacked,
    traced,
};

verus! {

/// The walk has ended: it has taken a step and the stack is empty.
pub open spec fn ended(s: CarveState) -> bool {
    !s.fresh && s.stack.len() == 0
}

/// What the trail says once the walk has ended on a board of more than one
/// room. The current room is the first room entered, a neighbour of the
/// start room, from which it was entered. Every other room that was
/// entered, but the start room, came from a room entered before it, and has
/// no neighbour left to enter or two that were entered from it.
#[verifier::opaque]
pub open spec fn settled(s: CarveState, h: Trail) -> bool {
    let ci = s.current.0 as int;
    let cj = s.current.1 as int;
    &&& s.n >= 2
    &&& shaped(s, h)
    &&& has_marks(s)
    &&& s.entered_at(0, 0)
    &&& s.entered_at(ci, cj)
    &&& (ci == 1 && cj == 0) || (ci == 0 && cj == 1)
    &&& h.from[cj][ci] == (0int, 0int)
    &&& h.when[cj][ci] == 1
    &&& hemmed(s, ci, cj) || kids(s, h, ci, cj) >= 1
    &&& forall|i: int, j: int| #[trigger] s.entered_at(i, j) ==> h.when[j][i] <= h.clock
    &&& forall|i: int, j: int| #[trigger]
        s.entered_at(i, j) && !is_current(s, i, j) && !(i == 0 && j == 0) ==> {
            let p = h.from[j][i];
            &&& s.entered_at(p.0, p.1)
            &&& adjacent((i, j), p)
            &&& h.when[p.1][p.0] < h.when[j][i]
            &&& hemmed(s, i, j) || kids(s, h, i, j) >= 2
        }
}

/// The marks have the shape of the board.
pub open spec fn has_marks(s: CarveState) -> bool {
    crate::grid::has_shape(s.carved, s.n, s.n)
}

/// Once the walk has ended on a board of more than one room, its trail is
/// settled.
pub proof fn lemma_ended_is_settled(s: CarveState, h: Trail)
    requires
        s.framed(),
        traced(s, h),
        ended(s),
        s.n >= 2,
    ensures
        settled(s, h),
{
    reveal(settled);
    reveal(ranked);
    reveal(distinct);
    reveal(rooted);
    reveal(looked);
    reveal(left);
    reveal(stacked);
    let ci = s.current.0 as int;
    let cj = s.current.1 as int;
    assert(s.entered_at(ci, cj));
    assert(s.entered_at(0, 0));
    assert(!(ci == 0 && cj == 0));
    assert(rooted_at(s, h, ci, cj));
    let p = h.from[cj][ci];
    assert(s.entered_at(p.0, p.1));
    assert(h.when[p.1][p.0] == 0);
    assert(p == (0int, 0int));
    assert forall|i: int, j: int|
        #[trigger] s.entered_at(i, j) && !is_current(s, i, j) && !(i == 0 && j == 0) implies ({
        let p = h.from[j][i];
        &&& s.entered_at(p.0, p.1)
        &&& adjacent((i, j), p)
        &&& h.when[p.1][p.0] < h.when[j][i]
        &&& hemmed(s, i, j) || kids(s, h, i, j) >= 2
    }) by {
        assert(rooted_at(s, h, i, j));
        assert(!crate::trail::on_stack(s, i, j));
    }
}

/// How many of the four neighbours of room `(i, j)` are left to enter.
pub open spec fn gaps(s: CarveState, i: int, j: int) -> int {
    (if s.uncarved(i - 1, j) {
        1int
    } else {
        0int
    }) + (if s.uncarved(i + 1, j) {
        1int
    } else {
        0int
    }) + (if s.uncarved(i, j - 1) {
        1int
    } else {
        0int
    }) + (if s.uncarved(i, j + 1) {
        1int
    } else {
        0int
    })
}

/// The neighbour `(k, l)` of room `(i, j)` is the room that `(i, j)` was
/// entered from, or is left to enter, or was entered from `(i, j)` and then
/// later than it.
pub open spec fn taken(s: CarveState, h: Trail, i: int, j: int, k: int, l: int) -> bool {
    ||| h.from[j][i] == (k, l)
    ||| s.uncarved(k, l)
    ||| kid(s, h, i, j, k, l) && h.when[l][k] > h.when[j][i]
}

/// Room `(i, j)` lies inside the board and each of its four neighbours is
/// taken, exactly one of them by being left to enter.
pub open spec fn four_way(s: CarveState, h: Trail, i: int, j: int) -> bool {
    &&& 0 < i < s.n - 1
    &&& 0 < j < s.n - 1
    &&& taken(s, h, i, j, i - 1, j)
    &&& taken(s, h, i, j, i + 1, j)
    &&& taken(s, h, i, j, i, j - 1)
    &&& taken(s, h, i, j, i, j + 1)
    &&& gaps(s, i, j) == 1
}

/// What a settled trail says of the current room.
proof fn lemma_settled_current(s: CarveState, h: Trail)
    requires
        settled(s, h),
    ensures
        s.n >= 2,
        shaped(s, h),
        has_marks(s),
        s.entered_at(0, 0),
        s.entered_at(s.current.0 as int, s.current.1 as int),
        (s.current.0 == 1 && s.current.1 == 0) || (s.current.0 == 0 && s.current.1 == 1),
        h.from[s.current.1 as int][s.current.0 as int] == (0int, 0int),
        h.when[s.current.1 as int][s.current.0 as int] == 1,
        hemmed(s, s.current.0 as int, s.current.1 as int) || kids(
            s,
            h,
            s.current.0 as int,
            s.current.1 as int,
        ) >= 1,
{
    reveal(settled);
}

/// What a settled trail says of a room other than the current one and the
/// start room.
proof fn lemma_settled_room(s: CarveState, h: Trail, i: int, j: int)
    requires
        settled(s, h),
        s.entered_at(i, j),
        !is_current(s, i, j),
        !(i == 0 && j == 0),
    ensures
        s.entered_at(h.from[j][i].0, h.from[j][i].1),
        adjacent((i, j), h.from[j][i]),
        h.when[h.from[j][i].1][h.from[j][i].0] < h.when[j][i],
        hemmed(s, i, j) || kids(s, h, i, j) >= 2,
{
    reveal(settled);
}

/// In a settled trail no rank is beyond the clock.
proof fn lemma_settled_rank(s: CarveState, h: Trail, i: int, j: int)
    requires
        settled(s, h),
        s.entered_at(i, j),
    ensures
        h.when[j][i] <= h.clock,
{
    reveal(settled);
}

/// A neighbour of `(i, j)` that was entered from it was entered later than
/// `(i, j)`.
proof fn lemma_kid_is_later(s: CarveState, h: Trail, i: int, j: int, k: int, l: int)
    requires
        settled(s, h),
        kid(s, h, i, j, k, l),
        !(i == k && j == l),
    ensures
        s.entered_at(i, j),
        h.when[l][k] > h.when[j][i],
{
    lemma_settled_current(s, h);
    assert(s.entered_at(k, l));
    if is_current(s, k, l) {
    } else {
        lemma_settled_room(s, h, k, l);
    }
}

/// Four places hold one origin, at least one gap and at least two kids, and
/// no place holds two of these. Then every place holds one, and there is
/// exactly one gap.
proof fn lemma_four_places(
    o1: bool,
    o2: bool,
    o3: bool,
    o4: bool,
    g1: bool,
    g2: bool,
    g3: bool,
    g4: bool,
    k1: bool,
    k2: bool,
    k3: bool,
    k4: bool,
)
    requires
        o1 || o2 || o3 || o4,
        g1 || g2 || g3 || g4,
        !(o1 && g1) && !(o1 && k1) && !(g1 && k1),
        !(o2 && g2) && !(o2 && k2) && !(g2 && k2),
        !(o3 && g3) && !(o3 && k3) && !(g3 && k3),
        !(o4 && g4) && !(o4 && k4) && !(g4 && k4),
        (if k1 {
            1int
        } else {
            0int
        }) + (if k2 {
            1int
        } else {
            0int
        }) + (if k3 {
            1int
        } else {
            0int
        }) + (if k4 {
            1int
        } else {
            0int
        }) >= 2,
    ensures
        o1 || g1 || k1,
        o2 || g2 || k2,
        o3 || g3 || k3,
        o4 || g4 || k4,
        (if g1 {
            1int
        } else {
            0int
        }) + (if g2 {
            1int
        } else {
            0int
        }) + (if g3 {
            1int
        } else {
            0int
        }) + (if g4 {
            1int
        } else {
            0int
        }) == 1,
{
}

/// A room other than the start room that the walk has left behind with a
/// neighbour still to enter is a four-way room.
proof fn lemma_left_behind_is_four_way(s: CarveState, h: Trail, i: int, j: int)
    requires
        settled(s, h),
        s.entered_at(i, j),
        !is_current(s, i, j),
        !(i == 0 && j == 0),
        !hemmed(s, i, j),
    ensures
        four_way(s, h, i, j),
{
    lemma_settled_room(s, h, i, j);
    let p = h.from[j][i];
    if kid(s, h, i, j, i - 1, j) {
        lemma_kid_is_later(s, h, i, j, i - 1, j);
    }
    if kid(s, h, i, j, i + 1, j) {
        lemma_kid_is_later(s, h, i, j, i + 1, j);
    }
    if kid(s, h, i, j, i, j - 1) {
        lemma_kid_is_later(s, h, i, j, i, j - 1);
    }
    if kid(s, h, i, j, i, j + 1) {
        lemma_kid_is_later(s, h, i, j, i, j + 1);
    }
    lemma_four_places(
        p == (i - 1, j),
        p == (i + 1, j),
        p == (i, j - 1),
        p == (i, j + 1),
        s.uncarved(i - 1, j),
        s.uncarved(i + 1, j),
        s.uncarved(i, j - 1),
        s.uncarved(i, j + 1),
        kid(s, h, i, j, i - 1, j),
        kid(s, h, i, j, i + 1, j),
        kid(s, h, i, j, i, j - 1),
        kid(s, h, i, j, i, j + 1),
    );
}

/// Room `(i, j)` lies on the rim of the board.
pub open spec fn rim(s: CarveState, i: int, j: int) -> bool {
    s.on_board(i, j) && (i == 0 || j == 0 || i == s.n - 1 || j == s.n - 1)
}

/// A room on the rim that the walk has left behind has no neighbour left to
/// enter: it has too few neighbours to be a four-way room.
proof fn lemma_rim_room_is_hemmed(s: CarveState, h: Trail, i: int, j: int)
    requires
        settled(s, h),
        s.entered_at(i, j),
        !is_current(s, i, j),
        !(i == 0 && j == 0),
        rim(s, i, j),
    ensures
        hemmed(s, i, j),
{
    if !hemmed(s, i, j) {
        lemma_left_behind_is_four_way(s, h, i, j);
    }
}

/// Of two neighbouring rooms on the rim, neither of them the current room
/// or the start room, both were entered or neither was.
proof fn lemma_rim_neighbours_agree(s: CarveState, h: Trail, i: int, j: int, k: int, l: int)
    requires
        settled(s, h),
        rim(s, i, j),
        rim(s, k, l),
        adjacent((i, j), (k, l)),
        !is_current(s, i, j),
        !is_current(s, k, l),
        !(i == 0 && j == 0),
        !(k == 0 && l == 0),
    ensures
        s.entered_at(i, j) == s.entered_at(k, l),
{
    if s.entered_at(i, j) {
        lemma_rim_room_is_hemmed(s, h, i, j);
    }
    if s.entered_at(k, l) {
        lemma_rim_room_is_hemmed(s, h, k, l);
    }
}

/// The rim of a board of more than one room, walked once around from the
/// start room: along the top to the right, down the right side, along the
/// bottom to the left, and up the left side.
pub open spec fn ring(n: int, t: int) -> (int, int) {
    let m = n - 1;
    if t < m {
        (t, 0)
    } else if t < 2 * m {
        (m, t - m)
    } else if t < 3 * m {
        (3 * m - t, m)
    } else {
        (0, 4 * m - t)
    }
}

/// Where a room of the rim comes on the way around.
pub open spec fn ring_index(n: int, i: int, j: int) -> int {
    let m = n - 1;
    if j == 0 {
        i
    } else if i == m {
        m + j
    } else if j == m {
        3 * m - i
    } else {
        4 * m - j
    }
}

/// The way around passes through every room of the rim, and only through
/// rooms of the rim.
proof fn lemma_ring_is_rim(s: CarveState, i: int, j: int)
    requires
        s.n >= 2,
        rim(s, i, j),
    ensures
        0 <= ring_index(s.n, i, j) < 4 * (s.n - 1),
        ring(s.n, ring_index(s.n, i, j)) == (i, j),
{
}

/// Along a stretch of the way around that passes neither the start room nor
/// the current room, the rooms were all entered or all not.
proof fn lemma_ring_agrees(s: CarveState, h: Trail, lo: int, hi: int)
    requires
        settled(s, h),
        s.n >= 2,
        1 <= lo <= hi <= 4 * (s.n - 1) - 1,
        forall|t: int| lo <= t <= hi ==> !is_current(s, (#[trigger] ring(s.n, t)).0, ring(s.n, t).1),
    ensures
        forall|t: int|
            lo <= t <= hi ==> s.entered_at((#[trigger] ring(s.n, t)).0, ring(s.n, t).1) == s.entered_at(
                ring(s.n, lo).0,
                ring(s.n, lo).1,
            ),
    decreases hi - lo,
{
    if lo < hi {
        lemma_ring_agrees(s, h, lo, hi - 1);
        let a = ring(s.n, hi - 1);
        let b = ring(s.n, hi);
        assert(!is_current(s, a.0, a.1));
        assert(!is_current(s, b.0, b.1));
        lemma_rim_neighbours_agree(s, h, a.0, a.1, b.0, b.1);
    }
}

/// No room on the rim but the start room and the current one has been
/// entered.
pub open spec fn bare_rim(s: CarveState) -> bool {
    forall|i: int, j: int|
        rim(s, i, j) && !is_current(s, i, j) && !(i == 0 && j == 0) ==> !#[trigger] s.entered_at(i, j)
}

/// Some room on the rim other than the start room and the current one has
/// been entered: if none had, the room at `(2, 2)` would have been entered
/// from two rooms at once.
proof fn lemma_rim_is_not_bare(s: CarveState, h: Trail)
    requires
        settled(s, h),
    ensures
        !bare_rim(s),
{
    if bare_rim(s) {
        lemma_bare_rim_forks(s, h);
        assert(h.from[2][2] == (2int, 1int));
    }
}

/// On a bare rim, the room at `(2, 2)` was entered from `(2, 1)` and from
/// `(1, 2)`.
proof fn lemma_bare_rim_forks(s: CarveState, h: Trail)
    requires
        settled(s, h),
        bare_rim(s),
    ensures
        h.from[2][2] == (2int, 1int),
        h.from[2][2] == (1int, 2int),
{
    lemma_settled_current(s, h);
    let ci = s.current.0 as int;
    let cj = s.current.1 as int;
    // The current room has a neighbour on the rim that is left to enter, so
    // it has a kid, and all its neighbours but one lie on the rim.
    if s.n == 2 {
        assert(rim(s, 1, 1));
        assert(!s.entered_at(1, 1));
        assert(s.uncarved(1, 1));
    } else {
        assert(rim(s, 2 * ci, 2 * cj));
        assert(!s.entered_at(2 * ci, 2 * cj));
        assert(s.uncarved(2 * ci, 2 * cj));
    }
    assert(!hemmed(s, ci, cj));
    assert(!kid(s, h, ci, cj, 0, 0));
    if ci == 1 {
        assert(!kid(s, h, ci, cj, 1, -1));
        if kid(s, h, ci, cj, 2, 0) {
            assert(rim(s, 2, 0));
            assert(!s.entered_at(2, 0));
        }
    } else {
        assert(!kid(s, h, ci, cj, -1, 1));
        if kid(s, h, ci, cj, 0, 2) {
            assert(rim(s, 0, 2));
            assert(!s.entered_at(0, 2));
        }
    }
    assert(kid(s, h, ci, cj, 1, 1));
    assert(s.entered_at(1, 1));
    if s.n == 2 {
        assert(rim(s, 1, 1));
        assert(!s.entered_at(1, 1));
    }
    // The room at (1, 1) has the other neighbour of the start room still to
    // enter.
    assert(rim(s, 1, 0) && rim(s, 0, 1));
    assert(!s.entered_at(1 - ci, 1 - cj));
    assert(s.uncarved(1 - ci, 1 - cj));
    assert(!hemmed(s, 1, 1));
    lemma_left_behind_is_four_way(s, h, 1, 1);
    assert(kid(s, h, 1, 1, 2, 1));
    assert(kid(s, h, 1, 1, 1, 2));
    if s.n == 3 {
        assert(rim(s, 2, 1));
        assert(!s.entered_at(2, 1));
    }
    // Both rooms entered from it have a room of the rim still to enter.
    assert(rim(s, 2, 0));
    assert(!s.entered_at(2, 0));
    assert(s.uncarved(2, 0));
    assert(!hemmed(s, 2, 1));
    lemma_left_behind_is_four_way(s, h, 2, 1);
    assert(kid(s, h, 2, 1, 2, 2));
    assert(rim(s, 0, 2));
    assert(!s.entered_at(0, 2));
    assert(s.uncarved(0, 2));
    assert(!hemmed(s, 1, 2));
    lemma_left_behind_is_four_way(s, h, 1, 2);
    assert(kid(s, h, 1, 2, 2, 2));
}

/// Once the walk has ended, every room on the rim has been entered.
proof fn lemma_rim_is_entered(s: CarveState, h: Trail, i: int, j: int)
    requires
        settled(s, h),
        rim(s, i, j),
    ensures
        s.entered_at(i, j),
{
    lemma_settled_current(s, h);
    let n = s.n;
    let m = n - 1;
    let ci = s.current.0 as int;
    let cj = s.current.1 as int;
    let lo = if ci == 1 {
        2int
    } else {
        1int
    };
    let hi = if ci == 1 {
        4 * m - 1
    } else {
        4 * m - 2
    };
    if !s.entered_at(i, j) {
        assert(!(i == 0 && j == 0) && !is_current(s, i, j));
        if lo <= hi {
            lemma_ring_agrees(s, h, lo, hi);
        }
        // Every room of the rim other than the start room and the current
        // one lies on the stretch, and so has fared like this one.
        lemma_ring_is_rim(s, i, j);
        let u = ring_index(n, i, j);
        assert(lo <= u <= hi);
        assert(ring(n, u) == (i, j));
        assert forall|k: int, l: int|
            rim(s, k, l) && !is_current(s, k, l) && !(k == 0 && l == 0) implies !#[trigger] s.entered_at(
            k,
            l,
        ) by {
            lemma_ring_is_rim(s, k, l);
            let t = ring_index(n, k, l);
            assert(lo <= t <= hi);
            assert(ring(n, t) == (k, l));
        }
        assert(bare_rim(s));
        lemma_rim_is_not_bare(s, h);
    }
}

/// Once the walk has ended, the current room has no neighbour left to enter.
proof fn lemma_current_is_hemmed(s: CarveState, h: Trail)
    requires
        settled(s, h),
    ensures
        hemmed(s, s.current.0 as int, s.current.1 as int),
{
    lemma_settled_current(s, h);
    let ci = s.current.0 as int;
    let cj = s.current.1 as int;
    // Its neighbours lie on the rim, but for the room at (1, 1), which is
    // also next to the other neighbour of the start room.
    lemma_rim_is_entered(s, h, 1 - ci, 1 - cj);
    lemma_rim_room_is_hemmed(s, h, 1 - ci, 1 - cj);
    if s.n >= 3 {
        lemma_rim_is_entered(s, h, 2 * ci, 2 * cj);
    }
}

/// Once the walk has ended, the start room has no neighbour left to enter:
/// its neighbours lie on the rim.
proof fn lemma_start_is_hemmed(s: CarveState, h: Trail)
    requires
        settled(s, h),
    ensures
        hemmed(s, 0, 0),
{
    lemma_settled_current(s, h);
    lemma_rim_is_entered(s, h, 1, 0);
    lemma_rim_is_entered(s, h, 0, 1);
}

/// Once the walk has ended, no room that was entered has a neighbour left
/// to enter.
proof fn lemma_entered_is_hemmed(s: CarveState, h: Trail, i: int, j: int)
    requires
        settled(s, h),
        s.entered_at(i, j),
    ensures
        hemmed(s, i, j),
    decreases h.clock - h.when[j][i], 1int,
{
    if is_current(s, i, j) {
        lemma_current_is_hemmed(s, h);
    } else if i == 0 && j == 0 {
        lemma_start_is_hemmed(s, h);
    } else if rim(s, i, j) {
        lemma_rim_room_is_hemmed(s, h, i, j);
    } else if !hemmed(s, i, j) {
        lemma_left_behind_is_four_way(s, h, i, j);
        let p = h.from[j][i];
        lemma_settled_room(s, h, i, j);
        // One of the two neighbours beside the gap was entered from here.
        if s.uncarved(i - 1, j) || s.uncarved(i + 1, j) {
            let d: int = if s.uncarved(i - 1, j) {
                -1
            } else {
                1
            };
            if p == (i, j - 1) {
                lemma_gap_closes(s, h, i, j, d, 0, 0, 1);
            } else {
                lemma_gap_closes(s, h, i, j, d, 0, 0, -1);
            }
        } else {
            let d: int = if s.uncarved(i, j - 1) {
                -1
            } else {
                1
            };
            if p == (i - 1, j) {
                lemma_gap_closes(s, h, i, j, 0, d, 1, 0);
            } else {
                lemma_gap_closes(s, h, i, j, 0, d, -1, 0);
            }
        }
    }
}

/// A four-way room has no gap beside a room that was entered from it. The
/// room across the corner from it, next to both the gap and that room,
/// would have been entered later still, and so would have no gap either.
proof fn lemma_gap_closes(s: CarveState, h: Trail, i: int, j: int, di: int, dj: int, pi: int, pj: int)
    requires
        settled(s, h),
        s.entered_at(i, j),
        !is_current(s, i, j),
        !rim(s, i, j),
        adjacent((0, 0), (di, dj)),
        adjacent((0, 0), (pi, pj)),
        (di == 0) != (pi == 0),
        kid(s, h, i, j, i + pi, j + pj),
    ensures
        !s.uncarved(i + di, j + dj),
    decreases h.clock - h.when[j][i], 0int,
{
    if s.uncarved(i + di, j + dj) {
        let wi = i + pi;
        let wj = j + pj;
        let ei = i + di;
        let ej = j + dj;
        let xi = ei + pi;
        let xj = ej + pj;
        lemma_kid_is_later(s, h, i, j, wi, wj);
        lemma_settled_rank(s, h, wi, wj);
        lemma_settled_rank(s, h, i, j);
        lemma_entered_is_hemmed(s, h, wi, wj);
        // The gap lies inside the board, so the room across the corner is
        // on the board, and the kid has left it no gap.
        if rim(s, ei, ej) {
            lemma_rim_is_entered(s, h, ei, ej);
        }
        assert(s.on_board(xi, xj));
        assert(!s.uncarved(xi, xj));
        assert(s.entered_at(xi, xj));
        if is_current(s, xi, xj) {
            lemma_current_is_hemmed(s, h);
        } else if xi == 0 && xj == 0 {
            lemma_start_is_hemmed(s, h);
        } else if rim(s, xi, xj) {
            lemma_rim_room_is_hemmed(s, h, xi, xj);
        } else {
            assert(!hemmed(s, xi, xj));
            lemma_left_behind_is_four_way(s, h, xi, xj);
            lemma_settled_room(s, h, xi, xj);
            assert(taken(s, h, xi, xj, wi, wj));
            assert(h.from[xj][xi] == (wi, wj));
            lemma_settled_rank(s, h, xi, xj);
            lemma_entered_is_hemmed(s, h, xi, xj);
        }
    }
}

/// Once the walk has ended on a board of more than one room, every room has
/// been entered.
pub proof fn lemma_every_room_is_entered(s: CarveState, h: Trail, i: int, j: int)
    requires
        settled(s, h),
        s.on_board(i, j),
    ensures
        s.entered_at(i, j),
    decreases i,
{
    lemma_settled_current(s, h);
    if i == 0 {
        lemma_rim_is_entered(s, h, i, j);
    } else {
        lemma_every_room_is_entered(s, h, i - 1, j);
        lemma_entered_is_hemmed(s, h, i - 1, j);
    }
}

} // verus!
