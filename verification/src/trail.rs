//! A record of the walk: when each room was entered and from where.
//!
//! The record is not kept at run time. It exists for every state that
//! carving passes through, and is what shows that the walk, once it has
//! ended, has been everywhere.

use vstd::prelude::*;
use crate::carve::{CarveState, Opening, initial};
use crate::grid::{has_shape, put};
use crate::path::adjacent;
use crate::upkeep::{lemma_carve_marks, lemma_first_step_has_options, lemma_option_shape};

verus! {

/// When each room was entered, and from which room.
pub struct Trail {
    /// `when[j][i]` is the rank of the entry into room `(i, j)` among all
    /// entries, counted from one. The start room, which is never entered
    /// from anywhere, has rank zero. For a room not entered it means
    /// nothing.
    pub when: Seq<Seq<nat>>,
    /// `from[j][i]` is the room that the walk stood in when it entered room
    /// `(i, j)`. For the start room it is the start room itself.
    pub from: Seq<Seq<(int, int)>>,
    /// How many entries there have been.
    pub clock: nat,
}

impl Trail {
    /// The trail of a walk that has not entered any room.
    pub open spec fn blank(n: int) -> Trail {
        Trail {
            when: Seq::new(n as nat, |j: int| Seq::new(n as nat, |i: int| 0nat)),
            from: Seq::new(n as nat, |j: int| Seq::new(n as nat, |i: int| (0int, 0int))),
            clock: 0,
        }
    }

    /// The trail after one more entry, into `room` from `origin`.
    pub open spec fn extend(self, room: (int, int), origin: (int, int)) -> Trail {
        Trail {
            when: put(self.when, room.0, room.1, self.clock + 1),
            from: put(self.from, room.0, room.1, origin),
            clock: self.clock + 1,
        }
    }
}

/// Room `(k, l)` was entered from room `(i, j)`.
pub open spec fn kid(s: CarveState, h: Trail, i: int, j: int, k: int, l: int) -> bool {
    s.entered_at(k, l) && h.from[l][k] == (i, j)
}

/// How many of the four neighbours of room `(i, j)` were entered from it.
pub open spec fn kids(s: CarveState, h: Trail, i: int, j: int) -> int {
    (if kid(s, h, i, j, i - 1, j) {
        1int
    } else {
        0int
    }) + (if kid(s, h, i, j, i + 1, j) {
        1int
    } else {
        0int
    }) + (if kid(s, h, i, j, i, j - 1) {
        1int
    } else {
        0int
    }) + (if kid(s, h, i, j, i, j + 1) {
        1int
    } else {
        0int
    })
}

/// No neighbour of room `(i, j)` is left to enter.
pub open spec fn hemmed(s: CarveState, i: int, j: int) -> bool {
    &&& !s.uncarved(i - 1, j)
    &&& !s.uncarved(i + 1, j)
    &&& !s.uncarved(i, j - 1)
    &&& !s.uncarved(i, j + 1)
}

/// Room `(i, j)` is on the stack.
pub open spec fn on_stack(s: CarveState, i: int, j: int) -> bool {
    exists|k: int| 0 <= k < s.stack.len() && (#[trigger] s.stack[k]).0 == i && s.stack[k].1 == j
}

/// Room `(i, j)` is the current room.
pub open spec fn is_current(s: CarveState, i: int, j: int) -> bool {
    s.current.0 == i && s.current.1 == j
}

/// The neighbours of room `(i, j)` have not been looked at yet: it is the
/// current room, and the walk has not begun or the room has just been
/// entered and is on top of the stack.
pub open spec fn awaiting(s: CarveState, i: int, j: int) -> bool {
    &&& is_current(s, i, j)
    &&& s.fresh || (s.stack.len() > 0 && s.stack.last().0 == i && s.stack.last().1 == j)
}

/// The trail has the shape of the board, the start room has rank zero, and
/// there has been no entry before the first step.
pub open spec fn shaped(s: CarveState, h: Trail) -> bool {
    &&& has_shape(h.when, s.n, s.n)
    &&& has_shape(h.from, s.n, s.n)
    &&& h.when[0][0] == 0
    &&& h.from[0][0] == (0int, 0int)
    &&& s.fresh ==> h.clock == 0
}

/// Entries are ranked from one up to the clock.
#[verifier::opaque]
pub open spec fn ranked(s: CarveState, h: Trail) -> bool {
    forall|i: int, j: int| #[trigger]
        s.entered_at(i, j) ==> h.when[j][i] <= h.clock && (i == 0 && j == 0 || 1 <= h.when[j][i])
}

/// No two rooms were entered at the same time.
#[verifier::opaque]
pub open spec fn distinct(s: CarveState, h: Trail) -> bool {
    forall|i: int, j: int, k: int, l: int|
        #[trigger] s.entered_at(i, j) && #[trigger] s.entered_at(k, l) && h.when[j][i] == h.when[l][k]
            ==> i == k && j == l
}

/// Room `(i, j)` was entered from a neighbour that was entered before it.
pub open spec fn rooted_at(s: CarveState, h: Trail, i: int, j: int) -> bool {
    let p = h.from[j][i];
    &&& s.entered_at(p.0, p.1)
    &&& adjacent((i, j), p)
    &&& h.when[p.1][p.0] < h.when[j][i]
}

/// Every room that was entered, but the start room, is rooted.
#[verifier::opaque]
pub open spec fn rooted(s: CarveState, h: Trail) -> bool {
    forall|i: int, j: int| #[trigger] s.entered_at(i, j) && !(i == 0 && j == 0) ==> rooted_at(s, h, i, j)
}

/// A room whose neighbours have been looked at once has no neighbour left
/// to enter, or one was entered from it.
#[verifier::opaque]
pub open spec fn looked(s: CarveState, h: Trail) -> bool {
    forall|i: int, j: int| #[trigger]
        s.entered_at(i, j) && !awaiting(s, i, j) ==> hemmed(s, i, j) || kids(s, h, i, j) >= 1
}

/// A room that has come off the stack and is not the current room has no
/// neighbour left to enter, or two were entered from it. The start room
/// never goes on the stack.
#[verifier::opaque]
pub open spec fn left(s: CarveState, h: Trail) -> bool {
    forall|i: int, j: int| #[trigger]
        s.entered_at(i, j) && !(i == 0 && j == 0) && !is_current(s, i, j) && !on_stack(s, i, j)
            ==> hemmed(s, i, j) || kids(s, h, i, j) >= 2
}

/// The rooms on the stack have been entered. Once the walk is under way on
/// a board of more than one room, the current room has been entered, and
/// the first room entered lies at the bottom of the stack and is the last
/// to come off it.
#[verifier::opaque]
pub open spec fn stacked(s: CarveState, h: Trail) -> bool {
    &&& forall|k: int|
        0 <= k < s.stack.len() ==> s.entered_at((#[trigger] s.stack[k]).0 as int, s.stack[k].1 as int)
    &&& s.n >= 2 && !s.fresh ==> {
        &&& s.entered_at(s.current.0 as int, s.current.1 as int)
        &&& s.stack.len() > 0 ==> h.when[s.stack[0].1 as int][s.stack[0].0 as int] == 1
        &&& s.stack.len() == 0 ==> h.when[s.current.1 as int][s.current.0 as int] == 1
    }
}

/// `h` is a trail of the walk that led to `s`.
pub open spec fn traced(s: CarveState, h: Trail) -> bool {
    &&& shaped(s, h)
    &&& ranked(s, h)
    &&& distinct(s, h)
    &&& rooted(s, h)
    &&& looked(s, h)
    &&& left(s, h)
    &&& stacked(s, h)
}

impl CarveState {
    /// The walk that led here has a trail.
    pub open spec fn retraceable(self) -> bool {
        exists|h: Trail| traced(self, h)
    }
}

/// Before the first step the blank trail is a trail.
pub proof fn lemma_initial_traced(n: int)
    requires
        1 <= n,
    ensures
        traced(initial(n), Trail::blank(n)),
        initial(n).retraceable(),
{
    reveal(ranked);
    reveal(distinct);
    reveal(rooted);
    reveal(looked);
    reveal(left);
    reveal(stacked);
    let s = initial(n);
    let h = Trail::blank(n);
    assert(forall|i: int, j: int| #[trigger] s.entered_at(i, j) ==> i == 0 && j == 0);
    assert(awaiting(s, 0, 0));
    assert(traced(s, h));
}

/// The trail that `h` becomes when the walk carves on through `o`.
pub open spec fn carved_trail(s: CarveState, h: Trail, o: Opening) -> Trail {
    h.extend((o.room.0 as int, o.room.1 as int), (s.current.0 as int, s.current.1 as int))
}

/// What entering a room does to the trail: the room gets the next rank and
/// its origin, and nothing else changes, so no room loses a neighbour that
/// was entered from it.
proof fn lemma_carve_trail(s: CarveState, h: Trail, o: Opening)
    requires
        s.framed(),
        shaped(s, h),
        s.options().contains(o),
    ensures
        ({
            let t = s.carve(o);
            let g = carved_trail(s, h, o);
            &&& shaped(t, g)
            &&& g.when[o.room.1 as int][o.room.0 as int] == h.clock + 1
            &&& g.from[o.room.1 as int][o.room.0 as int] == (s.current.0 as int, s.current.1 as int)
            &&& forall|i: int, j: int|
                s.on_board(i, j) && !(i == o.room.0 && j == o.room.1) ==> #[trigger] g.when[j][i]
                    == h.when[j][i]
            &&& forall|i: int, j: int|
                s.on_board(i, j) && !(i == o.room.0 && j == o.room.1) ==> #[trigger] g.from[j][i]
                    == h.from[j][i]
            &&& forall|i: int, j: int, k: int, l: int| #[trigger]
                kid(s, h, i, j, k, l) ==> kid(t, g, i, j, k, l)
            &&& forall|i: int, j: int| #[trigger] hemmed(s, i, j) ==> hemmed(t, i, j)
            &&& forall|i: int, j: int| #[trigger] kids(s, h, i, j) <= kids(t, g, i, j)
            &&& kid(
                t,
                g,
                s.current.0 as int,
                s.current.1 as int,
                o.room.0 as int,
                o.room.1 as int,
            )
            &&& !kid(
                s,
                h,
                s.current.0 as int,
                s.current.1 as int,
                o.room.0 as int,
                o.room.1 as int,
            )
        }),
{
    lemma_option_shape(s, o);
    lemma_carve_marks(s, o);
    let t = s.carve(o);
    let ri = o.room.0 as int;
    let rj = o.room.1 as int;
    let g = carved_trail(s, h, o);
    assert(h.when[rj].len() == s.n);
    assert(h.from[rj].len() == s.n);
    assert forall|j: int| 0 <= j < s.n implies (#[trigger] g.when[j]).len() == s.n by {
        assert(h.when[j].len() == s.n);
    }
    assert forall|j: int| 0 <= j < s.n implies (#[trigger] g.from[j]).len() == s.n by {
        assert(h.from[j].len() == s.n);
    }
    assert forall|i: int, j: int, k: int, l: int| #[trigger] kid(s, h, i, j, k, l) implies kid(
        t,
        g,
        i,
        j,
        k,
        l,
    ) by {
        assert(s.entered_at(k, l));
        assert(t.entered_at(k, l));
        assert(g.from[l][k] == h.from[l][k]);
    }
    assert forall|i: int, j: int| #[trigger] kids(s, h, i, j) <= kids(t, g, i, j) by {
        assert(kid(s, h, i, j, i - 1, j) ==> kid(t, g, i, j, i - 1, j));
        assert(kid(s, h, i, j, i + 1, j) ==> kid(t, g, i, j, i + 1, j));
        assert(kid(s, h, i, j, i, j - 1) ==> kid(t, g, i, j, i, j - 1));
        assert(kid(s, h, i, j, i, j + 1) ==> kid(t, g, i, j, i, j + 1));
    }
    assert forall|i: int, j: int| #[trigger] hemmed(s, i, j) implies hemmed(t, i, j) by {
        lemma_uncarved_shrinks(s, o, i - 1, j);
        lemma_uncarved_shrinks(s, o, i + 1, j);
        lemma_uncarved_shrinks(s, o, i, j - 1);
        lemma_uncarved_shrinks(s, o, i, j + 1);
    }
}

/// A room that can still be entered after carving on could be entered
/// before.
proof fn lemma_uncarved_shrinks(s: CarveState, o: Opening, i: int, j: int)
    requires
        s.framed(),
        s.options().contains(o),
    ensures
        s.carve(o).uncarved(i, j) ==> s.uncarved(i, j),
{
    lemma_carve_marks(s, o);
    if s.carve(o).uncarved(i, j) && !s.uncarved(i, j) {
        assert(s.entered_at(i, j));
    }
}

/// After carving on, the ranks are still in range.
proof fn lemma_carve_keeps_ranked(s: CarveState, h: Trail, o: Opening)
    requires
        s.framed(),
        shaped(s, h),
        ranked(s, h),
        s.options().contains(o),
    ensures
        ranked(s.carve(o), carved_trail(s, h, o)),
{
    reveal(ranked);
    lemma_carve_marks(s, o);
    lemma_carve_trail(s, h, o);
    let t = s.carve(o);
    let g = carved_trail(s, h, o);
    assert forall|i: int, j: int| #[trigger] t.entered_at(i, j) implies g.when[j][i] <= g.clock && (i
        == 0 && j == 0 || 1 <= g.when[j][i]) by {
        if !(i == o.room.0 && j == o.room.1) {
            assert(s.entered_at(i, j));
        }
    }
}

/// After carving on, the ranks are still distinct: the new one is greater
/// than all before.
proof fn lemma_carve_keeps_distinct(s: CarveState, h: Trail, o: Opening)
    requires
        s.framed(),
        shaped(s, h),
        ranked(s, h),
        distinct(s, h),
        s.options().contains(o),
    ensures
        distinct(s.carve(o), carved_trail(s, h, o)),
{
    reveal(ranked);
    reveal(distinct);
    lemma_carve_marks(s, o);
    lemma_carve_trail(s, h, o);
    let t = s.carve(o);
    let g = carved_trail(s, h, o);
    assert forall|i: int, j: int, k: int, l: int|
        #[trigger] t.entered_at(i, j) && #[trigger] t.entered_at(k, l) && g.when[j][i]
            == g.when[l][k] implies i == k && j == l by {
        if !(i == o.room.0 && j == o.room.1) {
            assert(s.entered_at(i, j));
        }
        if !(k == o.room.0 && l == o.room.1) {
            assert(s.entered_at(k, l));
        }
    }
}

/// After carving on, every room is still rooted, and the room just entered
/// is rooted in the room just left.
proof fn lemma_carve_keeps_rooted(s: CarveState, h: Trail, o: Opening)
    requires
        s.framed(),
        shaped(s, h),
        ranked(s, h),
        rooted(s, h),
        s.options().contains(o),
    ensures
        rooted(s.carve(o), carved_trail(s, h, o)),
{
    reveal(ranked);
    reveal(rooted);
    lemma_option_shape(s, o);
    lemma_carve_marks(s, o);
    lemma_carve_trail(s, h, o);
    let t = s.carve(o);
    let g = carved_trail(s, h, o);
    let ri = o.room.0 as int;
    let rj = o.room.1 as int;
    let ci = s.current.0 as int;
    let cj = s.current.1 as int;
    assert forall|i: int, j: int| #[trigger] t.entered_at(i, j) && !(i == 0 && j == 0) implies rooted_at(
        t,
        g,
        i,
        j,
    ) by {
        if i == ri && j == rj {
            assert(s.entered_at(ci, cj));
            assert(t.entered_at(ci, cj));
            assert(h.when[cj][ci] <= h.clock);
            assert(g.when[cj][ci] == h.when[cj][ci]);
        } else {
            assert(s.entered_at(i, j));
            assert(rooted_at(s, h, i, j));
            let p = h.from[j][i];
            assert(g.from[j][i] == p);
            assert(g.when[j][i] == h.when[j][i]);
            assert(t.entered_at(p.0, p.1));
            assert(g.when[p.1][p.0] == h.when[p.1][p.0]);
        }
    }
}

/// After carving on, every room that has been looked at has no neighbour
/// left to enter or has one that was entered from it: the room just left
/// has the room just entered.
proof fn lemma_carve_keeps_looked(s: CarveState, h: Trail, o: Opening)
    requires
        s.framed(),
        shaped(s, h),
        looked(s, h),
        s.options().contains(o),
    ensures
        looked(s.carve(o), carved_trail(s, h, o)),
{
    reveal(looked);
    lemma_option_shape(s, o);
    lemma_carve_marks(s, o);
    lemma_carve_trail(s, h, o);
    let t = s.carve(o);
    let g = carved_trail(s, h, o);
    let ri = o.room.0 as int;
    let rj = o.room.1 as int;
    let ci = s.current.0 as int;
    let cj = s.current.1 as int;
    assert(t.stack.last() == o.room);
    assert forall|i: int, j: int| #[trigger] t.entered_at(i, j) && !awaiting(t, i, j) implies hemmed(
        t,
        i,
        j,
    ) || kids(t, g, i, j) >= 1 by {
        assert(!(i == ri && j == rj));
        assert(s.entered_at(i, j));
        if i == ci && j == cj {
            assert(kid(t, g, ci, cj, ri, rj));
        } else {
            assert(!awaiting(s, i, j));
            assert(hemmed(s, i, j) || kids(s, h, i, j) >= 1);
            assert(kids(s, h, i, j) <= kids(t, g, i, j));
        }
    }
}

/// A room on the stack stays on the stack when the walk carves on.
proof fn lemma_carve_keeps_on_stack(s: CarveState, o: Opening, i: int, j: int)
    requires
        on_stack(s, i, j),
    ensures
        on_stack(s.carve(o), i, j),
{
    let k = choose|k: int| 0 <= k < s.stack.len() && (#[trigger] s.stack[k]).0 == i && s.stack[k].1 == j;
    assert(s.carve(o).stack[k] == s.stack[k]);
}

/// The room that the walk carves on from, if it is off the stack and is
/// not the start room, now has two neighbours that were entered from it: it
/// had one before, and the room just entered is another.
proof fn lemma_room_left_has_two(s: CarveState, h: Trail, o: Opening)
    requires
        s.framed(),
        shaped(s, h),
        looked(s, h),
        s.options().contains(o),
        !(s.current.0 == 0 && s.current.1 == 0),
        !on_stack(s, s.current.0 as int, s.current.1 as int),
    ensures
        kids(s.carve(o), carved_trail(s, h, o), s.current.0 as int, s.current.1 as int) >= 2,
{
    reveal(looked);
    lemma_option_shape(s, o);
    lemma_carve_trail(s, h, o);
    let t = s.carve(o);
    let g = carved_trail(s, h, o);
    let ri = o.room.0 as int;
    let rj = o.room.1 as int;
    let i = s.current.0 as int;
    let j = s.current.1 as int;
    assert(s.entered_at(i, j));
    assert(!awaiting(s, i, j)) by {
        if s.stack.len() > 0 && s.stack.last().0 == i && s.stack.last().1 == j {
            assert(s.stack[s.stack.len() - 1].0 == i);
            assert(on_stack(s, i, j));
        }
        if s.fresh {
            assert(s == initial(s.n));
        }
    }
    assert(s.uncarved(ri, rj));
    assert(!hemmed(s, i, j));
    assert(kids(s, h, i, j) >= 1);
    assert(kid(s, h, i, j, i - 1, j) ==> kid(t, g, i, j, i - 1, j));
    assert(kid(s, h, i, j, i + 1, j) ==> kid(t, g, i, j, i + 1, j));
    assert(kid(s, h, i, j, i, j - 1) ==> kid(t, g, i, j, i, j - 1));
    assert(kid(s, h, i, j, i, j + 1) ==> kid(t, g, i, j, i, j + 1));
}

/// After carving on, every room that the walk will not come back to has no
/// neighbour left to enter or has two that were entered from it.
proof fn lemma_carve_keeps_left(s: CarveState, h: Trail, o: Opening)
    requires
        s.framed(),
        shaped(s, h),
        looked(s, h),
        left(s, h),
        s.options().contains(o),
    ensures
        left(s.carve(o), carved_trail(s, h, o)),
{
    reveal(left);
    lemma_carve_marks(s, o);
    lemma_carve_trail(s, h, o);
    let t = s.carve(o);
    let g = carved_trail(s, h, o);
    let ri = o.room.0 as int;
    let rj = o.room.1 as int;
    let ci = s.current.0 as int;
    let cj = s.current.1 as int;
    assert forall|i: int, j: int| #[trigger]
        t.entered_at(i, j) && !(i == 0 && j == 0) && !is_current(t, i, j) && !on_stack(t, i, j) implies hemmed(
        t,
        i,
        j,
    ) || kids(t, g, i, j) >= 2 by {
        assert(!(i == ri && j == rj));
        assert(s.entered_at(i, j));
        if on_stack(s, i, j) {
            lemma_carve_keeps_on_stack(s, o, i, j);
        }
        if i == ci && j == cj {
            lemma_room_left_has_two(s, h, o);
        } else {
            assert(!is_current(s, i, j));
            assert(hemmed(s, i, j) || kids(s, h, i, j) >= 2);
            assert(kids(s, h, i, j) <= kids(t, g, i, j));
        }
    }
}

/// After carving on, the rooms on the stack have been entered, and the
/// first room entered lies at the bottom of the stack.
proof fn lemma_carve_keeps_stacked(s: CarveState, h: Trail, o: Opening)
    requires
        s.framed(),
        shaped(s, h),
        stacked(s, h),
        s.running(),
        s.options().contains(o),
    ensures
        stacked(s.carve(o), carved_trail(s, h, o)),
{
    reveal(stacked);
    lemma_carve_marks(s, o);
    lemma_carve_trail(s, h, o);
    let t = s.carve(o);
    let g = carved_trail(s, h, o);
    assert forall|k: int| 0 <= k < t.stack.len() implies t.entered_at(
        (#[trigger] t.stack[k]).0 as int,
        t.stack[k].1 as int,
    ) by {
        if k < s.stack.len() {
            assert(s.entered_at(s.stack[k].0 as int, s.stack[k].1 as int));
        }
    }
    if s.stack.len() > 0 {
        assert(t.stack[0] == s.stack[0]);
        assert(s.entered_at(s.stack[0].0 as int, s.stack[0].1 as int));
        if s.n >= 2 {
            assert(!s.fresh);
        }
    } else {
        assert(s.fresh);
    }
}

/// Carving on extends the trail.
pub proof fn lemma_carve_keeps_traced(s: CarveState, h: Trail, o: Opening)
    requires
        s.framed(),
        traced(s, h),
        s.running(),
        s.options().contains(o),
    ensures
        traced(s.carve(o), carved_trail(s, h, o)),
{
    lemma_carve_trail(s, h, o);
    lemma_carve_keeps_ranked(s, h, o);
    lemma_carve_keeps_distinct(s, h, o);
    lemma_carve_keeps_rooted(s, h, o);
    lemma_carve_keeps_looked(s, h, o);
    lemma_carve_keeps_left(s, h, o);
    lemma_carve_keeps_stacked(s, h, o);
}

/// With no options, no neighbour of the current room is left to enter.
pub proof fn lemma_no_options_hemmed(s: CarveState)
    requires
        s.options().len() == 0,
    ensures
        hemmed(s, s.current.0 as int, s.current.1 as int),
{
    assert(s.toward(-1, 0).len() == 0);
    assert(s.toward(0, -1).len() == 0);
    assert(s.toward(1, 0).len() == 0);
    assert(s.toward(0, 1).len() == 0);
}

/// Falling back keeps what was looked at: the room left has no neighbour
/// left to enter.
proof fn lemma_retreat_keeps_looked(s: CarveState, h: Trail)
    requires
        looked(s, h),
        s.stack.len() > 0,
        s.options().len() == 0,
    ensures
        looked(s.retreat(), h),
{
    reveal(looked);
    let t = s.retreat();
    lemma_no_options_hemmed(s);
    assert forall|i: int, j: int| #[trigger] t.entered_at(i, j) && !awaiting(t, i, j) implies hemmed(
        t,
        i,
        j,
    ) || kids(t, h, i, j) >= 1 by {
        assert(s.entered_at(i, j));
        assert(hemmed(t, i, j) == hemmed(s, i, j));
        assert(kids(t, h, i, j) == kids(s, h, i, j));
        if awaiting(s, i, j) {
            assert(hemmed(s, i, j));
        }
    }
}

/// Falling back keeps what was left: the room left has no neighbour left to
/// enter, and every other room off the stack was off it before.
proof fn lemma_retreat_keeps_left(s: CarveState, h: Trail)
    requires
        left(s, h),
        s.stack.len() > 0,
        s.options().len() == 0,
    ensures
        left(s.retreat(), h),
{
    reveal(left);
    let t = s.retreat();
    lemma_no_options_hemmed(s);
    assert forall|i: int, j: int| #[trigger]
        t.entered_at(i, j) && !(i == 0 && j == 0) && !is_current(t, i, j) && !on_stack(t, i, j) implies hemmed(
        t,
        i,
        j,
    ) || kids(t, h, i, j) >= 2 by {
        assert(s.entered_at(i, j));
        assert(hemmed(t, i, j) == hemmed(s, i, j));
        assert(kids(t, h, i, j) == kids(s, h, i, j));
        if is_current(s, i, j) {
            assert(hemmed(s, i, j));
        } else if on_stack(s, i, j) {
            let k = choose|k: int|
                0 <= k < s.stack.len() && (#[trigger] s.stack[k]).0 == i && s.stack[k].1 == j;
            if k < s.stack.len() - 1 {
                assert(t.stack[k] == s.stack[k]);
                assert(on_stack(t, i, j));
            }
        }
    }
}

/// Falling back keeps the stack in order.
proof fn lemma_retreat_keeps_stacked(s: CarveState, h: Trail)
    requires
        stacked(s, h),
        s.stack.len() > 0,
        !s.fresh,
    ensures
        stacked(s.retreat(), h),
{
    reveal(stacked);
    let t = s.retreat();
    let top = s.stack.last();
    assert(s.entered_at(top.0 as int, top.1 as int));
    assert(s.entered_at(s.stack[0].0 as int, s.stack[0].1 as int));
    assert forall|k: int| 0 <= k < t.stack.len() implies t.entered_at(
        (#[trigger] t.stack[k]).0 as int,
        t.stack[k].1 as int,
    ) by {
        assert(s.entered_at(s.stack[k].0 as int, s.stack[k].1 as int));
    }
    if t.stack.len() > 0 {
        assert(t.stack[0] == s.stack[0]);
    }
}

/// Falling back keeps the ranks and the roots: no room is entered.
proof fn lemma_retreat_keeps_ranks(s: CarveState, h: Trail)
    requires
        ranked(s, h),
        distinct(s, h),
        rooted(s, h),
    ensures
        ranked(s.retreat(), h),
        distinct(s.retreat(), h),
        rooted(s.retreat(), h),
{
    reveal(ranked);
    reveal(distinct);
    reveal(rooted);
    let t = s.retreat();
    assert forall|i: int, j: int| #[trigger] t.entered_at(i, j) implies h.when[j][i] <= h.clock && (i
        == 0 && j == 0 || 1 <= h.when[j][i]) by {
        assert(s.entered_at(i, j));
    }
    assert forall|i: int, j: int, k: int, l: int|
        #[trigger] t.entered_at(i, j) && #[trigger] t.entered_at(k, l) && h.when[j][i]
            == h.when[l][k] implies i == k && j == l by {
        assert(s.entered_at(i, j));
        assert(s.entered_at(k, l));
    }
    assert forall|i: int, j: int| #[trigger] t.entered_at(i, j) && !(i == 0 && j == 0) implies rooted_at(
        t,
        h,
        i,
        j,
    ) by {
        assert(s.entered_at(i, j));
        assert(rooted_at(s, h, i, j));
        assert(t.entered_at(h.from[j][i].0, h.from[j][i].1));
    }
}

/// Falling back before anything was entered changes nothing on the trail.
proof fn lemma_idle_retreat_keeps_traced(s: CarveState, h: Trail)
    requires
        s.framed(),
        shaped(s, h),
        s.fresh,
        s.options().len() == 0,
    ensures
        traced(s.retreat(), h),
{
    reveal(ranked);
    reveal(distinct);
    reveal(rooted);
    reveal(looked);
    reveal(left);
    reveal(stacked);
    let t = s.retreat();
    if s.n >= 2 {
        lemma_first_step_has_options(s.n);
    }
    assert(s == initial(s.n));
    assert(forall|i: int, j: int| #[trigger] t.entered_at(i, j) ==> i == 0 && j == 0);
    assert(s.n == 1);
    assert(hemmed(t, 0, 0));
}

/// Falling back keeps the trail.
pub proof fn lemma_retreat_keeps_traced(s: CarveState, h: Trail)
    requires
        s.framed(),
        traced(s, h),
        s.running(),
        s.options().len() == 0,
    ensures
        traced(s.retreat(), h),
{
    if s.fresh {
        lemma_idle_retreat_keeps_traced(s, h);
    } else {
        lemma_retreat_keeps_ranks(s, h);
        lemma_retreat_keeps_looked(s, h);
        lemma_retreat_keeps_left(s, h);
        lemma_retreat_keeps_stacked(s, h);
    }
}

} // verus!
