//! What holds of every lawful walk as a whole: where it arrives, how long it
//! can be, and how many walls it has opened.

use vstd::prelude::*;
use crate::carve::{CarveState, Opening, MAX_SIZE, lawful, walk};
use crate::coverage::ended;
use crate::structure::lemma_walk_covers_board;
use crate::upkeep::{
    lemma_initial_entered,
    lemma_initial_inv,
    lemma_step_burns_fuel,
    lemma_step_keeps_inv,
    passages,
};

verus! {

/// Every lawful walk arrives at a state that satisfies the invariant, and
/// has spent one unit of fuel on each step. A board of `n` by `n` rooms
/// starts with `2 * (n * n) - 1` units, so no lawful walk is longer than
/// that.
pub proof fn lemma_lawful_walk(n: int, picks: Seq<Option<Opening>>)
    requires
        1 <= n <= MAX_SIZE,
        lawful(n, picks),
    ensures
        walk(n, picks).inv(),
        walk(n, picks).n == n,
        0 <= walk(n, picks).fuel(),
        picks.len() + walk(n, picks).fuel() <= 2 * (n * n) - 1,
    decreases picks.len(),
{
    if picks.len() == 0 {
        lemma_initial_inv(n);
        lemma_initial_entered(n);
        assert(n * n >= 1) by (nonlinear_arith)
            requires
                n >= 1,
        ;
    } else {
        let before = walk(n, picks.drop_last());
        lemma_lawful_walk(n, picks.drop_last());
        lemma_step_keeps_inv(before, picks.last());
        lemma_step_burns_fuel(before, picks.last());
    }
}


/// The state of the walk after the first `k` of its steps.
pub open spec fn state_at(n: int, picks: Seq<Option<Opening>>, k: int) -> CarveState {
    walk(n, picks.take(k))
}

/// After `k` steps the stack is `d` deep, and it was less deep at every time
/// before.
pub open spec fn first_at_depth(n: int, picks: Seq<Option<Opening>>, k: int, d: nat) -> bool {
    &&& 0 <= k <= picks.len()
    &&& state_at(n, picks, k).stack.len() == d
    &&& forall|m: int| 0 <= m < k ==> (#[trigger] state_at(n, picks, m)).stack.len() < d
}

/// The times of a walk are times of every longer walk, with the same states.
proof fn lemma_state_at_push(n: int, picks: Seq<Option<Opening>>, choice: Option<Opening>, k: int)
    requires
        0 <= k <= picks.len(),
    ensures
        state_at(n, picks.push(choice), k) == state_at(n, picks, k),
        state_at(n, picks.push(choice), picks.len() as int + 1) == walk(n, picks.push(choice)),
        state_at(n, picks, picks.len() as int) == walk(n, picks),
{
    let more = picks.push(choice);
    assert(more.take(k) =~= picks.take(k));
    assert(more.take(picks.len() as int + 1) =~= more);
    assert(picks.take(picks.len() as int) =~= picks);
}

/// What a walk records as its deepest room: the stack was never deeper than
/// the depth recorded, and the room recorded is the room the walk stood in
/// when the stack first was that deep. Before anything is entered that is
/// the start room, at depth zero.
pub proof fn lemma_deepest_is_first(n: int, picks: Seq<Option<Opening>>) -> (k: int)
    requires
        1 <= n <= MAX_SIZE,
        lawful(n, picks),
    ensures
        forall|m: int|
            0 <= m <= picks.len() ==> (#[trigger] state_at(n, picks, m)).stack.len() <= walk(
                n,
                picks,
            ).deepest.0,
        first_at_depth(n, picks, k, walk(n, picks).deepest.0),
        state_at(n, picks, k).current == walk(n, picks).deepest.1,
    decreases picks.len(),
{
    if picks.len() == 0 {
        assert forall|m: int| 0 <= m <= picks.len() implies (#[trigger] state_at(
            n,
            picks,
            m,
        )).stack.len() <= walk(n, picks).deepest.0 by {
            assert(picks.take(m) =~= picks);
        }
        assert(picks.take(0) =~= picks);
        0
    } else {
        let front = picks.drop_last();
        let last = picks.last();
        assert(front.push(last) =~= picks);
        let k0 = lemma_deepest_is_first(n, front);
        let before = walk(n, front);
        let after = walk(n, picks);
        let len = front.len() as int;
        lemma_lawful_walk(n, front);
        lemma_state_at_push(n, front, last, len);
        assert forall|m: int| 0 <= m <= len implies #[trigger] state_at(n, picks, m) == state_at(
            n,
            front,
            m,
        ) by {
            lemma_state_at_push(n, front, last, m);
        }
        assert(after.stack.len() <= after.deepest.0);
        assert(before.deepest.0 <= after.deepest.0);
        assert forall|m: int| 0 <= m <= picks.len() implies (#[trigger] state_at(
            n,
            picks,
            m,
        )).stack.len() <= after.deepest.0 by {
            if m <= len {
                assert(state_at(n, picks, m) == state_at(n, front, m));
                assert(state_at(n, front, m).stack.len() <= before.deepest.0);
            }
        }
        if after.deepest == before.deepest {
            assert forall|m: int| 0 <= m < k0 implies (#[trigger] state_at(n, picks, m)).stack.len()
                < after.deepest.0 by {
                assert(state_at(n, picks, m) == state_at(n, front, m));
                assert(state_at(n, front, m).stack.len() < before.deepest.0);
            }
            assert(state_at(n, picks, k0) == state_at(n, front, k0));
            k0
        } else {
            assert forall|m: int| 0 <= m < len + 1 implies (#[trigger] state_at(
                n,
                picks,
                m,
            )).stack.len() < after.deepest.0 by {
                assert(state_at(n, picks, m) == state_at(n, front, m));
                assert(state_at(n, front, m).stack.len() <= before.deepest.0);
            }
            len + 1
        }
    }
}

/// Once a lawful walk has ended, it has entered every room and opened one
/// wall less than there are rooms: the rooms and the open walls between them
/// form a tree.
pub proof fn lemma_walls_opened(n: int, picks: Seq<Option<Opening>>)
    requires
        1 <= n <= MAX_SIZE,
        lawful(n, picks),
        ended(walk(n, picks)),
    ensures
        walk(n, picks).entered() == n * n,
        passages(walk(n, picks).grid, n) == n * n - 1,
{
    lemma_lawful_walk(n, picks);
    lemma_walk_covers_board(walk(n, picks));
}

} // verus!
