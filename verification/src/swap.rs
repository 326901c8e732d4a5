//! Plays that differ in the order of their moves only: why the search for
//! plays may leave some orders out.
use crate::board::Board;
use vstd::prelude::*;

verus! {

/// Two moves of which the second leaves a higher point than the first can be
/// made the other way round, and lead to the same board.
pub proof fn lemma_higher_first(b: Board, low: int, d1: int, high: int, d2: int)
    requires
        b.pips.len() == 26,
        low < high,
        b.can_move(low, d1),
        b.do_move(low, d1).can_move(high, d2),
    ensures
        b.can_move(high, d2),
        b.do_move(high, d2).can_move(low, d1),
        b.do_move(high, d2).do_move(low, d1) == b.do_move(low, d1).do_move(high, d2),
{
    let first = b.do_move(low, d1);
    let other = b.do_move(high, d2);
    assert(b.pips[high] >= 1);
    assert(b.can_move(high, d2)) by {
        if high <= d2 {
            if high == d2 {
                assert(first.no_x_above(6));
                assert forall|i: int| 6 < i <= 24 implies b.pips[i] <= 0 by {
                    assert(first.pips[i] <= 0);
                }
            } else {
                assert forall|i: int| high < i <= 24 implies b.pips[i] <= 0 by {
                    assert(first.pips[i] <= 0);
                }
            }
        }
    }
    assert(other.can_move(low, d1)) by {
        if low <= d1 {
            if low == d1 {
                assert(b.no_x_above(6));
                assert forall|i: int| 6 < i <= 24 implies other.pips[i] <= 0 by {
                    assert(b.pips[i] <= 0);
                }
            } else {
                assert(b.no_x_above(low));
                assert(b.pips[high] <= 0);
            }
        }
    }
    assert(other.do_move(low, d1).pips =~= first.do_move(high, d2).pips);
}

/// Two checkers that leave the same point with different dice can leave it
/// in either order, and lead to the same board.
pub proof fn lemma_same_point(b: Board, from: int, d1: int, d2: int)
    requires
        b.pips.len() == 26,
        d1 != d2,
        b.can_move(from, d1),
        b.do_move(from, d1).can_move(from, d2),
    ensures
        b.can_move(from, d2),
        b.do_move(from, d2).can_move(from, d1),
        b.do_move(from, d2).do_move(from, d1) == b.do_move(from, d1).do_move(from, d2),
{
    let first = b.do_move(from, d1);
    let other = b.do_move(from, d2);
    assert(b.can_move(from, d2)) by {
        if from <= d2 {
            if from == d2 {
                assert(first.no_x_above(6));
                assert forall|i: int| 6 < i <= 24 implies b.pips[i] <= 0 by {
                    assert(first.pips[i] <= 0);
                }
            } else {
                assert(first.no_x_above(from));
                assert forall|i: int| from < i <= 24 implies b.pips[i] <= 0 by {
                    assert(first.pips[i] <= 0);
                }
            }
        }
    }
    assert(other.can_move(from, d1)) by {
        if from <= d1 {
            if from == d1 {
                assert(b.no_x_above(6));
                assert forall|i: int| 6 < i <= 24 implies other.pips[i] <= 0 by {
                    assert(b.pips[i] <= 0);
                }
            } else {
                assert(b.no_x_above(from));
                assert forall|i: int| from < i <= 24 implies other.pips[i] <= 0 by {
                    assert(b.pips[i] <= 0);
                }
            }
        }
    }
    assert(other.do_move(from, d1).pips =~= first.do_move(from, d2).pips);
}

/// One checker that makes two moves to points, hitting nothing on the point
/// between whichever die it plays first, can play its dice in either order.
/// Where the second move bears the checker off, this holds if the bigger
/// die was played first.
pub proof fn lemma_same_checker(b: Board, from: int, d1: int, d2: int)
    requires
        b.pips.len() == 26,
        d1 != d2,
        from > d1,
        from > d2,
        b.pips[from - d1] >= 0,
        b.pips[from - d2] >= 0,
        b.can_move(from, d1),
        b.do_move(from, d1).can_move(from - d1, d2),
        d2 < d1 || from - d1 > d2,
    ensures
        b.can_move(from, d2),
        b.do_move(from, d2).can_move(from - d2, d1),
        b.do_move(from, d2).do_move(from - d2, d1) == b.do_move(from, d1).do_move(from - d1, d2),
{
    let first = b.do_move(from, d1);
    let other = b.do_move(from, d2);
    assert(b.can_move(from, d2));
    assert(other.can_move(from - d2, d1)) by {
        if from - d2 <= d1 {
            if from - d2 == d1 {
                assert(first.no_x_above(6));
                assert forall|i: int| 6 < i <= 24 implies other.pips[i] <= 0 by {
                    assert(first.pips[i] <= 0);
                }
            } else {
                assert(first.no_x_above(from - d1));
                assert forall|i: int| from - d2 < i <= 24 implies other.pips[i] <= 0 by {
                    assert(first.pips[i] <= 0);
                }
            }
        }
    }
    assert(other.do_move(from - d2, d1).pips =~= first.do_move(from - d1, d2).pips);
}

} // verus!
