//! The mathematical model of a backgammon board and of the rules for moving
//! one checker. Everything here is specification: the executable `Position`
//! is described by the `Board` it stands for.
use vstd::prelude::*;

verus! {

/// Index of the bar of player `x`.
pub const X_BAR: usize = 25;

/// Index of the bar of player `o`.
pub const O_BAR: usize = 0;

/// A board seen from the side of `x`, who moves from point 24 down to point 1.
///
/// `pips[i]` is positive for checkers of `x` and negative for checkers of `o`.
/// Index 25 is the bar of `x`, index 0 the bar of `o`. Whose turn it is does
/// not belong to the board.
pub struct Board {
    pub pips: Seq<int>,
    pub x_off: int,
    pub o_off: int,
}

/// Number of `x` checkers on the indices below `upto`.
pub open spec fn x_count(pips: Seq<int>, upto: int) -> int
    decreases upto,
{
    if upto <= 0 {
        0
    } else {
        x_count(pips, upto - 1) + if pips[upto - 1] > 0 {
            pips[upto - 1]
        } else {
            0
        }
    }
}

/// Number of `o` checkers on the indices below `upto`.
pub open spec fn o_count(pips: Seq<int>, upto: int) -> int
    decreases upto,
{
    if upto <= 0 {
        0
    } else {
        o_count(pips, upto - 1) + if pips[upto - 1] < 0 {
            -pips[upto - 1]
        } else {
            0
        }
    }
}

impl Board {
    /// The board is consistent for a game with `n` checkers per side: both
    /// bars hold checkers of their owner only, nothing is negative, and each
    /// side's checkers on the board, on the bar and off the board add up to `n`.
    pub open spec fn wf(self, n: int) -> bool {
        &&& self.pips.len() == 26
        &&& self.pips[25] >= 0
        &&& self.pips[0] <= 0
        &&& self.x_off >= 0
        &&& self.o_off >= 0
        &&& x_count(self.pips, 26) + self.x_off == n
        &&& o_count(self.pips, 26) + self.o_off == n
    }

    /// No checker of `x` stands on a point above `point` (the bar not counted).
    pub open spec fn no_x_above(self, point: int) -> bool {
        forall|i: int| point < i <= 24 ==> self.pips[i] <= 0
    }

    /// A checker of `x` stands on `from`, and with `die` it either lands on a
    /// point that `o` has not made, or may be borne off: with the exact die
    /// once no checker is outside the home board, with a larger die once no
    /// checker stands behind it. The bar is not looked at.
    pub open spec fn checker_can_move(self, from: int, die: int) -> bool {
        &&& self.pips[from] >= 1
        &&& if from > die {
            self.pips[from - die] >= -1
        } else if from == die {
            self.no_x_above(6)
        } else {
            self.no_x_above(from)
        }
    }

    /// `x` may move one checker from `from` with a die showing `die`: while
    /// `x` has a checker on the bar only that one may move.
    pub open spec fn can_move(self, from: int, die: int) -> bool {
        &&& 1 <= die <= 6
        &&& 1 <= from <= 25
        &&& (from == 25) == (self.pips[25] > 0)
        &&& self.checker_can_move(from, die)
    }

    /// The board after `x` has moved one checker from `from` with `die`.
    pub open spec fn do_move(self, from: int, die: int) -> Board {
        let lifted = self.pips.update(from, self.pips[from] - 1);
        if from > die {
            if self.pips[from - die] == -1 {
                Board {
                    pips: lifted.update(from - die, 1).update(0, self.pips[0] - 1),
                    x_off: self.x_off,
                    o_off: self.o_off,
                }
            } else {
                Board {
                    pips: lifted.update(from - die, lifted[from - die] + 1),
                    x_off: self.x_off,
                    o_off: self.o_off,
                }
            }
        } else {
            Board { pips: lifted, x_off: self.x_off + 1, o_off: self.o_off }
        }
    }

    /// The same board seen from the other side.
    pub open spec fn flip(self) -> Board {
        Board {
            pips: Seq::new(26, |i: int| -self.pips[25 - i]),
            x_off: self.o_off,
            o_off: self.x_off,
        }
    }

    /// The highest index up to `upto` that holds a checker of `x`, or -1 if
    /// there is none.
    pub open spec fn top_x(self, upto: int) -> int
        decreases upto + 1,
    {
        if upto < 0 {
            -1
        } else if self.pips[upto] > 0 {
            upto
        } else {
            self.top_x(upto - 1)
        }
    }

    /// Below this point no checker can move with `die` while the bar is
    /// empty: with a checker outside the home board nothing is borne off, so
    /// the die's own point and those below it are out; else the points below
    /// the die's and below the highest checker are.
    pub open spec fn smallest_pip_to_check(self, die: int) -> int {
        let top = self.top_x(25);
        if top < 0 {
            26
        } else if top > 6 {
            die + 1
        } else if top < die {
            top
        } else {
            die
        }
    }

    /// A checker of `x` stands on `from` and, if `die` takes it to a point,
    /// `o` has not made that point. Bearing off is taken to be legal.
    pub open spec fn can_move_when_bearoff_is_legal(self, from: int, die: int) -> bool {
        self.pips[from] >= 1 && (from > die ==> self.pips[from - die] >= -1)
    }
}

/// `top_x` finds a checker of `x`, and none stands above it.
pub proof fn lemma_top_x(b: Board, upto: int)
    requires
        -1 <= upto,
    ensures
        -1 <= b.top_x(upto) <= upto,
        b.top_x(upto) >= 0 ==> b.pips[b.top_x(upto)] > 0,
        forall|i: int| b.top_x(upto) < i <= upto ==> b.pips[i] <= 0,
    decreases upto + 1,
{
    if upto >= 0 && b.pips[upto] <= 0 {
        lemma_top_x(b, upto - 1);
    }
}

/// Below `smallest_pip_to_check` nothing can move, and from there on, while
/// the bar is empty, a bear-off need not be looked at any closer.
pub proof fn lemma_smallest_pip_to_check(b: Board, die: int)
    requires
        1 <= die <= 6,
        b.pips.len() == 26,
    ensures
        forall|from: int| from < b.smallest_pip_to_check(die) ==> !#[trigger] b.can_move(from, die),
        forall|from: int|
            b.pips[25] <= 0 && b.smallest_pip_to_check(die) <= from <= 24 && 1 <= from
                ==> #[trigger] b.can_move(from, die) == b.can_move_when_bearoff_is_legal(from, die),
{
    lemma_top_x(b, 25);
    let top = b.top_x(25);
    assert forall|from: int| from < b.smallest_pip_to_check(die) implies !#[trigger] b.can_move(
        from,
        die,
    ) by {
        if b.can_move(from, die) {
            if top > 6 && top <= 24 {
                assert(!b.no_x_above(6));
                assert(!b.no_x_above(from));
            }
        }
    }
    assert forall|from: int|
        b.pips[25] <= 0 && b.smallest_pip_to_check(die) <= from <= 24 && 1
            <= from implies #[trigger] b.can_move(
        from,
        die,
    ) == b.can_move_when_bearoff_is_legal(from, die) by {
        if b.can_move_when_bearoff_is_legal(from, die) && from <= die {
            assert(from <= top);
        }
    }
}

/// Changing one entry changes the count of `x` by the change of that entry's
/// positive part.
pub proof fn lemma_x_count_update(pips: Seq<int>, upto: int, i: int, v: int)
    requires
        0 <= upto <= pips.len(),
        0 <= i < pips.len(),
    ensures
        x_count(pips.update(i, v), upto) == x_count(pips, upto) + if i < upto {
            (if v > 0 {
                v
            } else {
                0
            }) - (if pips[i] > 0 {
                pips[i]
            } else {
                0
            })
        } else {
            0
        },
    decreases upto,
{
    if upto > 0 {
        lemma_x_count_update(pips, upto - 1, i, v);
    }
}

/// Changing one entry changes the count of `o` by the change of that entry's
/// negative part.
pub proof fn lemma_o_count_update(pips: Seq<int>, upto: int, i: int, v: int)
    requires
        0 <= upto <= pips.len(),
        0 <= i < pips.len(),
    ensures
        o_count(pips.update(i, v), upto) == o_count(pips, upto) + if i < upto {
            (if v < 0 {
                -v
            } else {
                0
            }) - (if pips[i] < 0 {
                -pips[i]
            } else {
                0
            })
        } else {
            0
        },
    decreases upto,
{
    if upto > 0 {
        lemma_o_count_update(pips, upto - 1, i, v);
    }
}

/// No entry holds more checkers than its side has on the board.
pub proof fn lemma_count_bounds(pips: Seq<int>, upto: int, i: int)
    requires
        0 <= i < upto <= pips.len(),
    ensures
        x_count(pips, upto) >= 0,
        o_count(pips, upto) >= 0,
        pips[i] <= x_count(pips, upto),
        -pips[i] <= o_count(pips, upto),
    decreases upto,
{
    lemma_count_nonneg(pips, upto - 1);
    if i < upto - 1 {
        lemma_count_bounds(pips, upto - 1, i);
    }
}

/// Counts are never negative.
pub proof fn lemma_count_nonneg(pips: Seq<int>, upto: int)
    ensures
        x_count(pips, upto) >= 0,
        o_count(pips, upto) >= 0,
    decreases upto,
{
    if upto > 0 {
        lemma_count_nonneg(pips, upto - 1);
    }
}

/// A legal move keeps the board consistent: no checker is lost or made.
pub proof fn lemma_move_keeps_wf(b: Board, n: int, from: int, die: int)
    requires
        b.wf(n),
        b.can_move(from, die),
    ensures
        b.do_move(from, die).wf(n),
{
    let lifted = b.pips.update(from, b.pips[from] - 1);
    lemma_x_count_update(b.pips, 26, from, b.pips[from] - 1);
    lemma_o_count_update(b.pips, 26, from, b.pips[from] - 1);
    if from > die {
        let to = from - die;
        if b.pips[to] == -1 {
            let landed = lifted.update(to, 1);
            lemma_x_count_update(lifted, 26, to, 1);
            lemma_o_count_update(lifted, 26, to, 1);
            lemma_x_count_update(landed, 26, 0, b.pips[0] - 1);
            lemma_o_count_update(landed, 26, 0, b.pips[0] - 1);
        } else {
            lemma_x_count_update(lifted, 26, to, lifted[to] + 1);
            lemma_o_count_update(lifted, 26, to, lifted[to] + 1);
        }
    }
}

/// The counts of a flipped board are the other side's counts.
pub proof fn lemma_flip_counts(pips: Seq<int>, upto: int)
    requires
        pips.len() == 26,
        0 <= upto <= 26,
    ensures
        x_count(Seq::new(26, |i: int| -pips[25 - i]), upto) == o_count(pips, 26) - o_count(
            pips,
            26 - upto,
        ),
        o_count(Seq::new(26, |i: int| -pips[25 - i]), upto) == x_count(pips, 26) - x_count(
            pips,
            26 - upto,
        ),
    decreases upto,
{
    if upto > 0 {
        lemma_flip_counts(pips, upto - 1);
    }
}

/// Flipping keeps the board consistent.
pub proof fn lemma_flip_keeps_wf(b: Board, n: int)
    requires
        b.wf(n),
    ensures
        b.flip().wf(n),
{
    lemma_flip_counts(b.pips, 26);
}

/// Flipping twice gives the board back.
pub proof fn lemma_flip_flip(b: Board)
    requires
        b.pips.len() == 26,
    ensures
        b.flip().flip() == b,
{
    assert(b.flip().flip().pips =~= b.pips);
}

} // verus!
