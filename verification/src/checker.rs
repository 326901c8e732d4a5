//! Moving one checker: when it is legal, and what it does to the position.
use crate::board::{
    lemma_count_bounds, lemma_move_keeps_wf, lemma_o_count_update, lemma_smallest_pip_to_check,
    lemma_x_count_update, O_BAR, X_BAR,
};
use crate::position::Position;
use vstd::prelude::*;

verus! {

impl<const N: u8> Position<N> {
    /// No checker of `x` stands on a point above `point`, the bar not counted.
    pub fn no_x_above(&self, point: usize) -> (r: bool)
        ensures
            r == self@.no_x_above(point as int),
    {
        proof {
            self.lemma_view();
        }
        let mut i: usize = 24;
        while i > point
            invariant
                i <= 24,
                forall|j: int| i < j <= 24 ==> self.pips[j] <= 0,
            decreases i,
        {
            if self.pips[i] > 0 {
                proof {
                    self.lemma_view();
                }
                return false;
            }
            i -= 1;
        }
        assert forall|j: int| point < j <= 24 implies self@.pips[j] <= 0 by {
            assert(self.pips[j] <= 0);
        }
        true
    }

    /// The rules for one checker once the bar has been looked at: there is a
    /// checker to move, and either its landing point is open or it may be
    /// borne off.
    pub fn can_move_internally(&self, from: usize, die: usize) -> (r: bool)
        requires
            1 <= from <= 25,
            1 <= die <= 6,
        ensures
            r == self@.checker_can_move(from as int, die as int),
    {
        proof {
            self.lemma_view();
        }
        if self.pips[from] < 1 {
            false
        } else if from > die {
            self.pips[from - die] > -2
        } else if from == die {
            self.no_x_above(6)
        } else {
            self.no_x_above(from)
        }
    }

    /// Whether one checker of `x` may move from `from` with `die`. A checker
    /// on the bar has to move first; a die outside 1 to 6 or a point outside
    /// 1 to 25 moves nothing.
    pub fn can_move(&self, from: usize, die: usize) -> (r: bool)
        ensures
            r == self@.can_move(from as int, die as int),
    {
        proof {
            self.lemma_view();
        }
        if from < 1 || from > 25 || die < 1 || die > 6 {
            false
        } else if (from == X_BAR) == (self.pips[X_BAR] > 0) {
            self.can_move_internally(from, die)
        } else {
            false
        }
    }

    /// Moves one checker from `from` with `die`: to a lower point, hitting a
    /// single checker of `o` that stands there, or off the board.
    pub fn move_single_checker(&mut self, from: usize, die: usize)
        requires
            old(self).wf(),
            old(self)@.can_move(from as int, die as int),
        ensures
            final(self)@ == old(self)@.do_move(from as int, die as int),
            final(self).wf(),
            final(self).on_turn() == old(self).on_turn(),
    {
        let ghost before = *self;
        let ghost b = before@;
        let ghost lifted = b.pips.update(from as int, b.pips[from as int] - 1);
        proof {
            before.lemma_view();
            before.lemma_raw();
            lemma_move_keeps_wf(b, N as int, from as int, die as int);
            lemma_x_count_update(b.pips, 26, from as int, b.pips[from as int] - 1);
            lemma_o_count_update(b.pips, 26, from as int, b.pips[from as int] - 1);
        }
        self.pips[from] -= 1;
        if from > die {
            let to: usize = from - die;
            if self.pips[to] == -1 {
                proof {
                    lemma_o_count_update(lifted, 26, to as int, 1);
                    lemma_count_bounds(lifted.update(to as int, 1), 26, 0);
                }
                self.pips[to] = 1;
                self.pips[O_BAR] -= 1;
            } else {
                proof {
                    lemma_count_bounds(lifted, 26, to as int);
                }
                self.pips[to] += 1;
            }
        } else {
            proof {
                lemma_count_bounds(b.pips, 26, from as int);
            }
            self.x_off += 1;
        }
        proof {
            self.lemma_view();
            assert(self@.pips =~= b.do_move(from as int, die as int).pips);
        }
    }

    /// The position after one checker has moved; `self` stays as it is.
    pub fn clone_and_move_single_checker(&self, from: usize, die: usize) -> (r: Self)
        requires
            self.wf(),
            self@.can_move(from as int, die as int),
        ensures
            r@ == self@.do_move(from as int, die as int),
            r.wf(),
            r.on_turn() == self.on_turn(),
    {
        let mut new = *self;
        new.move_single_checker(from, die);
        new
    }

    /// Tests whether a checker can leave `from`, looking closely at moves to
    /// a point only: a bear-off counts as legal. So it decides the move only
    /// from `smallest_pip_to_check` on and with an empty bar.
    pub fn can_move_when_bearoff_is_legal(&self, from: usize, die: usize) -> (r: bool)
        requires
            1 <= from <= 25,
            1 <= die <= 6,
        ensures
            r == self@.can_move_when_bearoff_is_legal(from as int, die as int),
    {
        proof {
            self.lemma_view();
        }
        if self.pips[from] < 1 {
            false
        } else if from > die {
            self.pips[from - die] > -2
        } else {
            true
        }
    }

    /// The smallest point that has to be looked at when searching for a
    /// checker to move with `die`: nothing below it can move.
    pub fn smallest_pip_to_check(&self, die: usize) -> (r: usize)
        requires
            1 <= die <= 6,
        ensures
            r == self@.smallest_pip_to_check(die as int),
            forall|from: int| from < r ==> !#[trigger] self@.can_move(from, die as int),
    {
        proof {
            self.lemma_view();
            lemma_smallest_pip_to_check(self@, die as int);
        }
        let mut i: usize = 26;
        while i > 0
            invariant
                i <= 26,
                1 <= die <= 6,
                self@.top_x(25) == self@.top_x(i - 1),
            decreases i,
        {
            i -= 1;
            proof {
                self.lemma_view();
            }
            if self.pips[i] > 0 {
                let biggest_checker = i;
                if biggest_checker > 6 {
                    return die + 1;
                } else if biggest_checker < die {
                    return biggest_checker;
                } else {
                    return die;
                }
            }
        }
        X_BAR + 1
    }

    /// The position after the move, if the move is legal.
    pub fn try_move_single_checker(&self, from: usize, die: usize) -> (r: Option<Self>)
        requires
            self.wf(),
        ensures
            r is Some <==> self@.can_move(from as int, die as int),
            r matches Some(p) ==> p@ == self@.do_move(from as int, die as int) && p.wf()
                && p.on_turn() == self.on_turn(),
    {
        if self.can_move(from, die) {
            Some(self.clone_and_move_single_checker(from, die))
        } else {
            None
        }
    }
}

} // verus!
