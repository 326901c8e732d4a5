//! All legal plays of a roll of two different dice.
use crate::board::{Board, X_BAR};
use crate::dice::{Dice, RegularDice};
use crate::generate::{
    all_wf, boards_of, distinct, lemma_boards_inhabited, lemma_orders_cover,
    lemma_other_order_extend, lemma_reach_one, lemma_reach_two, mirrored, moves_in, other_order,
    second_moves, two_moves, Second,
};
use crate::plays::{legal_results, lemma_mixed_results, reach, reach_both, single};
use crate::position::Position;
use vstd::prelude::*;

verus! {

/// Room that a list of plays starts with: more than most rolls need, so
/// that the list need not grow while it is filled.
pub const MOVES_CAPACITY: usize = 128;

/// `r` lists the legal results of `dice` for `p`: each board that the rules
/// let `x` reach stands in it once, seen from the side that `p` is seen from;
/// where nothing can move that is the board of `p` alone.
pub open spec fn lists_plays<const N: u8>(p: Position<N>, dice: Dice, r: Seq<Position<N>>) -> bool {
    &&& r.len() >= 1
    &&& distinct(r)
    &&& all_wf(r, p.on_turn())
    &&& boards_of(r) == legal_results(p@, dice)
}

/// With a checker on the bar, one move is the move from the bar.
pub proof fn lemma_bar_one(b: Board, d: int)
    requires
        b.pips[25] > 0,
    ensures
        moves_in(b, d, 1, 25) =~= (if b.can_move(25, d) {
            set![b.do_move(25, d)]
        } else {
            Set::empty()
        }),
{
    if b.can_move(25, d) {
        assert(moves_in(b, d, 1, 25).contains(b.do_move(25, d)));
    }
}

/// With a checker on the bar, two moves are the move from the bar and one
/// more.
pub proof fn lemma_bar_two(b: Board, d1: int, d2: int)
    requires
        b.pips[25] > 0,
    ensures
        two_moves(b, d1, d2, 1, 25, Second::Any) =~= (if b.can_move(25, d1) {
            moves_in(b.do_move(25, d1), d2, 1, 25)
        } else {
            Set::empty()
        }),
{
    let two = two_moves(b, d1, d2, 1, 25, Second::Any);
    if b.can_move(25, d1) {
        let after = moves_in(b.do_move(25, d1), d2, 1, 25);
        assert forall|q: Board| after.contains(q) implies two.contains(q) by {
            let f2 = choose|f2: int|
                1 <= f2 <= 25 && #[trigger] b.do_move(25, d1).can_move(f2, d2) && b.do_move(
                    25,
                    d1,
                ).do_move(f2, d2) == q;
            assert(Second::Any.admits(25, f2));
        }
    }
}

/// With a checker on the bar, the moves with the second checker no higher
/// than the first are the move from the bar and one more.
pub proof fn lemma_bar_upto(b: Board, d1: int, d2: int)
    requires
        b.pips[25] > 0,
    ensures
        two_moves(b, d1, d2, 1, 25, Second::UpTo) =~= (if b.can_move(25, d1) {
            moves_in(b.do_move(25, d1), d2, 1, 25)
        } else {
            Set::empty()
        }),
{
    let two = two_moves(b, d1, d2, 1, 25, Second::UpTo);
    if b.can_move(25, d1) {
        let after = moves_in(b.do_move(25, d1), d2, 1, 25);
        assert forall|q: Board| after.contains(q) implies two.contains(q) by {
            let f2 = choose|f2: int|
                1 <= f2 <= 25 && #[trigger] b.do_move(25, d1).can_move(f2, d2) && b.do_move(
                    25,
                    d1,
                ).do_move(f2, d2) == q;
            assert(Second::UpTo.admits(25, f2));
        }
    }
}

/// With a checker on the bar, the moves that are looked for in the other
/// order are the second moves after the move from the bar.
pub proof fn lemma_bar_other_order(b: Board, d1: int, d2: int)
    requires
        b.pips[25] > 0,
    ensures
        other_order(b, d1, d2, 1, 25) =~= (if b.can_move(25, d1) {
            second_moves(b, d1, d2, 25)
        } else {
            Set::empty()
        }),
{
    lemma_other_order_extend(b, d1, d2, 24);
    assert(other_order(b, d1, d2, 1, 24) =~= Set::empty());
}

/// Entering with one die and then with the other gives the same board in
/// either order, and the first checker to enter does not stand in the way of
/// the second.
pub proof fn lemma_enter_twice(b: Board, d1: int, d2: int)
    requires
        b.pips.len() == 26,
        b.pips[25] >= 2,
        b.pips[0] <= 0,
        d1 != d2,
        b.can_move(25, d1),
    ensures
        b.do_move(25, d1).can_move(25, d2) == b.can_move(25, d2),
        b.can_move(25, d2) ==> b.do_move(25, d1).do_move(25, d2) == b.do_move(25, d2).do_move(
            25,
            d1,
        ),
{
    if b.can_move(25, d2) {
        assert(b.do_move(25, d1).do_move(25, d2).pips =~= b.do_move(25, d2).do_move(25, d1).pips);
    }
}

impl<const N: u8> Position<N> {
    /// The positions after a legal play of `dice`, not yet seen from the
    /// other side.
    pub fn all_positions_after_mixed_move(&self, dice: &RegularDice) -> (r: Vec<Self>)
        requires
            self.wf(),
            dice.valid(),
        ensures
            lists_plays(*self, Dice::Regular(*dice), r@),
    {
        match self.pip(25) {
            0 => self.moves_with_0_checkers_on_bar(dice),
            1 => self.moves_with_1_checker_on_bar(dice),
            _ => {
                proof {
                    self.lemma_cells();
                }
                self.moves_with_2_checkers_on_bar(dice)
            },
        }
    }

    /// Whether a checker on the bar can enter with `die`.
    pub fn can_enter(&self, die: usize) -> (r: bool)
        requires
            1 <= die <= 6,
        ensures
            r == (self@.pips[25 - die] >= -1),
            self@.pips[25] > 0 ==> r == self@.can_move(25, die as int),
    {
        self.pip(25 - die) > -2
    }

    /// Enters one checker from the bar with `die`.
    pub fn enter_single_checker(&mut self, die: usize)
        requires
            old(self).wf(),
            old(self)@.can_move(25, die as int),
        ensures
            final(self)@ == old(self)@.do_move(25, die as int),
            final(self).wf(),
            final(self).on_turn() == old(self).on_turn(),
    {
        self.move_single_checker(25, die);
    }

    /// The position after one checker has entered with `die`.
    pub fn clone_and_enter_single_checker(&self, die: usize) -> (r: Self)
        requires
            self.wf(),
            self@.can_move(25, die as int),
        ensures
            r@ == self@.do_move(25, die as int),
            r.wf(),
            r.on_turn() == self.on_turn(),
    {
        let mut position = *self;
        position.enter_single_checker(die);
        position
    }

    /// Appends every position one move with `die` away that `moves` does not
    /// hold yet.
    pub fn one_checker_moves(&self, die: usize, moves: &mut Vec<Self>)
        requires
            self.wf(),
            1 <= die <= 6,
            distinct(old(moves)@),
            all_wf(old(moves)@, self.on_turn()),
        ensures
            distinct(final(moves)@),
            all_wf(final(moves)@, self.on_turn()),
            boards_of(final(moves)@) == boards_of(old(moves)@).union(
                reach(self@, single(die as int)),
            ),
    {
        proof {
            lemma_reach_one(self@, die as int);
        }
        self.push_moves(die, 1, 25, false, moves);
    }

    /// All positions after both dice have been played, in either order.
    ///
    /// First the small die is played, and then the big one from the same
    /// point or a lower one. Then the big die is played first and the small
    /// one from a lower point; a checker that has played the big die does not
    /// go on with the small one, unless one of the dice hits on its way, as
    /// playing the small die first has led to the same position.
    pub fn two_checker_moves(&self, dice: &RegularDice) -> (moves: Vec<Self>)
        requires
            self.wf(),
            dice.valid(),
        ensures
            distinct(moves@),
            all_wf(moves@, self.on_turn()),
            boards_of(moves@) == reach_both(self@, dice.big as int, dice.small as int),
    {
        let mut moves: Vec<Self> = Vec::with_capacity(MOVES_CAPACITY);
        assert(boards_of(moves@) =~= Set::empty());
        // All moves where the small die is played first.
        self.push_two(dice.small, dice.big, Second::UpTo, true, &mut moves);
        // All moves where the big die is played first.
        self.push_other_order(dice.big, dice.small, &mut moves);
        proof {
            self.lemma_cells();
            lemma_orders_cover(self@, dice.small as int, dice.big as int);
        }
        moves
    }

    /// The plays while no checker is on the bar: both dice where that can be
    /// done, else the bigger die, else the smaller one, else nothing.
    pub fn moves_with_0_checkers_on_bar(&self, dice: &RegularDice) -> (r: Vec<Self>)
        requires
            self.wf(),
            dice.valid(),
        ensures
            lists_plays(*self, Dice::Regular(*dice), r@),
    {
        proof {
            lemma_mixed_results(self@, dice.big, dice.small);
        }
        let mut moves = self.two_checker_moves(dice);
        proof {
            lemma_boards_inhabited(moves@);
        }
        if moves.len() == 0 {
            assert(boards_of(moves@) =~= Set::empty());
            self.one_checker_moves(dice.big, &mut moves);
            proof {
                lemma_boards_inhabited(moves@);
                assert(boards_of(moves@) =~= reach(self@, single(dice.big as int)));
            }
            if moves.len() == 0 {
                assert(boards_of(moves@) =~= Set::empty());
                self.one_checker_moves(dice.small, &mut moves);
                proof {
                    lemma_boards_inhabited(moves@);
                    assert(boards_of(moves@) =~= reach(self@, single(dice.small as int)));
                }
                if moves.len() == 0 {
                    moves.push(*self);
                    assert(moves@[0]@ == self@);
                    assert(boards_of(moves@) =~= set![self@]);
                }
            }
        }
        moves
    }

    /// The plays with exactly one checker on the bar: it enters with one die,
    /// and the other die is played where that can be done. The checker that
    /// has entered with the small die does not go on with the big one, unless
    /// one of the dice hits on its way, as entering with the big die has led
    /// to the same position.
    pub fn moves_with_1_checker_on_bar(&self, dice: &RegularDice) -> (r: Vec<Self>)
        requires
            self.wf(),
            dice.valid(),
            self@.pips[25] == 1,
        ensures
            lists_plays(*self, Dice::Regular(*dice), r@),
    {
        let ghost b = self@;
        let ghost big = dice.big as int;
        let ghost small = dice.small as int;
        proof {
            self.lemma_cells();
            lemma_mixed_results(b, dice.big, dice.small);
            lemma_orders_cover(b, big, small);
            lemma_bar_upto(b, big, small);
            lemma_bar_other_order(b, small, big);
            lemma_reach_one(b, big);
            lemma_reach_one(b, small);
            lemma_bar_one(b, big);
            lemma_bar_one(b, small);
        }
        let mut moves: Vec<Self> = Vec::with_capacity(MOVES_CAPACITY);
        let mut enter_big: Option<Self> = None;
        let mut enter_small: Option<Self> = None;
        assert(boards_of(moves@) =~= Set::empty());

        if self.can_enter(dice.big) {
            let position = self.clone_and_enter_single_checker(dice.big);
            enter_big = Some(position);
            position.push_moves(dice.small, 1, 25, false, &mut moves);
        }
        assert(boards_of(moves@) =~= two_moves(b, big, small, 1, 25, Second::UpTo));

        let different_outcomes = self.pip(X_BAR - dice.big) < 0 || self.pip(X_BAR - dice.small) < 0;
        if self.can_enter(dice.small) {
            let position = self.clone_and_enter_single_checker(dice.small);
            enter_small = Some(position);
            if different_outcomes {
                position.push_moves(dice.big, 1, 24, false, &mut moves);
            } else {
                // The checker that has entered stays: that it goes on is known.
                position.push_moves(dice.big, 1, X_BAR - dice.small - 1, false, &mut moves);
                position.push_moves(dice.big, X_BAR - dice.small + 1, 24, false, &mut moves);
            }
        }
        proof {
            assert(different_outcomes == !mirrored(b, small, big, 25, 25 - small));
            assert(boards_of(moves@) =~= two_moves(b, big, small, 1, 25, Second::UpTo).union(
                other_order(b, small, big, 1, 25),
            ));
            assert(boards_of(moves@) =~= reach_both(b, big, small));
            lemma_boards_inhabited(moves@);
        }

        if moves.len() == 0 {
            if let Some(position) = enter_big {
                moves.push(position);
                assert(moves@[0]@ == b.do_move(25, big));
                assert(boards_of(moves@) =~= set![b.do_move(25, big)]);
                assert(reach(b, single(big)).contains(b.do_move(25, big)));
            } else if let Some(position) = enter_small {
                moves.push(position);
                assert(moves@[0]@ == b.do_move(25, small));
                assert(boards_of(moves@) =~= set![b.do_move(25, small)]);
                assert(reach(b, single(small)).contains(b.do_move(25, small)));
            } else {
                moves.push(*self);
                assert(moves@[0]@ == b);
                assert(boards_of(moves@) =~= set![b]);
            }
        }
        moves
    }

    /// The one play with two or more checkers on the bar: a checker enters
    /// with each die that lets one in.
    pub fn moves_with_2_checkers_on_bar(&self, dice: &RegularDice) -> (r: Vec<Self>)
        requires
            self.wf(),
            dice.valid(),
            self@.pips[25] >= 2,
        ensures
            lists_plays(*self, Dice::Regular(*dice), r@),
            r@.len() == 1,
    {
        let ghost b = self@;
        let ghost big = dice.big as int;
        let ghost small = dice.small as int;
        proof {
            lemma_mixed_results(b, dice.big, dice.small);
            lemma_reach_two(b, big, small);
            lemma_reach_two(b, small, big);
            lemma_bar_two(b, big, small);
            lemma_bar_two(b, small, big);
            lemma_reach_one(b, big);
            lemma_reach_one(b, small);
            lemma_bar_one(b, big);
            lemma_bar_one(b, small);
            self.lemma_cells();
            if b.can_move(25, big) {
                lemma_enter_twice(b, big, small);
                lemma_bar_one(b.do_move(25, big), small);
            }
            if b.can_move(25, small) {
                lemma_enter_twice(b, small, big);
                lemma_bar_one(b.do_move(25, small), big);
            }
        }
        let mut position = *self;
        if position.can_enter(dice.big) {
            position.enter_single_checker(dice.big);
        }
        if position.can_enter(dice.small) {
            position.enter_single_checker(dice.small);
        }
        let mut moves: Vec<Self> = Vec::new();
        moves.push(position);
        proof {
            assert(moves@[0]@ == position@);
            assert(boards_of(moves@) =~= set![position@]);
            if b.can_move(25, big) && b.can_move(25, small) {
                assert(reach_both(b, big, small).contains(position@));
                assert(reach_both(b, big, small) =~= set![position@]);
            } else if b.can_move(25, big) {
                assert(reach(b, single(big)).contains(position@));
                assert(reach_both(b, big, small) =~= Set::empty());
            } else if b.can_move(25, small) {
                assert(reach(b, single(small)).contains(position@));
                assert(reach_both(b, big, small) =~= Set::empty());
            } else {
                assert(reach_both(b, big, small) =~= Set::empty());
            }
        }
        moves
    }
}

} // verus!
