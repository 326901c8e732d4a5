//! All legal plays of a double: as many moves with the one die as can be
//! played, four at most.
use crate::board::Board;
use crate::dice::Dice;
use crate::generate::{all_wf, boards_of, distinct, lemma_boards_inhabited, moves_in};
use crate::mixed::lists_plays;
use crate::plays::{
    inhabited, lemma_double_results, lemma_reach_none, lemma_reach_push, reach, rep, step_results,
};
use crate::position::Position;
use vstd::prelude::*;

verus! {

/// The boards one legal move with `die` away from one of the first `upto`
/// positions of `v`.
pub open spec fn moves_of_first<const N: u8>(v: Seq<Position<N>>, upto: int, die: int) -> Set<
    Board,
> {
    Set::new(
        |q: Board|
            exists|i: int, from: int|
                0 <= i < upto && #[trigger] v[i]@.can_move(from, die) && v[i]@.do_move(from, die)
                    == q,
    )
}

/// The moves from all positions of a list are the moves from its boards.
pub proof fn lemma_moves_of_all<const N: u8>(v: Seq<Position<N>>, die: int)
    ensures
        moves_of_first(v, v.len() as int, die) =~= step_results(boards_of(v), die),
{
    let all = moves_of_first(v, v.len() as int, die);
    let steps = step_results(boards_of(v), die);
    assert forall|q: Board| all.contains(q) implies steps.contains(q) by {
        let (i, from) = choose|i: int, from: int|
            0 <= i < v.len() && #[trigger] v[i]@.can_move(from, die) && v[i]@.do_move(from, die)
                == q;
        assert(boards_of(v).contains(v[i]@));
    }
    assert forall|q: Board| steps.contains(q) implies all.contains(q) by {
        let (p, from) = choose|p: Board, from: int|
            boards_of(v).contains(p) && #[trigger] p.can_move(from, die) && p.do_move(from, die)
                == q;
        let i = choose|i: int| 0 <= i < v.len() && (#[trigger] v[i])@ == p;
        assert(v[i]@.can_move(from, die));
    }
}

/// One more position adds its moves.
pub proof fn lemma_moves_of_next<const N: u8>(v: Seq<Position<N>>, upto: int, die: int)
    requires
        0 <= upto < v.len(),
    ensures
        moves_of_first(v, upto + 1, die) =~= moves_of_first(v, upto, die).union(
            moves_in(v[upto]@, die, 1, 25),
        ),
{
    let wide = moves_of_first(v, upto + 1, die);
    let narrow = moves_of_first(v, upto, die);
    let add = moves_in(v[upto]@, die, 1, 25);
    assert forall|q: Board| wide.contains(q) implies narrow.union(add).contains(q) by {
        let (i, from) = choose|i: int, from: int|
            0 <= i < upto + 1 && #[trigger] v[i]@.can_move(from, die) && v[i]@.do_move(from, die)
                == q;
        if i == upto {
            assert(add.contains(q));
        } else {
            assert(narrow.contains(q));
        }
    }
    assert forall|q: Board| narrow.union(add).contains(q) implies wide.contains(q) by {
        if narrow.contains(q) {
            let (i, from) = choose|i: int, from: int|
                0 <= i < upto && #[trigger] v[i]@.can_move(from, die) && v[i]@.do_move(from, die)
                    == q;
            assert(0 <= i < upto + 1);
        } else {
            let from = choose|from: int|
                1 <= from <= 25 && #[trigger] v[upto]@.can_move(from, die) && v[upto]@.do_move(
                    from,
                    die,
                ) == q;
        }
    }
}

impl<const N: u8> Position<N> {
    /// Every position one legal move with `die` away from a position of
    /// `from`, each board once, in the order in which they are found.
    pub fn one_more_move(&self, from: &Vec<Self>, die: usize) -> (next: Vec<Self>)
        requires
            1 <= die <= 6,
            all_wf(from@, self.on_turn()),
        ensures
            distinct(next@),
            all_wf(next@, self.on_turn()),
            boards_of(next@) == step_results(boards_of(from@), die as int),
    {
        let mut next: Vec<Self> = Vec::new();
        let mut i: usize = 0;
        assert(boards_of(next@) =~= Set::empty());
        assert(moves_of_first(from@, 0, die as int) =~= Set::empty());
        while i < from.len()
            invariant
                i <= from.len(),
                1 <= die <= 6,
                all_wf(from@, self.on_turn()),
                distinct(next@),
                all_wf(next@, self.on_turn()),
                boards_of(next@) =~= moves_of_first(from@, i as int, die as int),
            decreases from.len() - i,
        {
            proof {
                lemma_moves_of_next(from@, i as int, die as int);
                assert(from@[i as int].wf());
            }
            from[i].push_moves(die, 1, 25, false, &mut next);
            i += 1;
        }
        proof {
            lemma_moves_of_all(from@, die as int);
        }
        next
    }

    /// The positions after a legal play of a double of `die`, not yet seen
    /// from the other side: the positions after one move, then after one
    /// more, until none is possible or four have been played.
    pub fn all_positions_after_double_move(&self, die: usize) -> (r: Vec<Self>)
        requires
            self.wf(),
            1 <= die <= 6,
        ensures
            lists_plays(*self, Dice::Double(die), r@),
    {
        let ghost b = self@;
        let ghost d = die as int;
        let mut current: Vec<Self> = Vec::new();
        current.push(*self);
        proof {
            lemma_reach_none(b);
            assert(rep(d, 0) =~= Seq::<int>::empty());
            assert(current@[0]@ == b);
            assert(boards_of(current@) =~= set![b]);
        }
        let mut depth: usize = 0;
        while depth < 4
            invariant
                self@ == b,
                d == die,
                1 <= die <= 6,
                depth <= 4,
                current@.len() >= 1,
                distinct(current@),
                all_wf(current@, self.on_turn()),
                boards_of(current@) == reach(b, rep(d, depth as int)),
            ensures
                depth < 4 ==> !inhabited(reach(b, rep(d, depth + 1))),
            decreases 4 - depth,
        {
            let next = self.one_more_move(&current, die);
            proof {
                lemma_reach_push(b, rep(d, depth as int), d);
                assert(rep(d, depth as int).push(d) =~= rep(d, depth + 1));
                lemma_boards_inhabited(next@);
            }
            if next.len() == 0 {
                break ;
            }
            current = next;
            depth += 1;
        }
        proof {
            lemma_boards_inhabited(current@);
            lemma_double_results(b, die, depth as int);
        }
        current
    }
}

} // verus!
