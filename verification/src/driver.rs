//! The positions that a roll leads to, handed to the side that moves next.
use crate::board::{lemma_flip_flip, Board};
use crate::dice::Dice;
use crate::generate::{all_wf, boards_of, distinct};
use crate::mixed::lists_plays;
use crate::plays::legal_results;
use crate::position::Position;
use vstd::prelude::*;

verus! {

/// The boards of `s`, each seen from the other side.
pub open spec fn flipped(s: Set<Board>) -> Set<Board> {
    Set::new(|q: Board| exists|p: Board| s.contains(p) && #[trigger] p.flip() == q)
}

/// `r` lists what `dice` can lead to from `p`: each board that the rules let
/// the side on roll reach stands in it once, seen from the other side, which
/// moves next. Where nothing can move that is the board of `p`, flipped.
pub open spec fn lists_possible_positions<const N: u8>(
    p: Position<N>,
    dice: Dice,
    r: Seq<Position<N>>,
) -> bool {
    &&& r.len() >= 1
    &&& distinct(r)
    &&& all_wf(r, !p.on_turn())
    &&& boards_of(r) == flipped(legal_results(p@, dice))
}

impl<const N: u8> Position<N> {
    /// All positions that a legal play of `dice` leads to, each once. They
    /// are seen from the side of the player who moves next.
    pub fn possible_positions(&self, dice: &Dice) -> (r: Vec<Self>)
        requires
            self.wf(),
            dice.valid(),
        ensures
            lists_possible_positions(*self, *dice, r@),
    {
        let mut new_positions = match dice {
            Dice::Double(die) => self.all_positions_after_double_move(*die),
            Dice::Regular(dice) => self.all_positions_after_mixed_move(dice),
        };
        let ghost plain = new_positions@;
        let mut i: usize = 0;
        while i < new_positions.len()
            invariant
                i <= new_positions.len(),
                new_positions@.len() == plain.len(),
                lists_plays(*self, *dice, plain),
                forall|j: int|
                    0 <= j < i ==> (#[trigger] new_positions@[j])@ == plain[j]@.flip()
                        && new_positions@[j].wf() && new_positions@[j].on_turn()
                        == !self.on_turn(),
                forall|j: int| i <= j < plain.len() ==> #[trigger] new_positions@[j] == plain[j],
            decreases new_positions.len() - i,
        {
            assert(plain[i as int].wf());
            let position = new_positions[i].flip();
            new_positions.set(i, position);
            i += 1;
        }
        proof {
            let r = new_positions@;
            let legal = legal_results(self@, *dice);
            assert forall|j: int, k: int| 0 <= j < k < r.len() implies (#[trigger] r[j])@ != (
            #[trigger] r[k])@ by {
                plain[j].lemma_cells();
                plain[k].lemma_cells();
                lemma_flip_flip(plain[j]@);
                lemma_flip_flip(plain[k]@);
                assert(plain[j]@ != plain[k]@);
            }
            assert forall|q: Board| boards_of(r).contains(q) implies flipped(legal).contains(q) by {
                let j = choose|j: int| 0 <= j < r.len() && (#[trigger] r[j])@ == q;
                assert(boards_of(plain).contains(plain[j]@));
                assert(plain[j]@.flip() == q);
            }
            assert forall|q: Board| flipped(legal).contains(q) implies boards_of(r).contains(q) by {
                let p = choose|p: Board| legal.contains(p) && #[trigger] p.flip() == q;
                let j = choose|j: int| 0 <= j < plain.len() && (#[trigger] plain[j])@ == p;
                assert(r[j]@ == q);
            }
            assert(boards_of(r) =~= flipped(legal));
        }
        new_positions
    }
}

} // verus!
