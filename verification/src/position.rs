//! The executable position: per-point checker counts, both bars, the checkers
//! borne off, and whose turn it is.
use crate::board::{
    lemma_count_bounds, lemma_count_nonneg, lemma_flip_keeps_wf, Board, O_BAR, X_BAR,
};
use vstd::prelude::*;

verus! {

/// A position for a game with `N` checkers per side.
///
/// Equality compares the board only: two positions that differ in nothing but
/// the side on move are equal.
#[derive(Clone, Copy, Debug, Eq)]
pub struct Position<const N: u8> {
    pub(crate) turn: bool,
    pub(crate) pips: [i8; 26],
    pub(crate) x_off: u8,
    pub(crate) o_off: u8,
}

impl<const N: u8> View for Position<N> {
    type V = Board;

    closed spec fn view(&self) -> Board {
        Board {
            pips: Seq::new(26, |i: int| self.pips[i] as int),
            x_off: self.x_off as int,
            o_off: self.o_off as int,
        }
    }
}

impl<const N: u8> PartialEq for Position<N> {
    fn eq(&self, other: &Self) -> (r: bool) {
        let mut i: usize = 0;
        while i < 26
            invariant
                i <= 26,
                forall|j: int| 0 <= j < i ==> self.pips[j] == other.pips[j],
            decreases 26 - i,
        {
            if self.pips[i] != other.pips[i] {
                assert(self@.pips[i as int] != other@.pips[i as int]);
                return false;
            }
            i += 1;
        }
        assert(self@.pips =~= other@.pips);
        self.x_off == other.x_off && self.o_off == other.o_off
    }
}

/// `Hash::hash` of std for a byte feeds the byte to the hasher. Nothing is
/// claimed of what the hasher makes of it.
pub assume_specification<H: std::hash::Hasher>[ <u8 as std::hash::Hash>::hash ](
    value: &u8,
    state: &mut H,
);

/// `Hash::hash` of std for an array feeds its items to the hasher. Nothing is
/// claimed of what the hasher makes of them.
pub assume_specification<T: std::hash::Hash, const M: usize, H: std::hash::Hasher>[ <[T; M] as std::hash::Hash>::hash ](
    value: &[T; M],
    state: &mut H,
);

impl<const N: u8> std::hash::Hash for Position<N> {
    /// Hashes the board only, as equality compares the board only.
    fn hash<H: std::hash::Hasher>(&self, state: &mut H) {
        self.pips.hash(state);
        self.x_off.hash(state);
        self.o_off.hash(state);
    }
}

impl<const N: u8> vstd::std_specs::cmp::PartialEqSpecImpl for Position<N> {
    open spec fn obeys_eq_spec() -> bool {
        true
    }

    open spec fn eq_spec(&self, other: &Self) -> bool {
        self@ == other@
    }
}

impl<const N: u8> Position<N> {
    /// The position is consistent (see `Board::wf`) and its counts fit the
    /// cells that hold them.
    pub open spec fn wf(&self) -> bool {
        &&& N <= 127
        &&& self@.wf(N as int)
    }

    /// Every cell has a negative that fits a cell. It holds of every
    /// consistent position.
    pub open spec fn can_flip(&self) -> bool {
        forall|i: int| 0 <= i < 26 ==> #[trigger] self@.pips[i] > -128
    }

    /// Whose view the position is: `true` for the side that the board is
    /// drawn for.
    pub closed spec fn on_turn(&self) -> bool {
        self.turn
    }

    /// In a consistent position every cell is the model's entry, and no cell
    /// holds more than `N` checkers.
    pub proof fn lemma_cells(&self)
        requires
            self.wf(),
        ensures
            self@.pips.len() == 26,
            forall|i: int| 0 <= i < 26 ==> -N <= #[trigger] self@.pips[i] <= N,
            0 <= self@.x_off <= N,
            0 <= self@.o_off <= N,
    {
        lemma_count_nonneg(self@.pips, 26);
        assert forall|i: int| 0 <= i < 26 implies -N <= #[trigger] self@.pips[i] <= N by {
            lemma_count_bounds(self@.pips, 26, i);
        }
    }

    /// The same facts, stated of the cells themselves.
    pub(crate) proof fn lemma_raw(&self)
        requires
            self.wf(),
        ensures
            forall|i: int|
                0 <= i < 26 ==> -N <= #[trigger] self.pips[i] <= N && self@.pips[i]
                    == self.pips[i],
            self.x_off <= N,
            self.o_off <= N,
    {
        self.lemma_cells();
        assert forall|i: int| 0 <= i < 26 implies -N <= #[trigger] self.pips[i] <= N
            && self@.pips[i] == self.pips[i] by {
            assert(self@.pips[i] == self.pips[i]);
        }
    }

    /// What the model holds, stated of the cells, for any position.
    pub(crate) proof fn lemma_view(&self)
        ensures
            self@.pips.len() == 26,
            forall|i: int| 0 <= i < 26 ==> #[trigger] self@.pips[i] == self.pips[i],
            forall|i: int| 0 <= i < 26 ==> self@.pips[i] == #[trigger] self.pips[i],
            self@.x_off == self.x_off,
            self@.o_off == self.o_off,
            self.on_turn() == self.turn,
    {
    }

    /// The board with the given cells and counts.
    pub open spec fn from_raw_spec(pips: [i8; 26], x_off: u8, o_off: u8) -> Board {
        Board {
            pips: Seq::new(26, |i: int| pips[i] as int),
            x_off: x_off as int,
            o_off: o_off as int,
        }
    }

    /// The position with the given cells and counts, which are taken as
    /// they are: the position is consistent only if they are.
    pub fn from_raw(turn: bool, pips: [i8; 26], x_off: u8, o_off: u8) -> (r: Self)
        ensures
            r@ == Self::from_raw_spec(pips, x_off, o_off),
            r.on_turn() == turn,
    {
        Position { turn, pips, x_off, o_off }
    }

    pub fn turn(&self) -> (r: bool)
        ensures
            r == self.on_turn(),
    {
        self.turn
    }

    pub fn x_off(&self) -> (r: u8)
        ensures
            r == self@.x_off,
    {
        self.x_off
    }

    pub fn o_off(&self) -> (r: u8)
        ensures
            r == self@.o_off,
    {
        self.o_off
    }

    /// Number of checkers of `x` on the bar.
    pub fn x_bar(&self) -> (r: u8)
        requires
            self.wf(),
        ensures
            r == self@.pips[25],
    {
        proof {
            self.lemma_cells();
        }
        self.pips[X_BAR] as u8
    }

    /// Number of checkers of `o` on the bar, as a count that is not negative.
    pub fn o_bar(&self) -> (r: u8)
        requires
            self.wf(),
        ensures
            r == -self@.pips[0],
    {
        proof {
            self.lemma_cells();
        }
        (-self.pips[O_BAR]) as u8
    }

    /// Positive for checkers of `x`, negative for checkers of `o`.
    pub fn pip(&self, pip: usize) -> (r: i8)
        requires
            pip <= 25,
        ensures
            r == self@.pips[pip as int],
    {
        self.pips[pip]
    }

    /// The position seen from the other side: the points in reverse order,
    /// the colours exchanged, the other side on move.
    pub fn flip(&self) -> (r: Self)
        requires
            self.wf() || self.can_flip(),
        ensures
            r@ == self@.flip(),
            r.on_turn() == !self.on_turn(),
            self.wf() ==> r.wf(),
    {
        proof {
            self.lemma_view();
            if self.wf() {
                self.lemma_raw();
            }
        }
        let mut pips = [0i8; 26];
        let mut i: usize = 0;
        while i < 26
            invariant
                i <= 26,
                forall|j: int| 0 <= j < 26 ==> -127 <= #[trigger] self.pips[j],
                forall|j: int| 0 <= j < i ==> pips[25 - j] == -self.pips[j],
            decreases 26 - i,
        {
            pips[25 - i] = -self.pips[i];
            i += 1;
        }
        let r = Position { turn: !self.turn, pips, x_off: self.o_off, o_off: self.x_off };
        proof {
            assert forall|k: int| 0 <= k < 26 implies r@.pips[k] == self@.flip().pips[k] by {
                assert(pips[25 - (25 - k)] == -self.pips[25 - k]);
            }
            assert(r@.pips =~= self@.flip().pips);
            if self.wf() {
                lemma_flip_keeps_wf(self@, N as int);
            }
        }
        r
    }
}

} // verus!
