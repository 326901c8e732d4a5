//! Backgammon: the game with 15 checkers per side.
use crate::board::Board;
use crate::position::Position;
use crate::state::GameState;
use crate::variants::{backgammon, backgammon_board};
use vstd::prelude::*;

verus! {

/// A state of a game of backgammon: a position with 15 checkers per side.
#[derive(Debug, Clone, Copy, PartialEq, Eq, Hash)]
pub struct Backgammon {
    position: Position<15>,
}

impl View for Backgammon {
    type V = Board;

    closed spec fn view(&self) -> Board {
        self.position@
    }
}

impl Backgammon {
    /// The state is consistent: its position is.
    pub closed spec fn wf(&self) -> bool {
        self.position.wf()
    }

    /// The position of the state.
    pub closed spec fn spec_position(&self) -> Position<15> {
        self.position
    }

    /// The state with the given cells and counts, taken as they are and
    /// with `x` on turn.
    pub fn from_macro(pips: [i8; 26], x_off: u8, o_off: u8) -> (r: Self)
        ensures
            r.spec_position()@ == Position::<15>::from_raw_spec(pips, x_off, o_off),
            r@ == r.spec_position()@,
    {
        Self::from_position(Position::from_raw(true, pips, x_off, o_off))
    }

    /// The state at the start of a game.
    pub fn new() -> (r: Self)
        ensures
            r.wf(),
            r.spec_position()@ == backgammon_board(),
            r@ == r.spec_position()@,
    {
        Self::from_position(backgammon())
    }

    pub fn from_position(position: Position<15>) -> (r: Self)
        ensures
            r.spec_position() == position,
            r@ == position@,
            r.wf() == position.wf(),
    {
        Self { position }
    }

    pub fn position(&self) -> (r: Position<15>)
        ensures
            r == self.spec_position(),
            r@ == self@,
            r.wf() == self.wf(),
    {
        self.position
    }

    pub fn x_bar(&self) -> (r: u8)
        requires
            self.wf(),
        ensures
            r == self@.pips[25],
    {
        self.position.x_bar()
    }

    pub fn o_bar(&self) -> (r: u8)
        requires
            self.wf(),
        ensures
            r == -self@.pips[0],
    {
        self.position.o_bar()
    }

    pub fn x_off(&self) -> (r: u8)
        ensures
            r == self@.x_off,
    {
        self.position.x_off()
    }

    pub fn o_off(&self) -> (r: u8)
        ensures
            r == self@.o_off,
    {
        self.position.o_off()
    }

    pub fn pip(&self, pip: usize) -> (r: i8)
        requires
            pip <= 25,
        ensures
            r == self@.pips[pip as int],
    {
        self.position.pip(pip)
    }

    /// The state seen from the other side.
    pub fn flip(&self) -> (r: Self)
        requires
            self.wf() || self.spec_position().can_flip(),
        ensures
            r@ == self@.flip(),
            self.wf() ==> r.wf(),
    {
        Self { position: self.position.flip() }
    }

    /// Whether the game is over, and how it ended for the side that the
    /// state is seen from.
    pub fn game_state(&self) -> (r: GameState)
        ensures
            r == self@.game_state(15),
    {
        self.position.game_state()
    }
}

} // verus!
