//! What every kind of game state offers: a board, the side on turn, and the
//! rules of the game.
use crate::board::Board;
use crate::codec::{counts, holds, is_key_of, run_start};
use crate::dice::Dice;
use crate::driver::flipped;
use crate::id::{base64_bytes, base64_text, key_of};
use crate::plays::legal_results;
use crate::position::Position;
use crate::state::{GamePhase, GameState};
use vstd::prelude::*;

verus! {

/// The board as the side on roll sees it.
pub open spec fn on_roll(b: Board, on_turn: bool) -> Board {
    if on_turn {
        b
    } else {
        b.flip()
    }
}

/// A state of a game of backgammon or of one of its variants.
pub trait State: Sized {
    /// The board of the state.
    spec fn board(&self) -> Board;

    /// Whose view the state is.
    spec fn on_turn(&self) -> bool;

    /// The number of checkers that each side starts with.
    spec fn checkers() -> int;

    /// The state is consistent: its board is, for this number of checkers.
    spec fn consistent(&self) -> bool;

    /// The number of the state fits the machine's numbers.
    spec fn has_number(&self) -> bool;

    fn num_checkers() -> (r: u8)
        ensures
            r == Self::checkers(),
    ;

    fn turn(&self) -> (r: bool)
        ensures
            r == self.on_turn(),
    ;

    fn x_bar(&self) -> (r: u8)
        requires
            self.consistent(),
        ensures
            r == self.board().pips[25],
    ;

    fn o_bar(&self) -> (r: u8)
        requires
            self.consistent(),
        ensures
            r == -self.board().pips[0],
    ;

    fn x_off(&self) -> (r: u8)
        ensures
            r == self.board().x_off,
    ;

    fn o_off(&self) -> (r: u8)
        ensures
            r == self.board().o_off,
    ;

    fn pip(&self, pip: usize) -> (r: i8)
        requires
            pip <= 25,
        ensures
            r == self.board().pips[pip as int],
    ;

    fn flip(&self) -> (r: Self)
        requires
            self.consistent(),
        ensures
            r.consistent(),
            r.board() == self.board().flip(),
            r.on_turn() == !self.on_turn(),
    ;

    fn possible_positions(&self, dice: &Dice) -> (r: Vec<Self>)
        requires
            self.consistent(),
            dice.valid(),
        ensures
            r@.len() >= 1,
            forall|i: int|
                0 <= i < r@.len() ==> (#[trigger] r@[i]).consistent() && r@[i].on_turn()
                    == !self.on_turn(),
            forall|i: int, j: int|
                0 <= i < j < r@.len() ==> (#[trigger] r@[i]).board() != (#[trigger] r@[j]).board(),
            forall|q: Board|
                flipped(legal_results(self.board(), *dice)).contains(q) <==> exists|i: int|
                    0 <= i < r@.len() && (#[trigger] r@[i]).board() == q,
    ;

    fn game_state(&self) -> (r: GameState)
        ensures
            r == self.board().game_state(Self::checkers()),
    ;

    fn phase(&self) -> (r: GamePhase)
        ensures
            r == self.board().phase(Self::checkers()),
    ;

    fn from_id(id: &str) -> (r: Option<Self>)
        requires
            Self::checkers() <= 127,
        ensures
            r matches Some(state) ==> state.consistent() && state.on_turn(),
            match base64_bytes(id@ + "=="@) {
                Some(bytes) => if bytes.len() == 10 {
                    match r {
                        Some(state) => holds(bytes, state.board()),
                        None => forall|b: Board| b.wf(Self::checkers()) ==> !holds(bytes, b),
                    }
                } else {
                    r is None
                },
                None => r is None,
            },
    ;

    fn position_id(&self) -> (id: String)
        requires
            self.consistent(),
            run_start(counts(on_roll(self.board(), self.on_turn())), 50) <= 81,
        ensures
            id@ == base64_text(key_of(on_roll(self.board(), self.on_turn()))).subrange(0, 14),
    ;

    fn decode(key: [u8; 10]) -> (r: Option<Self>)
        requires
            Self::checkers() <= 127,
        ensures
            match r {
                Some(state) => state.consistent() && state.on_turn() && holds(key@, state.board()),
                None => forall|b: Board| b.wf(Self::checkers()) ==> !holds(key@, b),
            },
    ;

    fn encode(&self) -> (key: [u8; 10])
        requires
            self.consistent(),
            run_start(counts(on_roll(self.board(), self.on_turn())), 50) <= 81,
        ensures
            is_key_of(key@, on_roll(self.board(), self.on_turn())),
    ;

    fn dbhash(&self) -> (r: usize)
        requires
            self.consistent(),
            self.has_number(),
        ensures
            r == self.board().dbhash(Self::checkers()),
    ;
}

impl<const N: u8> State for Position<N> {
    open spec fn board(&self) -> Board {
        self@
    }

    open spec fn on_turn(&self) -> bool {
        Position::on_turn(self)
    }

    open spec fn checkers() -> int {
        N as int
    }

    open spec fn consistent(&self) -> bool {
        self.wf()
    }

    open spec fn has_number(&self) -> bool {
        self.has_dbhash()
    }

    fn num_checkers() -> (r: u8) {
        N
    }

    fn turn(&self) -> (r: bool) {
        Position::turn(self)
    }

    fn x_bar(&self) -> (r: u8) {
        Position::x_bar(self)
    }

    fn o_bar(&self) -> (r: u8) {
        Position::o_bar(self)
    }

    fn x_off(&self) -> (r: u8) {
        Position::x_off(self)
    }

    fn o_off(&self) -> (r: u8) {
        Position::o_off(self)
    }

    fn pip(&self, pip: usize) -> (r: i8) {
        Position::pip(self, pip)
    }

    fn flip(&self) -> (r: Self) {
        Position::flip(self)
    }

    fn possible_positions(&self, dice: &Dice) -> (r: Vec<Self>) {
        let r = Position::possible_positions(self, dice);
        proof {
            let legal = flipped(legal_results(self@, *dice));
            assert forall|q: Board| legal.contains(q) <==> exists|i: int|
                0 <= i < r@.len() && (#[trigger] r@[i]).board() == q by {
                if legal.contains(q) {
                    assert(crate::generate::boards_of(r@).contains(q));
                    let i = choose|i: int| 0 <= i < r@.len() && (#[trigger] r@[i])@ == q;
                    assert(r@[i].board() == q);
                }
                if exists|i: int| 0 <= i < r@.len() && (#[trigger] r@[i]).board() == q {
                    let i = choose|i: int| 0 <= i < r@.len() && (#[trigger] r@[i]).board() == q;
                    assert(r@[i]@ == q);
                    assert(crate::generate::boards_of(r@).contains(q));
                }
            }
        }
        r
    }

    fn game_state(&self) -> (r: GameState) {
        Position::game_state(self)
    }

    fn phase(&self) -> (r: GamePhase) {
        Position::phase(self)
    }

    fn from_id(id: &str) -> (r: Option<Self>) {
        Position::from_id(id)
    }

    fn position_id(&self) -> (id: String) {
        Position::position_id(self)
    }

    fn decode(key: [u8; 10]) -> (r: Option<Self>) {
        Position::decode(key)
    }

    fn encode(&self) -> (key: [u8; 10]) {
        Position::encode(self)
    }

    fn dbhash(&self) -> (r: usize) {
        Position::dbhash(self)
    }
}

} // verus!
