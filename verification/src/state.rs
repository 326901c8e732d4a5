//! Whether a game is over, with which result, and which phase a game that
//! goes on is in.
use crate::board::Board;
use crate::position::Position;
use vstd::prelude::*;

verus! {

/// The result of a game that is over, for the side that the position is seen
/// from.
#[derive(Clone, Copy, Debug, PartialEq, Eq, Hash, Structural)]
pub enum GameResult {
    WinNormal,
    WinGammon,
    WinBackgammon,
    LoseNormal,
    LoseGammon,
    LoseBackgammon,
}

#[derive(Clone, Copy, Debug, PartialEq, Eq, Hash, Structural)]
pub enum GameState {
    Ongoing,
    GameOver(GameResult),
}

#[derive(Clone, Copy, Debug, PartialEq, Eq, Hash, Structural)]
pub enum OngoingPhase {
    Contact,
    Race,
}

#[derive(Clone, Copy, Debug, PartialEq, Eq, Hash, Structural)]
pub enum GamePhase {
    Ongoing(OngoingPhase),
    GameOver(GameResult),
}

impl GameResult {
    /// The same result for the other side.
    pub open spec fn reversed(self) -> GameResult {
        match self {
            GameResult::WinNormal => GameResult::LoseNormal,
            GameResult::WinGammon => GameResult::LoseGammon,
            GameResult::WinBackgammon => GameResult::LoseBackgammon,
            GameResult::LoseNormal => GameResult::WinNormal,
            GameResult::LoseGammon => GameResult::WinGammon,
            GameResult::LoseBackgammon => GameResult::WinBackgammon,
        }
    }

    /// The points that the result is worth: 1, 2 or 3, negative for a loss.
    pub open spec fn points(self) -> int {
        match self {
            GameResult::WinNormal => 1,
            GameResult::WinGammon => 2,
            GameResult::WinBackgammon => 3,
            GameResult::LoseNormal => -1,
            GameResult::LoseGammon => -2,
            GameResult::LoseBackgammon => -3,
        }
    }

    /// The result as the other side sees it.
    pub fn reverse(&self) -> (r: Self)
        ensures
            r == self.reversed(),
    {
        match self {
            GameResult::WinNormal => GameResult::LoseNormal,
            GameResult::WinGammon => GameResult::LoseGammon,
            GameResult::WinBackgammon => GameResult::LoseBackgammon,
            GameResult::LoseNormal => GameResult::WinNormal,
            GameResult::LoseGammon => GameResult::WinGammon,
            GameResult::LoseBackgammon => GameResult::WinBackgammon,
        }
    }

    pub fn is_win(&self) -> (r: bool)
        ensures
            r == (self.points() > 0),
    {
        match self {
            GameResult::WinNormal | GameResult::WinGammon | GameResult::WinBackgammon => true,
            GameResult::LoseNormal | GameResult::LoseGammon | GameResult::LoseBackgammon => false,
        }
    }

    /// The points that the result is worth, from 1 to 3 and negative for a
    /// loss.
    pub fn value(&self) -> (r: i8)
        ensures
            r == self.points(),
    {
        match self {
            GameResult::WinNormal => 1,
            GameResult::WinGammon => 2,
            GameResult::WinBackgammon => 3,
            GameResult::LoseNormal => -1,
            GameResult::LoseGammon => -2,
            GameResult::LoseBackgammon => -3,
        }
    }

    /// Seen from the other side a result is worth the opposite, and seen
    /// from the other side twice it is itself.
    pub proof fn lemma_reversed(self)
        ensures
            self.reversed().reversed() == self,
            self.reversed().points() == -self.points(),
    {
    }
}

impl Board {
    /// A checker of `o` stands on an index from `lo` to `hi`.
    pub open spec fn o_within(self, lo: int, hi: int) -> bool {
        exists|i: int| lo <= i <= hi && self.pips[i] < 0
    }

    /// A checker of `x` stands on an index from `lo` to `hi`.
    pub open spec fn x_within(self, lo: int, hi: int) -> bool {
        exists|i: int| lo <= i <= hi && self.pips[i] > 0
    }

    /// The state of a game with `n` checkers per side. The side that has
    /// borne off all its checkers has won: a backgammon if the loser has
    /// borne off none and has a checker on the bar or in the winner's home
    /// board, a gammon if the loser has borne off none, else a normal game.
    pub open spec fn game_state(self, n: int) -> GameState {
        if self.x_off == n {
            if self.o_off > 0 {
                GameState::GameOver(GameResult::WinNormal)
            } else if self.o_within(0, 6) {
                GameState::GameOver(GameResult::WinBackgammon)
            } else {
                GameState::GameOver(GameResult::WinGammon)
            }
        } else if self.o_off == n {
            if self.x_off > 0 {
                GameState::GameOver(GameResult::LoseNormal)
            } else if self.x_within(19, 25) {
                GameState::GameOver(GameResult::LoseBackgammon)
            } else {
                GameState::GameOver(GameResult::LoseGammon)
            }
        } else {
            GameState::Ongoing
        }
    }

    /// The lowest index from `from` on that holds a checker of `o`, or 26 if
    /// there is none.
    pub open spec fn low_o(self, from: int) -> int
        decreases 26 - from,
    {
        if from > 25 {
            26
        } else if self.pips[from] < 0 {
            from
        } else {
            self.low_o(from + 1)
        }
    }

    /// The phase of a game with `n` checkers per side. A game that goes on
    /// is a race once every checker of `x` stands below every checker of `o`,
    /// the bars counted: the two sides cannot meet any more.
    pub open spec fn phase(self, n: int) -> GamePhase {
        match self.game_state(n) {
            GameState::GameOver(result) => GamePhase::GameOver(result),
            GameState::Ongoing => if self.top_x(25) > self.low_o(0) {
                GamePhase::Ongoing(OngoingPhase::Contact)
            } else {
                GamePhase::Ongoing(OngoingPhase::Race)
            },
        }
    }
}

impl<const N: u8> Position<N> {
    /// Whether a checker of `o` stands on an index from `lo` to `hi`.
    pub fn o_within(&self, lo: usize, hi: usize) -> (r: bool)
        requires
            hi <= 25,
        ensures
            r == self@.o_within(lo as int, hi as int),
    {
        let mut i: usize = lo;
        while i <= hi
            invariant
                hi <= 25,
                lo <= i,
                forall|j: int| lo <= j < i ==> self@.pips[j] >= 0,
            decreases 26 - i,
        {
            if self.pip(i) < 0 {
                return true;
            }
            i += 1;
        }
        false
    }

    /// Whether a checker of `x` stands on an index from `lo` to `hi`.
    pub fn x_within(&self, lo: usize, hi: usize) -> (r: bool)
        requires
            hi <= 25,
        ensures
            r == self@.x_within(lo as int, hi as int),
    {
        let mut i: usize = lo;
        while i <= hi
            invariant
                hi <= 25,
                lo <= i,
                forall|j: int| lo <= j < i ==> self@.pips[j] <= 0,
            decreases 26 - i,
        {
            if self.pip(i) > 0 {
                return true;
            }
            i += 1;
        }
        false
    }

    /// Whether the game is over, and how it ended for the side that the
    /// position is seen from.
    pub fn game_state(&self) -> (r: GameState)
        ensures
            r == self@.game_state(N as int),
    {
        if self.x_off() == N {
            if self.o_off() > 0 {
                GameState::GameOver(GameResult::WinNormal)
            } else if self.o_within(0, 6) {
                GameState::GameOver(GameResult::WinBackgammon)
            } else {
                GameState::GameOver(GameResult::WinGammon)
            }
        } else if self.o_off() == N {
            if self.x_off() > 0 {
                GameState::GameOver(GameResult::LoseNormal)
            } else if self.x_within(19, 25) {
                GameState::GameOver(GameResult::LoseBackgammon)
            } else {
                GameState::GameOver(GameResult::LoseGammon)
            }
        } else {
            GameState::Ongoing
        }
    }

    /// The highest index that holds a checker of `x`, if there is one.
    pub fn last_x(&self) -> (r: Option<usize>)
        ensures
            match r {
                Some(i) => i == self@.top_x(25) && i <= 25,
                None => self@.top_x(25) == -1,
            },
    {
        let mut i: usize = 26;
        while i > 0
            invariant
                i <= 26,
                self@.top_x(25) == self@.top_x(i - 1),
            decreases i,
        {
            i -= 1;
            if self.pip(i) > 0 {
                return Some(i);
            }
        }
        None
    }

    /// The lowest index that holds a checker of `o`, if there is one.
    pub fn first_o(&self) -> (r: Option<usize>)
        ensures
            match r {
                Some(i) => i == self@.low_o(0) && i <= 25,
                None => self@.low_o(0) == 26,
            },
    {
        let mut i: usize = 0;
        while i < 26
            invariant
                i <= 26,
                self@.low_o(0) == self@.low_o(i as int),
            decreases 26 - i,
        {
            if self.pip(i) < 0 {
                return Some(i);
            }
            i += 1;
        }
        None
    }

    /// Like `game_state`, and for a game that goes on also whether the two
    /// sides can still meet.
    pub fn phase(&self) -> (r: GamePhase)
        ensures
            r == self@.phase(N as int),
    {
        match self.game_state() {
            GameState::GameOver(result) => GamePhase::GameOver(result),
            GameState::Ongoing => {
                let last_own_checker = self.last_x();
                let last_opponent_checker = self.first_o();
                match (last_own_checker, last_opponent_checker) {
                    (Some(own), Some(opponent)) => {
                        if own > opponent {
                            GamePhase::Ongoing(OngoingPhase::Contact)
                        } else {
                            GamePhase::Ongoing(OngoingPhase::Race)
                        }
                    },
                    (Some(_), None) => GamePhase::Ongoing(OngoingPhase::Race),
                    (None, _) => {
                        proof {
                            lemma_low_o(self@, 0);
                        }
                        GamePhase::Ongoing(OngoingPhase::Race)
                    },
                }
            },
        }
    }
}

/// `low_o` is an index from `from` on, or 26.
pub proof fn lemma_low_o(b: Board, from: int)
    requires
        0 <= from,
    ensures
        from <= b.low_o(from) || b.low_o(from) == 26,
        b.low_o(from) <= 26,
        b.low_o(from) >= 0,
    decreases 26 - from,
{
    if from <= 25 && b.pips[from] >= 0 {
        lemma_low_o(b, from + 1);
    }
}

} // verus!
