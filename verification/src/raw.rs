//! Positions from and to the plain array of their 26 cells.
use crate::board::{lemma_count_nonneg, o_count, x_count, Board};
use crate::position::Position;
use vstd::prelude::*;

verus! {

/// The cells as the entries of a board.
pub open spec fn cells(pips: [i8; 26]) -> Seq<int> {
    Seq::new(26, |i: int| pips[i] as int)
}

/// Why an array of cells is no position.
pub open spec fn raw_fault(pips: [i8; 26], n: int) -> Option<Seq<char>> {
    if x_count(cells(pips), 26) > n {
        Some("Player x has more than 15 checkers on the board."@)
    } else if o_count(cells(pips), 26) > n {
        Some("Player o has more than 15 checkers on the board."@)
    } else if pips[25] < 0 {
        Some("Index 25 is the bar for player x, number of checkers needs to be positive."@)
    } else if pips[0] > 0 {
        Some("Index 0 is the bar for player o, number of checkers needs to be negative."@)
    } else {
        None
    }
}

/// `r` is what the cells stand for in a game with `N` checkers per side: the
/// position with these cells and `x` on turn, in which each side has borne
/// off the checkers that are not on the board; or, if the cells are at fault,
/// the fault.
pub open spec fn is_position_of_cells<const N: u8>(
    pips: [i8; 26],
    r: Result<Position<N>, &'static str>,
) -> bool {
    match r {
        Ok(p) => raw_fault(pips, N as int) is None && p@.wf(N as int) && p.on_turn() && p@ == (
        Board {
            pips: cells(pips),
            x_off: N - x_count(cells(pips), 26),
            o_off: N - o_count(cells(pips), 26),
        }),
        Err(e) => raw_fault(pips, N as int) == Some(e@),
    }
}

impl<const N: u8> TryFrom<[i8; 26]> for Position<N> {
    type Error = &'static str;

    /// The position with the given cells; see `Position::try_from`.
    fn try_from(pips: [i8; 26]) -> (r: Result<Self, &'static str>) {
        Position::<N>::try_from(pips)
    }
}

impl<const N: u8> vstd::std_specs::convert::TryFromSpecImpl<[i8; 26]> for Position<N> {
    open spec fn obeys_try_from_spec() -> bool {
        true
    }

    open spec fn try_from_spec(pips: [i8; 26]) -> Result<Self, &'static str> {
        Self::spec_try_from(pips)
    }
}

impl<const N: u8> From<Position<N>> for [i8; 26] {
    /// The 26 cells of the position.
    fn from(value: Position<N>) -> (r: [i8; 26]) {
        value.pips()
    }
}

impl<const N: u8> vstd::std_specs::convert::FromSpecImpl<Position<N>> for [i8; 26] {
    open spec fn obeys_from_spec() -> bool {
        true
    }

    open spec fn from_spec(value: Position<N>) -> [i8; 26] {
        value.spec_pips()
    }
}

impl<const N: u8> Position<N> {
    /// The position with the given cells, with `x` on turn. Positive numbers
    /// are checkers of `x`, negative ones checkers of `o`; index 25 is the
    /// bar of `x`, index 0 the bar of `o`. The checkers that are not on the
    /// board have been borne off. An array with more than `N` checkers of
    /// one side, or with a checker on the other side's bar, is refused.
    pub fn try_from(pips: [i8; 26]) -> (r: Result<Self, &'static str>)
        ensures
            is_position_of_cells(pips, r),
            r == Self::spec_try_from(pips),
    {
        let ghost c = cells(pips);
        let mut x_on: u32 = 0;
        let mut o_on: u32 = 0;
        let mut i: usize = 0;
        while i < 26
            invariant
                i <= 26,
                c == cells(pips),
                x_on == x_count(c, i as int),
                o_on == o_count(c, i as int),
                x_on <= 128 * i,
                o_on <= 128 * i,
            decreases 26 - i,
        {
            let v = pips[i];
            assert(c[i as int] == v);
            if v > 0 {
                x_on += v as u32;
            } else if v < 0 {
                o_on += (-(v as i32)) as u32;
            }
            i += 1;
        }
        proof {
            lemma_count_nonneg(c, 26);
        }
        if x_on > N as u32 {
            Err("Player x has more than 15 checkers on the board.")
        } else if o_on > N as u32 {
            Err("Player o has more than 15 checkers on the board.")
        } else if pips[25] < 0 {
            Err("Index 25 is the bar for player x, number of checkers needs to be positive.")
        } else if pips[0] > 0 {
            Err("Index 0 is the bar for player o, number of checkers needs to be negative.")
        } else {
            let p = Position {
                turn: true,
                pips,
                x_off: N - x_on as u8,
                o_off: N - o_on as u8,
            };
            proof {
                p.lemma_view();
                assert(p@.pips =~= c);
            }
            Ok(p)
        }
    }

    /// The position with the given cells, `x` on turn and what is not on the
    /// board borne off.
    pub closed spec fn spec_of_cells(pips: [i8; 26]) -> Self {
        Position {
            turn: true,
            pips,
            x_off: (N - x_count(cells(pips), 26)) as u8,
            o_off: (N - o_count(cells(pips), 26)) as u8,
        }
    }

    /// What the cells stand for: the position, or the fault.
    pub closed spec fn spec_try_from(pips: [i8; 26]) -> Result<Self, &'static str> {
        if x_count(cells(pips), 26) > N {
            Err("Player x has more than 15 checkers on the board.")
        } else if o_count(cells(pips), 26) > N {
            Err("Player o has more than 15 checkers on the board.")
        } else if pips[25] < 0 {
            Err("Index 25 is the bar for player x, number of checkers needs to be positive.")
        } else if pips[0] > 0 {
            Err("Index 0 is the bar for player o, number of checkers needs to be negative.")
        } else {
            Ok(Self::spec_of_cells(pips))
        }
    }

    /// `spec_try_from` is what `try_from` gives.
    pub proof fn lemma_try_from_spec(pips: [i8; 26])
        ensures
            is_position_of_cells(pips, Self::spec_try_from(pips)),
    {
        lemma_count_nonneg(cells(pips), 26);
        if raw_fault(pips, N as int) is None {
            let p = Self::spec_of_cells(pips);
            p.lemma_view();
            assert(p@.pips =~= cells(pips));
        }
    }

    /// Whether the position is consistent: both sides have their `N`
    /// checkers, `N` is 127 at most, and no checker is on the other side's
    /// bar. A position made by `from_raw` need not be.
    pub fn is_consistent(&self) -> (r: bool)
        ensures
            r == self.wf(),
    {
        if N > 127 {
            return false;
        }
        let pips = self.pips();
        match Self::try_from(pips) {
            Ok(p) => {
                proof {
                    lemma_count_nonneg(self@.pips, 26);
                }
                p.x_off() == self.x_off() && p.o_off() == self.o_off()
            },
            Err(_) => {
                proof {
                    lemma_count_nonneg(self@.pips, 26);
                    assert(pips[25] == self@.pips[25]) by {
                        assert(cells(pips)[25] == pips[25]);
                    }
                    assert(pips[0] == self@.pips[0]) by {
                        assert(cells(pips)[0] == pips[0]);
                    }
                }
                false
            },
        }
    }

    /// The 26 cells of the position.
    pub closed spec fn spec_pips(&self) -> [i8; 26] {
        self.pips
    }

    /// The cells are the entries of the board.
    pub proof fn lemma_pips(&self)
        ensures
            cells(self.spec_pips()) == self@.pips,
    {
        self.lemma_view();
        assert(cells(self.pips) =~= self@.pips);
    }

    /// The 26 cells of the position.
    pub fn pips(&self) -> (r: [i8; 26])
        ensures
            r == self.spec_pips(),
            cells(r) == self@.pips,
    {
        proof {
            self.lemma_pips();
        }
        self.pips
    }
}

} // verus!
