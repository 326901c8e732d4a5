//! The starting positions of backgammon and of some of its variants.
use crate::board::{o_count, x_count, Board};
use crate::position::Position;
use crate::raw::cells;
use vstd::prelude::*;

verus! {

/// The board of a game that starts with the given cells: nothing borne off.
pub open spec fn starting_board(pips: Seq<int>) -> Board {
    Board { pips, x_off: 0, o_off: 0 }
}

/// The position that a game with `N` checkers per side starts from.
fn start<const N: u8>(pips: [i8; 26]) -> (r: Position<N>)
    requires
        N <= 127,
        x_count(cells(pips), 26) == N,
        o_count(cells(pips), 26) == N,
        pips[25] == 0,
        pips[0] == 0,
    ensures
        r@ == starting_board(cells(pips)),
        r.wf(),
        r.on_turn(),
{
    let r = Position { turn: true, pips, x_off: 0, o_off: 0 };
    proof {
        r.lemma_view();
        assert(r@.pips =~= cells(pips));
    }
    r
}

/// The board that backgammon starts from.
pub open spec fn backgammon_board() -> Board {
    starting_board(seq![0int, -2, 0, 0, 0, 0, 5, 0, 3, 0, 0, 0, -5, 5, 0, 0, 0, -3, 0, -5, 0, 0, 0, 0, 2, 0])
}

/// The starting position of backgammon.
pub fn backgammon() -> (r: Position<15>)
    ensures
        r@ == backgammon_board(),
        r.wf(),
        r.on_turn(),
{
    let pips: [i8; 26] = [0, -2, 0, 0, 0, 0, 5, 0, 3, 0, 0, 0, -5, 5, 0, 0, 0, -3, 0, -5, 0, 0, 0, 0, 2, 0];
    proof {
        reveal_with_fuel(x_count, 27);
        reveal_with_fuel(o_count, 27);
    }
    assert(cells(pips) =~= seq![0int, -2, 0, 0, 0, 0, 5, 0, 3, 0, 0, 0, -5, 5, 0, 0, 0, -3, 0, -5, 0, 0, 0, 0, 2, 0]);
    start(pips)
}

/// The starting position of nackgammon.
pub fn nackgammon() -> (r: Position<15>)
    ensures
        r@ == starting_board(seq![0int, -2, -2, 0, 0, 0, 4, 0, 3, 0, 0, 0, -4, 4, 0, 0, 0, -3, 0, -4, 0, 0, 0, 2, 2, 0]),
        r.wf(),
        r.on_turn(),
{
    let pips: [i8; 26] = [0, -2, -2, 0, 0, 0, 4, 0, 3, 0, 0, 0, -4, 4, 0, 0, 0, -3, 0, -4, 0, 0, 0, 2, 2, 0];
    proof {
        reveal_with_fuel(x_count, 27);
        reveal_with_fuel(o_count, 27);
    }
    assert(cells(pips) =~= seq![0int, -2, -2, 0, 0, 0, 4, 0, 3, 0, 0, 0, -4, 4, 0, 0, 0, -3, 0, -4, 0, 0, 0, 2, 2, 0]);
    start(pips)
}

/// The board that hypergammon starts from.
pub open spec fn hypergammon_board() -> Board {
    starting_board(seq![0int, -1, -1, -1, 0, 0, 0, 0, 0, 0, 0, 0, 0, 0, 0, 0, 0, 0, 0, 0, 0, 0, 1, 1, 1, 0])
}

/// The starting position of hypergammon, with three checkers per side.
pub fn hypergammon() -> (r: Position<3>)
    ensures
        r@ == hypergammon_board(),
        r.wf(),
        r.on_turn(),
{
    let pips: [i8; 26] = [0, -1, -1, -1, 0, 0, 0, 0, 0, 0, 0, 0, 0, 0, 0, 0, 0, 0, 0, 0, 0, 0, 1, 1, 1, 0];
    proof {
        reveal_with_fuel(x_count, 27);
        reveal_with_fuel(o_count, 27);
    }
    assert(cells(pips) =~= seq![0int, -1, -1, -1, 0, 0, 0, 0, 0, 0, 0, 0, 0, 0, 0, 0, 0, 0, 0, 0, 0, 0, 1, 1, 1, 0]);
    start(pips)
}

/// The starting position of hypergammon with two checkers per side.
pub fn hypergammon2() -> (r: Position<2>)
    ensures
        r@ == starting_board(seq![0int, -1, -1, 0, 0, 0, 0, 0, 0, 0, 0, 0, 0, 0, 0, 0, 0, 0, 0, 0, 0, 0, 0, 1, 1, 0]),
        r.wf(),
        r.on_turn(),
{
    let pips: [i8; 26] = [0, -1, -1, 0, 0, 0, 0, 0, 0, 0, 0, 0, 0, 0, 0, 0, 0, 0, 0, 0, 0, 0, 0, 1, 1, 0];
    proof {
        reveal_with_fuel(x_count, 27);
        reveal_with_fuel(o_count, 27);
    }
    assert(cells(pips) =~= seq![0int, -1, -1, 0, 0, 0, 0, 0, 0, 0, 0, 0, 0, 0, 0, 0, 0, 0, 0, 0, 0, 0, 0, 1, 1, 0]);
    start(pips)
}

/// The starting position of hypergammon with four checkers per side.
pub fn hypergammon4() -> (r: Position<4>)
    ensures
        r@ == starting_board(seq![0int, -1, -1, -1, -1, 0, 0, 0, 0, 0, 0, 0, 0, 0, 0, 0, 0, 0, 0, 0, 0, 1, 1, 1, 1, 0]),
        r.wf(),
        r.on_turn(),
{
    let pips: [i8; 26] = [0, -1, -1, -1, -1, 0, 0, 0, 0, 0, 0, 0, 0, 0, 0, 0, 0, 0, 0, 0, 0, 1, 1, 1, 1, 0];
    proof {
        reveal_with_fuel(x_count, 27);
        reveal_with_fuel(o_count, 27);
    }
    assert(cells(pips) =~= seq![0int, -1, -1, -1, -1, 0, 0, 0, 0, 0, 0, 0, 0, 0, 0, 0, 0, 0, 0, 0, 0, 1, 1, 1, 1, 0]);
    start(pips)
}

/// The starting position of hypergammon with five checkers per side.
pub fn hypergammon5() -> (r: Position<5>)
    ensures
        r@ == starting_board(seq![0int, -1, -1, -1, -1, -1, 0, 0, 0, 0, 0, 0, 0, 0, 0, 0, 0, 0, 0, 0, 1, 1, 1, 1, 1, 0]),
        r.wf(),
        r.on_turn(),
{
    let pips: [i8; 26] = [0, -1, -1, -1, -1, -1, 0, 0, 0, 0, 0, 0, 0, 0, 0, 0, 0, 0, 0, 0, 1, 1, 1, 1, 1, 0];
    proof {
        reveal_with_fuel(x_count, 27);
        reveal_with_fuel(o_count, 27);
    }
    assert(cells(pips) =~= seq![0int, -1, -1, -1, -1, -1, 0, 0, 0, 0, 0, 0, 0, 0, 0, 0, 0, 0, 0, 0, 1, 1, 1, 1, 1, 0]);
    start(pips)
}

/// The starting position of longgammon.
pub fn longgammon() -> (r: Position<15>)
    ensures
        r@ == starting_board(seq![0int, -15, 0, 0, 0, 0, 0, 0, 0, 0, 0, 0, 0, 0, 0, 0, 0, 0, 0, 0, 0, 0, 0, 0, 15, 0]),
        r.wf(),
        r.on_turn(),
{
    let pips: [i8; 26] = [0, -15, 0, 0, 0, 0, 0, 0, 0, 0, 0, 0, 0, 0, 0, 0, 0, 0, 0, 0, 0, 0, 0, 0, 15, 0];
    proof {
        reveal_with_fuel(x_count, 27);
        reveal_with_fuel(o_count, 27);
    }
    assert(cells(pips) =~= seq![0int, -15, 0, 0, 0, 0, 0, 0, 0, 0, 0, 0, 0, 0, 0, 0, 0, 0, 0, 0, 0, 0, 0, 0, 15, 0]);
    start(pips)
}

} // verus!
