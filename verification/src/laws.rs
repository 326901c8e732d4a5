//! What holds of the engine as a whole, proved from the contracts of its
//! functions.
use crate::board::{lemma_flip_flip, Board};
use crate::codec::{is_decoding, is_key_of, lemma_key_board_unique};
use crate::dice::{Dice, RegularDice};
use crate::driver::{flipped, lists_possible_positions};
use crate::generate::boards_of;
use crate::plays::{
    is_full_play, is_play, legal_results, lemma_pips_short, play_legal, play_pips, play_result,
    roll_allows, single, uses, Go,
};
use crate::position::Position;
use vstd::prelude::*;

verus! {

/// Decoding the key of a position gives the position back, as the side on
/// roll sees it and with `x` on turn.
pub proof fn law_decode_of_encode<const N: u8>(
    p: Position<N>,
    key: [u8; 10],
    decoded: Option<Position<N>>,
)
    requires
        p.wf(),
        is_key_of(key@, p.board_on_roll()),
        is_decoding(key@, decoded),
    ensures
        decoded matches Some(q) && q@ == p.board_on_roll() && q.on_turn(),
{
    let b = p.board_on_roll();
    crate::board::lemma_flip_keeps_wf(p@, N as int);
    assert(b.wf(N as int));
    match decoded {
        Some(q) => {
            lemma_key_board_unique(key@, q@, b, N as int);
        },
        None => {
            assert(!crate::codec::holds(key@, b));
        },
    }
}

/// Flipping a position twice gives the position back.
pub proof fn law_flip_twice<const N: u8>(p: Position<N>, once: Position<N>, twice: Position<N>)
    requires
        p.wf(),
        once@ == p@.flip(),
        once.on_turn() == !p.on_turn(),
        twice@ == once@.flip(),
        twice.on_turn() == !once.on_turn(),
    ensures
        twice@ == p@,
        twice.on_turn() == p.on_turn(),
{
    p.lemma_cells();
    lemma_flip_flip(p@);
}

/// Every position that a roll leads to is, seen from the side that rolled,
/// the result of a sequence of legal moves with the dice of the roll, and of
/// one that no other such sequence beats in pips.
pub proof fn law_results_are_reachable<const N: u8>(
    p: Position<N>,
    dice: Dice,
    r: Seq<Position<N>>,
    i: int,
)
    requires
        p.wf(),
        lists_possible_positions(p, dice, r),
        0 <= i < r.len(),
    ensures
        exists|t: Seq<Go>| #[trigger] is_full_play(p@, dice, t) && play_result(p@, t) == r[i]@.flip(),
{
    let legal = legal_results(p@, dice);
    assert(boards_of(r).contains(r[i]@));
    assert(flipped(legal).contains(r[i]@));
    let q = choose|q: Board| legal.contains(q) && #[trigger] q.flip() == r[i]@;
    let t = choose|t: Seq<Go>| #[trigger] is_full_play(p@, dice, t) && play_result(p@, t) == q;
    lemma_play_keeps_wf(p@, N as int, t);
    lemma_flip_flip(q);
}

/// A sequence of legal moves keeps the board consistent.
pub proof fn lemma_play_keeps_wf(b: Board, n: int, t: Seq<Go>)
    requires
        b.wf(n),
        play_legal(b, t),
    ensures
        play_result(b, t).wf(n),
    decreases t.len(),
{
    if t.len() > 0 {
        lemma_play_keeps_wf(b, n, t.drop_last());
        crate::board::lemma_move_keeps_wf(
            play_result(b, t.drop_last()),
            n,
            t.last().0,
            t.last().1,
        );
    }
}

/// Every board that the rules let a roll lead to is listed, flipped.
pub proof fn law_every_result_is_listed<const N: u8>(
    p: Position<N>,
    dice: Dice,
    r: Seq<Position<N>>,
    t: Seq<Go>,
)
    requires
        lists_possible_positions(p, dice, r),
        is_full_play(p@, dice, t),
    ensures
        exists|i: int| 0 <= i < r.len() && (#[trigger] r[i])@ == play_result(p@, t).flip(),
{
    let q = play_result(p@, t);
    assert(legal_results(p@, dice).contains(q));
    assert(flipped(legal_results(p@, dice)).contains(q.flip()));
    assert(boards_of(r).contains(q.flip()));
}

/// Where no checker can move with a die of the roll, the turn is lost: the
/// board itself is the one legal result.
pub proof fn law_no_move_keeps_the_board(b: Board, dice: Dice)
    requires
        dice.valid(),
        forall|from: int, die: int| roll_has(dice, die) ==> !#[trigger] b.can_move(from, die),
    ensures
        legal_results(b, dice) == set![b],
{
    let none: Seq<Go> = Seq::empty();
    assert(roll_allows(dice, none)) by {
        assert(none.len() == 0);
        if dice is Double {
            assert(uses(none, crate::plays::rep(dice->Double_0 as int, 0)));
        }
    }
    assert(is_play(b, dice, none));
    assert forall|u: Seq<Go>| #[trigger] is_play(b, dice, u) implies u.len() == 0 by {
        if u.len() > 0 {
            crate::plays::lemma_play_prefix(b, u, 1);
            let first = u.take(1);
            assert(first.drop_last().len() == 0);
            assert(first.last() == u[0]);
            assert(b.can_move(u[0].0, u[0].1));
            match dice {
                Dice::Double(d) => {
                    assert(u[0].1 == crate::plays::rep(d as int, u.len() as int)[0]);
                },
                Dice::Regular(r) => {
                    if uses(u, single(r.big as int)) {
                        assert(u[0].1 == single(r.big as int)[0]);
                    } else if uses(u, single(r.small as int)) {
                        assert(u[0].1 == single(r.small as int)[0]);
                    } else if uses(u, crate::plays::pair(r.big as int, r.small as int)) {
                        assert(u[0].1 == crate::plays::pair(r.big as int, r.small as int)[0]);
                    } else {
                        assert(u[0].1 == crate::plays::pair(r.small as int, r.big as int)[0]);
                    }
                },
            }
        }
    }
    assert(is_full_play(b, dice, none));
    let legal = legal_results(b, dice);
    assert(legal.contains(b));
    assert forall|q: Board| legal.contains(q) implies q == b by {
        let t = choose|t: Seq<Go>| #[trigger] is_full_play(b, dice, t) && play_result(b, t) == q;
        assert(is_play(b, dice, t));
        assert(t.len() == 0);
    }
    assert(legal =~= set![b]);
}

/// The roll shows the die: it is the die of the double or one of the two
/// dice of the mixed roll.
pub open spec fn roll_has(dice: Dice, die: int) -> bool {
    match dice {
        Dice::Double(d) => die == d,
        Dice::Regular(r) => die == r.big || die == r.small,
    }
}

/// A play moves checkers of `x` only: what `o` has borne off stays.
pub proof fn law_play_keeps_o_off(b: Board, t: Seq<Go>)
    ensures
        play_result(b, t).o_off == b.o_off,
    decreases t.len(),
{
    if t.len() > 0 {
        law_play_keeps_o_off(b, t.drop_last());
    }
}

/// No two positions that a roll leads to are equal.
pub proof fn law_no_duplicates<const N: u8>(
    p: Position<N>,
    dice: Dice,
    r: Seq<Position<N>>,
    i: int,
    j: int,
)
    requires
        lists_possible_positions(p, dice, r),
        0 <= i < r.len(),
        0 <= j < r.len(),
        i != j,
    ensures
        r[i]@ != r[j]@,
{
    if i < j {
        assert(r[i]@ != r[j]@);
    } else {
        assert(r[j]@ != r[i]@);
    }
}

/// The play behind a listed position plays the most pips that can be played:
/// no sequence of legal moves with the dice of the roll plays more.
pub proof fn law_maximum_pips(b: Board, dice: Dice, played: Seq<Go>, other: Seq<Go>)
    requires
        is_full_play(b, dice, played),
        is_play(b, dice, other),
    ensures
        play_pips(other) <= play_pips(played),
{
}

/// Where the play behind a listed position plays the smaller die of a mixed
/// roll and nothing else, no checker can move with the bigger die.
pub proof fn law_bigger_die_first(b: Board, dice: RegularDice, played: Seq<Go>, from: int)
    requires
        dice.valid(),
        is_full_play(b, Dice::Regular(dice), played),
        uses(played, single(dice.small as int)),
    ensures
        !b.can_move(from, dice.big as int),
{
    if b.can_move(from, dice.big as int) {
        let other: Seq<Go> = seq![(from, dice.big as int)];
        assert(other.drop_last() =~= Seq::<Go>::empty());
        assert(uses(other, single(dice.big as int)));
        assert(play_legal(b, other)) by {
            reveal_with_fuel(play_legal, 2);
            reveal_with_fuel(play_result, 2);
            assert(other.last() == (from, dice.big as int));
        }
        assert(is_play(b, Dice::Regular(dice), other));
        lemma_pips_short(other);
        lemma_pips_short(played);
        assert(play_pips(other) <= play_pips(played));
    }
}

} // verus!
