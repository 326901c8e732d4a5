//! What a legal play is: a sequence of single-checker moves that uses the
//! dice of the roll, and that no other such sequence beats in pips played.
use crate::board::Board;
use crate::dice::Dice;
use vstd::prelude::*;

verus! {

/// One move of a play: the point a checker leaves and the die it uses.
pub type Go = (int, int);

/// Every move of `t` is legal on the board that the moves before it left.
pub open spec fn play_legal(b: Board, t: Seq<Go>) -> bool
    decreases t.len(),
{
    t.len() == 0 || (play_legal(b, t.drop_last()) && play_result(b, t.drop_last()).can_move(
        t.last().0,
        t.last().1,
    ))
}

/// The board after the moves of `t`.
pub open spec fn play_result(b: Board, t: Seq<Go>) -> Board
    decreases t.len(),
{
    if t.len() == 0 {
        b
    } else {
        play_result(b, t.drop_last()).do_move(t.last().0, t.last().1)
    }
}

/// The pips that `t` plays: the sum of the dice it uses.
pub open spec fn play_pips(t: Seq<Go>) -> int
    decreases t.len(),
{
    if t.len() == 0 {
        0
    } else {
        play_pips(t.drop_last()) + t.last().1
    }
}

/// `t` uses the dice `ds`, one after the other.
pub open spec fn uses(t: Seq<Go>, ds: Seq<int>) -> bool {
    &&& t.len() == ds.len()
    &&& forall|i: int| 0 <= i < t.len() ==> (#[trigger] t[i]).1 == ds[i]
}

/// The dice of `t` are dice of the roll: each die of a mixed roll at most
/// once, the die of a double at most four times.
pub open spec fn roll_allows(dice: Dice, t: Seq<Go>) -> bool {
    match dice {
        Dice::Double(d) => t.len() <= 4 && uses(t, rep(d as int, t.len() as int)),
        Dice::Regular(r) => {
            ||| t.len() == 0
            ||| uses(t, single(r.big as int))
            ||| uses(t, single(r.small as int))
            ||| uses(t, pair(r.big as int, r.small as int))
            ||| uses(t, pair(r.small as int, r.big as int))
        },
    }
}

/// `t` is a sequence of legal moves with the dice of the roll.
pub open spec fn is_play(b: Board, dice: Dice, t: Seq<Go>) -> bool {
    roll_allows(dice, t) && play_legal(b, t)
}

/// `t` is a play that the rules accept: no sequence of legal moves with the
/// dice of the roll plays more pips. So both dice are played where that can be
/// done, else the bigger one where that can be done; and of a double as many
/// as can be.
pub open spec fn is_full_play(b: Board, dice: Dice, t: Seq<Go>) -> bool {
    &&& is_play(b, dice, t)
    &&& forall|u: Seq<Go>| #[trigger] is_play(b, dice, u) ==> play_pips(u) <= play_pips(t)
}

/// The boards that the rules let `x` reach with the roll. Where no checker can
/// move, that is the board itself.
pub open spec fn legal_results(b: Board, dice: Dice) -> Set<Board> {
    Set::new(|q: Board| exists|t: Seq<Go>| #[trigger] is_full_play(b, dice, t) && play_result(b, t) == q)
}

/// The boards reached by legal moves that use exactly the dice `ds` in turn.
pub open spec fn reach(b: Board, ds: Seq<int>) -> Set<Board> {
    Set::new(
        |q: Board|
            exists|t: Seq<Go>| #[trigger] uses(t, ds) && play_legal(b, t) && play_result(b, t) == q,
    )
}

/// The boards one legal move with `die` away from a board of `s`.
pub open spec fn step_results(s: Set<Board>, die: int) -> Set<Board> {
    Set::new(
        |q: Board|
            exists|p: Board, from: int|
                s.contains(p) && #[trigger] p.can_move(from, die) && p.do_move(from, die) == q,
    )
}

/// The die `d` alone.
pub open spec fn single(d: int) -> Seq<int> {
    seq![d]
}

/// The die `d1`, then the die `d2`.
pub open spec fn pair(d1: int, d2: int) -> Seq<int> {
    seq![d1, d2]
}

/// The die `d`, `k` times.
pub open spec fn rep(d: int, k: int) -> Seq<int> {
    Seq::new(k as nat, |i: int| d)
}

/// With no die, the board itself is all that is reached.
pub proof fn lemma_reach_none(b: Board)
    ensures
        reach(b, Seq::empty()) =~= set![b],
{
    let e: Seq<Go> = Seq::empty();
    assert(uses(e, Seq::<int>::empty()) && play_legal(b, e) && play_result(b, e) == b);
}

/// One more die reaches what one more legal move reaches.
pub proof fn lemma_reach_push(b: Board, ds: Seq<int>, d: int)
    ensures
        reach(b, ds.push(d)) =~= step_results(reach(b, ds), d),
{
    let lhs = reach(b, ds.push(d));
    let rhs = step_results(reach(b, ds), d);
    assert forall|q: Board| lhs.contains(q) implies rhs.contains(q) by {
        let t = choose|t: Seq<Go>| #[trigger]
            uses(t, ds.push(d)) && play_legal(b, t) && play_result(b, t) == q;
        let t0 = t.drop_last();
        assert(uses(t0, ds)) by {
            assert forall|i: int| 0 <= i < t0.len() implies (#[trigger] t0[i]).1 == ds[i] by {
                assert(t[i].1 == ds.push(d)[i]);
            }
        }
        let p = play_result(b, t0);
        assert(reach(b, ds).contains(p));
        assert(t.last().1 == ds.push(d)[t.len() - 1]);
        assert(p.can_move(t.last().0, d));
    }
    assert forall|q: Board| rhs.contains(q) implies lhs.contains(q) by {
        let (p, from) = choose|p: Board, from: int|
            reach(b, ds).contains(p) && #[trigger] p.can_move(from, d) && p.do_move(from, d) == q;
        let t0 = choose|t: Seq<Go>| #[trigger]
            uses(t, ds) && play_legal(b, t) && play_result(b, t) == p;
        let t = t0.push((from, d));
        assert(t.drop_last() =~= t0);
        assert(uses(t, ds.push(d)));
        assert(play_legal(b, t));
        assert(play_result(b, t) == q);
    }
}

/// The first moves of a legal sequence are a legal sequence.
pub proof fn lemma_play_prefix(b: Board, t: Seq<Go>, k: int)
    requires
        play_legal(b, t),
        0 <= k <= t.len(),
    ensures
        play_legal(b, t.take(k)),
    decreases t.len(),
{
    if k == t.len() {
        assert(t.take(k) =~= t);
    } else {
        lemma_play_prefix(b, t.drop_last(), k);
        assert(t.drop_last().take(k) =~= t.take(k));
    }
}

/// A sequence that uses one die `k` times plays `k` times that die.
pub proof fn lemma_pips_uniform(t: Seq<Go>, d: int)
    requires
        uses(t, rep(d, t.len() as int)),
    ensures
        play_pips(t) == d * t.len(),
    decreases t.len(),
{
    if t.len() > 0 {
        let t0 = t.drop_last();
        assert(uses(t0, rep(d, t0.len() as int))) by {
            assert forall|i: int| 0 <= i < t0.len() implies (#[trigger] t0[i]).1 == rep(
                d,
                t0.len() as int,
            )[i] by {
                assert(t[i].1 == rep(d, t.len() as int)[i]);
            }
        }
        lemma_pips_uniform(t0, d);
        assert(t.last().1 == rep(d, t.len() as int)[t.len() - 1]);
        assert(d * t.len() == d * t0.len() + d) by (nonlinear_arith)
            requires
                t.len() == t0.len() + 1,
        ;
    } else {
        assert(d * t.len() == 0) by (nonlinear_arith)
            requires
                t.len() == 0,
        ;
    }
}

/// Some board belongs to `s`.
pub open spec fn inhabited(s: Set<Board>) -> bool {
    exists|q: Board| s.contains(q)
}

/// What a double reaches: let `k` plays of the die be possible and, unless
/// `k` is four, `k + 1` plays not. Then the legal results are the boards
/// after `k` plays.
pub proof fn lemma_double_results(b: Board, d: usize, k: int)
    requires
        1 <= d <= 6,
        0 <= k <= 4,
        inhabited(reach(b, rep(d as int, k))),
        k < 4 ==> !inhabited(reach(b, rep(d as int, k + 1))),
    ensures
        legal_results(b, Dice::Double(d)) =~= reach(b, rep(d as int, k)),
{
    let dice = Dice::Double(d);
    let di = d as int;
    let lhs = legal_results(b, dice);
    let rhs = reach(b, rep(di, k));
    let w = choose|q: Board| rhs.contains(q);
    let tw = choose|t: Seq<Go>| #[trigger]
        uses(t, rep(di, k)) && play_legal(b, t) && play_result(b, t) == w;
    assert(tw.len() == k);
    assert(is_play(b, dice, tw));
    lemma_pips_uniform(tw, di);
    // no play is longer than k
    assert forall|u: Seq<Go>| #[trigger] is_play(b, dice, u) implies u.len() <= k
        && play_pips(u) == di * u.len() by {
        lemma_pips_uniform(u, di);
        if u.len() > k {
            let v = u.take(k + 1);
            lemma_play_prefix(b, u, k + 1);
            assert(uses(v, rep(di, k + 1))) by {
                assert forall|i: int| 0 <= i < v.len() implies (#[trigger] v[i]).1 == rep(
                    di,
                    k + 1,
                )[i] by {
                    assert(u[i].1 == rep(di, u.len() as int)[i]);
                }
            }
            assert(reach(b, rep(di, k + 1)).contains(play_result(b, v)));
        }
    }
    assert forall|u: Seq<Go>| #[trigger] is_play(b, dice, u) implies play_pips(u) <= di * k by {
        assert(di * u.len() <= di * k) by (nonlinear_arith)
            requires
                u.len() <= k,
                di >= 1,
        ;
    }
    assert forall|q: Board| lhs.contains(q) implies rhs.contains(q) by {
        let t = choose|t: Seq<Go>| #[trigger] is_full_play(b, dice, t) && play_result(b, t) == q;
        assert(is_play(b, dice, t));
        assert(is_play(b, dice, tw));
        assert(play_pips(tw) <= play_pips(t));
        if t.len() < k {
            assert(di * t.len() < di * k) by (nonlinear_arith)
                requires
                    t.len() < k,
                    di >= 1,
            ;
        }
        assert(t.len() == k);
        assert(uses(t, rep(di, k)));
    }
    assert forall|q: Board| rhs.contains(q) implies lhs.contains(q) by {
        let t = choose|t: Seq<Go>| #[trigger]
            uses(t, rep(di, k)) && play_legal(b, t) && play_result(b, t) == q;
        assert(t.len() == k);
        assert(is_play(b, dice, t));
        lemma_pips_uniform(t, di);
        assert(is_full_play(b, dice, t));
    }
}

/// The pips of a sequence of one or two moves.
pub proof fn lemma_pips_short(t: Seq<Go>)
    requires
        1 <= t.len() <= 2,
    ensures
        t.len() == 1 ==> play_pips(t) == t[0].1,
        t.len() == 2 ==> play_pips(t) == t[0].1 + t[1].1,
{
    reveal_with_fuel(play_pips, 3);
    if t.len() == 2 {
        assert(t.drop_last()[0] == t[0]);
        assert(t.drop_last().last() == t[0]);
    }
}

/// The boards after both dice of a mixed roll have been played, in either
/// order.
pub open spec fn reach_both(b: Board, big: int, small: int) -> Set<Board> {
    reach(b, pair(small, big)).union(reach(b, pair(big, small)))
}

/// What a sequence with the dice of a mixed roll can be.
proof fn lemma_mixed_forms(b: Board, big: usize, small: usize, u: Seq<Go>)
    requires
        is_play(b, Dice::Regular(crate::dice::RegularDice { big, small }), u),
    ensures
        ({
            ||| u.len() == 0 && play_pips(u) == 0 && play_result(b, u) == b
            ||| play_pips(u) == big && reach(b, single(big as int)).contains(play_result(b, u))
            ||| play_pips(u) == small && reach(b, single(small as int)).contains(play_result(b, u))
            ||| play_pips(u) == big + small && reach_both(b, big as int, small as int).contains(
                play_result(b, u),
            )
        }),
{
    if u.len() >= 1 {
        lemma_pips_short(u);
    }
}

/// What a mixed roll reaches: the boards after both dice where both can be
/// played; else the boards after the bigger die where it can be played; else
/// the boards after the smaller die; else the board itself.
pub proof fn lemma_mixed_results(b: Board, big: usize, small: usize)
    requires
        1 <= small < big <= 6,
    ensures
        legal_results(b, Dice::Regular(crate::dice::RegularDice { big, small })) =~= (if inhabited(
            reach_both(b, big as int, small as int),
        ) {
            reach_both(b, big as int, small as int)
        } else if inhabited(reach(b, single(big as int))) {
            reach(b, single(big as int))
        } else if inhabited(reach(b, single(small as int))) {
            reach(b, single(small as int))
        } else {
            set![b]
        }),
{
    let dice = Dice::Regular(crate::dice::RegularDice { big, small });
    let both = reach_both(b, big as int, small as int);
    let r_big = reach(b, single(big as int));
    let r_small = reach(b, single(small as int));
    let lhs = legal_results(b, dice);
    let rhs = if inhabited(both) {
        both
    } else if inhabited(r_big) {
        r_big
    } else if inhabited(r_small) {
        r_small
    } else {
        set![b]
    };
    // the most pips that any play has
    let most: int = if inhabited(both) {
        big + small
    } else if inhabited(r_big) {
        big as int
    } else if inhabited(r_small) {
        small as int
    } else {
        0
    };
    assert forall|u: Seq<Go>| #[trigger] is_play(b, dice, u) implies play_pips(u) <= most && (
    play_pips(u) == most ==> rhs.contains(play_result(b, u))) by {
        lemma_mixed_forms(b, big, small, u);
    }
    assert forall|q: Board| lhs.contains(q) implies rhs.contains(q) by {
        let t = choose|t: Seq<Go>| #[trigger] is_full_play(b, dice, t) && play_result(b, t) == q;
        assert(is_play(b, dice, t));
        // a play that has the most pips
        if inhabited(both) {
            let w = choose|w: Board| both.contains(w);
            if reach(b, pair(small as int, big as int)).contains(w) {
                let tw = choose|x: Seq<Go>| #[trigger]
                    uses(x, pair(small as int, big as int)) && play_legal(b, x) && play_result(b, x)
                        == w;
                assert(is_play(b, dice, tw));
                lemma_pips_short(tw);
            } else {
                let tw = choose|x: Seq<Go>| #[trigger]
                    uses(x, pair(big as int, small as int)) && play_legal(b, x) && play_result(b, x)
                        == w;
                assert(is_play(b, dice, tw));
                lemma_pips_short(tw);
            }
        } else if inhabited(r_big) {
            let w = choose|w: Board| r_big.contains(w);
            let tw = choose|x: Seq<Go>| #[trigger]
                uses(x, single(big as int)) && play_legal(b, x) && play_result(b, x) == w;
            assert(is_play(b, dice, tw));
            lemma_pips_short(tw);
        } else if inhabited(r_small) {
            let w = choose|w: Board| r_small.contains(w);
            let tw = choose|x: Seq<Go>| #[trigger]
                uses(x, single(small as int)) && play_legal(b, x) && play_result(b, x) == w;
            assert(is_play(b, dice, tw));
            lemma_pips_short(tw);
        }
        lemma_mixed_forms(b, big, small, t);
        assert(play_pips(t) == most);
    }
    assert forall|q: Board| rhs.contains(q) implies lhs.contains(q) by {
        let t: Seq<Go> = if inhabited(both) {
            if reach(b, pair(small as int, big as int)).contains(q) {
                choose|x: Seq<Go>| #[trigger]
                    uses(x, pair(small as int, big as int)) && play_legal(b, x) && play_result(b, x)
                        == q
            } else {
                choose|x: Seq<Go>| #[trigger]
                    uses(x, pair(big as int, small as int)) && play_legal(b, x) && play_result(b, x)
                        == q
            }
        } else if inhabited(r_big) {
            choose|x: Seq<Go>| #[trigger]
                uses(x, single(big as int)) && play_legal(b, x) && play_result(b, x) == q
        } else if inhabited(r_small) {
            choose|x: Seq<Go>| #[trigger]
                uses(x, single(small as int)) && play_legal(b, x) && play_result(b, x) == q
        } else {
            Seq::empty()
        };
        assert(is_play(b, dice, t));
        assert(play_result(b, t) == q);
        assert(play_pips(t) == most) by {
            if t.len() >= 1 {
                lemma_pips_short(t);
            }
        }
        assert(is_full_play(b, dice, t));
    }
}

} // verus!
