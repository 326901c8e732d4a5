//! Collecting the positions that single moves lead to, each board once.
use crate::board::{lemma_smallest_pip_to_check, Board};
use crate::plays::{
    inhabited, lemma_reach_none, lemma_reach_push, pair, reach, single, step_results,
};
use crate::position::Position;
use vstd::prelude::*;

verus! {

/// The boards of the positions in `v`.
pub open spec fn boards_of<const N: u8>(v: Seq<Position<N>>) -> Set<Board> {
    Set::new(|q: Board| exists|i: int| 0 <= i < v.len() && (#[trigger] v[i])@ == q)
}

/// No two positions of `v` have the same board.
pub open spec fn distinct<const N: u8>(v: Seq<Position<N>>) -> bool {
    forall|i: int, j: int| 0 <= i < j < v.len() ==> (#[trigger] v[i])@ != (#[trigger] v[j])@
}

/// Every position of `v` is consistent and seen from the side `turn`.
pub open spec fn all_wf<const N: u8>(v: Seq<Position<N>>, turn: bool) -> bool {
    forall|i: int| 0 <= i < v.len() ==> (#[trigger] v[i]).wf() && v[i].on_turn() == turn
}

/// The boards after one legal move with `die` from a point between `lo` and
/// `hi`.
pub open spec fn moves_in(b: Board, die: int, lo: int, hi: int) -> Set<Board> {
    Set::new(
        |q: Board|
            exists|from: int|
                lo <= from <= hi && #[trigger] b.can_move(from, die) && b.do_move(from, die) == q,
    )
}

/// Which points the second checker of two may leave, given the point `first`
/// that the first one left.
#[derive(Clone, Copy, Debug, PartialEq, Eq, Structural)]
pub enum Second {
    /// Points up to `first`.
    UpTo,
    /// Any point.
    Any,
}

impl Second {
    /// The second checker may leave `second`.
    pub open spec fn admits(self, first: int, second: int) -> bool {
        match self {
            Second::UpTo => second <= first,
            Second::Any => true,
        }
    }

    /// The highest point that the second checker may leave.
    pub open spec fn high(self, first: int) -> int {
        match self {
            Second::UpTo => first,
            Second::Any => 25,
        }
    }
}

/// The boards after two legal moves, the first with `d1` from a point between
/// `lo` and `hi`, the second with `d2` from a point that `span` admits.
pub open spec fn two_moves(b: Board, d1: int, d2: int, lo: int, hi: int, span: Second) -> Set<
    Board,
> {
    Set::new(
        |q: Board|
            exists|f1: int, f2: int|
                lo <= f1 <= hi && span.admits(f1, f2) && b.can_move(f1, d1) && #[trigger] b.do_move(
                    f1,
                    d1,
                ).can_move(f2, d2) && b.do_move(f1, d1).do_move(f2, d2) == q,
    )
}

/// One more point for the first checker adds the moves that follow a move
/// from that point.
pub proof fn lemma_two_moves_extend(
    b: Board,
    d1: int,
    d2: int,
    lo: int,
    hi: int,
    span: Second,
    f: int,
)
    requires
        f == lo - 1 || f == hi + 1,
        lo <= hi + 1,
    ensures
        two_moves(
            b,
            d1,
            d2,
            if f < lo {
                f
            } else {
                lo
            },
            if f > hi {
                f
            } else {
                hi
            },
            span,
        ) =~= two_moves(b, d1, d2, lo, hi, span).union(
            if b.can_move(f, d1) {
                moves_in(b.do_move(f, d1), d2, 1, span.high(f))
            } else {
                Set::empty()
            },
        ),
{
    let lo2 = if f < lo {
        f
    } else {
        lo
    };
    let hi2 = if f > hi {
        f
    } else {
        hi
    };
    let wide = two_moves(b, d1, d2, lo2, hi2, span);
    let narrow = two_moves(b, d1, d2, lo, hi, span);
    let add = if b.can_move(f, d1) {
        moves_in(b.do_move(f, d1), d2, 1, span.high(f))
    } else {
        Set::empty()
    };
    assert forall|q: Board| wide.contains(q) implies narrow.union(add).contains(q) by {
        let (f1, f2) = choose|f1: int, f2: int|
            lo2 <= f1 <= hi2 && span.admits(f1, f2) && b.can_move(f1, d1) && #[trigger] b.do_move(
                f1,
                d1,
            ).can_move(f2, d2) && b.do_move(f1, d1).do_move(f2, d2) == q;
        if f1 == f {
            assert(1 <= f2 <= span.high(f));
            assert(add.contains(q));
        } else {
            assert(narrow.contains(q));
        }
    }
    assert forall|q: Board| narrow.union(add).contains(q) implies wide.contains(q) by {
        if narrow.contains(q) {
            let (f1, f2) = choose|f1: int, f2: int|
                lo <= f1 <= hi && span.admits(f1, f2) && b.can_move(f1, d1) && #[trigger] b.do_move(
                    f1,
                    d1,
                ).can_move(f2, d2) && b.do_move(f1, d1).do_move(f2, d2) == q;
            assert(lo2 <= f1 <= hi2);
        } else {
            let f2 = choose|f2: int|
                1 <= f2 <= span.high(f) && #[trigger] b.do_move(f, d1).can_move(f2, d2)
                    && b.do_move(f, d1).do_move(f2, d2) == q;
            assert(span.admits(f, f2));
        }
    }
}

/// The second move of two goes on with the checker that made the first
/// one, from a point and over a point that `o` has no checker on: the same
/// checker can play its dice the other way round, with the same result.
pub open spec fn mirrored(b: Board, d1: int, d2: int, first: int, second: int) -> bool {
    &&& first > d1
    &&& first > d2
    &&& second == first - d1
    &&& b.pips[first - d1] >= 0
    &&& b.pips[first - d2] >= 0
}

/// The boards after two legal moves, the first with `d1` from a point
/// between `lo` and `hi`, the second with `d2` from a lower point, but for
/// the second moves that are `mirrored`.
pub open spec fn other_order(b: Board, d1: int, d2: int, lo: int, hi: int) -> Set<Board> {
    Set::new(
        |q: Board|
            exists|f1: int, f2: int|
                lo <= f1 <= hi && f2 < f1 && !mirrored(b, d1, d2, f1, f2) && b.can_move(f1, d1)
                    && #[trigger] b.do_move(f1, d1).can_move(f2, d2) && b.do_move(f1, d1).do_move(
                    f2,
                    d2,
                ) == q,
    )
}

/// The points below `first` that the second checker is looked for on: all
/// of them, or all but the point that the first checker went to.
pub open spec fn second_moves(b: Board, d1: int, d2: int, first: int) -> Set<Board> {
    let after = b.do_move(first, d1);
    if mirrored(b, d1, d2, first, first - d1) {
        moves_in(after, d2, 1, first - d1 - 1).union(moves_in(after, d2, first - d1 + 1, first - 1))
    } else {
        moves_in(after, d2, 1, first - 1)
    }
}

/// One more point for the first checker adds the second moves that are
/// looked for after a move from that point.
pub proof fn lemma_other_order_extend(b: Board, d1: int, d2: int, hi: int)
    ensures
        other_order(b, d1, d2, 1, hi + 1) =~= other_order(b, d1, d2, 1, hi).union(
            if b.can_move(hi + 1, d1) {
                second_moves(b, d1, d2, hi + 1)
            } else {
                Set::empty()
            },
        ),
{
    let f = hi + 1;
    let wide = other_order(b, d1, d2, 1, hi + 1);
    let narrow = other_order(b, d1, d2, 1, hi);
    let after = b.do_move(f, d1);
    let add = if b.can_move(f, d1) {
        second_moves(b, d1, d2, f)
    } else {
        Set::empty()
    };
    assert forall|q: Board| wide.contains(q) implies narrow.union(add).contains(q) by {
        let (f1, f2) = choose|f1: int, f2: int|
            1 <= f1 <= hi + 1 && f2 < f1 && !mirrored(b, d1, d2, f1, f2) && b.can_move(f1, d1)
                && #[trigger] b.do_move(f1, d1).can_move(f2, d2) && b.do_move(f1, d1).do_move(
                f2,
                d2,
            ) == q;
        if f1 == f {
            assert(after.can_move(f2, d2));
            if mirrored(b, d1, d2, f, f - d1) {
                assert(f2 != f - d1);
                if f2 < f - d1 {
                    assert(moves_in(after, d2, 1, f - d1 - 1).contains(q));
                } else {
                    assert(moves_in(after, d2, f - d1 + 1, f - 1).contains(q));
                }
            } else {
                assert(moves_in(after, d2, 1, f - 1).contains(q));
            }
        } else {
            assert(narrow.contains(q));
        }
    }
    assert forall|q: Board| narrow.union(add).contains(q) implies wide.contains(q) by {
        if narrow.contains(q) {
            let (f1, f2) = choose|f1: int, f2: int|
                1 <= f1 <= hi && f2 < f1 && !mirrored(b, d1, d2, f1, f2) && b.can_move(f1, d1)
                    && #[trigger] b.do_move(f1, d1).can_move(f2, d2) && b.do_move(f1, d1).do_move(
                    f2,
                    d2,
                ) == q;
            assert(1 <= f1 <= hi + 1);
        } else {
            if mirrored(b, d1, d2, f, f - d1) {
                if moves_in(after, d2, 1, f - d1 - 1).contains(q) {
                    let f2 = choose|f2: int|
                        1 <= f2 <= f - d1 - 1 && #[trigger] after.can_move(f2, d2) && after.do_move(
                            f2,
                            d2,
                        ) == q;
                    assert(!mirrored(b, d1, d2, f, f2));
                } else {
                    let f2 = choose|f2: int|
                        f - d1 + 1 <= f2 <= f - 1 && #[trigger] after.can_move(f2, d2)
                            && after.do_move(f2, d2) == q;
                    assert(!mirrored(b, d1, d2, f, f2));
                }
            } else {
                let f2 = choose|f2: int|
                    1 <= f2 <= f - 1 && #[trigger] after.can_move(f2, d2) && after.do_move(f2, d2)
                        == q;
                assert(!mirrored(b, d1, d2, f, f2));
            }
        }
    }
}

/// Both dice in either order reach what is found by playing one die first
/// with the second checker no higher than the first, and the other die
/// first with the second checker lower, the mirrored moves left out. The
/// die that needs no mirrored move has to be the smaller one, unless a
/// checker is on the bar.
pub proof fn lemma_orders_cover(b: Board, da: int, db: int)
    requires
        b.pips.len() == 26,
        da != db,
        da < db || b.pips[25] > 0,
    ensures
        reach(b, pair(da, db)).union(reach(b, pair(db, da))) =~= two_moves(
            b,
            da,
            db,
            1,
            25,
            Second::UpTo,
        ).union(other_order(b, db, da, 1, 25)),
{
    lemma_reach_two(b, da, db);
    lemma_reach_two(b, db, da);
    let any_ab = two_moves(b, da, db, 1, 25, Second::Any);
    let any_ba = two_moves(b, db, da, 1, 25, Second::Any);
    let upto = two_moves(b, da, db, 1, 25, Second::UpTo);
    let other = other_order(b, db, da, 1, 25);
    assert forall|q: Board| upto.contains(q) implies any_ab.contains(q) by {
        let (f1, f2) = choose|f1: int, f2: int|
            1 <= f1 <= 25 && Second::UpTo.admits(f1, f2) && b.can_move(f1, da)
                && #[trigger] b.do_move(f1, da).can_move(f2, db) && b.do_move(f1, da).do_move(
                f2,
                db,
            ) == q;
        assert(Second::Any.admits(f1, f2));
    }
    assert forall|q: Board| other.contains(q) implies any_ba.contains(q) by {
        let (f1, f2) = choose|f1: int, f2: int|
            1 <= f1 <= 25 && f2 < f1 && !mirrored(b, db, da, f1, f2) && b.can_move(f1, db)
                && #[trigger] b.do_move(f1, db).can_move(f2, da) && b.do_move(f1, db).do_move(
                f2,
                da,
            ) == q;
        assert(Second::Any.admits(f1, f2));
    }
    // a move with `db` and then a lower one with `da`
    assert forall|f1: int, f2: int|
        f2 < f1 && b.can_move(f1, db) && #[trigger] b.do_move(f1, db).can_move(
            f2,
            da,
        ) implies upto.union(other).contains(b.do_move(f1, db).do_move(f2, da)) by {
        let q = b.do_move(f1, db).do_move(f2, da);
        if mirrored(b, db, da, f1, f2) {
            crate::swap::lemma_same_checker(b, f1, db, da);
            assert(Second::UpTo.admits(f1, f1 - da));
            assert(b.do_move(f1, da).can_move(f1 - da, db));
            assert(upto.contains(q));
        } else {
            assert(other.contains(q));
        }
    }
    assert forall|q: Board| any_ab.contains(q) implies upto.union(other).contains(q) by {
        let (f1, f2) = choose|f1: int, f2: int|
            1 <= f1 <= 25 && Second::Any.admits(f1, f2) && b.can_move(f1, da)
                && #[trigger] b.do_move(f1, da).can_move(f2, db) && b.do_move(f1, da).do_move(
                f2,
                db,
            ) == q;
        if f2 <= f1 {
            assert(Second::UpTo.admits(f1, f2));
            assert(upto.contains(q));
        } else {
            crate::swap::lemma_higher_first(b, f1, da, f2, db);
            assert(b.do_move(f2, db).can_move(f1, da));
        }
    }
    assert forall|q: Board| any_ba.contains(q) implies upto.union(other).contains(q) by {
        let (f1, f2) = choose|f1: int, f2: int|
            1 <= f1 <= 25 && Second::Any.admits(f1, f2) && b.can_move(f1, db)
                && #[trigger] b.do_move(f1, db).can_move(f2, da) && b.do_move(f1, db).do_move(
                f2,
                da,
            ) == q;
        if f2 < f1 {
            assert(b.do_move(f1, db).can_move(f2, da));
        } else if f2 == f1 {
            crate::swap::lemma_same_point(b, f1, db, da);
            assert(Second::UpTo.admits(f1, f1));
            assert(b.do_move(f1, da).can_move(f1, db));
            assert(upto.contains(q));
        } else {
            crate::swap::lemma_higher_first(b, f1, db, f2, da);
            assert(Second::UpTo.admits(f2, f1));
            assert(b.do_move(f2, da).can_move(f1, db));
            assert(upto.contains(q));
        }
    }
}

/// One die reaches what one move from any point reaches.
pub proof fn lemma_reach_one(b: Board, d: int)
    ensures
        reach(b, single(d)) =~= moves_in(b, d, 1, 25),
{
    lemma_reach_none(b);
    lemma_reach_push(b, Seq::empty(), d);
    assert(Seq::<int>::empty().push(d) =~= single(d));
    let steps = step_results(set![b], d);
    let moves = moves_in(b, d, 1, 25);
    assert forall|q: Board| steps.contains(q) implies moves.contains(q) by {
        let (p, from) = choose|p: Board, from: int|
            set![b].contains(p) && #[trigger] p.can_move(from, d) && p.do_move(from, d) == q;
        assert(b.can_move(from, d));
    }
    assert forall|q: Board| moves.contains(q) implies steps.contains(q) by {
        let from = choose|from: int|
            1 <= from <= 25 && #[trigger] b.can_move(from, d) && b.do_move(from, d) == q;
        assert(set![b].contains(b));
    }
    assert(steps =~= moves);
}

/// Two dice reach what two moves from any points reach.
pub proof fn lemma_reach_two(b: Board, d1: int, d2: int)
    ensures
        reach(b, pair(d1, d2)) =~= two_moves(b, d1, d2, 1, 25, Second::Any),
{
    lemma_reach_one(b, d1);
    lemma_reach_push(b, single(d1), d2);
    assert(single(d1).push(d2) =~= pair(d1, d2));
    let first = moves_in(b, d1, 1, 25);
    let steps = step_results(first, d2);
    let two = two_moves(b, d1, d2, 1, 25, Second::Any);
    assert forall|q: Board| steps.contains(q) implies two.contains(q) by {
        let (p, f2) = choose|p: Board, f2: int|
            first.contains(p) && #[trigger] p.can_move(f2, d2) && p.do_move(f2, d2) == q;
        let f1 = choose|f1: int|
            1 <= f1 <= 25 && #[trigger] b.can_move(f1, d1) && b.do_move(f1, d1) == p;
        assert(b.do_move(f1, d1).can_move(f2, d2));
    }
    assert forall|q: Board| two.contains(q) implies steps.contains(q) by {
        let (f1, f2) = choose|f1: int, f2: int|
            1 <= f1 <= 25 && Second::Any.admits(f1, f2) && b.can_move(f1, d1)
                && #[trigger] b.do_move(f1, d1).can_move(f2, d2) && b.do_move(f1, d1).do_move(
                f2,
                d2,
            ) == q;
        let p = b.do_move(f1, d1);
        assert(first.contains(p));
        assert(p.can_move(f2, d2));
    }
    assert(steps =~= two);
}

/// A list holds a board exactly if it holds a position.
pub proof fn lemma_boards_inhabited<const N: u8>(v: Seq<Position<N>>)
    ensures
        inhabited(boards_of(v)) <==> v.len() > 0,
{
    if v.len() > 0 {
        assert(boards_of(v).contains(v[0]@));
    }
    if inhabited(boards_of(v)) {
        let q = choose|q: Board| boards_of(v).contains(q);
        let i = choose|i: int| 0 <= i < v.len() && (#[trigger] v[i])@ == q;
    }
}

/// Whether `v` holds a position with the board of `p`.
pub fn contains<const N: u8>(v: &Vec<Position<N>>, p: &Position<N>) -> (r: bool)
    ensures
        r == boards_of(v@).contains(p@),
{
    let mut i: usize = 0;
    while i < v.len()
        invariant
            i <= v.len(),
            forall|j: int| 0 <= j < i ==> (#[trigger] v@[j])@ != p@,
        decreases v.len() - i,
    {
        if v[i] == *p {
            return true;
        }
        i += 1;
    }
    false
}

/// Appends `p` unless its board is there already.
pub fn push_new<const N: u8>(v: &mut Vec<Position<N>>, p: Position<N>)
    requires
        distinct(old(v)@),
    ensures
        distinct(final(v)@),
        boards_of(final(v)@) =~= boards_of(old(v)@).insert(p@),
        final(v)@ == if boards_of(old(v)@).contains(p@) {
            old(v)@
        } else {
            old(v)@.push(p)
        },
{
    if !contains(v, &p) {
        let ghost before = v@;
        v.push(p);
        proof {
            assert(v@.last() == p);
            assert forall|q: Board| boards_of(before).insert(p@).contains(q) implies boards_of(
                v@,
            ).contains(q) by {
                if q == p@ {
                    assert(v@[v@.len() - 1]@ == q);
                } else {
                    let i = choose|i: int| 0 <= i < before.len() && (#[trigger] before[i])@ == q;
                    assert(v@[i]@ == q);
                }
            }
            assert forall|q: Board| boards_of(v@).contains(q) implies boards_of(before).insert(
                p@,
            ).contains(q) by {
                let i = choose|i: int| 0 <= i < v@.len() && (#[trigger] v@[i])@ == q;
                if i < before.len() {
                    assert(before[i]@ == q);
                }
            }
            assert forall|i: int, j: int| 0 <= i < j < v@.len() implies (#[trigger] v@[i])@ != (
            #[trigger] v@[j])@ by {
                if j == before.len() {
                    assert(before[i]@ != p@);
                } else {
                    assert(before[i]@ != before[j]@);
                }
            }
        }
    }
}

impl<const N: u8> Position<N> {
    /// Appends to `out` the positions after one legal move with `die` from a
    /// point between `lo` and `hi`, from the highest point down if
    /// `descending`, else from the lowest up. A position whose board is in
    /// `out` already is left out.
    pub fn push_moves(&self, die: usize, lo: usize, hi: usize, descending: bool, out: &mut Vec<Self>)
        requires
            self.wf(),
            1 <= die <= 6,
            1 <= lo,
            hi <= 25,
            distinct(old(out)@),
            all_wf(old(out)@, self.on_turn()),
        ensures
            distinct(final(out)@),
            all_wf(final(out)@, self.on_turn()),
            boards_of(final(out)@) =~= boards_of(old(out)@).union(
                moves_in(self@, die as int, lo as int, hi as int),
            ),
            old(out)@.len() <= final(out)@.len(),
            final(out)@.take(old(out)@.len() as int) == old(out)@,
    {
        let ghost b = self@;
        let ghost d = die as int;
        let ghost start = out@;
        let bar_empty = self.pip(25) <= 0;
        let smallest = self.smallest_pip_to_check(die);
        proof {
            lemma_smallest_pip_to_check(b, d);
            self.lemma_cells();
        }
        // nothing moves below `smallest`
        let lo: usize = if smallest > lo {
            smallest
        } else {
            lo
        };
        if lo > hi {
            assert(moves_in(b, d, lo as int, hi as int) =~= Set::empty());
            assert(boards_of(out@) =~= boards_of(start).union(Set::empty()));
            proof {
                assert(out@.take(start.len() as int) =~= start);
            }
            return ;
        }
        let mut k: usize = 0;
        let n: usize = hi - lo + 1;
        while k < n
            invariant
                self.wf(),
                self@ == b,
                d == die,
                1 <= die <= 6,
                1 <= lo <= hi <= 25,
                n == hi - lo + 1,
                k <= n,
                bar_empty == (b.pips[25] <= 0),
                b.smallest_pip_to_check(d) <= lo,
                forall|from: int|
                    b.pips[25] <= 0 && b.smallest_pip_to_check(d) <= from <= 24 && 1 <= from
                        ==> #[trigger] b.can_move(from, d) == b.can_move_when_bearoff_is_legal(
                        from,
                        d,
                    ),
                distinct(out@),
                all_wf(out@, self.on_turn()),
                start.len() <= out@.len(),
                out@.take(start.len() as int) == start,
                boards_of(out@) =~= boards_of(start).union(
                    if descending {
                        moves_in(b, d, hi - k + 1, hi as int)
                    } else {
                        moves_in(b, d, lo as int, lo + k - 1)
                    },
                ),
            decreases n - k,
        {
            let from: usize = if descending {
                hi - k
            } else {
                lo + k
            };
            let ghost before = out@;
            let ghost done = if descending {
                moves_in(b, d, hi - k + 1, hi as int)
            } else {
                moves_in(b, d, lo as int, lo + k - 1)
            };
            let ghost next = if descending {
                moves_in(b, d, hi - k, hi as int)
            } else {
                moves_in(b, d, lo as int, lo + k)
            };
            let ok = if bar_empty && from <= 24 {
                self.can_move_when_bearoff_is_legal(from, die)
            } else {
                self.can_move(from, die)
            };
            assert(ok == b.can_move(from as int, d));
            if ok {
                let position = self.clone_and_move_single_checker(from, die);
                push_new(out, position);
                proof {
                    assert(next =~= done.insert(position@)) by {
                        assert forall|q: Board| next.contains(q) implies done.insert(
                            position@,
                        ).contains(q) by {
                            let f = choose|f: int|
                                (if descending {
                                    hi - k
                                } else {
                                    lo as int
                                }) <= f <= (if descending {
                                    hi as int
                                } else {
                                    lo + k
                                }) && #[trigger] b.can_move(f, d) && b.do_move(f, d) == q;
                            if f != from {
                                assert(done.contains(q));
                            }
                        }
                        assert forall|q: Board| done.insert(position@).contains(
                            q,
                        ) implies next.contains(q) by {
                            if q == position@ {
                                assert(b.can_move(from as int, d));
                            } else {
                                let f = choose|f: int|
                                    (if descending {
                                        hi - k + 1
                                    } else {
                                        lo as int
                                    }) <= f <= (if descending {
                                        hi as int
                                    } else {
                                        lo + k - 1
                                    }) && #[trigger] b.can_move(f, d) && b.do_move(f, d) == q;
                            }
                        }
                    }
                    assert(out@.take(start.len() as int) =~= start);
                    assert forall|i: int| 0 <= i < out@.len() implies (#[trigger] out@[i]).wf()
                        && out@[i].on_turn() == self.on_turn() by {
                        if i < before.len() {
                            assert(before[i].wf());
                        }
                    }
                }
            } else {
                proof {
                    assert(next =~= done) by {
                        assert forall|q: Board| next.contains(q) implies done.contains(q) by {
                            let f = choose|f: int|
                                (if descending {
                                    hi - k
                                } else {
                                    lo as int
                                }) <= f <= (if descending {
                                    hi as int
                                } else {
                                    lo + k
                                }) && #[trigger] b.can_move(f, d) && b.do_move(f, d) == q;
                            assert(f != from);
                        }
                        assert forall|q: Board| done.contains(q) implies next.contains(q) by {
                            let f = choose|f: int|
                                (if descending {
                                    hi - k + 1
                                } else {
                                    lo as int
                                }) <= f <= (if descending {
                                    hi as int
                                } else {
                                    lo + k - 1
                                }) && #[trigger] b.can_move(f, d) && b.do_move(f, d) == q;
                        }
                    }
                }
            }
            k += 1;
        }
        proof {
            let done = if descending {
                moves_in(b, d, hi - n + 1, hi as int)
            } else {
                moves_in(b, d, lo as int, lo + n - 1)
            };
            assert(done =~= moves_in(b, d, lo as int, hi as int));
        }
    }
}

impl<const N: u8> Position<N> {
    /// Appends to `out` the positions after two legal moves, the first with
    /// `d1`, the second with `d2` from a point that `span` admits; both
    /// checkers are looked for from the highest point down if `descending`,
    /// else from the lowest up. A position whose board is in `out` already is
    /// left out.
    pub fn push_two(
        &self,
        d1: usize,
        d2: usize,
        span: Second,
        descending: bool,
        out: &mut Vec<Self>,
    )
        requires
            self.wf(),
            1 <= d1 <= 6,
            1 <= d2 <= 6,
            distinct(old(out)@),
            all_wf(old(out)@, self.on_turn()),
        ensures
            distinct(final(out)@),
            all_wf(final(out)@, self.on_turn()),
            boards_of(final(out)@) =~= boards_of(old(out)@).union(
                two_moves(self@, d1 as int, d2 as int, 1, 25, span),
            ),
            old(out)@.len() <= final(out)@.len(),
            final(out)@.take(old(out)@.len() as int) == old(out)@,
    {
        let ghost b = self@;
        let ghost start = out@;
        let mut k: usize = 0;
        proof {
            assert(two_moves(b, d1 as int, d2 as int, 26, 25, span) =~= Set::empty());
            assert(two_moves(b, d1 as int, d2 as int, 1, 0, span) =~= Set::empty());
            assert(out@.take(start.len() as int) =~= start);
        }
        while k < 25
            invariant
                self.wf(),
                self@ == b,
                1 <= d1 <= 6,
                1 <= d2 <= 6,
                k <= 25,
                distinct(out@),
                all_wf(out@, self.on_turn()),
                start.len() <= out@.len(),
                out@.take(start.len() as int) == start,
                boards_of(out@) =~= boards_of(start).union(
                    if descending {
                        two_moves(b, d1 as int, d2 as int, 26 - k, 25, span)
                    } else {
                        two_moves(b, d1 as int, d2 as int, 1, k as int, span)
                    },
                ),
            decreases 25 - k,
        {
            let first: usize = if descending {
                25 - k
            } else {
                1 + k
            };
            proof {
                if descending {
                    lemma_two_moves_extend(b, d1 as int, d2 as int, 26 - k, 25, span, first as int);
                } else {
                    lemma_two_moves_extend(b, d1 as int, d2 as int, 1, k as int, span, first as int);
                }
            }
            if self.can_move(first, d1) {
                let position = self.clone_and_move_single_checker(first, d1);
                let ghost before = out@;
                let hi: usize = match span {
                    Second::UpTo => first,
                    Second::Any => 25,
                };
                position.push_moves(d2, 1, hi, descending, out);
                proof {
                    assert(out@.take(start.len() as int) =~= before.take(start.len() as int)) by {
                        assert(out@.take(before.len() as int) == before);
                    }
                }
            }
            k += 1;
        }
    }
}

impl<const N: u8> Position<N> {
    /// Appends to `out` the positions after two legal moves, the first with
    /// `d1` and the second with `d2` from a lower point, both looked for
    /// from the lowest point up. The second move is not looked for where the
    /// first checker would go on and neither die would hit on its way: the
    /// same checker playing `d2` first gives the same position. A position
    /// whose board is in `out` already is left out.
    pub fn push_other_order(&self, d1: usize, d2: usize, out: &mut Vec<Self>)
        requires
            self.wf(),
            1 <= d1 <= 6,
            1 <= d2 <= 6,
            distinct(old(out)@),
            all_wf(old(out)@, self.on_turn()),
        ensures
            distinct(final(out)@),
            all_wf(final(out)@, self.on_turn()),
            boards_of(final(out)@) =~= boards_of(old(out)@).union(
                other_order(self@, d1 as int, d2 as int, 1, 25),
            ),
            old(out)@.len() <= final(out)@.len(),
            final(out)@.take(old(out)@.len() as int) == old(out)@,
    {
        let ghost b = self@;
        let ghost start = out@;
        proof {
            assert(other_order(b, d1 as int, d2 as int, 1, 0) =~= Set::empty());
            assert(out@.take(start.len() as int) =~= start);
        }
        let mut first: usize = 1;
        while first <= 25
            invariant
                self.wf(),
                self@ == b,
                1 <= d1 <= 6,
                1 <= d2 <= 6,
                1 <= first <= 26,
                distinct(out@),
                all_wf(out@, self.on_turn()),
                start.len() <= out@.len(),
                out@.take(start.len() as int) == start,
                boards_of(out@) =~= boards_of(start).union(
                    other_order(b, d1 as int, d2 as int, 1, first - 1),
                ),
            decreases 26 - first,
        {
            proof {
                lemma_other_order_extend(b, d1 as int, d2 as int, first - 1);
            }
            if self.can_move(first, d1) {
                let position = self.clone_and_move_single_checker(first, d1);
                let ghost before = out@;
                let same_outcome = first > d1 && first > d2 && self.pip(first - d1) >= 0
                    && self.pip(first - d2) >= 0;
                if same_outcome {
                    let omitted = first - d1;
                    position.push_moves(d2, 1, omitted - 1, false, out);
                    let ghost between = out@;
                    position.push_moves(d2, omitted + 1, first - 1, false, out);
                    proof {
                        assert(out@.take(before.len() as int) =~= before) by {
                            assert(out@.take(between.len() as int) == between);
                            assert(between.take(before.len() as int) == before);
                        }
                    }
                } else {
                    position.push_moves(d2, 1, first - 1, false, out);
                }
                proof {
                    assert(out@.take(start.len() as int) =~= start) by {
                        assert(out@.take(before.len() as int) == before);
                        assert(before.take(start.len() as int) == start);
                    }
                }
            }
            first += 1;
        }
    }
}

} // verus!
