//! A number for each position, made for tables of all positions of a small
//! variant: positions with different boards get different numbers.
use crate::board::{lemma_count_nonneg, o_count, x_count, Board};
use crate::position::Position;
use crate::utils::{mcomb, multiset_coefficient};
use vstd::prelude::*;

verus! {

/// Number of places that a checker can be on: 24 points and two bars.
pub const PLACES: usize = 26;

/// The checkers of `x` that stand above the point `i`, the bar counted.
pub open spec fn x_left(b: Board, i: int) -> int {
    x_count(b.pips, 26) - x_count(b.pips, i + 1) + x_count(b.pips, 1)
}

/// The checkers of `o` that stand above the point `i` or on the bar.
pub open spec fn o_left(b: Board, i: int) -> int {
    o_count(b.pips, 26) - o_count(b.pips, i + 1) + o_count(b.pips, 1)
}

/// The number of ways to put fewer than `left` checkers on `places` places.
pub open spec fn ways(places: int, left: int) -> nat {
    if left > 0 {
        multiset_coefficient(places as nat, (left - 1) as nat)
    } else {
        0
    }
}

/// The index of the checkers of one side among all ways to place them,
/// looked at up to the point `upto`: `left(i)` tells how many stand above
/// the point `i`.
pub open spec fn index_upto(b: Board, of_o: bool, upto: int) -> nat
    decreases upto,
{
    let left = if of_o {
        o_left(b, upto)
    } else {
        x_left(b, upto)
    };
    if upto <= 0 {
        ways(26, left)
    } else {
        index_upto(b, of_o, upto - 1) + ways(26 - upto, left)
    }
}

impl Board {
    /// The number of the board in a game with `n` checkers per side: the
    /// index of the checkers of `x`, times the number of ways to place `n`
    /// checkers, plus the index of the checkers of `o`.
    pub open spec fn dbhash(self, n: int) -> nat {
        index_upto(self, false, 24) * multiset_coefficient(26, n as nat) + index_upto(
            self,
            true,
            24,
        )
    }
}

/// The counts grow with the range that is counted.
pub proof fn lemma_count_monotonic(pips: Seq<int>, i: int, j: int)
    requires
        i <= j,
    ensures
        x_count(pips, i) <= x_count(pips, j),
        o_count(pips, i) <= o_count(pips, j),
    decreases j - i,
{
    lemma_count_nonneg(pips, i);
    if i < j {
        lemma_count_monotonic(pips, i, j - 1);
    }
}

/// An index grows with the points that are looked at.
pub proof fn lemma_index_monotonic(b: Board, of_o: bool, i: int, j: int)
    requires
        0 <= i <= j,
    ensures
        index_upto(b, of_o, i) <= index_upto(b, of_o, j),
    decreases j - i,
{
    if i < j {
        lemma_index_monotonic(b, of_o, i, j - 1);
    }
}

/// The number of multisets of `k` things of two kinds at least is not zero.
pub proof fn lemma_multisets_exist(n: nat, k: nat)
    requires
        n >= 2,
    ensures
        multiset_coefficient(n, k) >= 1,
{
    lemma_binomial_positive((n + k - 1) as nat, k);
}

/// Of `n` things, `k` can be chosen in one way at least, unless there are
/// too few or none at all.
pub proof fn lemma_binomial_positive(n: nat, k: nat)
    requires
        n >= 1,
        k <= n,
    ensures
        crate::utils::binomial(n, k) >= 1,
    decreases n,
{
    if k != 0 && n != k {
        lemma_binomial_positive((n - 1) as nat, k);
    }
}

impl<const N: u8> Position<N> {
    /// The number of the position fits the machine's numbers.
    pub open spec fn has_dbhash(&self) -> bool {
        self@.dbhash(N as int) <= usize::MAX
    }

    /// The number of the position among the positions of its variant.
    /// Positions with equal boards have the same number.
    pub fn dbhash(&self) -> (r: usize)
        requires
            self.wf(),
            self.has_dbhash(),
        ensures
            r == self@.dbhash(N as int),
    {
        let ghost b = self@;
        let ghost all = multiset_coefficient(26, N as nat);
        let ghost x_all = index_upto(b, false, 24);
        let ghost o_all = index_upto(b, true, 24);
        proof {
            self.lemma_cells();
            lemma_multisets_exist(26, N as nat);
            lemma_count_nonneg(b.pips, 26);
            lemma_count_nonneg(b.pips, 1);
            assert(x_all <= x_all * all) by (nonlinear_arith)
                requires
                    all >= 1,
                    x_all >= 0,
            ;
            assert(x_all >= 1 ==> all <= x_all * all) by (nonlinear_arith)
                requires
                    all >= 1,
            ;
            assert(x_count(b.pips, 0) == 0);
            assert(x_count(b.pips, 1) == 0);
            lemma_index_monotonic(b, false, 0, 24);
            lemma_index_monotonic(b, true, 0, 24);
        }
        let mut x_remaining: usize = (N - self.x_off()) as usize;
        let mut o_remaining: usize = (N - self.o_off()) as usize;
        let mut x_index: usize = if x_remaining > 0 {
            mcomb(PLACES, x_remaining - 1)
        } else {
            0
        };
        let mut o_index: usize = if o_remaining > 0 {
            mcomb(PLACES, o_remaining - 1)
        } else {
            0
        };
        let mut i: usize = 1;
        while i <= 24
            invariant
                1 <= i <= 25,
                self.wf(),
                self@ == b,
                x_all == index_upto(b, false, 24),
                o_all == index_upto(b, true, 24),
                x_all <= usize::MAX,
                o_all <= usize::MAX,
                x_count(b.pips, 1) == 0,
                x_remaining <= N,
                o_remaining <= N,
                forall|k: int| 0 <= k < 26 ==> -N <= #[trigger] b.pips[k] <= N,
                x_remaining == x_left(b, i - 1),
                o_remaining == o_left(b, i - 1),
                x_index == index_upto(b, false, i - 1),
                o_index == index_upto(b, true, i - 1),
            decreases 25 - i,
        {
            let n = self.pip(i);
            proof {
                lemma_count_monotonic(b.pips, i + 1, 26);
                lemma_count_nonneg(b.pips, 1);
                lemma_index_monotonic(b, false, i as int, 24);
                lemma_index_monotonic(b, true, i as int, 24);
            }
            if n < 0 {
                o_remaining -= (-n) as usize;
            } else if n > 0 {
                x_remaining -= n as usize;
            }
            if o_remaining > 0 {
                o_index += mcomb(PLACES - i, o_remaining - 1);
            }
            if x_remaining > 0 {
                x_index += mcomb(PLACES - i, x_remaining - 1);
            }
            i += 1;
        }
        if x_index == 0 {
            assert(x_all * all == 0) by (nonlinear_arith)
                requires
                    x_all == 0,
            ;
            o_index
        } else {
            x_index * mcomb(PLACES, N as usize) + o_index
        }
    }
}

} // verus!
