//! The 10-byte key of a position: the checkers of both sides as runs of
//! one-bits, each run closed by a zero-bit.
//!
//! The runs are, in this order: the checkers of `o` on the points 24 down to
//! 1, the checkers of `o` on the bar, the checkers of `x` on the points 1 up
//! to 24, the checkers of `x` on the bar. The bits fill each byte from its
//! lowest bit up, the first byte first, and zero-bits fill what is left.
use crate::board::{lemma_flip_keeps_wf, o_count, x_count, Board};
use crate::position::Position;
use crate::raw::cells;
use vstd::prelude::*;

verus! {

/// Number of runs in a key.
pub const RUNS: usize = 50;

/// Number of bits in a key.
pub const KEY_BITS: usize = 80;

/// The lengths of the 50 runs that stand for the board.
pub open spec fn counts(b: Board) -> Seq<int> {
    Seq::new(
        50,
        |k: int|
            if k < 24 {
                if b.pips[24 - k] < 0 {
                    -b.pips[24 - k]
                } else {
                    0
                }
            } else if k == 24 {
                if b.pips[0] < 0 {
                    -b.pips[0]
                } else {
                    0
                }
            } else {
                if b.pips[k - 24] > 0 {
                    b.pips[k - 24]
                } else {
                    0
                }
            },
    )
}

/// The bit at which run `k` starts when the runs before it have the lengths
/// `c` and each is closed by one bit.
pub open spec fn run_start(c: Seq<int>, k: int) -> int
    decreases k,
{
    if k <= 0 {
        0
    } else {
        run_start(c, k - 1) + c[k - 1] + 1
    }
}

/// Bit `j` of the byte `b`, counted from the lowest.
pub open spec fn byte_bit(b: u8, j: u8) -> bool {
    (b >> j) & 1u8 == 1u8
}

/// Bit `i` of the key; beyond the key every bit is zero.
pub open spec fn bit(key: Seq<u8>, i: int) -> bool {
    0 <= i < 80 && byte_bit(key[i / 8], (i % 8) as u8)
}

/// From bit `start` on the key holds `n` one-bits and then a zero-bit.
pub open spec fn run(key: Seq<u8>, start: int, n: int) -> bool {
    &&& forall|i: int| start <= i < start + n ==> #[trigger] bit(key, i)
    &&& !bit(key, start + n)
}

/// The first `upto` runs of the key have the lengths `c`.
pub open spec fn runs_match(key: Seq<u8>, c: Seq<int>, upto: int) -> bool {
    forall|k: int| 0 <= k < upto ==> run(key, #[trigger] run_start(c, k), c[k])
}

/// The key holds the runs of the board, whatever follows them.
pub open spec fn holds(key: Seq<u8>, b: Board) -> bool {
    key.len() == 10 && runs_match(key, counts(b), 50)
}

/// The key is the key of the board: it holds the runs of the board and
/// zero-bits after them.
pub open spec fn is_key_of(key: Seq<u8>, b: Board) -> bool {
    &&& holds(key, b)
    &&& run_start(counts(b), 50) <= 81
    &&& forall|i: int| run_start(counts(b), 50) - 1 <= i ==> !#[trigger] bit(key, i)
}

/// Run starts grow with the runs.
pub proof fn lemma_run_start_grows(c: Seq<int>, j: int, k: int)
    requires
        0 <= j <= k <= c.len(),
        forall|i: int| 0 <= i < c.len() ==> c[i] >= 0,
    ensures
        run_start(c, j) + (k - j) <= run_start(c, k),
        j < k ==> run_start(c, j) + c[j] + 1 <= run_start(c, k),
    decreases k - j,
{
    if j < k {
        lemma_run_start_grows(c, j, k - 1);
    }
}

/// The start of a run depends on the runs before it only.
pub proof fn lemma_run_start_prefix(c1: Seq<int>, c2: Seq<int>, k: int)
    requires
        0 <= k <= c1.len(),
        k <= c2.len(),
        forall|i: int| 0 <= i < k ==> c1[i] == c2[i],
    ensures
        run_start(c1, k) == run_start(c2, k),
    decreases k,
{
    if k > 0 {
        lemma_run_start_prefix(c1, c2, k - 1);
    }
}

/// A key holds one sequence of runs only.
pub proof fn lemma_runs_unique(key: Seq<u8>, c1: Seq<int>, c2: Seq<int>, upto: int)
    requires
        0 <= upto <= c1.len(),
        upto <= c2.len(),
        forall|i: int| 0 <= i < upto ==> c1[i] >= 0 && c2[i] >= 0,
        runs_match(key, c1, upto),
        runs_match(key, c2, upto),
    ensures
        forall|i: int| 0 <= i < upto ==> c1[i] == c2[i],
    decreases upto,
{
    if upto > 0 {
        let k = upto - 1;
        assert(runs_match(key, c1, k)) by {
            assert forall|j: int| 0 <= j < k implies run(key, #[trigger] run_start(c1, j), c1[j]) by {}
        }
        assert(runs_match(key, c2, k)) by {
            assert forall|j: int| 0 <= j < k implies run(key, #[trigger] run_start(c2, j), c2[j]) by {}
        }
        lemma_runs_unique(key, c1, c2, k);
        lemma_run_start_prefix(c1, c2, k);
        let s = run_start(c1, k);
        assert(run(key, run_start(c1, k), c1[k]));
        assert(run(key, run_start(c2, k), c2[k]));
        if c1[k] < c2[k] {
            assert(bit(key, s + c1[k]));
        } else if c2[k] < c1[k] {
            assert(bit(key, s + c2[k]));
        }
    }
}

/// Two consistent boards with the same runs are the same board.
pub proof fn lemma_counts_injective(b1: Board, b2: Board, n: int)
    requires
        b1.wf(n),
        b2.wf(n),
        counts(b1) == counts(b2),
    ensures
        b1 == b2,
{
    let c1 = counts(b1);
    let c2 = counts(b2);
    assert forall|i: int| 0 <= i < 26 implies b1.pips[i] == b2.pips[i] by {
        if i == 0 {
            assert(c1[24] == c2[24]);
        } else if i == 25 {
            assert(c1[49] == c2[49]);
        } else {
            assert(c1[24 - i] == c2[24 - i]);
            assert(c1[24 + i] == c2[24 + i]);
        }
    }
    assert(b1.pips =~= b2.pips);
}

/// A key holds the runs of one consistent board at most.
pub proof fn lemma_key_board_unique(key: Seq<u8>, b1: Board, b2: Board, n: int)
    requires
        b1.wf(n),
        b2.wf(n),
        holds(key, b1),
        holds(key, b2),
    ensures
        b1 == b2,
{
    lemma_runs_unique(key, counts(b1), counts(b2), 50);
    assert(counts(b1) =~= counts(b2));
    lemma_counts_injective(b1, b2, n);
}

/// Where the runs of a board start: each run adds its checkers and the bit
/// that closes it.
pub proof fn lemma_run_starts(b: Board, k: int)
    requires
        b.pips.len() == 26,
        b.pips[0] <= 0,
        b.pips[25] >= 0,
        0 <= k <= 50,
    ensures
        k <= 24 ==> run_start(counts(b), k) == k + o_count(b.pips, 25) - o_count(b.pips, 25 - k),
        25 <= k <= 49 ==> run_start(counts(b), k) == k + o_count(b.pips, 26) + x_count(
            b.pips,
            k - 24,
        ),
        k == 50 ==> run_start(counts(b), k) == 50 + o_count(b.pips, 26) + x_count(b.pips, 26),
    decreases k,
{
    if k > 0 {
        lemma_run_starts(b, k - 1);
        assert(counts(b)[k - 1] == if k - 1 < 24 {
            if b.pips[25 - k] < 0 {
                -b.pips[25 - k]
            } else {
                0int
            }
        } else if k - 1 == 24 {
            if b.pips[0] < 0 {
                -b.pips[0]
            } else {
                0int
            }
        } else {
            if b.pips[k - 25] > 0 {
                b.pips[k - 25]
            } else {
                0int
            }
        });
        if k == 25 {
            assert(o_count(b.pips, 0) == 0);
            assert(x_count(b.pips, 0) == 0);
        }
    }
}

/// The key of a consistent board of a game with 15 checkers per side at
/// most has room for all its runs.
pub proof fn lemma_key_has_room(b: Board, n: int)
    requires
        b.wf(n),
        n <= 15,
    ensures
        run_start(counts(b), 50) <= 81,
{
    lemma_run_starts(b, 50);
}

/// Two keys that hold the same runs agree on every bit of those runs.
pub proof fn lemma_run_bits(key1: Seq<u8>, key2: Seq<u8>, c: Seq<int>, k: int)
    requires
        0 <= k <= c.len(),
        forall|i: int| 0 <= i < c.len() ==> c[i] >= 0,
        runs_match(key1, c, k),
        runs_match(key2, c, k),
    ensures
        forall|i: int| i < run_start(c, k) ==> bit(key1, i) == bit(key2, i),
    decreases k,
{
    if k > 0 {
        assert(runs_match(key1, c, k - 1)) by {
            assert forall|j: int| 0 <= j < k - 1 implies run(key1, #[trigger] run_start(c, j), c[j]) by {}
        }
        assert(runs_match(key2, c, k - 1)) by {
            assert forall|j: int| 0 <= j < k - 1 implies run(key2, #[trigger] run_start(c, j), c[j]) by {}
        }
        lemma_run_bits(key1, key2, c, k - 1);
        assert(run(key1, run_start(c, k - 1), c[k - 1]));
        assert(run(key2, run_start(c, k - 1), c[k - 1]));
    }
}

/// A byte is its eight bits.
pub proof fn lemma_byte_of_bits(a: u8, b: u8)
    requires
        forall|j: u8| j < 8 ==> byte_bit(a, j) == byte_bit(b, j),
    ensures
        a == b,
{
    assert(byte_bit(a, 0) == byte_bit(b, 0));
    assert(byte_bit(a, 1) == byte_bit(b, 1));
    assert(byte_bit(a, 2) == byte_bit(b, 2));
    assert(byte_bit(a, 3) == byte_bit(b, 3));
    assert(byte_bit(a, 4) == byte_bit(b, 4));
    assert(byte_bit(a, 5) == byte_bit(b, 5));
    assert(byte_bit(a, 6) == byte_bit(b, 6));
    assert(byte_bit(a, 7) == byte_bit(b, 7));
    assert(a == b) by (bit_vector)
        requires
            byte_bit(a, 0) == byte_bit(b, 0),
            byte_bit(a, 1) == byte_bit(b, 1),
            byte_bit(a, 2) == byte_bit(b, 2),
            byte_bit(a, 3) == byte_bit(b, 3),
            byte_bit(a, 4) == byte_bit(b, 4),
            byte_bit(a, 5) == byte_bit(b, 5),
            byte_bit(a, 6) == byte_bit(b, 6),
            byte_bit(a, 7) == byte_bit(b, 7),
    ;
}

/// A board has one key.
pub proof fn lemma_key_unique(key1: Seq<u8>, key2: Seq<u8>, b: Board)
    requires
        is_key_of(key1, b),
        is_key_of(key2, b),
    ensures
        key1 == key2,
{
    let c = counts(b);
    lemma_run_bits(key1, key2, c, 50);
    assert forall|m: int| 0 <= m < 10 implies key1[m] == key2[m] by {
        assert forall|j: u8| j < 8 implies byte_bit(key1[m], j) == byte_bit(key2[m], j) by {
            let i = 8 * m + j;
            assert(i / 8 == m && i % 8 == j);
            assert(bit(key1, i) == bit(key2, i));
        }
        lemma_byte_of_bits(key1[m], key2[m]);
    }
    assert(key1 =~= key2);
}

/// The lengths of runs as they are kept while a key is read.
pub open spec fn run_seq(runs: [u8; 50]) -> Seq<int> {
    Seq::new(50, |k: int| runs[k] as int)
}

/// The cells of the points below `upto` hold what the runs say, and no point
/// has a run of both sides.
pub open spec fn filled(pips: [i8; 26], runs: [u8; 50], upto: int) -> bool {
    forall|i: int| 1 <= i < upto ==> #[trigger] cell_filled(pips, runs, i)
}

/// The cell of point `i` holds what the runs say: the checkers of the one
/// side that has a run there.
pub open spec fn cell_filled(pips: [i8; 26], runs: [u8; 50], i: int) -> bool {
    &&& runs[24 - i] == 0 || runs[24 + i] == 0
    &&& pips[i] == runs[24 + i] - runs[24 - i]
}

/// Filling the cell of one more point.
pub proof fn lemma_fill_step(before: [i8; 26], after: [i8; 26], runs: [u8; 50], point: int)
    requires
        1 <= point <= 24,
        filled(before, runs, point),
        forall|i: int| 0 <= i < 26 && i != point ==> after[i] == before[i],
        after[point] == runs[24 + point] - runs[24 - point],
        runs[24 - point] == 0 || runs[24 + point] == 0,
    ensures
        filled(after, runs, point + 1),
        after[0] == before[0],
        after[25] == before[25],
{
    assert forall|i: int| 1 <= i < point + 1 implies #[trigger] cell_filled(after, runs, i) by {
        if i < point {
            assert(cell_filled(before, runs, i));
        }
    }
}

/// Cells filled from runs have those runs.
pub proof fn lemma_counts_of_filled(pips: [i8; 26], runs: [u8; 50])
    requires
        filled(pips, runs, 25),
        pips[0] == -runs[24],
        pips[25] == runs[49],
    ensures
        counts(Board { pips: cells(pips), x_off: 0, o_off: 0 }) =~= run_seq(runs),
{
    let b = Board { pips: cells(pips), x_off: 0, o_off: 0 };
    assert forall|k: int| 0 <= k < 50 implies counts(b)[k] == run_seq(runs)[k] by {
        if k < 24 {
            assert(cell_filled(pips, runs, 24 - k));
        } else if 24 < k < 49 {
            assert(cell_filled(pips, runs, k - 24));
        }
    }
}

/// Bit `i` of the key; beyond the key every bit is zero.
pub fn bit_at(key: &[u8; 10], i: usize) -> (r: bool)
    ensures
        r == bit(key@, i as int),
{
    if i >= KEY_BITS {
        false
    } else {
        let shift: u8 = (i % 8) as u8;
        (key[i / 8] >> shift) & 1u8 == 1u8
    }
}

/// Reads the 50 runs of a key. Every key has them: a run that the key has
/// no bit left for is empty.
pub fn read_runs(key: &[u8; 10]) -> (runs: [u8; 50])
    ensures
        runs_match(key@, run_seq(runs), 50),
        forall|k: int| 0 <= k < 50 ==> (#[trigger] runs[k]) <= 80,
{
    let mut runs = [0u8; 50];
    let mut bit_index: usize = 0;
    let mut k: usize = 0;
    while k < 50
        invariant
            k <= 50,
            bit_index <= 81 * k,
            bit_index == run_start(run_seq(runs), k as int),
            runs_match(key@, run_seq(runs), k as int),
            forall|j: int| 0 <= j < 50 ==> (#[trigger] runs[j]) <= 80,
        decreases 50 - k,
    {
        let mut n: u8 = 0;
        while bit_at(key, bit_index + n as usize)
            invariant
                n <= 80,
                bit_index <= 81 * 50,
                forall|i: int| bit_index <= i < bit_index + n ==> #[trigger] bit(key@, i),
            decreases 80 - n,
        {
            n += 1;
        }
        let ghost before = run_seq(runs);
        runs[k] = n;
        proof {
            let after = run_seq(runs);
            assert forall|j: int| 0 <= j <= k implies run_start(after, j) == run_start(
                before,
                j,
            ) by {
                lemma_run_start_prefix(before, after, j);
            }
            assert forall|j: int| 0 <= j < k + 1 implies run(
                key@,
                #[trigger] run_start(after, j),
                after[j],
            ) by {
                if j < k {
                    assert(run(key@, run_start(before, j), before[j]));
                }
            }
        }
        bit_index += n as usize + 1;
        k += 1;
    }
    runs
}

/// `r` is what the key stands for in a game with `N` checkers per side: the
/// consistent position with `x` on turn whose runs the key holds, or nothing
/// if there is no such position.
pub open spec fn is_decoding<const N: u8>(key: Seq<u8>, r: Option<Position<N>>) -> bool {
    match r {
        Some(p) => p.wf() && p.on_turn() && holds(key, p@),
        None => forall|b: Board| b.wf(N as int) ==> !holds(key, b),
    }
}

/// Sets bit `i` of the key.
pub fn set_bit(key: &mut [u8; 10], i: usize)
    requires
        i < 80,
    ensures
        forall|j: int| bit(final(key)@, j) == (bit(old(key)@, j) || j == i),
{
    let ghost before = *key;
    let shift: u8 = (i % 8) as u8;
    let byte = key[i / 8];
    let mask: u8 = 1u8 << shift;
    key[i / 8] = byte | mask;
    proof {
        assert forall|j: int| bit(key@, j) == (bit(before@, j) || j == i) by {
            if 0 <= j < 80 {
                let other: u8 = (j % 8) as u8;
                if j / 8 == i / 8 {
                    assert(byte_bit(byte | (1u8 << shift), other) == (byte_bit(byte, other) || other
                        == shift)) by (bit_vector)
                        requires
                            shift < 8,
                            other < 8,
                    ;
                } else {
                    assert(key@[j / 8] == before@[j / 8]);
                }
            }
        }
    }
}

impl<const N: u8> Position<N> {
    /// The board as the side on roll sees it: the board itself while `x` is
    /// on turn, else the board flipped.
    pub open spec fn board_on_roll(&self) -> Board {
        if self.on_turn() {
            self@
        } else {
            self@.flip()
        }
    }

    /// The runs of the position take 80 bits at most, so a key has room for
    /// them. It holds of every position of a game with 15 checkers per side
    /// at most.
    pub open spec fn fits_key(&self) -> bool {
        run_start(counts(self.board_on_roll()), 50) <= 81
    }

    /// A consistent position of a game with 15 checkers per side at most has
    /// a key.
    pub proof fn lemma_fits_key(&self)
        requires
            self.wf(),
            N <= 15,
        ensures
            self.fits_key(),
    {
        lemma_flip_keeps_wf(self@, N as int);
        lemma_key_has_room(self.board_on_roll(), N as int);
    }

    /// Whether a key has room for the runs of the position: whether 31
    /// checkers at most are on the board and the bars.
    pub fn has_key(&self) -> (r: bool)
        requires
            self.wf(),
        ensures
            r == self.fits_key(),
    {
        proof {
            self.lemma_cells();
            lemma_flip_keeps_wf(self@, N as int);
            let b = self.board_on_roll();
            assert(b.wf(N as int));
            lemma_run_starts(b, 50);
            assert(x_count(b.pips, 26) + o_count(b.pips, 26) == 2 * N - self@.x_off
                - self@.o_off);
        }
        let on_board: u16 = (N - self.x_off()) as u16 + (N - self.o_off()) as u16;
        on_board <= 31
    }

    /// The length of run `k` of the position.
    pub fn run_length(&self, k: usize) -> (r: u8)
        requires
            self.wf(),
            k < 50,
        ensures
            r == counts(self@)[k as int],
    {
        proof {
            self.lemma_cells();
        }
        if k < 24 {
            let v = self.pip(24 - k);
            if v < 0 {
                (-v) as u8
            } else {
                0
            }
        } else if k == 24 {
            let v = self.pip(0);
            if v < 0 {
                (-v) as u8
            } else {
                0
            }
        } else {
            let v = self.pip(k - 24);
            if v > 0 {
                v as u8
            } else {
                0
            }
        }
    }

    /// The key of the position as the side on roll sees it.
    pub fn encode(&self) -> (key: [u8; 10])
        requires
            self.wf(),
            self.fits_key(),
        ensures
            is_key_of(key@, self.board_on_roll()),
    {
        let on_roll = if self.turn() {
            *self
        } else {
            self.flip()
        };
        let ghost c = counts(on_roll@);
        proof {
            on_roll.lemma_cells();
            assert forall|i: int| 0 <= i < 50 implies c[i] >= 0 by {}
        }
        let mut key = [0u8; 10];
        proof {
            assert forall|i: int| !#[trigger] bit(key@, i) by {
                if 0 <= i < 80 {
                    let j: u8 = (i % 8) as u8;
                    assert(!byte_bit(0u8, j)) by (bit_vector);
                }
            }
        }
        let mut bit_index: usize = 0;
        let mut k: usize = 0;
        while k < 50
            invariant
                k <= 50,
                on_roll.wf(),
                c == counts(on_roll@),
                forall|i: int| 0 <= i < 50 ==> c[i] >= 0,
                run_start(c, 50) <= 81,
                bit_index == run_start(c, k as int),
                runs_match(key@, c, k as int),
                forall|i: int| bit_index <= i ==> !#[trigger] bit(key@, i),
            decreases 50 - k,
        {
            let n = on_roll.run_length(k);
            let ghost at_start = key;
            proof {
                lemma_run_start_grows(c, k as int, 50);
            }
            let mut m: u8 = 0;
            while m < n
                invariant
                    m <= n,
                    bit_index + n <= 80,
                    forall|i: int| i < bit_index ==> bit(key@, i) == bit(at_start@, i),
                    forall|i: int| bit_index <= i < bit_index + m ==> #[trigger] bit(key@, i),
                    forall|i: int| bit_index + m <= i ==> !#[trigger] bit(key@, i),
                decreases n - m,
            {
                set_bit(&mut key, bit_index + m as usize);
                m += 1;
            }
            proof {
                assert forall|j: int| 0 <= j < k + 1 implies run(
                    key@,
                    #[trigger] run_start(c, j),
                    c[j],
                ) by {
                    if j < k {
                        lemma_run_start_grows(c, j, k as int);
                        assert(run(at_start@, run_start(c, j), c[j]));
                    }
                }
            }
            bit_index += n as usize + 1;
            k += 1;
        }
        proof {
            assert(run(key@, run_start(c, 49), c[49]));
            assert(on_roll@ == self.board_on_roll());
        }
        key
    }

    /// The position that the key stands for, with `x` on turn. The checkers
    /// that the key does not hold have been borne off. There is none if the
    /// key holds more than `N` checkers of one side, or checkers of both
    /// sides on one point. Bits after the last run are not looked at.
    pub fn decode(key: [u8; 10]) -> (r: Option<Self>)
        requires
            N <= 127,
        ensures
            is_decoding(key@, r),
    {
        let runs = read_runs(&key);
        let ghost c = run_seq(runs);
        let mut pips = [0i8; 26];
        pips[0] = -(runs[24] as i8);
        pips[25] = runs[49] as i8;
        let mut point: usize = 1;
        while point <= 24
            invariant
                1 <= point <= 25,
                c == run_seq(runs),
                runs_match(key@, c, 50),
                forall|k: int| 0 <= k < 50 ==> (#[trigger] runs[k]) <= 80,
                pips[0] == -runs[24],
                pips[25] == runs[49],
                filled(pips, runs, point as int),
            decreases 25 - point,
        {
            let o = runs[24 - point];
            let x = runs[24 + point];
            if o > 0 && x > 0 {
                proof {
                    assert forall|b: Board| b.wf(N as int) implies !holds(key@, b) by {
                        if holds(key@, b) {
                            lemma_runs_unique(key@, counts(b), c, 50);
                            assert(counts(b)[24 - point] == c[24 - point]);
                            assert(counts(b)[24 + point] == c[24 + point]);
                        }
                    }
                }
                return None;
            }
            let ghost before = pips;
            pips[point] = x as i8 - o as i8;
            proof {
                lemma_fill_step(before, pips, runs, point as int);
            }
            point += 1;
        }
        proof {
            lemma_counts_of_filled(pips, runs);
        }
        match Self::try_from(pips) {
            Ok(p) => {
                proof {
                    assert(counts(p@) =~= counts(Board { pips: cells(pips), x_off: 0, o_off: 0 }));
                }
                Some(p)
            },
            Err(_) => {
                proof {
                    assert forall|b: Board| b.wf(N as int) implies !holds(key@, b) by {
                        if holds(key@, b) {
                            lemma_runs_unique(key@, counts(b), c, 50);
                            assert(counts(b) =~= c);
                            assert forall|i: int| 0 <= i < 26 implies b.pips[i] == cells(
                                pips,
                            )[i] by {
                                if i == 0 {
                                    assert(counts(b)[24] == c[24]);
                                } else if i == 25 {
                                    assert(counts(b)[49] == c[49]);
                                } else {
                                    assert(counts(b)[24 - i] == c[24 - i]);
                                    assert(counts(b)[24 + i] == c[24 + i]);
                                }
                            }
                            assert(b.pips =~= cells(pips));
                        }
                    }
                }
                None
            },
        }
    }
}

} // verus!
