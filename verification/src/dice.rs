//! A roll of two dice: a double, or two different values.
use crate::text::{digits, push_decimal};
use vstd::prelude::*;
use vstd::string::*;

verus! {

/// Number of mixed rolls before the first one whose smaller die is `i + 1`,
/// in the order of `all_singles`.
pub open spec fn singles_before(i: int) -> int
    decreases i,
{
    if i <= 0 {
        0
    } else {
        singles_before(i - 1) + 6 - i
    }
}

/// Two different values between 1 and 6; `big` is bigger than `small`.
#[derive(Copy, Clone, Debug, PartialEq, Eq, Structural)]
pub struct RegularDice {
    pub big: usize,
    pub small: usize,
}

/// A pair of dice, each between 1 and 6.
#[derive(Copy, Clone, Debug, PartialEq, Eq, Structural)]
pub enum Dice {
    Regular(RegularDice),
    Double(usize),
}

impl RegularDice {
    /// Both values are dice values and `big` is the bigger one.
    pub open spec fn valid(&self) -> bool {
        1 <= self.small < self.big <= 6
    }

    /// Orders two values: the bigger one becomes `big`.
    pub fn new(die1: usize, die2: usize) -> (r: Self)
        ensures
            r.big == if die1 > die2 {
                die1
            } else {
                die2
            },
            r.small == if die1 > die2 {
                die2
            } else {
                die1
            },
    {
        if die1 > die2 {
            RegularDice { big: die1, small: die2 }
        } else {
            RegularDice { big: die2, small: die1 }
        }
    }
}

impl Dice {
    /// Every value lies between 1 and 6, and two different values are ordered.
    pub open spec fn valid(&self) -> bool {
        match *self {
            Dice::Regular(r) => r.valid(),
            Dice::Double(d) => 1 <= d <= 6,
        }
    }

    /// What `new` makes of two values.
    pub open spec fn of(die1: usize, die2: usize) -> Dice {
        if die1 == die2 {
            Dice::Double(die1)
        } else if die1 > die2 {
            Dice::Regular(RegularDice { big: die1, small: die2 })
        } else {
            Dice::Regular(RegularDice { big: die2, small: die1 })
        }
    }

    /// The roll of two dice in either order: a double if they are equal.
    pub fn new(die1: usize, die2: usize) -> (r: Self)
        ensures
            r == Dice::of(die1, die2),
            (1 <= die1 <= 6 && 1 <= die2 <= 6) ==> r.valid(),
    {
        if die1 == die2 {
            Dice::Double(die1)
        } else {
            Dice::Regular(RegularDice::new(die1, die2))
        }
    }
}

impl TryFrom<(usize, usize)> for Dice {
    type Error = &'static str;

    /// The roll of two values between 1 and 6; other values are refused.
    fn try_from(value: (usize, usize)) -> (r: Result<Self, &'static str>) {
        if value.0 < 1 || value.0 > 6 || value.1 < 1 || value.1 > 6 {
            Err("Dice values must be between 1 and 6.")
        } else {
            Ok(Dice::new(value.0, value.1))
        }
    }
}

impl vstd::std_specs::convert::TryFromSpecImpl<(usize, usize)> for Dice {
    open spec fn obeys_try_from_spec() -> bool {
        true
    }

    open spec fn try_from_spec(value: (usize, usize)) -> Result<Self, &'static str> {
        if 1 <= value.0 <= 6 && 1 <= value.1 <= 6 {
            Ok(Dice::of(value.0, value.1))
        } else {
            Err("Dice values must be between 1 and 6.")
        }
    }
}

impl Dice {

    /// The text of a roll.
    pub open spec fn text(self) -> Seq<char> {
        match self {
            Dice::Regular(dice) => seq!['('] + digits(dice.big as nat) + seq![','] + digits(
                dice.small as nat,
            ) + seq![')'],
            Dice::Double(die) => seq!['('] + digits(die as nat) + seq![','] + digits(die as nat)
                + seq![')'],
        }
    }

    /// The roll as text: both dice in brackets, the bigger one first.
    pub fn to_string(&self) -> (r: String)
        ensures
            r@ == self.text(),
    {
        proof {
            reveal_strlit("(");
            reveal_strlit(",");
            reveal_strlit(")");
        }
        let (first, second) = match self {
            Dice::Regular(dice) => (dice.big, dice.small),
            Dice::Double(die) => (*die, *die),
        };
        let mut out = String::new();
        out.append("(");
        push_decimal(&mut out, first);
        out.append(",");
        push_decimal(&mut out, second);
        out.append(")");
        assert(out@ =~= self.text());
        out
    }

    /// The 15 rolls of two different dice, each once: the smaller die from 1
    /// up, and for each the bigger one from the next value up.
    pub fn all_singles() -> (r: [Dice; 15])
        ensures
            forall|i: int, j: int|
                0 <= i < j < 6 ==> #[trigger] r[singles_before(i) + j - i - 1] == Dice::of(
                    (i + 1) as usize,
                    (j + 1) as usize,
                ),
    {
        let mut dice = [Dice::Double(1);15];
        let mut count: usize = 0;
        let mut i: usize = 0;
        proof {
            reveal_with_fuel(singles_before, 7);
        }
        while i < 6
            invariant
                i <= 6,
                count == singles_before(i as int),
                forall|a: int, b: int|
                    0 <= a < b < 6 && a < i ==> #[trigger] dice[singles_before(a) + b - a - 1]
                        == Dice::of((a + 1) as usize, (b + 1) as usize),
            decreases 6 - i,
        {
            let mut j: usize = i + 1;
            proof {
                reveal_with_fuel(singles_before, 7);
            }
            while j < 6
                invariant
                    i < 6,
                    i < j <= 6,
                    count == singles_before(i as int) + j - i - 1,
                    singles_before(i as int) + 5 - i <= 15,
                    forall|a: int, b: int|
                        0 <= a < b < 6 && (a < i || (a == i && b < j))
                            ==> #[trigger] dice[singles_before(a) + b - a - 1] == Dice::of(
                            (a + 1) as usize,
                            (b + 1) as usize,
                        ),
                decreases 6 - j,
            {
                let ghost before = dice;
                dice[count] = Dice::new(i + 1, j + 1);
                proof {
                    assert forall|a: int, b: int|
                        0 <= a < b < 6 && (a < i || (a == i && b < j + 1)) implies #[trigger] dice[singles_before(
                        a,
                    ) + b - a - 1] == Dice::of((a + 1) as usize, (b + 1) as usize) by {
                        reveal_with_fuel(singles_before, 7);
                        if !(a == i && b == j) {
                            assert(singles_before(a) + b - a - 1 != count);
                            assert(before[singles_before(a) + b - a - 1] == Dice::of(
                                (a + 1) as usize,
                                (b + 1) as usize,
                            ));
                        }
                    }
                }
                j += 1;
                count += 1;
            }
            i += 1;
        }
        dice
    }

    /// The 21 rolls that differ, each with the number of ways in which two
    /// dice show it: 1 for a double, 2 for two different dice. The double of
    /// `i + 1` stands before the rolls whose smaller die is `i + 1`.
    pub fn all_21() -> (r: [(Dice, u8); 21])
        ensures
            forall|i: int|
                0 <= i < 6 ==> #[trigger] r[singles_before(i) + i] == (
                    Dice::Double((i + 1) as usize),
                    1u8,
                ),
            forall|i: int, j: int|
                0 <= i < j < 6 ==> #[trigger] r[singles_before(i) + j] == (
                    Dice::of((i + 1) as usize, (j + 1) as usize),
                    2u8,
                ),
    {
        let mut dice = [(Dice::Double(1), 0u8);21];
        let mut count: usize = 0;
        let mut i: usize = 0;
        proof {
            reveal_with_fuel(singles_before, 7);
        }
        while i < 6
            invariant
                i <= 6,
                count == singles_before(i as int) + i,
                forall|a: int|
                    0 <= a < i ==> #[trigger] dice[singles_before(a) + a] == (
                        Dice::Double((a + 1) as usize),
                        1u8,
                    ),
                forall|a: int, b: int|
                    0 <= a < b < 6 && a < i ==> #[trigger] dice[singles_before(a) + b] == (
                        Dice::of((a + 1) as usize, (b + 1) as usize),
                        2u8,
                    ),
            decreases 6 - i,
        {
            proof {
                reveal_with_fuel(singles_before, 7);
            }
            let ghost start = dice;
            dice[count] = (Dice::Double(i + 1), 1);
            proof {
                assert forall|a: int| 0 <= a < i + 1 implies #[trigger] dice[singles_before(a) + a]
                    == (Dice::Double((a + 1) as usize), 1u8) by {
                    reveal_with_fuel(singles_before, 7);
                    if a < i {
                        assert(start[singles_before(a) + a] == (
                            Dice::Double((a + 1) as usize),
                            1u8,
                        ));
                    }
                }
                assert forall|a: int, b: int| 0 <= a < b < 6 && a < i implies #[trigger] dice[singles_before(
                    a,
                ) + b] == (Dice::of((a + 1) as usize, (b + 1) as usize), 2u8) by {
                    reveal_with_fuel(singles_before, 7);
                    assert(start[singles_before(a) + b] == (
                        Dice::of((a + 1) as usize, (b + 1) as usize),
                        2u8,
                    ));
                }
            }
            count += 1;
            let mut j: usize = i + 1;
            while j < 6
                invariant
                    i < 6,
                    i < j <= 6,
                    count == singles_before(i as int) + j,
                    singles_before(i as int) + 6 <= 21,
                    forall|a: int|
                        0 <= a < i + 1 ==> #[trigger] dice[singles_before(a) + a] == (
                            Dice::Double((a + 1) as usize),
                            1u8,
                        ),
                    forall|a: int, b: int|
                        0 <= a < b < 6 && (a < i || (a == i && b < j))
                            ==> #[trigger] dice[singles_before(a) + b] == (
                            Dice::of((a + 1) as usize, (b + 1) as usize),
                            2u8,
                        ),
                decreases 6 - j,
            {
                let ghost before = dice;
                dice[count] = (Dice::new(i + 1, j + 1), 2);
                proof {
                    assert forall|a: int| 0 <= a < i + 1 implies #[trigger] dice[singles_before(a)
                        + a] == (Dice::Double((a + 1) as usize), 1u8) by {
                        reveal_with_fuel(singles_before, 7);
                        assert(before[singles_before(a) + a] == (
                            Dice::Double((a + 1) as usize),
                            1u8,
                        ));
                    }
                    assert forall|a: int, b: int|
                        0 <= a < b < 6 && (a < i || (a == i && b < j + 1)) implies #[trigger] dice[singles_before(
                        a,
                    ) + b] == (Dice::of((a + 1) as usize, (b + 1) as usize), 2u8) by {
                        reveal_with_fuel(singles_before, 7);
                        if !(a == i && b == j) {
                            assert(before[singles_before(a) + b] == (
                                Dice::of((a + 1) as usize, (b + 1) as usize),
                                2u8,
                            ));
                        }
                    }
                }
                j += 1;
                count += 1;
            }
            i += 1;
        }
        dice
    }

    /// The 36 rolls of a first and a second die: the roll of `i + 1` and
    /// `j + 1` stands at `6 * i + j`, so a roll of two different dice stands
    /// there twice.
    pub fn all_36() -> (r: [Dice; 36])
        ensures
            forall|i: int, j: int|
                0 <= i < 6 && 0 <= j < 6 ==> #[trigger] r[6 * i + j] == Dice::of(
                    (i + 1) as usize,
                    (j + 1) as usize,
                ),
    {
        let mut dice = [Dice::Double(1);36];
        let mut i: usize = 0;
        while i < 6
            invariant
                i <= 6,
                forall|a: int, b: int|
                    0 <= a < i && 0 <= b < 6 ==> #[trigger] dice[6 * a + b] == Dice::of(
                        (a + 1) as usize,
                        (b + 1) as usize,
                    ),
            decreases 6 - i,
        {
            let mut j: usize = 0;
            while j < 6
                invariant
                    i < 6,
                    j <= 6,
                    forall|a: int, b: int|
                        0 <= a < 6 && 0 <= b < 6 && (a < i || (a == i && b < j))
                            ==> #[trigger] dice[6 * a + b] == Dice::of(
                            (a + 1) as usize,
                            (b + 1) as usize,
                        ),
                decreases 6 - j,
            {
                let ghost before = dice;
                dice[i * 6 + j] = Dice::new(i + 1, j + 1);
                proof {
                    assert forall|a: int, b: int|
                        0 <= a < 6 && 0 <= b < 6 && (a < i || (a == i && b < j + 1)) implies #[trigger] dice[6
                        * a + b] == Dice::of((a + 1) as usize, (b + 1) as usize) by {
                        if !(a == i && b == j) {
                            assert(before[6 * a + b] == Dice::of((a + 1) as usize, (b + 1) as usize));
                        }
                    }
                }
                j += 1;
            }
            i += 1;
        }
        dice
    }

    /// The 1296 pairs of a first and a second roll: the pair of the rolls
    /// at `i` and at `j` of `all_36` stands at `36 * i + j`.
    pub fn all_1296() -> (r: [(Dice, Dice); 1296])
        ensures
            forall|i: int, j: int|
                0 <= i < 36 && 0 <= j < 36 ==> #[trigger] r[36 * i + j] == (
                    Dice::of((i / 6 + 1) as usize, (i % 6 + 1) as usize),
                    Dice::of((j / 6 + 1) as usize, (j % 6 + 1) as usize),
                ),
    {
        let all_36 = Dice::all_36();
        proof {
            assert forall|k: int| 0 <= k < 36 implies all_36[k] == Dice::of(
                (k / 6 + 1) as usize,
                (k % 6 + 1) as usize,
            ) by {
                assert(all_36[6 * (k / 6) + k % 6] == Dice::of(
                    (k / 6 + 1) as usize,
                    (k % 6 + 1) as usize,
                ));
            }
        }
        let mut dice = [(Dice::Double(1), Dice::Double(1));1296];
        let mut i: usize = 0;
        while i < 36
            invariant
                i <= 36,
                forall|k: int|
                    0 <= k < 36 ==> #[trigger] all_36[k] == Dice::of(
                        (k / 6 + 1) as usize,
                        (k % 6 + 1) as usize,
                    ),
                forall|a: int, b: int|
                    0 <= a < i && 0 <= b < 36 ==> #[trigger] dice[36 * a + b] == (
                        all_36[a],
                        all_36[b],
                    ),
            decreases 36 - i,
        {
            let mut j: usize = 0;
            while j < 36
                invariant
                    i < 36,
                    j <= 36,
                    forall|a: int, b: int|
                        0 <= a < 36 && 0 <= b < 36 && (a < i || (a == i && b < j))
                            ==> #[trigger] dice[36 * a + b] == (all_36[a], all_36[b]),
                decreases 36 - j,
            {
                let ghost before = dice;
                dice[i * 36 + j] = (all_36[i], all_36[j]);
                proof {
                    assert forall|a: int, b: int|
                        0 <= a < 36 && 0 <= b < 36 && (a < i || (a == i && b < j + 1)) implies #[trigger] dice[36
                        * a + b] == (all_36[a], all_36[b]) by {
                        if !(a == i && b == j) {
                            assert(before[36 * a + b] == (all_36[a], all_36[b]));
                        }
                    }
                }
                j += 1;
            }
            i += 1;
        }
        dice
    }
}

} // verus!
