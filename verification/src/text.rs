//! Numbers as decimal text, and decimal text as numbers.
use vstd::prelude::*;
use vstd::string::*;

verus! {

/// The character of a decimal digit.
pub open spec fn digit_char(d: int) -> char {
    if d == 0 {
        '0'
    } else if d == 1 {
        '1'
    } else if d == 2 {
        '2'
    } else if d == 3 {
        '3'
    } else if d == 4 {
        '4'
    } else if d == 5 {
        '5'
    } else if d == 6 {
        '6'
    } else if d == 7 {
        '7'
    } else if d == 8 {
        '8'
    } else {
        '9'
    }
}

/// The digit that a character stands for, or -1 if it stands for none.
pub open spec fn digit_value(c: char) -> int {
    if c == '0' {
        0
    } else if c == '1' {
        1
    } else if c == '2' {
        2
    } else if c == '3' {
        3
    } else if c == '4' {
        4
    } else if c == '5' {
        5
    } else if c == '6' {
        6
    } else if c == '7' {
        7
    } else if c == '8' {
        8
    } else if c == '9' {
        9
    } else {
        -1
    }
}

/// The decimal digits of a number, without leading zeros.
pub open spec fn digits(n: nat) -> Seq<char>
    decreases n,
{
    if n < 10 {
        seq![digit_char(n as int)]
    } else {
        digits(n / 10).push(digit_char((n % 10) as int))
    }
}

/// Every character of the text is a decimal digit.
pub open spec fn all_digits(s: Seq<char>) -> bool {
    forall|i: int| 0 <= i < s.len() ==> digit_value(#[trigger] s[i]) >= 0
}

/// The number that a text of decimal digits stands for.
pub open spec fn value_of(s: Seq<char>) -> nat
    decreases s.len(),
{
    if s.len() == 0 {
        0
    } else {
        (value_of(s.drop_last()) * 10 + digit_value(s.last())) as nat
    }
}

/// The digits of a number are digits, one at least, and stand for the number.
pub proof fn lemma_digits(n: nat)
    ensures
        digits(n).len() >= 1,
        all_digits(digits(n)),
        value_of(digits(n)) == n,
    decreases n,
{
    if n < 10 {
        let s = digits(n);
        assert(s.drop_last().len() == 0);
        assert(digit_value(digit_char(n as int)) == n);
        assert(value_of(s.drop_last()) == 0);
        assert(s.last() == digit_char(n as int));
    } else {
        lemma_digits(n / 10);
        let s = digits(n);
        let head = digits(n / 10);
        assert(s.drop_last() =~= head);
        assert(s.last() == digit_char((n % 10) as int));
        assert(digit_value(digit_char((n % 10) as int)) == n % 10);
        assert forall|i: int| 0 <= i < s.len() implies digit_value(#[trigger] s[i]) >= 0 by {
            if i < head.len() {
                assert(s[i] == head[i]);
            }
        }
    }
}

/// The digit that a character stands for, if it stands for one.
pub fn digit_of(c: char) -> (r: Option<u8>)
    ensures
        match r {
            Some(d) => d == digit_value(c) && d <= 9,
            None => digit_value(c) == -1,
        },
{
    if c == '0' {
        Some(0)
    } else if c == '1' {
        Some(1)
    } else if c == '2' {
        Some(2)
    } else if c == '3' {
        Some(3)
    } else if c == '4' {
        Some(4)
    } else if c == '5' {
        Some(5)
    } else if c == '6' {
        Some(6)
    } else if c == '7' {
        Some(7)
    } else if c == '8' {
        Some(8)
    } else if c == '9' {
        Some(9)
    } else {
        None
    }
}

/// Appends the character of the digit `d`.
pub fn push_digit(s: &mut String, d: usize)
    requires
        d <= 9,
    ensures
        final(s)@ == old(s)@.push(digit_char(d as int)),
{
    proof {
        reveal_strlit("0");
        reveal_strlit("1");
        reveal_strlit("2");
        reveal_strlit("3");
        reveal_strlit("4");
        reveal_strlit("5");
        reveal_strlit("6");
        reveal_strlit("7");
        reveal_strlit("8");
        reveal_strlit("9");
    }
    let ghost before = s@;
    if d == 0 {
        s.append("0");
    } else if d == 1 {
        s.append("1");
    } else if d == 2 {
        s.append("2");
    } else if d == 3 {
        s.append("3");
    } else if d == 4 {
        s.append("4");
    } else if d == 5 {
        s.append("5");
    } else if d == 6 {
        s.append("6");
    } else if d == 7 {
        s.append("7");
    } else if d == 8 {
        s.append("8");
    } else {
        s.append("9");
    }
    assert(s@ =~= before.push(digit_char(d as int)));
}

/// Appends the decimal digits of `n`.
pub fn push_decimal(s: &mut String, n: usize)
    ensures
        final(s)@ == old(s)@ + digits(n as nat),
    decreases n,
{
    let ghost before = s@;
    if n >= 10 {
        push_decimal(s, n / 10);
    }
    push_digit(s, n % 10);
    assert(s@ =~= before + digits(n as nat));
}

/// The number from 1 to `max` that the characters of `s` from `from` up to
/// `to` stand for in decimal digits, if they stand for one.
pub fn number_in(s: &str, from: usize, to: usize, max: usize) -> (r: Option<usize>)
    requires
        from <= to <= s@.len(),
        max < 1000000,
    ensures
        r == number_within(s@.subrange(from as int, to as int), max as int),
{
    let ghost part = s@.subrange(from as int, to as int);
    if from == to {
        return None;
    }
    let mut value: usize = 0;
    let mut over: bool = false;
    let mut i: usize = from;
    while i < to
        invariant
            from <= i <= to <= s@.len(),
            part == s@.subrange(from as int, to as int),
            max < 1000000,
            all_digits(part.take(i - from)),
            !over ==> value == value_of(part.take(i - from)) && value <= max,
            over ==> value_of(part.take(i - from)) > max,
        decreases to - i,
    {
        let c = s.get_char(i);
        let ghost seen = part.take(i - from);
        let ghost more = part.take(i - from + 1);
        proof {
            assert(part[i - from] == c);
            assert(more.drop_last() =~= seen);
            assert(more.last() == c);
        }
        match digit_of(c) {
            None => {
                proof {
                    assert(digit_value(part[i - from]) < 0);
                }
                return None;
            },
            Some(d) => {
                proof {
                    assert forall|j: int| 0 <= j < more.len() implies digit_value(
                        #[trigger] more[j],
                    ) >= 0 by {
                        if j < seen.len() {
                            assert(seen[j] == more[j]);
                        }
                    }
                }
                if !over {
                    value = value * 10 + d as usize;
                    if value > max {
                        over = true;
                    }
                } else {
                    assert(value_of(more) > max) by (nonlinear_arith)
                        requires
                            value_of(more) == value_of(seen) * 10 + d,
                            value_of(seen) > max,
                            d >= 0,
                            max >= 0,
                    ;
                }
            },
        }
        i += 1;
    }
    proof {
        assert(part.take(to - from) =~= part);
    }
    if over || value < 1 {
        None
    } else {
        Some(value)
    }
}

/// The number from 1 to `max` that a text stands for: the text is made of
/// decimal digits, one at least, and their value lies in that range.
pub open spec fn number_within(s: Seq<char>, max: int) -> Option<usize> {
    if s.len() >= 1 && all_digits(s) && 1 <= value_of(s) <= max {
        Some(value_of(s) as usize)
    } else {
        None
    }
}

} // verus!
