//! One step of a checker, and a play as the steps it is made of, with their
//! notation: `24/18` for a step, `24/18*` for one that hits, and the steps of
//! a play with a space between them.
use crate::text::{digit_value, digits, lemma_digits, number_in, number_within, push_decimal};
use vstd::prelude::*;
use vstd::string::*;

verus! {

/// The highest point that a step can name: the bar.
pub const MAX_POINT: usize = 25;

/// One checker goes from the point `from` to the point `to`; `hit` says that
/// it lands on a single checker of the other side.
#[derive(Clone, Debug, Copy, PartialEq, Eq, Structural)]
pub struct Step {
    pub from: usize,
    pub to: usize,
    pub hit: bool,
}

/// A play: its steps in the order in which they are made.
#[derive(Clone, Debug, PartialEq, Eq)]
pub struct Move {
    steps: Vec<Step>,
}

impl View for Move {
    type V = Seq<Step>;

    closed spec fn view(&self) -> Seq<Step> {
        self.steps@
    }
}

/// The index of the first `c` in `s`, or the length of `s` if there is none.
pub open spec fn first_index(s: Seq<char>, c: char) -> int
    decreases s.len(),
{
    if s.len() == 0 || s[0] == c {
        0
    } else {
        1 + first_index(s.skip(1), c)
    }
}

/// `first_index` is the one index with a `c` and none before it.
pub proof fn lemma_first_index(s: Seq<char>, c: char, k: int)
    requires
        0 <= k <= s.len(),
        k < s.len() ==> s[k] == c,
        forall|j: int| 0 <= j < k ==> s[j] != c,
    ensures
        first_index(s, c) == k,
    decreases s.len(),
{
    if k > 0 {
        assert(s[0] != c);
        lemma_first_index(s.skip(1), c, k - 1);
    }
}

/// The step that a text stands for: a point, a slash, a point, and a star if
/// the step hits. A point is a number from 1 to 25 in decimal digits.
pub open spec fn step_of(s: Seq<char>) -> Option<Step> {
    let slash = first_index(s, '/');
    if slash >= s.len() {
        None
    } else {
        let rest = s.skip(slash + 1);
        let hit = rest.len() > 0 && rest.last() == '*';
        let target = if hit {
            rest.drop_last()
        } else {
            rest
        };
        match (number_within(s.take(slash), 25), number_within(target, 25)) {
            (Some(from), Some(to)) => Some(Step { from, to, hit }),
            _ => None,
        }
    }
}

/// The steps that a text stands for: the texts of steps with one space
/// between each two.
pub open spec fn steps_of(s: Seq<char>) -> Option<Seq<Step>>
    decreases s.len(),
{
    let space = first_index(s, ' ');
    if !(0 <= space < s.len()) {
        match step_of(s) {
            Some(step) => Some(seq![step]),
            None => None,
        }
    } else {
        match (step_of(s.take(space)), steps_of(s.skip(space + 1))) {
            (Some(step), Some(rest)) => Some(seq![step] + rest),
            _ => None,
        }
    }
}

/// The text of a step.
pub open spec fn step_text(step: Step) -> Seq<char> {
    digits(step.from as nat) + seq!['/'] + digits(step.to as nat) + if step.hit {
        seq!['*']
    } else {
        Seq::<char>::empty()
    }
}

/// The text of the steps `rest` after the step `prev`, which has no text yet.
/// A step that goes on from the point that `prev` reached without a hit is
/// one step with it: it lands where the later one lands, and hits if the
/// later one hits.
pub open spec fn text_after(prev: Step, rest: Seq<Step>) -> Seq<char>
    decreases rest.len(),
{
    if rest.len() == 0 {
        step_text(prev)
    } else if rest[0].from == prev.to && !prev.hit {
        text_after(Step { from: prev.from, to: rest[0].to, hit: rest[0].hit }, rest.skip(1))
    } else {
        step_text(prev) + seq![' '] + text_after(rest[0], rest.skip(1))
    }
}

/// The text of a play; the empty play has the empty text.
pub open spec fn move_text(steps: Seq<Step>) -> Seq<char> {
    if steps.len() == 0 {
        Seq::<char>::empty()
    } else {
        text_after(steps[0], steps.skip(1))
    }
}

/// The text of a step whose points lie between 1 and 25 stands for the step.
pub proof fn law_step_of_its_text(step: Step)
    requires
        1 <= step.from <= 25,
        1 <= step.to <= 25,
    ensures
        step_of(step_text(step)) == Some(step),
{
    let source = digits(step.from as nat);
    let target = digits(step.to as nat);
    let mark = if step.hit {
        seq!['*']
    } else {
        Seq::<char>::empty()
    };
    let s = step_text(step);
    lemma_digits(step.from as nat);
    lemma_digits(step.to as nat);
    assert(s =~= source + seq!['/'] + target + mark);
    let slash = source.len() as int;
    assert(s[slash] == '/');
    assert forall|j: int| 0 <= j < slash implies s[j] != '/' by {
        assert(s[j] == source[j]);
        assert(digit_value(source[j]) >= 0);
    }
    lemma_first_index(s, '/', slash);
    assert(s.take(slash) =~= source);
    let rest = s.skip(slash + 1);
    assert(rest =~= target + mark);
    if step.hit {
        assert(rest.last() == '*');
        assert(rest.drop_last() =~= target);
    } else {
        assert(rest =~= target);
        assert(digit_value(target.last()) >= 0);
        assert(rest.last() != '*');
    }
}

/// The index of the first `c` in `s` from `from` up to `to`, or `to`.
pub fn find(s: &str, from: usize, to: usize, c: char) -> (k: usize)
    requires
        from <= to <= s@.len(),
    ensures
        from <= k <= to,
        k - from == first_index(s@.subrange(from as int, to as int), c),
{
    let ghost part = s@.subrange(from as int, to as int);
    let mut k: usize = from;
    while k < to
        invariant
            from <= k <= to <= s@.len(),
            part == s@.subrange(from as int, to as int),
            forall|j: int| 0 <= j < k - from ==> part[j] != c,
        decreases to - k,
    {
        if s.get_char(k) == c {
            proof {
                assert(part[k - from] == c);
                lemma_first_index(part, c, k - from);
            }
            return k;
        }
        k += 1;
    }
    proof {
        lemma_first_index(part, c, to - from);
    }
    k
}

/// The step that the characters of `s` from `from` up to `to` stand for.
pub fn step_in(s: &str, from: usize, to: usize) -> (r: Option<Step>)
    requires
        from <= to <= s@.len(),
    ensures
        r == step_of(s@.subrange(from as int, to as int)),
{
    let ghost part = s@.subrange(from as int, to as int);
    let slash = find(s, from, to, '/');
    if slash >= to {
        return None;
    }
    let ghost rest = part.skip(slash - from + 1);
    let hit = slash + 1 < to && s.get_char(to - 1) == '*';
    let end = if hit {
        to - 1
    } else {
        to
    };
    proof {
        assert(rest.len() == to - slash - 1);
        if rest.len() > 0 {
            assert(rest.last() == s@[to - 1]);
        }
        assert(part.take(slash - from) =~= s@.subrange(from as int, slash as int));
        assert((if hit {
            rest.drop_last()
        } else {
            rest
        }) =~= s@.subrange(slash + 1, end as int));
    }
    let source = number_in(s, from, slash, MAX_POINT);
    let target = number_in(s, slash + 1, end, MAX_POINT);
    match (source, target) {
        (Some(from), Some(to)) => Some(Step { from, to, hit }),
        _ => None,
    }
}

impl Step {
    /// The step that a text such as `24/18` or `24/18*` stands for, if it
    /// stands for one.
    pub fn from(ms: &str) -> (r: Option<Self>)
        ensures
            r == step_of(ms@),
    {
        let n = ms.unicode_len();
        proof {
            assert(ms@.subrange(0, n as int) =~= ms@);
        }
        step_in(ms, 0, n)
    }

    /// Appends the text of the step.
    pub fn write_to(&self, out: &mut String)
        ensures
            final(out)@ == old(out)@ + step_text(*self),
    {
        let ghost before = out@;
        proof {
            reveal_strlit("/");
            reveal_strlit("*");
        }
        push_decimal(out, self.from);
        out.append("/");
        push_decimal(out, self.to);
        if self.hit {
            out.append("*");
        }
        assert(out@ =~= before + step_text(*self));
    }

    /// The text of the step: `from/to`, with a star behind it if it hits.
    pub fn to_string(&self) -> (r: String)
        ensures
            r@ == step_text(*self),
    {
        let mut out = String::new();
        self.write_to(&mut out);
        assert(out@ =~= step_text(*self));
        out
    }
}

impl Move {
    pub fn new(steps: Vec<Step>) -> (r: Self)
        ensures
            r@ == steps@,
    {
        Move { steps }
    }

    /// The play that a text stands for: the texts of its steps, one space
    /// between each two. A text that holds anything else stands for none.
    pub fn from(ms: &str) -> (r: Option<Self>)
        ensures
            match r {
                Some(m) => steps_of(ms@) == Some(m@),
                None => steps_of(ms@) is None,
            },
    {
        let n = ms.unicode_len();
        let mut steps: Vec<Step> = Vec::new();
        let mut at: usize = 0;
        proof {
            assert(ms@.subrange(0, n as int) =~= ms@);
        }
        loop
            invariant
                at <= n,
                n == ms@.len(),
                match steps_of(ms@.subrange(at as int, n as int)) {
                    Some(rest) => steps_of(ms@) == Some(steps@ + rest),
                    None => steps_of(ms@) is None,
                },
            decreases n - at,
        {
            let ghost part = ms@.subrange(at as int, n as int);
            let space = find(ms, at, n, ' ');
            proof {
                assert(part.take(space - at) =~= ms@.subrange(at as int, space as int));
                if space < n {
                    assert(part.skip(space - at + 1) =~= ms@.subrange(space + 1, n as int));
                } else {
                    assert(ms@.subrange(at as int, space as int) =~= part);
                }
            }
            let ghost so_far = steps@;
            match step_in(ms, at, space) {
                None => {
                    return None;
                },
                Some(step) => {
                    steps.push(step);
                    if space >= n {
                        proof {
                            assert(so_far + seq![step] =~= steps@);
                        }
                        return Some(Move { steps });
                    }
                    proof {
                        match steps_of(ms@.subrange(space + 1, n as int)) {
                            Some(rest) => {
                                assert(so_far + (seq![step] + rest) =~= steps@ + rest);
                            },
                            None => {},
                        }
                    }
                    at = space + 1;
                },
            }
        }
    }

    pub fn len(&self) -> (r: usize)
        ensures
            r == self@.len(),
    {
        self.steps.len()
    }

    pub fn is_empty(&self) -> (r: bool)
        ensures
            r == (self@.len() == 0),
    {
        self.steps.len() == 0
    }

    /// The steps of the play, in their order.
    pub fn iter(&self) -> (r: &Vec<Step>)
        ensures
            r@ == self@,
    {
        &self.steps
    }

    /// The text of the play: the texts of its steps with a space between
    /// them, the steps of one checker drawn together into one.
    pub fn to_string(&self) -> (r: String)
        ensures
            r@ == move_text(self@),
    {
        let mut out = String::new();
        let n = self.steps.len();
        if n == 0 {
            assert(out@ =~= move_text(self@));
            return out;
        }
        let mut prev = self.steps[0];
        let mut i: usize = 1;
        proof {
            reveal_strlit(" ");
            assert(out@ + text_after(prev, self@.skip(1)) =~= move_text(self@));
        }
        while i < n
            invariant
                1 <= i <= n,
                n == self@.len(),
                " "@ == seq![' '],
                move_text(self@) == out@ + text_after(prev, self@.skip(i as int)),
            decreases n - i,
        {
            let step = self.steps[i];
            let ghost before = out@;
            let ghost rest = self@.skip(i as int);
            proof {
                assert(rest[0] == step);
                assert(rest.skip(1) =~= self@.skip(i + 1));
            }
            if step.from == prev.to && !prev.hit {
                prev = Step { from: prev.from, to: step.to, hit: step.hit };
            } else {
                prev.write_to(&mut out);
                out.append(" ");
                proof {
                    assert(out@ + text_after(step, self@.skip(i + 1)) =~= before + (step_text(prev)
                        + seq![' '] + text_after(step, self@.skip(i + 1))));
                }
                prev = step;
            }
            i += 1;
        }
        let ghost before = out@;
        prev.write_to(&mut out);
        proof {
            assert(self@.skip(n as int).len() == 0);
        }
        out
    }
}

} // verus!
