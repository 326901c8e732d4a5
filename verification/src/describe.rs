//! A position as text: for each side where its checkers are, from its bar
//! down to what it has borne off.
use crate::board::Board;
use crate::position::Position;
use crate::text::{digits, push_decimal};
use vstd::prelude::*;
use vstd::string::*;

verus! {

/// The texts of `items` with a comma and a space between each two.
pub open spec fn joined(items: Seq<Seq<char>>) -> Seq<char>
    decreases items.len(),
{
    if items.len() == 0 {
        Seq::<char>::empty()
    } else if items.len() == 1 {
        items[0]
    } else {
        joined(items.drop_last()) + ", "@ + items.last()
    }
}

/// The text of `count` checkers on the place named `label`.
pub open spec fn item(label: Seq<char>, count: int) -> Seq<char> {
    label + ":"@ + digits(count as nat)
}

/// The items of the points from 24 down to `down_to` that hold checkers of
/// `x`, or of `o` if `of_o`.
pub open spec fn point_items(b: Board, down_to: int, of_o: bool) -> Seq<Seq<char>>
    decreases 25 - down_to,
{
    if down_to > 24 {
        Seq::<Seq<char>>::empty()
    } else {
        let count = if of_o {
            -b.pips[down_to]
        } else {
            b.pips[down_to]
        };
        point_items(b, down_to + 1, of_o) + if count > 0 {
            seq![item(digits(down_to as nat), count)]
        } else {
            Seq::<Seq<char>>::empty()
        }
    }
}

/// The items of `x`: the bar, the points from 24 down to 1, the checkers
/// borne off; a place without a checker of `x` has no item.
pub open spec fn x_items(b: Board) -> Seq<Seq<char>> {
    (if b.pips[25] > 0 {
        seq![item("bar"@, b.pips[25])]
    } else {
        Seq::<Seq<char>>::empty()
    }) + point_items(b, 1, false) + (if b.x_off > 0 {
        seq![item("off"@, b.x_off)]
    } else {
        Seq::<Seq<char>>::empty()
    })
}

/// The items of `o`: the checkers borne off, the points from 24 down to 1,
/// the bar; a place without a checker of `o` has no item.
pub open spec fn o_items(b: Board) -> Seq<Seq<char>> {
    (if b.o_off > 0 {
        seq![item("off"@, b.o_off)]
    } else {
        Seq::<Seq<char>>::empty()
    }) + point_items(b, 1, true) + (if b.pips[0] < 0 {
        seq![item("bar"@, -b.pips[0])]
    } else {
        Seq::<Seq<char>>::empty()
    })
}

/// The text of a board: a heading, then a line for `x` and a line for `o`.
pub open spec fn description(b: Board) -> Seq<char> {
    "Position:\nx: {"@ + joined(x_items(b)) + "}\no: {"@ + joined(o_items(b)) + "}"@
}

/// Appends one more item to the joined text of `items`.
fn push_item(
    out: &mut String,
    label: &str,
    count: usize,
    first: bool,
    Ghost(items): Ghost<Seq<Seq<char>>>,
    Ghost(head): Ghost<Seq<char>>,
)
    requires
        old(out)@ == head + joined(items),
        first == (items.len() == 0),
    ensures
        final(out)@ == head + joined(items.push(item(label@, count as int))),
{
    let ghost before = out@;
    let ghost more = items.push(item(label@, count as int));
    if !first {
        out.append(", ");
    }
    out.append(label);
    out.append(":");
    push_decimal(out, count);
    proof {
        assert(more.drop_last() =~= items);
        assert(out@ =~= head + joined(more));
    }
}

impl<const N: u8> Position<N> {
    /// Appends the items of the points 24 down to 1 for one side.
    fn push_point_items(
        &self,
        out: &mut String,
        of_o: bool,
        first: bool,
        Ghost(items): Ghost<Seq<Seq<char>>>,
        Ghost(head): Ghost<Seq<char>>,
    ) -> (still_first: bool)
        requires
            self.wf(),
            old(out)@ == head + joined(items),
            first == (items.len() == 0),
        ensures
            final(out)@ == head + joined(items + point_items(self@, 1, of_o)),
            still_first == ((items + point_items(self@, 1, of_o)).len() == 0),
    {
        let ghost b = self@;
        let mut first = first;
        let mut i: usize = 24;
        proof {
            self.lemma_cells();
            assert(items + point_items(b, 25, of_o) =~= items);
        }
        while i >= 1
            invariant
                i <= 24,
                self.wf(),
                self@ == b,
                forall|k: int| 0 <= k < 26 ==> -N <= #[trigger] b.pips[k] <= N,
                out@ == head + joined(items + point_items(b, i + 1, of_o)),
                first == ((items + point_items(b, i + 1, of_o)).len() == 0),
            decreases i,
        {
            let v = self.pip(i);
            let count: i8 = if of_o {
                -v
            } else {
                v
            };
            let ghost so_far = items + point_items(b, i + 1, of_o);
            if count > 0 {
                let mut label = String::new();
                push_decimal(&mut label, i);
                assert(label@ =~= digits(i as nat));
                push_item(out, label.as_str(), count as usize, first, Ghost(so_far), Ghost(head));
                first = false;
                proof {
                    assert(so_far.push(item(digits(i as nat), count as int)) =~= items + point_items(
                        b,
                        i as int,
                        of_o,
                    ));
                }
            } else {
                proof {
                    assert(so_far =~= items + point_items(b, i as int, of_o));
                }
            }
            i -= 1;
        }
        first
    }

    /// The position as text: where the checkers of `x` are, from the bar
    /// over the points 24 down to 1 to those borne off, and the same for `o`
    /// the other way round.
    pub fn describe(&self) -> (r: String)
        requires
            self.wf(),
        ensures
            r@ == description(self@),
    {
        let ghost b = self@;
        proof {
            self.lemma_cells();
        }
        let mut out = String::from_str("Position:\nx: {");
        let ghost head = out@;
        let ghost mut items: Seq<Seq<char>> = Seq::empty();
        let mut first = true;
        assert(out@ =~= head + joined(items));
        if self.pip(25) > 0 {
            push_item(&mut out, "bar", self.pip(25) as usize, first, Ghost(items), Ghost(head));
            first = false;
            proof {
                items = items.push(item("bar"@, b.pips[25]));
            }
        }
        first = self.push_point_items(&mut out, false, first, Ghost(items), Ghost(head));
        proof {
            items = items + point_items(b, 1, false);
        }
        if self.x_off() > 0 {
            push_item(&mut out, "off", self.x_off() as usize, first, Ghost(items), Ghost(head));
            proof {
                items = items.push(item("off"@, b.x_off));
            }
        }
        assert(items =~= x_items(b));
        out.append("}\no: {");
        let ghost head = out@;
        let ghost mut items: Seq<Seq<char>> = Seq::empty();
        let mut first = true;
        assert(out@ =~= head + joined(items));
        if self.o_off() > 0 {
            push_item(&mut out, "off", self.o_off() as usize, first, Ghost(items), Ghost(head));
            first = false;
            proof {
                items = items.push(item("off"@, b.o_off));
            }
        }
        first = self.push_point_items(&mut out, true, first, Ghost(items), Ghost(head));
        proof {
            items = items + point_items(b, 1, true);
        }
        if self.pip(0) < 0 {
            push_item(&mut out, "bar", (-self.pip(0)) as usize, first, Ghost(items), Ghost(head));
            proof {
                items = items.push(item("bar"@, -b.pips[0]));
            }
        }
        assert(items =~= o_items(b));
        out.append("}");
        assert(out@ =~= description(b));
        out
    }
}

} // verus!
