use vstd::prelude::*;

use crate::array::{elem_val, lemma_items, Array, Element, Item, Val};

verus! {

/// The decimal digit for `d < 10`.
pub open spec fn digit_char(d: nat) -> char {
    if d == 0 {
        '0'
    } else if d == 1 {
        '1'
    } else if d == 2 {
        '2'
    } else if d == 3 {
        '3'
    } else if d == 4 {
        '4'
    } else if d == 5 {
        '5'
    } else if d == 6 {
        '6'
    } else if d == 7 {
        '7'
    } else if d == 8 {
        '8'
    } else {
        '9'
    }
}

/// Decimal digits of a natural number, most significant first.
pub open spec fn nat_text(m: nat) -> Seq<char>
    decreases m,
{
    if m < 10 {
        seq![digit_char(m)]
    } else {
        nat_text(m / 10) + seq![digit_char(m % 10)]
    }
}

/// Decimal text of an integer, with a leading `-` when negative.
pub open spec fn int_text(n: int) -> Seq<char> {
    if n < 0 {
        seq!['-'] + nat_text((-n) as nat)
    } else {
        nat_text(n as nat)
    }
}

/// Each shape entry followed by a space.
pub open spec fn shape_text(s: Seq<i64>) -> Seq<char>
    decreases s.len(),
{
    if s.len() == 0 {
        Seq::empty()
    } else {
        shape_text(s.drop_last()) + int_text(s.last() as int) + seq![' ']
    }
}

/// Two lines for an array: its shape, then its items; a nested array is written as
/// `<`, a space, its own two lines, and a space.
pub open spec fn render_val(v: Val) -> Seq<char>
    decreases v,
{
    shape_text(v.shape) + seq!['\n'] + items_text(v.items) + seq!['\n']
}

/// Each item followed by a space.
pub open spec fn items_text(s: Seq<Item>) -> Seq<char>
    decreases s,
{
    if s.len() == 0 {
        Seq::empty()
    } else {
        items_text(s.drop_last()) + item_text(s.last())
    }
}

pub open spec fn item_text(it: Item) -> Seq<char>
    decreases it,
{
    match it {
        Item::Num(n) => int_text(n as int) + seq![' '],
        Item::Nest(v) => seq!['<', ' '] + render_val(v) + seq![' '],
    }
}

fn digit_str(d: u64) -> (r: &'static str)
    requires
        d < 10,
    ensures
        r@ == seq![digit_char(d as nat)],
{
    proof {
        reveal_strlit("0");
        reveal_strlit("1");
        reveal_strlit("2");
        reveal_strlit("3");
        reveal_strlit("4");
        reveal_strlit("5");
        reveal_strlit("6");
        reveal_strlit("7");
        reveal_strlit("8");
        reveal_strlit("9");
    }
    if d == 0 {
        "0"
    } else if d == 1 {
        "1"
    } else if d == 2 {
        "2"
    } else if d == 3 {
        "3"
    } else if d == 4 {
        "4"
    } else if d == 5 {
        "5"
    } else if d == 6 {
        "6"
    } else if d == 7 {
        "7"
    } else if d == 8 {
        "8"
    } else {
        "9"
    }
}

fn write_nat(out: &mut String, m: u64)
    ensures
        final(out)@ == old(out)@ + nat_text(m as nat),
    decreases m,
{
    if m >= 10 {
        write_nat(out, m / 10);
    }
    out.append(digit_str(m % 10));
}

/// Appends the decimal text of `n`.
pub fn write_int(out: &mut String, n: i64)
    ensures
        final(out)@ == old(out)@ + int_text(n as int),
{
    if n < 0 {
        proof {
            reveal_strlit("-");
        }
        out.append("-");
        let m = (0 - (n as i128)) as u64;
        write_nat(out, m);
        assert(final(out)@ =~= old(out)@ + int_text(n as int));
    } else {
        write_nat(out, n as u64);
    }
}

/// Appends the two-line text of an array.
pub fn write_array(out: &mut String, a: &Array)
    ensures
        final(out)@ == old(out)@ + render_val(a@),
    decreases a,
{
    proof {
        reveal_strlit(" ");
        reveal_strlit("\n");
        reveal_strlit("< ");
        lemma_items(*a);
    }
    let ghost start = out@;
    let mut i: usize = 0;
    assert(a.depth@.take(0) =~= Seq::<i64>::empty());
    while i < a.depth.len()
        invariant
            i <= a.depth@.len(),
            out@ == start + shape_text(a.depth@.take(i as int)),
        decreases a.depth@.len() - i,
    {
        proof {
            reveal_strlit(" ");
        }
        write_int(out, a.depth[i]);
        out.append(" ");
        assert(a.depth@.take(i + 1).drop_last() =~= a.depth@.take(i as int));
        i += 1;
        assert(out@ =~= start + shape_text(a.depth@.take(i as int)));
    }
    assert(a.depth@.take(i as int) =~= a@.shape);
    out.append("\n");
    let ghost mid = out@;
    let mut j: usize = 0;
    assert(a@.items.take(0) =~= Seq::<Item>::empty());
    while j < a.data.len()
        invariant
            j <= a.data@.len(),
            a@.items.len() == a.data@.len(),
            forall|k: int| 0 <= k < a.data@.len() ==> #[trigger] a@.items[k] == elem_val(a.data@[k]),
            out@ == mid + items_text(a@.items.take(j as int)),
        decreases a.data@.len() - j,
    {
        proof {
            assert(decreases_to!(a.data => a.data[j as int]));
        }
        proof {
            reveal_strlit(" ");
            reveal_strlit("< ");
        }
        let ghost before = out@;
        match &a.data[j] {
            Element::Number(n) => {
                write_int(out, *n);
                out.append(" ");
            },
            Element::Array(b) => {
                out.append("< ");
                write_array(out, b);
                out.append(" ");
            },
        }
        assert(out@ =~= before + item_text(a@.items[j as int]));
        assert(a@.items.take(j + 1).drop_last() =~= a@.items.take(j as int));
        j += 1;
        assert(out@ =~= mid + items_text(a@.items.take(j as int)));
    }
    assert(a@.items.take(j as int) =~= a@.items);
    out.append("\n");
    assert(out@ =~= start + render_val(a@));
}

/// The two-line text of an array.
pub fn render(a: &Array) -> (r: String)
    ensures
        r@ == render_val(a@),
{
    let mut out = String::new();
    write_array(&mut out, a);
    assert(out@ =~= render_val(a@));
    out
}

} // verus!
