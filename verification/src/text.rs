use vstd::prelude::*;
use vstd::string::StringExecFns;

verus! {

/// The glyph that a cell is shown as: `.` for a dead cell, `x` for any
/// other.
pub open spec fn glyph(cell: u8) -> char {
    if cell == 0 {
        '.'
    } else {
        'x'
    }
}

/// The cells of a row as shown: each as its glyph, followed by a space.
pub open spec fn cells_text(row: Seq<u8>) -> Seq<char>
    decreases row.len(),
{
    if row.len() == 0 {
        Seq::empty()
    } else {
        cells_text(row.drop_last()) + seq![glyph(row.last()), ' ']
    }
}

/// A grid as shown: row after row, each as its cells followed by a line
/// feed.
pub open spec fn grid_text(g: Seq<Seq<u8>>) -> Seq<char>
    decreases g.len(),
{
    if g.len() == 0 {
        Seq::empty()
    } else {
        grid_text(g.drop_last()) + cells_text(g.last()) + seq!['\n']
    }
}

/// The character of a decimal digit.
pub open spec fn digit(d: nat) -> char {
    if d == 0 {
        '0'
    } else if d == 1 {
        '1'
    } else if d == 2 {
        '2'
    } else if d == 3 {
        '3'
    } else if d == 4 {
        '4'
    } else if d == 5 {
        '5'
    } else if d == 6 {
        '6'
    } else if d == 7 {
        '7'
    } else if d == 8 {
        '8'
    } else {
        '9'
    }
}

/// A number in decimal, without leading zeros.
pub open spec fn decimal(n: nat) -> Seq<char>
    decreases n,
{
    if n < 10 {
        seq![digit(n)]
    } else {
        decimal(n / 10).push(digit(n % 10))
    }
}

/// The text of a digit below 10.
fn digit_str(d: usize) -> (text: &'static str)
    requires
        d < 10,
    ensures
        text@ == seq![digit(d as nat)],
{
    proof {
        reveal_strlit("0");
        reveal_strlit("1");
        reveal_strlit("2");
        reveal_strlit("3");
        reveal_strlit("4");
        reveal_strlit("5");
        reveal_strlit("6");
        reveal_strlit("7");
        reveal_strlit("8");
        reveal_strlit("9");
    }
    if d == 0 {
        "0"
    } else if d == 1 {
        "1"
    } else if d == 2 {
        "2"
    } else if d == 3 {
        "3"
    } else if d == 4 {
        "4"
    } else if d == 5 {
        "5"
    } else if d == 6 {
        "6"
    } else if d == 7 {
        "7"
    } else if d == 8 {
        "8"
    } else {
        "9"
    }
}

/// Appends a number in decimal to a text.
pub fn push_decimal(text: &mut String, n: usize)
    ensures
        final(text)@ == old(text)@ + decimal(n as nat),
    decreases n,
{
    if n >= 10 {
        push_decimal(text, n / 10);
    }
    text.append(digit_str(n % 10));
    proof {
        if n >= 10 {
            let high = decimal((n / 10) as nat);
            let low = digit((n % 10) as nat);
            assert(old(text)@ + high + seq![low] =~= old(text)@ + high.push(low));
        }
    }
}

/// Appends the glyph of a cell and a space to a text.
pub fn push_cell(text: &mut String, cell: u8)
    ensures
        final(text)@ == old(text)@ + seq![glyph(cell), ' '],
{
    proof {
        reveal_strlit(".");
        reveal_strlit("x");
        reveal_strlit(" ");
    }
    let shown = if cell == 0 {
        "."
    } else {
        "x"
    };
    text.append(shown);
    text.append(" ");
    proof {
        assert(old(text)@ + seq![glyph(cell)] + seq![' '] =~= old(text)@ + seq![glyph(cell), ' ']);
    }
}

} // verus!
