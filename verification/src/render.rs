//! Boards as text: one line for each row, the labels right-aligned in
//! columns of one width with a single space between them.

use crate::node::{Goal, Node};
use vstd::prelude::*;
use vstd::string::StringExecFns;

verus! {

/// The character of a decimal digit.
pub open spec fn digit_char(d: int) -> char {
    if d == 0 {
        '0'
    } else if d == 1 {
        '1'
    } else if d == 2 {
        '2'
    } else if d == 3 {
        '3'
    } else if d == 4 {
        '4'
    } else if d == 5 {
        '5'
    } else if d == 6 {
        '6'
    } else if d == 7 {
        '7'
    } else if d == 8 {
        '8'
    } else {
        '9'
    }
}

/// The decimal digits of `v`.
pub open spec fn digits_of(v: nat) -> Seq<char>
    decreases v,
{
    if v < 10 {
        seq![digit_char(v as int)]
    } else {
        digits_of(v / 10).push(digit_char((v % 10) as int))
    }
}

/// `k` spaces.
pub open spec fn spaces(k: int) -> Seq<char>
    decreases k,
{
    if k <= 0 {
        Seq::<char>::empty()
    } else {
        spaces(k - 1).push(' ')
    }
}

/// The width of a column of a board of side `n`: the number of digits of
/// its largest label.
pub open spec fn column_width(n: int) -> int {
    if n * n >= 1 {
        digits_of((n * n - 1) as nat).len() as int
    } else {
        1
    }
}

/// Label `v` in a column of width `w`: its digits, with spaces before them
/// where they are fewer than `w`.
pub open spec fn cell_text(v: nat, w: int) -> Seq<char> {
    spaces(w - digits_of(v).len()) + digits_of(v)
}

/// The text of the first `k` labels of `s` on a grid of side `n`: after each
/// label a space, or the end of the line after the last label of a row.
pub open spec fn text_upto(s: Seq<usize>, n: int, k: int) -> Seq<char>
    decreases k,
{
    if k <= 0 {
        Seq::<char>::empty()
    } else {
        text_upto(s, n, k - 1) + cell_text(s[k - 1] as nat, column_width(n)) + seq![
            if k % n == 0 {
                '\n'
            } else {
                ' '
            },
        ]
    }
}

fn digit_str(d: usize) -> (res: &'static str)
    requires
        d < 10,
    ensures
        res@ == seq![digit_char(d as int)],
{
    proof {
        reveal_strlit("0");
        reveal_strlit("1");
        reveal_strlit("2");
        reveal_strlit("3");
        reveal_strlit("4");
        reveal_strlit("5");
        reveal_strlit("6");
        reveal_strlit("7");
        reveal_strlit("8");
        reveal_strlit("9");
    }
    let res = if d == 0 {
        "0"
    } else if d == 1 {
        "1"
    } else if d == 2 {
        "2"
    } else if d == 3 {
        "3"
    } else if d == 4 {
        "4"
    } else if d == 5 {
        "5"
    } else if d == 6 {
        "6"
    } else if d == 7 {
        "7"
    } else if d == 8 {
        "8"
    } else {
        "9"
    };
    assert(res@ =~= seq![digit_char(d as int)]);
    res
}

/// Appends the decimal digits of `v` to `out`.
fn push_digits(out: &mut String, v: usize)
    ensures
        final(out)@ == old(out)@ + digits_of(v as nat),
    decreases v,
{
    if v >= 10 {
        push_digits(out, v / 10);
    }
    out.append(digit_str(v % 10));
    assert(out@ =~= old(out)@ + digits_of(v as nat));
}

/// The number of decimal digits of `v`.
fn digit_count(v: usize) -> (res: usize)
    ensures
        res == digits_of(v as nat).len(),
        1 <= res,
{
    let mut rest = v;
    let mut count: usize = 1;
    while rest >= 10
        invariant
            1 <= count,
            count + digits_of(rest as nat).len() == digits_of(v as nat).len() + 1,
            count + rest <= v + 1,
        decreases rest,
    {
        rest = rest / 10;
        count += 1;
    }
    count
}

impl Node {
    /// The text of the board.
    pub open spec fn text(&self) -> Seq<char> {
        text_upto(self.state@, self.len as int, self.state@.len() as int)
    }

    /// The board as text: a line for each row, the labels of a row
    /// right-aligned in columns as wide as the largest label of the grid has
    /// digits, one space between two columns.
    pub fn to_text(&self) -> (res: String)
        requires
            self.state@.len() == self.len * self.len,
        ensures
            res@ == self.text(),
    {
        let total = self.state.len();
        let width = if total >= 1 {
            digit_count(total - 1)
        } else {
            1
        };
        proof {
            reveal_strlit("");
            reveal_strlit(" ");
            reveal_strlit("\n");
        }
        let mut out = String::from_str("");
        assert(out@ =~= Seq::<char>::empty());
        let mut k: usize = 0;
        while k < total
            invariant
                total == self.state@.len(),
                total == self.len * self.len,
                k <= total,
                width == column_width(self.len as int),
                " "@ == seq![' '],
                "\n"@ == seq!['\n'],
                out@ == text_upto(self.state@, self.len as int, k as int),
            decreases total - k,
        {
            let label = self.state[k];
            let have = digit_count(label);
            let ghost start = out@;
            let mut pad: usize = 0;
            while have < width && pad < width - have
                invariant
                    have < width ==> pad <= width - have,
                    " "@ == seq![' '],
                    out@ == start + spaces(pad as int),
                    have >= width ==> pad == 0,
                decreases width - pad,
            {
                out.append(" ");
                pad += 1;
                assert(out@ =~= start + spaces(pad as int));
            }
            assert(spaces(pad as int) == spaces(width - have));
            push_digits(&mut out, label);
            proof {
                crate::spiral::lemma_index_parts(self.len as int, k as int);
            }
            if (k + 1) % self.len == 0 {
                out.append("\n");
            } else {
                out.append(" ");
            }
            k += 1;
            assert(out@ =~= text_upto(self.state@, self.len as int, k as int));
        }
        out
    }
}

impl Goal {
    /// The goal's board as text.
    pub fn to_text(&self) -> (res: String)
        requires
            self.node.state@.len() == self.node.len * self.node.len,
        ensures
            res@ == self.node.text(),
    {
        self.node.to_text()
    }
}

} // verus!
