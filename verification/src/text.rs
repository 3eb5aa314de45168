//! Numbers, tile kinds, cells and boards as text.

use crate::board::Board;
use crate::node::{Node, NodeType, Position};
use vstd::prelude::*;

verus! {

/// The character of a digit below ten.
pub open spec fn decimal_char(d: nat) -> char {
    (d + 48) as u8 as char
}

/// The decimal digits of a number, without leading zeros.
pub open spec fn decimal(n: nat) -> Seq<char>
    decreases n,
{
    if n < 10 {
        seq![decimal_char(n)]
    } else {
        decimal(n / 10).push(decimal_char(n % 10))
    }
}

/// A number in at least two decimal digits.
pub open spec fn pad2(n: nat) -> Seq<char> {
    if n < 10 {
        seq!['0', decimal_char(n)]
    } else {
        decimal(n)
    }
}

/// One row of a board as text, up to column `n`: a line break, the last
/// digit of the row's number, and then each cell's glyph and a blank.
pub open spec fn rendered_row(b: Board, y: nat, n: nat) -> Seq<char>
    decreases n,
{
    if n == 0 {
        seq!['\n', decimal_char(y % 10)]
    } else {
        rendered_row(b, y, (n - 1) as nat) + seq![
            b.kind_at(Position { x: (n - 1) as usize, y: y as usize }).glyph_of(),
            ' ',
        ]
    }
}

/// The first `n` rows of a board as text.
pub open spec fn rendering(b: Board, n: nat) -> Seq<char>
    decreases n,
{
    if n == 0 {
        Seq::empty()
    } else {
        rendering(b, (n - 1) as nat) + rendered_row(b, (n - 1) as nat, b.width)
    }
}

/// A cell as text: both coordinates in round brackets.
pub open spec fn position_text(p: Position) -> Seq<char> {
    seq!['('] + decimal(p.x as nat) + seq![',', ' '] + decimal(p.y as nat) + seq![')']
}

/// A node as text: the glyph of its kind, a bar, and its cell.
pub open spec fn node_text(n: Node) -> Seq<char> {
    seq![n.ntype.glyph_of(), ' ', '|', ' '] + position_text(n.position)
}

/// The text of one decimal digit.
pub fn digit_text(d: u8) -> (t: &'static str)
    requires
        d < 10,
    ensures
        t@ == seq![decimal_char(d as nat)],
{
    proof {
        reveal_strlit("0");
        reveal_strlit("1");
        reveal_strlit("2");
        reveal_strlit("3");
        reveal_strlit("4");
        reveal_strlit("5");
        reveal_strlit("6");
        reveal_strlit("7");
        reveal_strlit("8");
        reveal_strlit("9");
    }
    let t = match d {
        0 => "0",
        1 => "1",
        2 => "2",
        3 => "3",
        4 => "4",
        5 => "5",
        6 => "6",
        7 => "7",
        8 => "8",
        _ => "9",
    };
    assert(t@ =~= seq![decimal_char(d as nat)]);
    t
}

/// The text of the glyph of a kind.
pub fn glyph_text(k: NodeType) -> (t: &'static str)
    ensures
        t@ == seq![k.glyph_of()],
{
    proof {
        reveal_strlit(" ");
        reveal_strlit("#");
        reveal_strlit(".");
        reveal_strlit("$");
        reveal_strlit("@");
        reveal_strlit("*");
        reveal_strlit("+");
    }
    let t = match k {
        NodeType::Empty => " ",
        NodeType::Wall => "#",
        NodeType::Whole => ".",
        NodeType::Box => "$",
        NodeType::Player => "@",
        NodeType::BoxOnWhole => "*",
        NodeType::PlayerOnWhole => "+",
    };
    assert(t@ =~= seq![k.glyph_of()]);
    t
}

/// Appends the decimal digits of `n`.
pub fn push_decimal(text: &mut String, n: usize)
    ensures
        final(text)@ == old(text)@ + decimal(n as nat),
    decreases n,
{
    if n >= 10 {
        push_decimal(text, n / 10);
    }
    text.append(digit_text((n % 10) as u8));
    proof {
        if n >= 10 {
            assert(final(text)@ =~= old(text)@ + decimal(n as nat));
        } else {
            assert(final(text)@ =~= old(text)@ + decimal(n as nat));
        }
    }
}

/// Appends `n` in at least two decimal digits.
pub fn push_pad2(text: &mut String, n: usize)
    ensures
        final(text)@ == old(text)@ + pad2(n as nat),
{
    if n < 10 {
        text.append("0");
        text.append(digit_text(n as u8));
        proof {
            reveal_strlit("0");
            assert(final(text)@ =~= old(text)@ + pad2(n as nat));
        }
    } else {
        push_decimal(text, n);
    }
}

impl Position {
    /// The cell as text, as in `(3, 12)`.
    pub fn render(&self) -> (text: String)
        ensures
            text@ == position_text(*self),
    {
        let mut text = String::new();
        text.append("(");
        push_decimal(&mut text, self.x);
        text.append(", ");
        push_decimal(&mut text, self.y);
        text.append(")");
        proof {
            reveal_strlit("(");
            reveal_strlit(", ");
            reveal_strlit(")");
            assert(text@ =~= position_text(*self));
        }
        text
    }
}

impl Node {
    /// The node as text: the glyph of its kind, a bar, and its cell, as in
    /// `# | (3, 12)`.
    pub fn render(&self) -> (text: String)
        ensures
            text@ == node_text(*self),
    {
        let mut text = String::new();
        text.append(glyph_text(self.ntype));
        text.append(" | ");
        let cell = self.position.render();
        text.append(cell.as_str());
        proof {
            reveal_strlit(" | ");
            assert(text@ =~= node_text(*self));
        }
        text
    }
}

} // verus!
