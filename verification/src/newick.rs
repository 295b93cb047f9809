//! Writing trees and times as text.
//!
//! A tree is written in the Newick way: a leaf as its name, a colon and its
//! length; an inner node as its two subtrees in round brackets, separated by
//! a comma, followed by its own name, a colon and its length. Times are
//! written in branch length units with six decimals, which is exact since one
//! tick is a millionth of a unit.

use crate::node::Node;
use vstd::prelude::*;
use vstd::string::*;

verus! {

/// Ticks in one branch length unit.
pub const TICKS_PER_UNIT: u64 = 1_000_000;

/// What a list of strings holds, as texts.
pub open spec fn texts_of(lines: Seq<String>) -> Seq<Seq<char>> {
    Seq::new(lines.len(), |i: int| lines[i]@)
}

/// The character for a digit.
pub open spec fn digit_char(d: int) -> char {
    if d == 0 {
        '0'
    } else if d == 1 {
        '1'
    } else if d == 2 {
        '2'
    } else if d == 3 {
        '3'
    } else if d == 4 {
        '4'
    } else if d == 5 {
        '5'
    } else if d == 6 {
        '6'
    } else if d == 7 {
        '7'
    } else if d == 8 {
        '8'
    } else {
        '9'
    }
}

/// A natural number in decimal, without leading zeros.
pub open spec fn decimal(n: nat) -> Seq<char>
    decreases n,
{
    if n < 10 {
        seq![digit_char(n as int)]
    } else {
        decimal(n / 10).push(digit_char((n % 10) as int))
    }
}

/// The six decimals of a number of ticks below one unit.
pub open spec fn six_decimals(n: nat) -> Seq<char> {
    seq![
        digit_char((n / 100000) as int % 10),
        digit_char((n / 10000) as int % 10),
        digit_char((n / 1000) as int % 10),
        digit_char((n / 100) as int % 10),
        digit_char((n / 10) as int % 10),
        digit_char(n as int % 10),
    ]
}

/// A time in branch length units with six decimals: a minus sign where it is
/// negative, the whole units, a point, and the millionths.
pub open spec fn time_text(ticks: int) -> Seq<char> {
    let size = if ticks < 0 {
        (-ticks) as nat
    } else {
        ticks as nat
    };
    let sign = if ticks < 0 {
        seq!['-']
    } else {
        Seq::empty()
    };
    sign + decimal(size / 1_000_000) + seq!['.'] + six_decimals(size % 1_000_000)
}

/// The subtree in Newick form, without the closing semicolon. A node with
/// fewer than two children is written as a leaf.
pub open spec fn newick_text(node: Node) -> Seq<char>
    decreases node,
{
    match (node.left_child, node.right_child) {
        (Some(l), Some(r)) => seq!['('] + newick_text(*l) + seq![','] + newick_text(*r) + seq![')']
            + node.name@ + seq![':'] + time_text(node.length as int),
        _ => node.name@ + seq![':'] + time_text(node.length as int),
    }
}

fn digit_str(d: u64) -> (s: &'static str)
    requires
        d < 10,
    ensures
        s@ == seq![digit_char(d as int)],
{
    proof {
        reveal_strlit("0");
        reveal_strlit("1");
        reveal_strlit("2");
        reveal_strlit("3");
        reveal_strlit("4");
        reveal_strlit("5");
        reveal_strlit("6");
        reveal_strlit("7");
        reveal_strlit("8");
        reveal_strlit("9");
    }
    let s = if d == 0 {
        "0"
    } else if d == 1 {
        "1"
    } else if d == 2 {
        "2"
    } else if d == 3 {
        "3"
    } else if d == 4 {
        "4"
    } else if d == 5 {
        "5"
    } else if d == 6 {
        "6"
    } else if d == 7 {
        "7"
    } else if d == 8 {
        "8"
    } else {
        "9"
    };
    assert(s@ =~= seq![digit_char(d as int)]);
    s
}

fn write_decimal(out: &mut String, n: u64)
    ensures
        final(out)@ == old(out)@ + decimal(n as nat),
    decreases n,
{
    if n >= 10 {
        write_decimal(out, n / 10);
    }
    out.append(digit_str(n % 10));
    assert(out@ =~= old(out)@ + decimal(n as nat));
}

fn write_time(out: &mut String, ticks: i64)
    ensures
        final(out)@ == old(out)@ + time_text(ticks as int),
{
    proof {
        reveal_strlit("-");
        reveal_strlit(".");
    }
    let size: u64 = if ticks < 0 {
        out.append("-");
        (-(ticks as i128)) as u64
    } else {
        ticks as u64
    };
    write_decimal(out, size / TICKS_PER_UNIT);
    out.append(".");
    let rest: u64 = size % TICKS_PER_UNIT;
    out.append(digit_str(rest / 100000 % 10));
    out.append(digit_str(rest / 10000 % 10));
    out.append(digit_str(rest / 1000 % 10));
    out.append(digit_str(rest / 100 % 10));
    out.append(digit_str(rest / 10 % 10));
    out.append(digit_str(rest % 10));
    assert(out@ =~= old(out)@ + time_text(ticks as int));
}

/// A natural number in decimal.
pub fn number_to_string(n: u64) -> (text: String)
    ensures
        text@ == decimal(n as nat),
{
    let mut text = String::new();
    write_decimal(&mut text, n);
    assert(text@ =~= decimal(n as nat));
    text
}

/// A time in branch length units with six decimals.
pub fn time_to_string(ticks: i64) -> (text: String)
    ensures
        text@ == time_text(ticks as int),
{
    let mut text = String::new();
    write_time(&mut text, ticks);
    assert(text@ =~= time_text(ticks as int));
    text
}

fn write_newick(out: &mut String, node: &Node)
    ensures
        final(out)@ == old(out)@ + newick_text(*node),
    decreases node,
{
    proof {
        reveal_strlit("(");
        reveal_strlit(",");
        reveal_strlit(")");
        reveal_strlit(":");
    }
    let mut inner: bool = false;
    if let Some(left) = &node.left_child {
        if let Some(right) = &node.right_child {
            inner = true;
            out.append("(");
            write_newick(out, left);
            out.append(",");
            write_newick(out, right);
            out.append(")");
        }
    }
    out.append(node.name.as_str());
    out.append(":");
    write_time(out, node.length);
    assert(out@ =~= old(out)@ + newick_text(*node));
}

/// The subtree in Newick form, without the closing semicolon.
pub fn node_to_newick(node: &Node) -> (text: String)
    ensures
        text@ == newick_text(*node),
{
    let mut text = String::new();
    write_newick(&mut text, node);
    assert(text@ =~= newick_text(*node));
    text
}

/// The whole tree in Newick form, closed by a semicolon.
pub fn tree_to_newick(root: &Node) -> (text: String)
    ensures
        text@ == newick_text(*root).push(';'),
{
    proof {
        reveal_strlit(";");
    }
    let mut text = String::new();
    write_newick(&mut text, root);
    text.append(";");
    assert(text@ =~= newick_text(*root).push(';'));
    text
}

} // verus!
