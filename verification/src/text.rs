//! Numbers and nodes in messages.

use vstd::prelude::*;
use vstd::string::StringExecFns;

use crate::graph::Node;

verus! {

/// The character of a digit.
pub open spec fn digit_char(digit: nat) -> char {
    ((48 + digit) as u8) as char
}

/// A number in decimal notation.
pub open spec fn decimal(n: nat) -> Seq<char>
    decreases n,
{
    if n < 10 {
        seq![digit_char(n)]
    } else {
        decimal(n / 10).push(digit_char(n % 10))
    }
}

fn digit(n: u64) -> (r: &'static str)
    requires
        n < 10,
    ensures
        r@ == seq![digit_char(n as nat)],
{
    proof {
        reveal_strlit("0");
        reveal_strlit("1");
        reveal_strlit("2");
        reveal_strlit("3");
        reveal_strlit("4");
        reveal_strlit("5");
        reveal_strlit("6");
        reveal_strlit("7");
        reveal_strlit("8");
        reveal_strlit("9");
    }
    let r = match n {
        0 => "0",
        1 => "1",
        2 => "2",
        3 => "3",
        4 => "4",
        5 => "5",
        6 => "6",
        7 => "7",
        8 => "8",
        _ => "9",
    };
    assert(r@ =~= seq![digit_char(n as nat)]);
    r
}

/// Append a number in decimal notation.
pub fn append_decimal(text: &mut String, n: u64)
    ensures
        final(text)@ == old(text)@ + decimal(n as nat),
    decreases n,
{
    if n >= 10 {
        append_decimal(text, n / 10);
    }
    text.append(digit(n % 10));
    assert(text@ =~= old(text)@ + decimal(n as nat));
}

/// A node in messages.
pub open spec fn node_text(node: Node) -> Seq<char> {
    "Node("@ + decimal(node.0 as nat) + ")"@
}

/// Append a node.
pub fn append_node(text: &mut String, node: Node)
    ensures
        final(text)@ == old(text)@ + node_text(node),
{
    text.append("Node(");
    append_decimal(text, node.0 as u64);
    text.append(")");
    assert(text@ =~= old(text)@ + node_text(node));
}

/// What a sequence of decimal digits stands for.
pub open spec fn number_of(digits: Seq<char>) -> int
    decreases digits.len(),
{
    if digits.len() == 0 {
        0
    } else {
        10 * number_of(digits.drop_last()) + (digits.last() as int - '0' as int)
    }
}

/// The decimal notation of a number stands for it: its characters are digits,
/// the first of them is no zero unless it is the only one.
pub proof fn decimals_stand_for_their_number(n: nat)
    ensures
        number_of(decimal(n)) == n,
        decimal(n).len() > 0,
        forall|i: int| 0 <= i < decimal(n).len() ==> '0' <= #[trigger] decimal(n)[i] <= '9',
        decimal(n).len() > 1 ==> decimal(n)[0] != '0',
    decreases n,
{
    reveal_with_fuel(number_of, 2);
    if n < 10 {
        assert(decimal(n).drop_last() =~= Seq::empty());
    } else {
        decimals_stand_for_their_number(n / 10);
        assert(decimal(n).drop_last() =~= decimal(n / 10));
        if decimal(n / 10).len() == 1 {
            assert(decimal(n)[0] == decimal(n / 10)[0]);
            assert(decimal(n / 10).drop_last() =~= Seq::empty());
        } else {
            assert(decimal(n)[0] == decimal(n / 10)[0]);
        }
    }
}

/// Different nodes have different texts.
pub proof fn texts_tell_nodes_apart(a: Node, b: Node)
    requires
        node_text(a) == node_text(b),
    ensures
        a == b,
{
    let start = "Node("@.len() as int;
    let end = node_text(a).len() - ")"@.len();
    assert(node_text(a).subrange(start, end) =~= decimal(a.0 as nat));
    assert(node_text(b).subrange(start, end) =~= decimal(b.0 as nat));
    decimals_stand_for_their_number(a.0 as nat);
    decimals_stand_for_their_number(b.0 as nat);
}

} // verus!
