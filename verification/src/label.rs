//! The names of virtual nodes.

use vstd::prelude::*;
use vstd::string::StringExecFns;

verus! {

/// The decimal digits.
pub open spec fn digits() -> Seq<char> {
    seq!['0', '1', '2', '3', '4', '5', '6', '7', '8', '9']
}

/// A number in decimal, without leading zeros.
pub open spec fn decimal(value: nat) -> Seq<char>
    decreases value,
{
    if value < 10 {
        seq![digits()[value as int]]
    } else {
        decimal(value / 10).push(digits()[value as int % 10])
    }
}

/// The name of a virtual node.
pub open spec fn vnode_name(node: usize, vnode: usize) -> Seq<char> {
    "node-"@ + decimal(node as nat) + "-vn-"@ + decimal(vnode as nat)
}

/// One decimal digit as text.
fn digit(value: usize) -> (text: &'static str)
    requires
        value < 10,
    ensures
        text@ == seq![digits()[value as int]],
{
    proof {
        reveal_strlit("0");
        reveal_strlit("1");
        reveal_strlit("2");
        reveal_strlit("3");
        reveal_strlit("4");
        reveal_strlit("5");
        reveal_strlit("6");
        reveal_strlit("7");
        reveal_strlit("8");
        reveal_strlit("9");
    }
    match value {
        0 => "0",
        1 => "1",
        2 => "2",
        3 => "3",
        4 => "4",
        5 => "5",
        6 => "6",
        7 => "7",
        8 => "8",
        _ => "9",
    }
}

/// Appends a number in decimal.
fn append_decimal(text: &mut String, value: usize)
    ensures
        final(text)@ == old(text)@ + decimal(value as nat),
    decreases value,
{
    if value >= 10 {
        append_decimal(text, value / 10);
    }
    text.append(digit(value % 10));
    assert(text@ =~= old(text)@ + decimal(value as nat));
}

/// Writes the name of a virtual node.
pub fn name_vnode(node: usize, vnode: usize) -> (name: String)
    ensures
        name@ == vnode_name(node, vnode),
{
    let mut name: String = "node-".to_string();
    append_decimal(&mut name, node);
    name.append("-vn-");
    append_decimal(&mut name, vnode);
    name
}

/// The number that a row of decimal digits stands for.
pub open spec fn number(text: Seq<char>) -> int
    decreases text.len(),
{
    if text.len() == 0 {
        0
    } else {
        10 * number(text.drop_last()) + (text.last() as int - '0' as int)
    }
}

/// A number in decimal is made of digits, has no leading zero unless it is zero, and stands
/// for that number.
pub proof fn law_decimal(value: nat)
    ensures
        decimal(value).len() > 0,
        forall|i: int|
            0 <= i < decimal(value).len() ==> '0' as int <= #[trigger] decimal(value)[i] as int
                && decimal(value)[i] as int <= '9' as int,
        value > 0 ==> decimal(value)[0] != '0',
        value == 0 ==> decimal(value) == seq!['0'],
        number(decimal(value)) == value,
    decreases value,
{
    let text = decimal(value);
    reveal_with_fuel(number, 2);
    if value < 10 {
        assert(text.drop_last() =~= Seq::<char>::empty());
        assert(text =~= seq![digits()[value as int]]);
    } else {
        let last = digits()[value as int % 10];
        law_decimal(value / 10);
        assert(text =~= decimal(value / 10).push(last));
        assert(text.drop_last() =~= decimal(value / 10));
        assert(text[0] == decimal(value / 10)[0]);
        assert forall|i: int| 0 <= i < text.len() implies '0' as int <= #[trigger] text[i] as int
            && text[i] as int <= '9' as int by {
            if i < decimal(value / 10).len() {
                assert(text[i] == decimal(value / 10)[i]);
            }
        }
    }
}

/// The name of a virtual node spells out the number of its node and its own, in full.
pub proof fn law_vnode_name(node: usize, vnode: usize)
    ensures
        exists|one: Seq<char>, other: Seq<char>|
            {
                &&& vnode_name(node, vnode) == #[trigger] ("node-"@ + one + "-vn-"@ + other)
                &&& one.len() > 0 && other.len() > 0
                &&& number(one) == node
                &&& number(other) == vnode
                &&& one.len() > 1 ==> one[0] != '0'
                &&& other.len() > 1 ==> other[0] != '0'
                &&& forall|i: int|
                    0 <= i < one.len() ==> '0' as int <= #[trigger] one[i] as int && one[i] as int
                        <= '9' as int
                &&& forall|i: int|
                    0 <= i < other.len() ==> '0' as int <= #[trigger] other[i] as int
                        && other[i] as int <= '9' as int
            },
{
    law_decimal(node as nat);
    law_decimal(vnode as nat);
    assert(vnode_name(node, vnode) == "node-"@ + decimal(node as nat) + "-vn-"@ + decimal(
        vnode as nat,
    ));
}

/// Different virtual nodes have different names.
pub proof fn law_names_differ(node: usize, vnode: usize, other_node: usize, other_vnode: usize)
    requires
        vnode_name(node, vnode) == vnode_name(other_node, other_vnode),
    ensures
        node == other_node,
        vnode == other_vnode,
{
    let a = decimal(node as nat);
    let b = decimal(other_node as nat);
    let x = decimal(vnode as nat);
    let y = decimal(other_vnode as nat);
    let head = "node-"@;
    let middle = "-vn-"@;
    let one = head + a + middle + x;
    let other = head + b + middle + y;
    law_decimal(node as nat);
    law_decimal(other_node as nat);
    law_decimal(vnode as nat);
    law_decimal(other_vnode as nat);
    reveal_strlit("-vn-");
    assert(one == other);
    let (h, m) = (head.len() as int, middle.len() as int);
    if a.len() < b.len() {
        assert(one[h + a.len()] == middle[0]);
        assert(other[h + a.len()] == b[a.len() as int]);
    }
    if b.len() < a.len() {
        assert(other[h + b.len()] == middle[0]);
        assert(one[h + b.len()] == a[b.len() as int]);
    }
    assert(a =~= one.subrange(h, h + a.len()));
    assert(b =~= other.subrange(h, h + a.len()));
    assert(x =~= one.subrange(h + a.len() + m, one.len() as int));
    assert(y =~= other.subrange(h + a.len() + m, other.len() as int));
}

} // verus!
