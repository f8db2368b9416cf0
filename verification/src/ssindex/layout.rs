//! The trie as bytes.
//!
//! `[node count: u32]`, then each node:
//! `[child count: u8][offset: u64]` and, for each child, `[byte: u8][index: u32]`.
//! All integers are big-endian.
use crate::ssindex::arena::{NodeView, TriePointer};
use crate::util;
use crate::util::{be_bytes, be_value};
use vstd::prelude::*;

verus! {

/// The bytes of a pointer to a child.
pub open spec fn pointer_bytes(pointer: TriePointer) -> Seq<u8> {
    seq![pointer.0] + be_bytes(pointer.1 as nat, 4)
}

/// The bytes of the pointers to children, one after the other.
pub open spec fn children_bytes(children: Seq<TriePointer>) -> Seq<u8>
    decreases children.len(),
{
    if children.len() == 0 {
        Seq::empty()
    } else {
        children_bytes(children.drop_last()) + pointer_bytes(children.last())
    }
}

/// The bytes of a node. Of the number of children, one byte is kept.
pub open spec fn node_bytes(node: NodeView) -> Seq<u8> {
    be_bytes(node.children.len(), 1) + be_bytes(node.offset as nat, 8) + children_bytes(
        node.children,
    )
}

/// The bytes of the nodes, one after the other.
pub open spec fn nodes_bytes(nodes: Seq<NodeView>) -> Seq<u8>
    decreases nodes.len(),
{
    if nodes.len() == 0 {
        Seq::empty()
    } else {
        nodes_bytes(nodes.drop_last()) + node_bytes(nodes.last())
    }
}

/// The bytes of a trie.
pub open spec fn trie_bytes(nodes: Seq<NodeView>) -> Seq<u8> {
    be_bytes(nodes.len(), 4) + nodes_bytes(nodes)
}

/// The pointer that stands at position `at` of `s`.
pub open spec fn pointer_at(s: Seq<u8>, at: int) -> TriePointer {
    (s[at], be_value(s.subrange(at + 1, at + 5)) as u32)
}

/// The node at position `at` of `s`, and the position behind it; `None` where `s`
/// ends before.
pub open spec fn node_at(s: Seq<u8>, at: int) -> Option<(NodeView, int)> {
    if at < 0 || at + 9 > s.len() || at + 9 + 5 * s[at] > s.len() {
        None
    } else {
        Some(
            (
                NodeView {
                    offset: be_value(s.subrange(at + 1, at + 9)) as u64,
                    children: Seq::new(s[at] as nat, |j: int| pointer_at(s, at + 9 + 5 * j)),
                },
                at + 9 + 5 * s[at],
            ),
        )
    }
}

/// The first `count` nodes behind the header of a trie, and the position behind
/// them; `None` where `s` ends before.
pub open spec fn nodes_at(s: Seq<u8>, count: nat) -> Option<(Seq<NodeView>, int)>
    decreases count,
{
    if count == 0 {
        Some((Seq::empty(), 4))
    } else {
        match nodes_at(s, (count - 1) as nat) {
            None => None,
            Some((nodes, at)) => match node_at(s, at) {
                None => None,
                Some((node, end)) => Some((nodes.push(node), end)),
            },
        }
    }
}

/// The trie that `s` begins with; `None` where `s` ends before.
pub open spec fn trie_in(s: Seq<u8>) -> Option<Seq<NodeView>> {
    if s.len() < 4 {
        None
    } else {
        match nodes_at(s, be_value(s.subrange(0, 4))) {
            Some((nodes, _)) => Some(nodes),
            None => None,
        }
    }
}

/// The first nodes are there where more of them are.
pub proof fn lemma_nodes_at_prefix(s: Seq<u8>, few: nat, many: nat)
    requires
        few <= many,
        nodes_at(s, many) is Some,
    ensures
        nodes_at(s, few) is Some,
    decreases many,
{
    if few < many {
        lemma_nodes_at_prefix(s, few, (many - 1) as nat);
    }
}

/// The positions behind the nodes lie inside the bytes.
pub proof fn lemma_nodes_at_bounds(s: Seq<u8>, count: nat)
    requires
        s.len() >= 4,
    ensures
        nodes_at(s, count) matches Some((nodes, end)) ==> nodes.len() == count && 4 <= end
            <= s.len(),
    decreases count,
{
    if count > 0 {
        lemma_nodes_at_bounds(s, (count - 1) as nat);
    }
}

pub proof fn lemma_children_bytes_len(children: Seq<TriePointer>)
    ensures
        children_bytes(children).len() == 5 * children.len(),
    decreases children.len(),
{
    if children.len() > 0 {
        lemma_children_bytes_len(children.drop_last());
        util::lemma_be_bytes_len(children.last().1 as nat, 4);
    }
}

pub proof fn lemma_node_bytes_len(node: NodeView)
    ensures
        node_bytes(node).len() == 9 + 5 * node.children.len(),
{
    util::lemma_be_bytes_len(node.children.len(), 1);
    util::lemma_be_bytes_len(node.offset as nat, 8);
    lemma_children_bytes_len(node.children);
}

/// The bytes of the first nodes are no more than those of all.
pub proof fn lemma_nodes_bytes_monotonic(nodes: Seq<NodeView>, n: int)
    requires
        0 <= n <= nodes.len(),
    ensures
        nodes_bytes(nodes.take(n)).len() <= nodes_bytes(nodes).len(),
    decreases nodes.len(),
{
    if n == nodes.len() {
        assert(nodes.take(n) =~= nodes);
    } else {
        assert(nodes.drop_last().take(n) =~= nodes.take(n));
        lemma_nodes_bytes_monotonic(nodes.drop_last(), n);
    }
}

/// Every pointer is read back where it was written.
proof fn lemma_pointer_at(s: Seq<u8>, at: int, children: Seq<TriePointer>, j: int)
    requires
        0 <= at,
        0 <= j < children.len(),
        at + children_bytes(children).len() <= s.len(),
        s.subrange(at, at + children_bytes(children).len()) == children_bytes(children),
    ensures
        pointer_at(s, at + 5 * j) == children[j],
    decreases children.len(),
{
    let all = children_bytes(children);
    let front = children_bytes(children.drop_last());
    let last = pointer_bytes(children.last());
    lemma_children_bytes_len(children);
    lemma_children_bytes_len(children.drop_last());
    let there = s.subrange(at, at + all.len());
    if j == children.len() - 1 {
        util::lemma_be_value_of_u32(children.last().1);
        assert(s[at + 5 * j] == there[5 * j]);
        assert(there[5 * j] == last[0]);
        assert(s.subrange(at + 5 * j + 1, at + 5 * j + 5) =~= be_bytes(
            children.last().1 as nat,
            4,
        )) by {
            assert forall|k: int| 0 <= k < 4 implies s.subrange(at + 5 * j + 1, at + 5 * j + 5)[k]
                == be_bytes(children.last().1 as nat, 4)[k] by {
                assert(there[5 * j + 1 + k] == last[1 + k]);
            }
        }
    } else {
        assert(s.subrange(at, at + front.len()) =~= there.subrange(0, front.len() as int));
        assert(all.subrange(0, front.len() as int) =~= front);
        lemma_pointer_at(s, at, children.drop_last(), j);
    }
}

/// A node is read back where it was written, if it has fewer than 256 children.
pub proof fn lemma_node_at(s: Seq<u8>, at: int, node: NodeView)
    requires
        0 <= at,
        node.children.len() < 256,
        at + node_bytes(node).len() <= s.len(),
        s.subrange(at, at + node_bytes(node).len()) == node_bytes(node),
    ensures
        node_at(s, at) == Some((node, at + node_bytes(node).len())),
{
    let bytes = node_bytes(node);
    let there = s.subrange(at, at + bytes.len());
    lemma_node_bytes_len(node);
    lemma_children_bytes_len(node.children);
    util::lemma_be_bytes_len(node.children.len(), 1);
    util::lemma_be_value_of_u64(node.offset);
    assert(be_bytes(node.children.len(), 1)[0] == node.children.len()) by {
        reveal_with_fuel(be_bytes, 2);
    }
    assert(s[at] == there[0]);
    assert(s.subrange(at + 1, at + 9) =~= there.subrange(1, 9));
    assert(bytes.subrange(1, 9) =~= be_bytes(node.offset as nat, 8));
    assert(s.subrange(at + 9, at + bytes.len()) =~= there.subrange(9, bytes.len() as int));
    assert(bytes.subrange(9, bytes.len() as int) =~= children_bytes(node.children));
    let (read, _) = node_at(s, at)->0;
    assert forall|j: int| 0 <= j < node.children.len() implies read.children[j]
        == node.children[j] by {
        lemma_pointer_at(s, at + 9, node.children, j);
    }
    assert(read.children =~= node.children);
}

/// A node that was written between other bytes is read back: with its offset and its
/// children in their order, up to the bytes behind it.
pub proof fn lemma_node_roundtrip(before: Seq<u8>, node: NodeView, behind: Seq<u8>)
    requires
        node.children.len() < 256,
    ensures
        node_bytes(node).len() == 9 + 5 * node.children.len(),
        node_at(before + node_bytes(node) + behind, before.len() as int) == Some(
            (node, before.len() + 9int + 5 * node.children.len()),
        ),
{
    let bytes = node_bytes(node);
    let s = before + bytes + behind;
    let at = before.len() as int;
    lemma_node_bytes_len(node);
    assert(s.subrange(at, at + bytes.len()) =~= bytes);
    lemma_node_at(s, at, node);
}

/// Every node of `nodes` has fewer than 256 children: the byte that counts them
/// holds their number.
pub open spec fn countable(nodes: Seq<NodeView>) -> bool {
    forall|i: int| 0 <= i < nodes.len() ==> (#[trigger] nodes[i]).children.len() < 256
}

proof fn lemma_nodes_at(s: Seq<u8>, nodes: Seq<NodeView>)
    requires
        countable(nodes),
        4 + nodes_bytes(nodes).len() <= s.len(),
        s.subrange(4, 4int + nodes_bytes(nodes).len()) == nodes_bytes(nodes),
    ensures
        nodes_at(s, nodes.len()) == Some((nodes, 4int + nodes_bytes(nodes).len())),
    decreases nodes.len(),
{
    if nodes.len() > 0 {
        let front = nodes.drop_last();
        let all = nodes_bytes(nodes);
        let there = s.subrange(4, 4int + all.len());
        let split = nodes_bytes(front).len() as int;
        assert(countable(front)) by {
            assert forall|i: int| 0 <= i < front.len() implies (#[trigger] front[i]).children.len()
                < 256 by {
                assert(front[i] == nodes[i]);
            }
        }
        assert(s.subrange(4, 4int + split) =~= there.subrange(0, split));
        assert(all.subrange(0, split) =~= nodes_bytes(front));
        lemma_nodes_at(s, front);
        assert(s.subrange(4 + split, 4int + all.len()) =~= there.subrange(split, all.len() as int));
        assert(all.subrange(split, all.len() as int) =~= node_bytes(nodes.last()));
        lemma_node_at(s, 4 + split, nodes.last());
        assert(nodes =~= front.push(nodes.last()));
    } else {
        assert(nodes =~= Seq::<NodeView>::empty());
    }
}

/// Reading undoes writing: bytes that begin with those of a trie hold that trie,
/// if its nodes can be counted in a `u32` and the children of each in a byte.
pub proof fn lemma_deserialize_undoes_serialize(s: Seq<u8>, nodes: Seq<NodeView>)
    requires
        countable(nodes),
        nodes.len() <= u32::MAX,
        trie_bytes(nodes).is_prefix_of(s),
    ensures
        trie_in(s) == Some(nodes),
{
    let bytes = trie_bytes(nodes);
    util::lemma_be_value_of_u32(nodes.len() as u32);
    let there = s.subrange(0, bytes.len() as int);
    assert(s.subrange(0, 4) =~= there.subrange(0, 4));
    assert(bytes.subrange(0, 4) =~= be_bytes(nodes.len(), 4));
    assert(s.subrange(4, bytes.len() as int) =~= there.subrange(4, bytes.len() as int));
    assert(bytes.subrange(4, bytes.len() as int) =~= nodes_bytes(nodes));
    lemma_nodes_at(s, nodes);
}

/// The bytes of a node: one that counts its children, eight of its offset, and for each
/// child its byte and four of its index. All numbers are big-endian.
pub proof fn lemma_node_format(node: NodeView)
    requires
        node.children.len() < 256,
    ensures
        ({
            let s = node_bytes(node);
            &&& s.len() == 9 + 5 * node.children.len()
            &&& s[0] == node.children.len()
            &&& be_value(s.subrange(1, 9)) == node.offset
            &&& forall|j: int|
                0 <= j < node.children.len() ==> {
                    let (c, index) = #[trigger] node.children[j];
                    &&& s[9 + 5 * j] == c
                    &&& be_value(s.subrange(10 + 5 * j, 14 + 5 * j)) == index
                }
        }),
{
    let s = node_bytes(node);
    lemma_node_roundtrip(Seq::empty(), node, Seq::empty());
    assert(Seq::<u8>::empty() + s + Seq::<u8>::empty() =~= s);
    lemma_node_bytes_len(node);
    util::lemma_be_value_bound(s.subrange(1, 9));
    let (read, _) = node_at(s, 0)->0;
    assert(read.offset == node.offset);
    assert forall|j: int| 0 <= j < node.children.len() implies ({
        let (c, index) = #[trigger] node.children[j];
        &&& s[9 + 5 * j] == c
        &&& be_value(s.subrange(10 + 5 * j, 14 + 5 * j)) == index
    }) by {
        assert(read.children[j] == pointer_at(s, 9 + 5 * j));
        let four = s.subrange(9 + 5 * j + 1, 9 + 5 * j + 5);
        util::lemma_be_value_bound(four);
        assert(vstd::arithmetic::power::pow(256, 4) == 0x1_0000_0000) by {
            reveal_with_fuel(vstd::arithmetic::power::pow, 5);
        }
    }
}

/// The bytes of a trie begin with the number of its nodes, in four big-endian bytes.
pub proof fn lemma_trie_header(nodes: Seq<NodeView>)
    requires
        nodes.len() <= u32::MAX,
    ensures
        4 <= trie_bytes(nodes).len(),
        be_value(trie_bytes(nodes).subrange(0, 4)) == nodes.len(),
{
    util::lemma_be_value_of_u32(nodes.len() as u32);
    assert(trie_bytes(nodes).subrange(0, 4) =~= be_bytes(nodes.len(), 4));
}

proof fn lemma_pointers_read(s: Seq<u8>, at: int, children: Seq<TriePointer>)
    requires
        0 <= at,
        at + 5 * children.len() <= s.len(),
        forall|j: int|
            0 <= j < children.len() ==> #[trigger] children[j] == pointer_at(s, at + 5 * j),
    ensures
        s.subrange(at, at + 5 * children.len()) == children_bytes(children),
    decreases children.len(),
{
    let read = s.subrange(at, at + 5 * children.len());
    if children.len() == 0 {
        assert(read =~= children_bytes(children));
    } else {
        let front = children.drop_last();
        assert forall|j: int| 0 <= j < front.len() implies #[trigger] front[j] == pointer_at(
            s,
            at + 5 * j,
        ) by {
            assert(front[j] == children[j]);
        }
        lemma_pointers_read(s, at, front);
        let last = at + 5 * front.len();
        let four = s.subrange(last + 1, last + 5);
        assert(children.last() == children[front.len() as int]);
        util::lemma_be_value_bound(four);
        assert(vstd::arithmetic::power::pow(256, 4) == 0x1_0000_0000) by {
            reveal_with_fuel(vstd::arithmetic::power::pow, 5);
        }
        util::lemma_be_bytes_of_be_value(four);
        assert(s.subrange(last, last + 5) =~= pointer_bytes(children.last()));
        assert(read =~= s.subrange(at, last) + s.subrange(last, last + 5));
    }
}

/// A node is read from the bytes that it is written as.
pub proof fn lemma_node_read(s: Seq<u8>, at: int)
    ensures
        node_at(s, at) matches Some((node, end)) ==> {
            &&& 0 <= at <= end <= s.len()
            &&& node.children.len() < 256
            &&& s.subrange(at, end) == node_bytes(node)
        },
{
    if let Some((node, end)) = node_at(s, at) {
        let one = s.subrange(at, at + 1);
        let eight = s.subrange(at + 1, at + 9);
        util::lemma_be_bytes_of_be_value(one);
        util::lemma_be_value_concat(one, Seq::empty());
        util::lemma_be_bytes_of_be_value(eight);
        util::lemma_be_value_bound(eight);
        lemma_pointers_read(s, at + 9, node.children);
        assert(s.subrange(at, end) =~= one + eight + s.subrange(at + 9, end));
    }
}

proof fn lemma_nodes_read(s: Seq<u8>, count: nat)
    requires
        4 <= s.len(),
    ensures
        nodes_at(s, count) matches Some((nodes, end)) ==> {
            &&& nodes.len() == count
            &&& 4 <= end <= s.len()
            &&& countable(nodes)
            &&& s.subrange(4, end) == nodes_bytes(nodes)
        },
    decreases count,
{
    if count == 0 {
        assert(s.subrange(4, 4) =~= Seq::<u8>::empty());
    } else {
        lemma_nodes_read(s, (count - 1) as nat);
        if let Some((nodes, end)) = nodes_at(s, count) {
            let (front, at) = nodes_at(s, (count - 1) as nat)->0;
            lemma_node_read(s, at);
            assert(nodes.drop_last() =~= front);
            assert(s.subrange(4, end) =~= s.subrange(4, at) + s.subrange(at, end));
        }
    }
}

/// Bytes hold a trie if and only if they begin with what the trie is written as. So no two
/// tries are read from the same bytes, and nothing is read that was not written.
pub proof fn lemma_trie_read(s: Seq<u8>, nodes: Seq<NodeView>)
    ensures
        trie_in(s) == Some(nodes) <==> {
            &&& countable(nodes)
            &&& nodes.len() <= u32::MAX
            &&& trie_bytes(nodes).is_prefix_of(s)
        },
{
    if trie_in(s) == Some(nodes) {
        let four = s.subrange(0, 4);
        let count = be_value(four);
        let (_, end) = nodes_at(s, count)->0;
        lemma_nodes_read(s, count);
        util::lemma_be_bytes_of_be_value(four);
        util::lemma_be_value_bound(four);
        assert(vstd::arithmetic::power::pow(256, 4) == 0x1_0000_0000) by {
            reveal_with_fuel(vstd::arithmetic::power::pow, 5);
        }
        assert(s.subrange(0, end) =~= four + s.subrange(4, end));
        assert(trie_bytes(nodes) == s.subrange(0, end));
    }
    if countable(nodes) && nodes.len() <= u32::MAX && trie_bytes(nodes).is_prefix_of(s) {
        lemma_deserialize_undoes_serialize(s, nodes);
    }
}

} // verus!
