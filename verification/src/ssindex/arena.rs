//! The trie as a sequence of nodes: what it means, how it grows, how it is written.
//!
//! Node 0 is the root. A node's children name other nodes by their place in the
//! sequence.
use crate::util;
use vstd::prelude::*;

verus! {

/// Marks the end of a word in a node's offset. It leaves 63 bits for offsets.
pub const WORD_END_FLAG: u64 = 0x8000_0000_0000_0000;

/// The bits of a node's offset that hold the offset.
pub const OFFSET_MASK: u64 = 0x7FFF_FFFF_FFFF_FFFF;

/// The offset of a node at which no word ends.
pub const UNMARKED_FLAG: u64 = 0;

/// A byte of the key, and the arena index of the node that it leads to.
pub type TriePointer = (u8, u32);

// ---------------------------------------------------------------------------
// Nodes
// ---------------------------------------------------------------------------
/// What a node holds: its offset word and its children, in the order of their
/// bytes.
#[verifier::ext_equal]
pub struct NodeView {
    pub offset: u64,
    pub children: Seq<TriePointer>,
}

/// A node without a word and without children.
pub open spec fn blank_node() -> NodeView {
    NodeView { offset: UNMARKED_FLAG, children: Seq::empty() }
}

/// Child `j` of `node` is the one for byte `c`.
pub open spec fn has_child(node: NodeView, j: int, c: u8) -> bool {
    0 <= j < node.children.len() && node.children[j].0 == c
}

/// The arena index that byte `c` leads to from `node`.
pub open spec fn child(node: NodeView, c: u8) -> Option<int> {
    if exists|j: int| has_child(node, j, c) {
        Some(node.children[choose|j: int| has_child(node, j, c)].1 as int)
    } else {
        None
    }
}

/// The bytes of the children rise strictly.
pub open spec fn sorted(children: Seq<TriePointer>) -> bool {
    forall|i: int, j: int|
        0 <= i < j < children.len() ==> (#[trigger] children[i]).0 < (#[trigger] children[j]).0
}

/// How many children, from the front, have a byte below `c`.
pub open spec fn rank(children: Seq<TriePointer>, c: u8) -> nat
    decreases children.len(),
{
    if children.len() == 0 {
        0
    } else if children.last().0 < c {
        children.len()
    } else {
        rank(children.drop_last(), c)
    }
}

/// The offset that a node holds, if a word ends there.
pub open spec fn node_offset(node: NodeView) -> Option<u64> {
    if node.offset == UNMARKED_FLAG {
        None
    } else {
        Some(node.offset & OFFSET_MASK)
    }
}

pub proof fn lemma_child_at(node: NodeView, j: int, c: u8)
    requires
        sorted(node.children),
        has_child(node, j, c),
    ensures
        child(node, c) == Some(node.children[j].1 as int),
{
    let k = choose|k: int| has_child(node, k, c);
    assert(has_child(node, k, c));
    assert(node.children[j].0 == node.children[k].0);
}

pub proof fn lemma_rank(children: Seq<TriePointer>, c: u8, pos: int)
    requires
        0 <= pos <= children.len(),
        forall|i: int| 0 <= i < pos ==> (#[trigger] children[i]).0 < c,
        forall|i: int| pos <= i < children.len() ==> (#[trigger] children[i]).0 >= c,
    ensures
        rank(children, c) == pos,
    decreases children.len(),
{
    if pos < children.len() {
        lemma_rank(children.drop_last(), c, pos);
    }
}

pub proof fn lemma_rank_splits(children: Seq<TriePointer>, c: u8)
    requires
        sorted(children),
    ensures
        rank(children, c) <= children.len(),
        forall|i: int| 0 <= i < rank(children, c) ==> (#[trigger] children[i]).0 < c,
        forall|i: int| rank(children, c) <= i < children.len() ==> (#[trigger] children[i]).0 >= c,
    decreases children.len(),
{
    if children.len() > 0 && children.last().0 >= c {
        let rest = children.drop_last();
        assert(sorted(rest));
        lemma_rank_splits(rest, c);
        assert forall|i: int| rank(children, c) <= i < children.len() implies (
        #[trigger] children[i]).0 >= c by {
            if i < rest.len() {
                assert(children[i] == rest[i]);
            }
        }
        assert forall|i: int| 0 <= i < rank(children, c) implies (#[trigger] children[i]).0
            < c by {
            assert(children[i] == rest[i]);
        }
    }
}

// ---------------------------------------------------------------------------
// Walking the trie
// ---------------------------------------------------------------------------
/// The node that the bytes of `key` lead to from the root.
pub open spec fn walk(nodes: Seq<NodeView>, key: Seq<u8>) -> Option<int>
    decreases key.len(),
{
    if key.len() == 0 {
        Some(0)
    } else {
        match walk(nodes, key.drop_last()) {
            Some(i) => child(nodes[i], key.last()),
            None => None,
        }
    }
}

/// The offset that the trie holds for `key`.
pub open spec fn lookup(nodes: Seq<NodeView>, key: Seq<u8>) -> Option<u64> {
    if nodes.len() == 0 {
        None
    } else {
        match walk(nodes, key) {
            Some(i) => node_offset(nodes[i]),
            None => None,
        }
    }
}

/// The keys of the trie with their offsets.
pub open spec fn contents(nodes: Seq<NodeView>) -> Map<Seq<u8>, u64> {
    Map::new(|key: Seq<u8>| lookup(nodes, key) is Some, |key: Seq<u8>| lookup(nodes, key)->0)
}

/// The target of child `j` of node `i`.
pub open spec fn edge(nodes: Seq<NodeView>, i: int, j: int) -> int {
    nodes[i].children[j].1 as int
}

/// `j` is the place of a child of node `i`.
pub open spec fn is_edge(nodes: Seq<NodeView>, i: int, j: int) -> bool {
    0 <= i < nodes.len() && 0 <= j < nodes[i].children.len()
}

/// The trie can be walked: the children of every node are sorted and lead to nodes.
pub open spec fn walkable(nodes: Seq<NodeView>) -> bool {
    &&& forall|i: int| 0 <= i < nodes.len() ==> sorted((#[trigger] nodes[i]).children)
    &&& forall|i: int, j: int|
        is_edge(nodes, i, j) ==> 0 <= #[trigger] edge(nodes, i, j) < nodes.len()
}

/// The trie is a tree: every node but the root is the child of one node, which
/// stands before it.
pub open spec fn tree(nodes: Seq<NodeView>) -> bool {
    &&& walkable(nodes)
    &&& forall|i: int, j: int| is_edge(nodes, i, j) ==> i < #[trigger] edge(nodes, i, j)
    &&& forall|i1: int, j1: int, i2: int, j2: int|
        is_edge(nodes, i1, j1) && is_edge(nodes, i2, j2) && #[trigger] edge(nodes, i1, j1)
            == #[trigger] edge(nodes, i2, j2) ==> i1 == i2 && j1 == j2
    &&& forall|n: int| 0 < n < nodes.len() ==> #[trigger] has_parent(nodes, n)
}

/// Some child of some node is node `n`.
pub open spec fn has_parent(nodes: Seq<NodeView>, n: int) -> bool {
    exists|i: int, j: int| is_edge(nodes, i, j) && #[trigger] edge(nodes, i, j) == n
}

/// At every node without children a word ends, but perhaps at `except`.
pub open spec fn leaves_marked(nodes: Seq<NodeView>, except: int) -> bool {
    forall|i: int|
        0 <= i < nodes.len() && i != except && (#[trigger] nodes[i]).children.len() == 0
            ==> nodes[i].offset != UNMARKED_FLAG
}

/// Every walk can go on to a word: nodes lead to later nodes, and words end where
/// no children are.
pub open spec fn spanned(nodes: Seq<NodeView>) -> bool {
    &&& walkable(nodes)
    &&& forall|i: int, j: int| is_edge(nodes, i, j) ==> i < #[trigger] edge(nodes, i, j)
    &&& leaves_marked(nodes, -1)
}

pub proof fn lemma_walk_in_range(nodes: Seq<NodeView>, key: Seq<u8>)
    requires
        walkable(nodes),
        nodes.len() > 0,
    ensures
        walk(nodes, key) matches Some(i) ==> 0 <= i < nodes.len(),
    decreases key.len(),
{
    if key.len() > 0 {
        lemma_walk_in_range(nodes, key.drop_last());
        if let Some(i) = walk(nodes, key.drop_last()) {
            if child(nodes[i], key.last()) is Some {
                let j = choose|j: int| has_child(nodes[i], j, key.last());
                assert(is_edge(nodes, i, j));
                assert(edge(nodes, i, j) == child(nodes[i], key.last())->0);
            }
        }
    }
}

/// The last step of a walk to `n` is an edge to `n`.
pub proof fn lemma_walk_last_edge(nodes: Seq<NodeView>, key: Seq<u8>) -> (edge_at: (int, int))
    requires
        walkable(nodes),
        nodes.len() > 0,
        key.len() > 0,
        walk(nodes, key) is Some,
    ensures
        is_edge(nodes, edge_at.0, edge_at.1),
        walk(nodes, key.drop_last()) == Some(edge_at.0),
        has_child(nodes[edge_at.0], edge_at.1, key.last()),
        edge(nodes, edge_at.0, edge_at.1) == walk(nodes, key)->0,
{
    let i = walk(nodes, key.drop_last())->0;
    lemma_walk_in_range(nodes, key.drop_last());
    let j = choose|j: int| has_child(nodes[i], j, key.last());
    assert(has_child(nodes[i], j, key.last()));
    (i, j)
}

/// In a tree, two keys lead to one node only where they are the same key.
pub proof fn lemma_walk_injective(nodes: Seq<NodeView>, k1: Seq<u8>, k2: Seq<u8>)
    requires
        tree(nodes),
        nodes.len() > 0,
        walk(nodes, k1) is Some,
        walk(nodes, k1) == walk(nodes, k2),
    ensures
        k1 == k2,
    decreases k1.len(),
{
    if k1.len() > 0 {
        let (i1, j1) = lemma_walk_last_edge(nodes, k1);
        if k2.len() > 0 {
            let (i2, j2) = lemma_walk_last_edge(nodes, k2);
            assert(edge(nodes, i1, j1) == edge(nodes, i2, j2));
            lemma_walk_injective(nodes, k1.drop_last(), k2.drop_last());
            assert(k1 =~= k1.drop_last().push(k1.last()));
            assert(k2 =~= k2.drop_last().push(k2.last()));
        } else {
            assert(edge(nodes, i1, j1) > i1);
        }
    } else if k2.len() > 0 {
        let (i2, j2) = lemma_walk_last_edge(nodes, k2);
        assert(edge(nodes, i2, j2) > i2);
    } else {
        assert(k1 =~= k2);
    }
}

// ---------------------------------------------------------------------------
// Growing the trie
// ---------------------------------------------------------------------------
/// The trie with a new blank node as the child of node `i` for byte `c`.
pub open spec fn with_child(nodes: Seq<NodeView>, i: int, c: u8) -> Seq<NodeView> {
    let children = nodes[i].children;
    let parent = NodeView {
        children: children.insert(rank(children, c) as int, (c, nodes.len() as u32)),
        ..nodes[i]
    };
    Seq::new(
        nodes.len() + 1,
        |n: int|
            if n == nodes.len() {
                blank_node()
            } else if n == i {
                parent
            } else {
                nodes[n]
            },
    )
}

/// The trie with the nodes on the way to `key`, those that are missing added one
/// after the other.
pub open spec fn grown(nodes: Seq<NodeView>, key: Seq<u8>) -> Seq<NodeView>
    decreases key.len(),
{
    if key.len() == 0 {
        if nodes.len() == 0 {
            seq![blank_node()]
        } else {
            nodes
        }
    } else {
        let before = grown(nodes, key.drop_last());
        let i = walk(before, key.drop_last())->0;
        if child(before[i], key.last()) is Some {
            before
        } else {
            with_child(before, i, key.last())
        }
    }
}

/// The trie in which a word with `offset` ends at node `i`.
pub open spec fn marked(nodes: Seq<NodeView>, i: int, offset: u64) -> Seq<NodeView> {
    Seq::new(
        nodes.len(),
        |n: int|
            if n == i {
                NodeView { offset: offset | WORD_END_FLAG, ..nodes[i] }
            } else {
                nodes[n]
            },
    )
}

/// The trie with `key` leading to `offset`.
pub open spec fn inserted(nodes: Seq<NodeView>, key: Seq<u8>, offset: u64) -> Seq<NodeView> {
    let before = grown(nodes, key);
    marked(before, walk(before, key)->0, offset)
}

/// The nodes of the trie with `key` can still be numbered in a `u32`. Where there is
/// room for a node for every byte of the key and one more, they can.
pub open spec fn room_for(nodes: Seq<NodeView>, key: Seq<u8>) -> bool {
    ||| nodes.len() + key.len() + 1 <= 0x1_0000_0000
    ||| grown(nodes, key).len() <= 0x1_0000_0000
}

/// A new child adds one path and one word-less node, and leaves all others.
pub proof fn lemma_with_child_walk(nodes: Seq<NodeView>, p: Seq<u8>, c: u8, key: Seq<u8>)
    requires
        tree(nodes),
        0 < nodes.len() <= u32::MAX,
        walk(nodes, p) is Some,
        child(nodes[walk(nodes, p)->0], c) is None,
    ensures
        walk(with_child(nodes, walk(nodes, p)->0, c), key) == if key == p.push(c) {
            Some(nodes.len() as int)
        } else {
            walk(nodes, key)
        },
    decreases key.len(),
{
    let i = walk(nodes, p)->0;
    let after = with_child(nodes, i, c);
    lemma_walk_in_range(nodes, p);
    lemma_with_child_node(nodes, i, c);
    if key.len() > 0 {
        let prefix = key.drop_last();
        lemma_with_child_walk(nodes, p, c, prefix);
        assert(key =~= prefix.push(key.last()));
        assert(p.push(c).drop_last() =~= p);
        if prefix == p.push(c) {
            assert(after[nodes.len() as int] == blank_node());
            assert(forall|j: int| !has_child(blank_node(), j, key.last()));
            assert(child(blank_node(), key.last()) is None);
            // The path of the new node leads nowhere before.
            assert(walk(nodes, p.push(c)) is None);
            if key == p.push(c) {
                assert(key.len() == prefix.len() + 1);
            }
        } else if walk(nodes, prefix) is Some {
            let n = walk(nodes, prefix)->0;
            lemma_walk_in_range(nodes, prefix);
            if n == i {
                lemma_walk_injective(nodes, prefix, p);
            } else {
                assert(after[n] == nodes[n]);
                if prefix == p {
                    assert(false);
                }
            }
        } else {
            if prefix == p {
                assert(false);
            }
        }
    }
}

/// The children of the node that gets one.
pub proof fn lemma_with_child_node(nodes: Seq<NodeView>, i: int, c: u8)
    requires
        walkable(nodes),
        0 <= i < nodes.len() <= u32::MAX,
        child(nodes[i], c) is None,
    ensures
        ({
            let after = with_child(nodes, i, c);
            &&& after.len() == nodes.len() + 1
            &&& sorted(after[i].children)
            &&& child(after[i], c) == Some(nodes.len() as int)
            &&& forall|b: u8| b != c ==> #[trigger] child(after[i], b) == child(nodes[i], b)
        }),
{
    let old_node = nodes[i];
    let after = with_child(nodes, i, c);
    let node = after[i];
    let r = rank(old_node.children, c) as int;
    lemma_rank_splits(old_node.children, c);
    assert forall|j: int| 0 <= j < old_node.children.len() implies (
    #[trigger] old_node.children[j]).0 != c by {
        if old_node.children[j].0 == c {
            assert(has_child(old_node, j, c));
        }
    }
    assert(node.children == old_node.children.insert(r, (c, nodes.len() as u32)));
    assert forall|a: int, b: int| 0 <= a < b < node.children.len() implies (
    #[trigger] node.children[a]).0 < (#[trigger] node.children[b]).0 by {
        let oa = if a < r { a } else { a - 1 };
        let ob = if b < r { b } else { b - 1 };
        if a != r {
            assert(node.children[a] == old_node.children[oa]);
        }
        if b != r {
            assert(node.children[b] == old_node.children[ob]);
        }
    }
    assert(has_child(node, r, c));
    lemma_child_at(node, r, c);
    assert forall|b: u8| b != c implies #[trigger] child(node, b) == child(old_node, b) by {
        if exists|j: int| has_child(old_node, j, b) {
            let j = choose|j: int| has_child(old_node, j, b);
            lemma_child_at(old_node, j, b);
            let nj = if j < r { j } else { j + 1 };
            assert(node.children[nj] == old_node.children[j]);
            assert(has_child(node, nj, b));
            lemma_child_at(node, nj, b);
        } else if exists|j: int| has_child(node, j, b) {
            let j = choose|j: int| has_child(node, j, b);
            let oj = if j < r { j } else { j - 1 };
            assert(node.children[j] == old_node.children[oj]);
            assert(has_child(old_node, oj, b));
        }
    }
}

/// A tree with a new child is a tree.
pub proof fn lemma_with_child_tree(nodes: Seq<NodeView>, i: int, c: u8)
    requires
        tree(nodes),
        0 <= i < nodes.len() <= u32::MAX,
        child(nodes[i], c) is None,
    ensures
        tree(with_child(nodes, i, c)),
{
    let after = with_child(nodes, i, c);
    let r = rank(nodes[i].children, c) as int;
    lemma_rank_splits(nodes[i].children, c);
    lemma_with_child_node(nodes, i, c);
    // Every edge is an old one, or the one to the new node.
    assert forall|n: int, j: int| #[trigger] is_edge(after, n, j) implies {
        let oj = if n == i && j > r { j - 1 } else { j };
        ||| n == i && j == r && edge(after, n, j) == nodes.len()
        ||| !(n == i && j == r) && is_edge(nodes, n, oj) && edge(after, n, j) == edge(nodes, n, oj)
    } by {
        if n == nodes.len() {
            assert(after[n].children.len() == 0);
        } else if n == i {
            let oj = if j > r { j - 1 } else { j };
            if j != r {
                assert(after[i].children[j] == nodes[i].children[oj]);
            }
        } else {
            assert(after[n] == nodes[n]);
        }
    }
    assert forall|n: int| 0 <= n < after.len() implies sorted((#[trigger] after[n]).children) by {
        if n < nodes.len() && n != i {
            assert(after[n] == nodes[n]);
        }
    }
    assert forall|n: int, j: int| is_edge(after, n, j) implies n < #[trigger] edge(after, n, j)
        < after.len() by {
        let oj = if n == i && j > r { j - 1 } else { j };
        if !(n == i && j == r) {
            assert(n < edge(nodes, n, oj) < nodes.len());
        }
    }
    assert forall|i1: int, j1: int, i2: int, j2: int|
        is_edge(after, i1, j1) && is_edge(after, i2, j2) && #[trigger] edge(after, i1, j1)
            == #[trigger] edge(after, i2, j2) implies i1 == i2 && j1 == j2 by {
        let o1 = if i1 == i && j1 > r { j1 - 1 } else { j1 };
        let o2 = if i2 == i && j2 > r { j2 - 1 } else { j2 };
        if !(i1 == i && j1 == r) {
            assert(edge(nodes, i1, o1) < nodes.len());
        }
        if !(i2 == i && j2 == r) {
            assert(edge(nodes, i2, o2) < nodes.len());
        }
    }
    assert forall|n: int| 0 < n < after.len() implies #[trigger] has_parent(after, n) by {
        if n == nodes.len() {
            assert(is_edge(after, i, r));
            assert(edge(after, i, r) == n);
        } else {
            assert(has_parent(nodes, n));
            let (pi, pj) = choose|pi: int, pj: int|
                is_edge(nodes, pi, pj) && #[trigger] edge(nodes, pi, pj) == n;
            let nj = if pi == i && pj >= r { pj + 1 } else { pj };
            if pi == i {
                assert(after[i].children[nj] == nodes[i].children[pj]);
            } else {
                assert(after[pi] == nodes[pi]);
            }
            assert(is_edge(after, pi, nj));
            assert(edge(after, pi, nj) == n);
        }
    }
}

/// A trie of the root alone leads nowhere.
proof fn lemma_root_only(key: Seq<u8>)
    ensures
        walk(seq![blank_node()], key) is Some <==> key.len() == 0,
        lookup(seq![blank_node()], key) is None,
    decreases key.len(),
{
    let nodes = seq![blank_node()];
    if key.len() > 0 {
        lemma_root_only(key.drop_last());
        assert(forall|j: int| !has_child(nodes[0], j, key.last()));
    }
}

/// The tries that insertion keeps: empty, or a tree in which every leaf ends a word.
pub open spec fn wf(nodes: Seq<NodeView>) -> bool {
    nodes.len() > 0 ==> tree(nodes) && leaves_marked(nodes, -1)
}

/// Whether `key` leads to a node.
pub open spec fn has_path(nodes: Seq<NodeView>, key: Seq<u8>) -> bool {
    nodes.len() > 0 && walk(nodes, key) is Some
}

/// What growing towards `key` does: the trie stays a tree, it holds what it held,
/// and its paths are those that it had and the beginnings of `key`.
pub proof fn lemma_grown(nodes: Seq<NodeView>, key: Seq<u8>)
    requires
        wf(nodes),
        grown(nodes, key).len() <= 0x1_0000_0000,
    ensures
        ({
            let after = grown(nodes, key);
            &&& after.len() > 0
            &&& nodes.len() <= after.len() <= nodes.len() + key.len() + 1
            &&& tree(after)
            &&& walk(after, key) is Some
            &&& leaves_marked(after, walk(after, key)->0)
            &&& forall|k: Seq<u8>| #[trigger] lookup(after, k) == lookup(nodes, k)
            &&& forall|k: Seq<u8>| #[trigger]
                has_path(after, k) <==> has_path(nodes, k) || k.is_prefix_of(key)
        }),
    decreases key.len(),
{
    let after = grown(nodes, key);
    if key.len() == 0 {
        if nodes.len() == 0 {
            assert forall|k: Seq<u8>| true implies lookup(after, k) == #[trigger] lookup(nodes, k)
                && (has_path(after, k) <==> has_path(nodes, k) || k.is_prefix_of(key)) by {
                lemma_root_only(k);
                if k.len() == 0 {
                    assert(k =~= key);
                    assert(k.is_prefix_of(key));
                }
            }
            assert forall|k: Seq<u8>| #[trigger]
                has_path(after, k) <==> has_path(nodes, k) || k.is_prefix_of(key) by {
                assert(lookup(nodes, k) == lookup(nodes, k));
            }
            assert forall|k: Seq<u8>| #[trigger] lookup(after, k) == lookup(nodes, k) by {
                lemma_root_only(k);
            }
        } else {
            assert forall|k: Seq<u8>| #[trigger]
                has_path(after, k) <==> has_path(nodes, k) || k.is_prefix_of(key) by {
                if k.is_prefix_of(key) {
                    assert(k.len() == 0);
                }
            }
        }
    } else {
        let prefix = key.drop_last();
        let c = key.last();
        let before = grown(nodes, prefix);
        let i = walk(before, prefix)->0;
        assert(key =~= prefix.push(c));
        lemma_grown(nodes, prefix);
        lemma_walk_in_range(before, prefix);
        if child(before[i], c) is Some {
            let j = choose|j: int| has_child(before[i], j, c);
            assert(has_child(before[i], j, c));
            assert forall|k: Seq<u8>| #[trigger]
                has_path(after, k) <==> has_path(nodes, k) || k.is_prefix_of(key) by {
                lemma_prefix_of_push(prefix, c, k);
                assert(has_path(before, key));
                assert(has_path(before, k) <==> has_path(nodes, k) || k.is_prefix_of(prefix));
            }
        } else {
            lemma_with_child_tree(before, i, c);
            lemma_with_child_node(before, i, c);
            assert forall|k: Seq<u8>| #[trigger] lookup(after, k) == lookup(nodes, k) by {
                lemma_with_child_walk(before, prefix, c, k);
                lemma_walk_in_range(before, k);
                assert(lookup(before, k) == lookup(nodes, k));
                if k == key {
                    assert(walk(before, key) is None);
                }
            }
            assert forall|k: Seq<u8>| #[trigger]
                has_path(after, k) <==> has_path(nodes, k) || k.is_prefix_of(key) by {
                lemma_with_child_walk(before, prefix, c, k);
                lemma_prefix_of_push(prefix, c, k);
                assert(has_path(before, k) <==> has_path(nodes, k) || k.is_prefix_of(prefix));
            }
            lemma_with_child_walk(before, prefix, c, key);
            assert forall|n: int|
                0 <= n < after.len() && n != before.len() && (
                #[trigger] after[n]).children.len() == 0 implies after[n].offset
                != UNMARKED_FLAG by {
                if n != i {
                    assert(after[n] == before[n]);
                }
            }
        }
    }
}

/// The beginnings of `p.push(c)` are those of `p`, and itself.
proof fn lemma_prefix_of_push(p: Seq<u8>, c: u8, k: Seq<u8>)
    ensures
        k.is_prefix_of(p.push(c)) <==> k.is_prefix_of(p) || k == p.push(c),
{
    let full = p.push(c);
    if k.is_prefix_of(full) {
        if k.len() == full.len() {
            assert(full.subrange(0, k.len() as int) =~= full);
        } else {
            assert(full.subrange(0, k.len() as int) =~= p.subrange(0, k.len() as int));
        }
    }
    if k.is_prefix_of(p) {
        assert(full.subrange(0, k.len() as int) =~= p.subrange(0, k.len() as int));
    }
    if k == full {
        assert(full.subrange(0, k.len() as int) =~= full);
    }
}

/// Inserting a key keeps the trie well formed and changes the offset of that key
/// alone.
pub proof fn lemma_inserted(nodes: Seq<NodeView>, key: Seq<u8>, offset: u64)
    requires
        wf(nodes),
        grown(nodes, key).len() <= 0x1_0000_0000,
    ensures
        ({
            let after = inserted(nodes, key, offset);
            &&& wf(after)
            &&& after.len() == grown(nodes, key).len()
            &&& nodes.len() <= after.len() <= nodes.len() + key.len() + 1
            &&& contents(after) == contents(nodes).insert(key, offset & OFFSET_MASK)
        }),
{
    let before = grown(nodes, key);
    let after = inserted(nodes, key, offset);
    let i = walk(before, key)->0;
    lemma_grown(nodes, key);
    lemma_walk_in_range(before, key);
    lemma_marked_tree(before, i, offset);
    assert(offset | WORD_END_FLAG != UNMARKED_FLAG && (offset | WORD_END_FLAG) & OFFSET_MASK
        == offset & OFFSET_MASK) by (bit_vector);
    assert forall|k: Seq<u8>| #[trigger] lookup(after, k) == if k == key {
        Some(offset & OFFSET_MASK)
    } else {
        lookup(nodes, k)
    } by {
        lemma_marked_walk(before, i, offset, k);
        lemma_walk_in_range(before, k);
        assert(lookup(before, k) == lookup(nodes, k));
        if walk(before, k) == Some(i) {
            lemma_walk_injective(before, k, key);
        }
    }
    assert(contents(after) =~= contents(nodes).insert(key, offset & OFFSET_MASK));
    assert(leaves_marked(after, -1)) by {
        assert forall|n: int|
            0 <= n < after.len() && n != -1 && (#[trigger] after[n]).children.len()
                == 0 implies after[n].offset != UNMARKED_FLAG by {
            if n != i {
                assert(after[n] == before[n]);
            }
        }
    }
}

proof fn lemma_marked_walk(nodes: Seq<NodeView>, i: int, offset: u64, key: Seq<u8>)
    requires
        walkable(nodes),
        0 <= i < nodes.len(),
    ensures
        walk(marked(nodes, i, offset), key) == walk(nodes, key),
    decreases key.len(),
{
    if key.len() > 0 {
        let after = marked(nodes, i, offset);
        let c = key.last();
        lemma_marked_walk(nodes, i, offset, key.drop_last());
        lemma_walk_in_range(nodes, key.drop_last());
        if let Some(n) = walk(nodes, key.drop_last()) {
            assert(after[n].children == nodes[n].children);
            assert(forall|j: int| has_child(after[n], j, c) == has_child(nodes[n], j, c));
            if exists|j: int| has_child(nodes[n], j, c) {
                let j = choose|j: int| has_child(nodes[n], j, c);
                assert(has_child(after[n], j, c));
                lemma_child_at(nodes[n], j, c);
                lemma_child_at(after[n], j, c);
            }
        }
    }
}

proof fn lemma_marked_tree(nodes: Seq<NodeView>, i: int, offset: u64)
    requires
        tree(nodes),
        0 <= i < nodes.len(),
    ensures
        tree(marked(nodes, i, offset)),
{
    let after = marked(nodes, i, offset);
    assert forall|n: int| 0 <= n < nodes.len() implies (#[trigger] after[n]).children
        == nodes[n].children by {}
    assert forall|n: int, j: int| #[trigger] is_edge(after, n, j) implies is_edge(nodes, n, j)
        && edge(after, n, j) == edge(nodes, n, j) by {
        assert(after[n].children == nodes[n].children);
    }
    assert forall|n: int, j: int| is_edge(after, n, j) implies n < #[trigger] edge(after, n, j)
        < after.len() by {
        assert(n < edge(nodes, n, j) < nodes.len());
    }
    assert forall|i1: int, j1: int, i2: int, j2: int|
        is_edge(after, i1, j1) && is_edge(after, i2, j2) && #[trigger] edge(after, i1, j1)
            == #[trigger] edge(after, i2, j2) implies i1 == i2 && j1 == j2 by {
        assert(edge(nodes, i1, j1) == edge(nodes, i2, j2));
    }
    assert forall|n: int| 0 < n < after.len() implies #[trigger] has_parent(after, n) by {
        assert(has_parent(nodes, n));
        let (pi, pj) = choose|pi: int, pj: int|
            is_edge(nodes, pi, pj) && #[trigger] edge(nodes, pi, pj) == n;
        assert(after[pi].children == nodes[pi].children);
        assert(is_edge(after, pi, pj));
        assert(edge(after, pi, pj) == n);
    }
}

/// Growing towards the beginning of a key takes no more nodes than towards the key.
pub proof fn lemma_grown_len_monotonic(nodes: Seq<NodeView>, key: Seq<u8>, n: int)
    requires
        0 <= n <= key.len(),
    ensures
        grown(nodes, key.take(n)).len() <= grown(nodes, key).len(),
    decreases key.len(),
{
    if n == key.len() {
        assert(key.take(n) =~= key);
    } else {
        assert(key.drop_last().take(n) =~= key.take(n));
        lemma_grown_len_monotonic(nodes, key.drop_last(), n);
    }
}

/// Growing takes no node away.
pub proof fn lemma_grown_len(nodes: Seq<NodeView>, key: Seq<u8>)
    ensures
        nodes.len() <= grown(nodes, key).len() <= nodes.len() + key.len() + 1,
    decreases key.len(),
{
    if key.len() > 0 {
        lemma_grown_len(nodes, key.drop_last());
    }
}

/// A key whose beginning leads nowhere leads nowhere.
pub proof fn lemma_walk_none(nodes: Seq<NodeView>, key: Seq<u8>, n: int)
    requires
        0 <= n <= key.len(),
        walk(nodes, key.take(n)) is None,
    ensures
        walk(nodes, key) is None,
    decreases key.len(),
{
    if n == key.len() {
        assert(key.take(n) =~= key);
    } else {
        assert(key.drop_last().take(n) =~= key.take(n));
        lemma_walk_none(nodes, key.drop_last(), n);
    }
}

// ---------------------------------------------------------------------------
// Words and paths
// ---------------------------------------------------------------------------
/// Some word of the trie begins with `path`.
pub open spec fn begins_word(nodes: Seq<NodeView>, path: Seq<u8>) -> bool {
    exists|word: Seq<u8>| #[trigger] lookup(nodes, word) is Some && path.is_prefix_of(word)
}

/// Every path of a well-formed trie is the beginning of a word.
pub proof fn lemma_path_begins_word(nodes: Seq<NodeView>, path: Seq<u8>)
    requires
        wf(nodes),
        has_path(nodes, path),
    ensures
        begins_word(nodes, path),
    decreases nodes.len() - walk(nodes, path)->0,
{
    let i = walk(nodes, path)->0;
    lemma_walk_in_range(nodes, path);
    if nodes[i].offset != UNMARKED_FLAG {
        assert(lookup(nodes, path) is Some);
        assert(path.subrange(0, path.len() as int) =~= path);
    } else {
        assert(nodes[i].children.len() > 0);
        let c = nodes[i].children[0].0;
        let next = path.push(c);
        assert(has_child(nodes[i], 0, c));
        lemma_child_at(nodes[i], 0, c);
        assert(next.drop_last() =~= path);
        assert(is_edge(nodes, i, 0));
        assert(edge(nodes, i, 0) > i);
        lemma_walk_in_range(nodes, next);
        lemma_path_begins_word(nodes, next);
        let word = choose|word: Seq<u8>| #[trigger]
            lookup(nodes, word) is Some && next.is_prefix_of(word);
        assert(path =~= next.subrange(0, path.len() as int));
        assert(path =~= word.subrange(0, path.len() as int));
    }
}

/// The path that leads to node `n` of a tree.
pub proof fn lemma_path_to(nodes: Seq<NodeView>, n: int) -> (path: Seq<u8>)
    requires
        tree(nodes),
        0 <= n < nodes.len(),
    ensures
        walk(nodes, path) == Some(n),
    decreases n,
{
    if n == 0 {
        Seq::empty()
    } else {
        assert(has_parent(nodes, n));
        let (i, j) = choose|i: int, j: int|
            is_edge(nodes, i, j) && #[trigger] edge(nodes, i, j) == n;
        let front = lemma_path_to(nodes, i);
        let c = nodes[i].children[j].0;
        assert(has_child(nodes[i], j, c));
        lemma_child_at(nodes[i], j, c);
        assert(front.push(c).drop_last() =~= front);
        front.push(c)
    }
}

/// Behind every beginning some byte follows in no word of `words`.
pub open spec fn no_full_fan(words: Set<Seq<u8>>) -> bool {
    forall|path: Seq<u8>| #[trigger] has_gap(words, path)
}

/// Some byte behind `path` begins no word of `words`.
pub open spec fn has_gap(words: Set<Seq<u8>>, path: Seq<u8>) -> bool {
    exists|c: u8| #[trigger] is_gap(words, path.push(c))
}

/// No word of `words` begins with `path`.
pub open spec fn is_gap(words: Set<Seq<u8>>, path: Seq<u8>) -> bool {
    forall|word: Seq<u8>| #[trigger] words.contains(word) ==> !path.is_prefix_of(word)
}

/// 256 sorted children have all 256 bytes.
proof fn lemma_sorted_full(children: Seq<TriePointer>, c: u8)
    requires
        sorted(children),
        children.len() >= 256,
    ensures
        children[c as int].0 == c,
    decreases c,
{
    lemma_sorted_lower(children, c as int);
    lemma_sorted_upper(children, c as int);
}

proof fn lemma_sorted_lower(children: Seq<TriePointer>, i: int)
    requires
        sorted(children),
        0 <= i < children.len(),
    ensures
        children[i].0 >= i,
    decreases i,
{
    if i > 0 {
        lemma_sorted_lower(children, i - 1);
        assert(children[i - 1].0 < children[i].0);
    }
}

proof fn lemma_sorted_upper(children: Seq<TriePointer>, i: int)
    requires
        sorted(children),
        0 <= i < 256 <= children.len(),
    ensures
        children[i].0 <= i,
    decreases 256 - i,
{
    if i < 255 {
        lemma_sorted_upper(children, i + 1);
        assert(children[i].0 < children[i + 1].0);
    }
}

/// Where behind every beginning some byte is missing, no node has 256 children.
pub proof fn lemma_no_full_fan(nodes: Seq<NodeView>)
    requires
        wf(nodes),
        no_full_fan(contents(nodes).dom()),
    ensures
        forall|i: int| 0 <= i < nodes.len() ==> (#[trigger] nodes[i]).children.len() < 256,
{
    assert forall|i: int| 0 <= i < nodes.len() implies (#[trigger] nodes[i]).children.len()
        < 256 by {
        if nodes[i].children.len() >= 256 {
            let words = contents(nodes).dom();
            let path = lemma_path_to(nodes, i);
            assert(has_gap(words, path));
            let c = choose|c: u8| #[trigger] is_gap(words, path.push(c));
            lemma_sorted_full(nodes[i].children, c);
            assert(has_child(nodes[i], c as int, c));
            lemma_child_at(nodes[i], c as int, c);
            assert(path.push(c).drop_last() =~= path);
            assert(has_path(nodes, path.push(c)));
            lemma_path_begins_word(nodes, path.push(c));
            let word = choose|word: Seq<u8>| #[trigger]
                lookup(nodes, word) is Some && path.push(c).is_prefix_of(word);
            assert(words.contains(word));
        }
    }
}

/// A byte that fewer than 256 sorted children leave out, from byte `i` on.
proof fn lemma_missing_byte(children: Seq<TriePointer>, i: int) -> (c: u8)
    requires
        sorted(children),
        children.len() < 256,
        0 <= i <= children.len(),
        forall|k: int| 0 <= k < i ==> (#[trigger] children[k]).0 == k,
    ensures
        forall|j: int| 0 <= j < children.len() ==> (#[trigger] children[j]).0 != c,
    decreases children.len() - i,
{
    if i < children.len() && children[i].0 == i {
        lemma_missing_byte(children, i + 1)
    } else {
        if i < children.len() {
            lemma_sorted_lower(children, i);
            assert forall|j: int| i < j < children.len() implies (#[trigger] children[j]).0
                > i by {
                assert(children[i].0 < children[j].0);
            }
        }
        i as u8
    }
}

/// Where no node has 256 children, some byte is missing behind every beginning.
pub proof fn lemma_gaps(nodes: Seq<NodeView>)
    requires
        wf(nodes),
        forall|i: int| 0 <= i < nodes.len() ==> (#[trigger] nodes[i]).children.len() < 256,
    ensures
        no_full_fan(contents(nodes).dom()),
{
    let words = contents(nodes).dom();
    assert forall|path: Seq<u8>| #[trigger] has_gap(words, path) by {
        let n = path.len() as int;
        let c = if has_path(nodes, path) {
            let i = walk(nodes, path)->0;
            lemma_walk_in_range(nodes, path);
            lemma_missing_byte(nodes[i].children, 0)
        } else {
            0u8
        };
        assert forall|word: Seq<u8>| #[trigger] words.contains(word) implies !path.push(
            c,
        ).is_prefix_of(word) by {
            assert(lookup(nodes, word) is Some);
            if path.push(c).is_prefix_of(word) {
                assert(path =~= word.subrange(0, n));
                assert(word[n] == path.push(c)[n]);
                let j = lemma_word_goes_on(nodes, path, word);
                assert(has_child(nodes[walk(nodes, path)->0], j, c));
                assert(false);
            }
        }
        assert(is_gap(words, path.push(c)));
    }
}

// ---------------------------------------------------------------------------
// First and last word
// ---------------------------------------------------------------------------
/// `p` comes before `w` because of a byte that both have.
pub open spec fn below(p: Seq<u8>, w: Seq<u8>) -> bool {
    exists|i: int| #[trigger] below_at(p, w, i)
}

/// `p` and `w` agree before position `i`, and there `p` has the smaller byte.
pub open spec fn below_at(p: Seq<u8>, w: Seq<u8>, i: int) -> bool {
    0 <= i < p.len() && i < w.len() && p.take(i) == w.take(i) && p[i] < w[i]
}

pub proof fn lemma_below_is_lt(p: Seq<u8>, w: Seq<u8>)
    requires
        below(p, w),
    ensures
        util::bytes_lt(p, w),
{
    let i = choose|i: int| #[trigger] below_at(p, w, i);
    util::lemma_bytes_lt_from(p, w, i);
    assert(p.skip(i)[0] == p[i]);
    assert(w.skip(i)[0] == w[i]);
}

pub proof fn lemma_prefix_is_le(p: Seq<u8>, w: Seq<u8>)
    requires
        p.is_prefix_of(w),
    ensures
        p == w || util::bytes_lt(p, w),
{
    let n = p.len() as int;
    assert(p.take(n) =~= w.take(n));
    util::lemma_bytes_lt_from(p, w, n);
    if p.len() == w.len() {
        assert(w.take(n) =~= w);
        assert(p.take(n) =~= p);
    }
}

/// A longer `p` or `w` keeps the byte that tells them apart.
pub proof fn lemma_below_push(p: Seq<u8>, w: Seq<u8>, c: u8)
    ensures
        below(p, w) ==> below(p.push(c), w),
        below(w, p) ==> below(w, p.push(c)),
{
    if below(p, w) {
        let i = choose|i: int| #[trigger] below_at(p, w, i);
        assert(p.push(c).take(i) =~= p.take(i));
        assert(below_at(p.push(c), w, i));
    }
    if below(w, p) {
        let i = choose|i: int| #[trigger] below_at(w, p, i);
        assert(p.push(c).take(i) =~= p.take(i));
        assert(below_at(w, p.push(c), i));
    }
}

/// A word that goes on behind `path` goes on with a child of the node there.
pub proof fn lemma_word_goes_on(nodes: Seq<NodeView>, path: Seq<u8>, word: Seq<u8>) -> (j: int)
    requires
        walkable(nodes),
        nodes.len() > 0,
        lookup(nodes, word) is Some,
        path.is_prefix_of(word),
        path.len() < word.len(),
    ensures
        walk(nodes, path) is Some,
        has_child(nodes[walk(nodes, path)->0], j, word[path.len() as int]),
{
    let n = path.len() as int;
    let next = word.take(n + 1);
    if walk(nodes, next) is None {
        lemma_walk_none(nodes, word, n + 1);
    }
    assert(next.drop_last() =~= path);
    let (i, j) = lemma_walk_last_edge(nodes, next);
    j
}

/// One step down along the first child.
pub proof fn lemma_first_child_step(nodes: Seq<NodeView>, path: Seq<u8>, word: Seq<u8>)
    requires
        spanned(nodes),
        has_path(nodes, path),
        nodes[walk(nodes, path)->0].offset == UNMARKED_FLAG,
        nodes[walk(nodes, path)->0].children.len() > 0,
        lookup(nodes, word) is Some,
        path.is_prefix_of(word) || below(path, word),
    ensures
        ({
            let next = path.push(nodes[walk(nodes, path)->0].children[0].0);
            next.is_prefix_of(word) || below(next, word)
        }),
{
    let i = walk(nodes, path)->0;
    let c = nodes[i].children[0].0;
    let n = path.len() as int;
    lemma_walk_in_range(nodes, path);
    lemma_below_push(path, word, c);
    if path.is_prefix_of(word) {
        if path.len() == word.len() {
            assert(word.subrange(0, n) =~= word);
            assert(false);
        }
        let j = lemma_word_goes_on(nodes, path, word);
        if word[n] == c {
            assert(path.push(c) =~= word.subrange(0, n + 1));
        } else {
            assert(nodes[i].children[0].0 < nodes[i].children[j].0);
            assert(path.push(c).take(n) =~= word.take(n));
            assert(below_at(path.push(c), word, n));
        }
    }
}

/// One step down along the last child.
pub proof fn lemma_last_child_step(nodes: Seq<NodeView>, path: Seq<u8>, word: Seq<u8>)
    requires
        spanned(nodes),
        has_path(nodes, path),
        nodes[walk(nodes, path)->0].children.len() > 0,
        lookup(nodes, word) is Some,
        word.is_prefix_of(path) || path.is_prefix_of(word) || below(word, path),
    ensures
        ({
            let next = path.push(nodes[walk(nodes, path)->0].children.last().0);
            word.is_prefix_of(next) || next.is_prefix_of(word) || below(word, next)
        }),
{
    let i = walk(nodes, path)->0;
    let last = nodes[i].children.len() - 1;
    let c = nodes[i].children[last].0;
    let n = path.len() as int;
    lemma_walk_in_range(nodes, path);
    lemma_below_push(path, word, c);
    lemma_prefix_of_push(path, c, word);
    if path.is_prefix_of(word) && !word.is_prefix_of(path) {
        if path.len() == word.len() {
            assert(word.subrange(0, n) =~= word);
            assert(path.subrange(0, n) =~= path);
            assert(false);
        }
        let j = lemma_word_goes_on(nodes, path, word);
        if word[n] == c {
            assert(path.push(c) =~= word.subrange(0, n + 1));
        } else {
            assert(nodes[i].children[j].0 < nodes[i].children[last].0);
            assert(path.push(c).take(n) =~= word.take(n));
            assert(below_at(word, path.push(c), n));
        }
    }
}

/// The first word behind `path`, where no word comes before `path`.
pub proof fn lemma_first_word(nodes: Seq<NodeView>, path: Seq<u8>) -> (first: Seq<u8>)
    requires
        spanned(nodes),
        has_path(nodes, path),
        forall|word: Seq<u8>| #[trigger]
            lookup(nodes, word) is Some ==> path.is_prefix_of(word) || below(path, word),
    ensures
        lookup(nodes, first) is Some,
        forall|word: Seq<u8>| #[trigger]
            lookup(nodes, word) is Some ==> word == first || util::bytes_lt(first, word),
    decreases nodes.len() - walk(nodes, path)->0,
{
    let i = walk(nodes, path)->0;
    lemma_walk_in_range(nodes, path);
    if nodes[i].offset != UNMARKED_FLAG {
        assert forall|word: Seq<u8>| #[trigger] lookup(nodes, word) is Some implies word == path
            || util::bytes_lt(path, word) by {
            if path.is_prefix_of(word) {
                lemma_prefix_is_le(path, word);
            } else {
                lemma_below_is_lt(path, word);
            }
        }
        path
    } else {
        let c = nodes[i].children[0].0;
        assert forall|word: Seq<u8>| #[trigger] lookup(nodes, word) is Some implies (path.push(
            c,
        ).is_prefix_of(word) || below(path.push(c), word)) by {
            lemma_first_child_step(nodes, path, word);
        }
        assert(has_child(nodes[i], 0, c));
        lemma_child_at(nodes[i], 0, c);
        assert(path.push(c).drop_last() =~= path);
        assert(is_edge(nodes, i, 0));
        assert(i < edge(nodes, i, 0) < nodes.len());
        lemma_first_word(nodes, path.push(c))
    }
}

/// The last word behind `path`, where no word comes behind all of these.
pub proof fn lemma_last_word(nodes: Seq<NodeView>, path: Seq<u8>) -> (last: Seq<u8>)
    requires
        spanned(nodes),
        has_path(nodes, path),
        forall|word: Seq<u8>| #[trigger]
            lookup(nodes, word) is Some ==> word.is_prefix_of(path) || path.is_prefix_of(word)
                || below(word, path),
    ensures
        lookup(nodes, last) is Some,
        forall|word: Seq<u8>| #[trigger]
            lookup(nodes, word) is Some ==> word == last || util::bytes_lt(word, last),
    decreases nodes.len() - walk(nodes, path)->0,
{
    let i = walk(nodes, path)->0;
    lemma_walk_in_range(nodes, path);
    if nodes[i].children.len() == 0 {
        assert forall|word: Seq<u8>| #[trigger] lookup(nodes, word) is Some implies word == path
            || util::bytes_lt(word, path) by {
            if word.is_prefix_of(path) {
                lemma_prefix_is_le(word, path);
            } else if path.is_prefix_of(word) {
                if path.len() < word.len() {
                    let j = lemma_word_goes_on(nodes, path, word);
                }
                assert(word.subrange(0, path.len() as int) =~= word);
            } else {
                lemma_below_is_lt(word, path);
            }
        }
        path
    } else {
        let j = nodes[i].children.len() - 1;
        let c = nodes[i].children[j].0;
        assert forall|word: Seq<u8>| #[trigger] lookup(nodes, word) is Some implies (
        word.is_prefix_of(path.push(c)) || path.push(c).is_prefix_of(word) || below(
            word,
            path.push(c),
        )) by {
            lemma_last_child_step(nodes, path, word);
        }
        assert(has_child(nodes[i], j, c));
        lemma_child_at(nodes[i], j, c);
        assert(path.push(c).drop_last() =~= path);
        assert(is_edge(nodes, i, j));
        assert(i < edge(nodes, i, j) < nodes.len());
        lemma_last_word(nodes, path.push(c))
    }
}

/// After an insertion the key leads to its offset, if that is below `2^63`, and every
/// other key, its beginnings and extensions too, leads where it led before.
pub proof fn lemma_insert_then_lookup(
    nodes: Seq<NodeView>,
    key: Seq<u8>,
    offset: u64,
    other: Seq<u8>,
)
    requires
        wf(nodes),
        room_for(nodes, key),
        offset < 0x8000_0000_0000_0000,
    ensures
        lookup(inserted(nodes, key, offset), other) == if other == key {
            Some(offset)
        } else {
            lookup(nodes, other)
        },
        lookup(Seq::<NodeView>::empty(), other) is None,
{
    let after = inserted(nodes, key, offset);
    lemma_grown_len(nodes, key);
    lemma_inserted(nodes, key, offset);
    assert(offset & OFFSET_MASK == offset) by (bit_vector)
        requires
            offset < 0x8000_0000_0000_0000,
    ;
    assert(contents(after).contains_key(other) <==> lookup(after, other) is Some);
    assert(contents(nodes).contains_key(other) <==> lookup(nodes, other) is Some);
    if lookup(after, other) is Some {
        assert(contents(after)[other] == lookup(after, other)->0);
    }
    if lookup(nodes, other) is Some {
        assert(contents(nodes)[other] == lookup(nodes, other)->0);
    }
}

/// There is room for a key if and only if the nodes with it are at most `2^32`; a node for
/// each of its bytes and one more are enough.
pub proof fn lemma_room_for(nodes: Seq<NodeView>, key: Seq<u8>)
    ensures
        room_for(nodes, key) <==> grown(nodes, key).len() <= 0x1_0000_0000,
        nodes.len() + key.len() < 0x1_0000_0000 ==> room_for(nodes, key),
{
    lemma_grown_len(nodes, key);
}

/// How a key is followed: the empty key leads to the first node, and each byte behind a
/// key leads on to the child for that byte, or nowhere.
pub proof fn lemma_walk_step(nodes: Seq<NodeView>, key: Seq<u8>, c: u8, j: int)
    requires
        walkable(nodes),
        nodes.len() > 0,
    ensures
        walk(nodes, Seq::empty()) == Some(0int),
        walk(nodes, key) is None ==> walk(nodes, key.push(c)) is None,
        walk(nodes, key) matches Some(i) ==> {
            let children = nodes[i].children;
            &&& 0 <= j < children.len() && children[j].0 == c ==> walk(nodes, key.push(c)) == Some(
                children[j].1 as int,
            )
            &&& (forall|k: int| 0 <= k < children.len() ==> (#[trigger] children[k]).0 != c)
                ==> walk(nodes, key.push(c)) is None
        },
{
    assert(key.push(c).drop_last() =~= key);
    lemma_walk_in_range(nodes, key);
    if let Some(i) = walk(nodes, key) {
        if has_child(nodes[i], j, c) {
            lemma_child_at(nodes[i], j, c);
        }
    }
}

/// What a key is looked up as: the low 63 bits of the offset word of the node that it
/// leads to; nothing where it leads nowhere, or where that word is zero.
pub proof fn lemma_lookup(nodes: Seq<NodeView>, key: Seq<u8>)
    requires
        nodes.len() > 0,
    ensures
        walk(nodes, key) is None ==> lookup(nodes, key) is None,
        walk(nodes, key) matches Some(i) ==> {
            &&& nodes[i].offset == 0 ==> lookup(nodes, key) is None
            &&& nodes[i].offset != 0 ==> lookup(nodes, key) == Some(
                (nodes[i].offset % 0x8000_0000_0000_0000) as u64,
            )
        },
        contents(nodes).contains_key(key) <==> lookup(nodes, key) is Some,
        lookup(nodes, key) matches Some(offset) ==> contents(nodes)[key] == offset,
{
    if let Some(i) = walk(nodes, key) {
        let word = nodes[i].offset;
        assert(word & OFFSET_MASK == word % 0x8000_0000_0000_0000) by (bit_vector);
    }
}

/// Which tries can be walked: those in which every child is one of the nodes, and the
/// bytes of the children of a node rise.
pub proof fn lemma_walkable(nodes: Seq<NodeView>)
    ensures
        walkable(nodes) <==> {
            &&& forall|i: int, j: int|
                0 <= i < nodes.len() && 0 <= j < nodes[i].children.len() ==> (
                #[trigger] nodes[i].children[j]).1 < nodes.len()
            &&& forall|i: int, j: int, k: int|
                0 <= i < nodes.len() && 0 <= j < k < nodes[i].children.len() ==> (
                #[trigger] nodes[i].children[j]).0 < (#[trigger] nodes[i].children[k]).0
        },
{
    if walkable(nodes) {
        assert forall|i: int, j: int|
            0 <= i < nodes.len() && 0 <= j < nodes[i].children.len() implies (
        #[trigger] nodes[i].children[j]).1 < nodes.len() by {
            assert(is_edge(nodes, i, j));
            assert(0 <= edge(nodes, i, j) < nodes.len());
        }
        assert forall|i: int, j: int, k: int|
            0 <= i < nodes.len() && 0 <= j < k < nodes[i].children.len() implies (
        #[trigger] nodes[i].children[j]).0 < (#[trigger] nodes[i].children[k]).0 by {
            assert(sorted(nodes[i].children));
        }
    }
}

/// In which tries the first and the last key are found: those that can be walked, whose
/// nodes lead to later nodes only, and have a word or a child.
pub proof fn lemma_spanned(nodes: Seq<NodeView>)
    ensures
        spanned(nodes) <==> {
            &&& walkable(nodes)
            &&& forall|i: int, j: int|
                0 <= i < nodes.len() && 0 <= j < nodes[i].children.len() ==> i < (
                #[trigger] nodes[i].children[j]).1
            &&& forall|i: int|
                0 <= i < nodes.len() ==> (#[trigger] nodes[i]).offset != 0
                    || nodes[i].children.len() > 0
        },
{
    if spanned(nodes) {
        assert forall|i: int, j: int|
            0 <= i < nodes.len() && 0 <= j < nodes[i].children.len() implies i < (
        #[trigger] nodes[i].children[j]).1 by {
            assert(is_edge(nodes, i, j));
            assert(i < edge(nodes, i, j));
        }
    }
}

} // verus!
