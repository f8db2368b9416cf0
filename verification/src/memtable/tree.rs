//! The red-black tree of a memtable: its shape, apart from the arena that holds it.
use crate::memtable::entries::key_sorted;
use crate::memtable::record::{Record, RecordView};
use crate::util;
use vstd::arithmetic::power2::{lemma2_to64, lemma_pow2_unfold, pow2};
use vstd::prelude::*;

verus! {

#[derive(Clone, Copy, Debug, PartialEq, Eq, Structural)]
pub enum Color {
    Red,
    Black,
}

/// A node of the arena: a record, and the arena indices of its children.
#[derive(Debug)]
pub struct MemtableNode {
    pub record: Record,
    pub left: Option<usize>,
    pub right: Option<usize>,
    pub color: Color,
}

/// The shape of a tree: which arena index stands where, and in which color.
pub enum Tree {
    Leaf,
    Node { left: Box<Tree>, at: nat, color: Color, right: Box<Tree> },
}

/// A node between two trees.
pub open spec fn join(left: Tree, at: nat, color: Color, right: Tree) -> Tree {
    Tree::Node { left: Box::new(left), at, color, right: Box::new(right) }
}

/// The arena holds `tree` at `link`.
pub open spec fn shape(arena: Seq<MemtableNode>, link: Option<usize>, tree: Tree) -> bool
    decreases tree,
{
    match tree {
        Tree::Leaf => link is None,
        Tree::Node { left, at, color, right } => {
            &&& link == Some(at as usize)
            &&& at < arena.len()
            &&& at <= usize::MAX
            &&& arena[at as int].color == color
            &&& shape(arena, arena[at as int].left, *left)
            &&& shape(arena, arena[at as int].right, *right)
        },
    }
}

/// The tree that the arena holds at `link`.
pub open spec fn tree_at(arena: Seq<MemtableNode>, link: Option<usize>) -> Tree {
    choose|tree: Tree| shape(arena, link, tree)
}

/// The arena holds one tree at a link.
proof fn lemma_shape_unique(
    arena: Seq<MemtableNode>,
    link: Option<usize>,
    one: Tree,
    other: Tree,
)
    requires
        shape(arena, link, one),
        shape(arena, link, other),
    ensures
        one == other,
    decreases one,
{
    if let Tree::Node { left, at, color, right } = one {
        lemma_shape_unique(arena, arena[at as int].left, *left, *other->left);
        lemma_shape_unique(arena, arena[at as int].right, *right, *other->right);
    }
}

/// A tree that the arena holds at a link is the one that it holds there.
pub proof fn lemma_tree_at(arena: Seq<MemtableNode>, link: Option<usize>, tree: Tree)
    requires
        shape(arena, link, tree),
    ensures
        tree_at(arena, link) == tree,
{
    lemma_shape_unique(arena, link, tree, tree_at(arena, link));
}

/// The arena indices of a tree, from left to right.
pub open spec fn inorder(tree: Tree) -> Seq<nat>
    decreases tree,
{
    match tree {
        Tree::Leaf => Seq::empty(),
        Tree::Node { left, at, color, right } => inorder(*left) + seq![at] + inorder(*right),
    }
}

/// What the records at the given indices say.
pub open spec fn records_at(arena: Seq<MemtableNode>, indices: Seq<nat>) -> Seq<RecordView> {
    indices.map_values(|at: nat| arena[at as int].record@)
}

pub open spec fn is_red(tree: Tree) -> bool {
    tree matches Tree::Node { left, at, color, right } && color is Red
}

/// No red node has a red child.
pub open spec fn no_red_red(tree: Tree) -> bool
    decreases tree,
{
    match tree {
        Tree::Leaf => true,
        Tree::Node { left, at, color, right } => {
            &&& color is Red ==> !is_red(*left) && !is_red(*right)
            &&& no_red_red(*left)
            &&& no_red_red(*right)
        },
    }
}

/// No red node has a red child, but perhaps the root.
pub open spec fn no_red_red_below(tree: Tree) -> bool {
    match tree {
        Tree::Leaf => true,
        Tree::Node { left, at, color, right } => no_red_red(*left) && no_red_red(*right),
    }
}

/// How many black nodes stand on the way down, along the left.
pub open spec fn black_height(tree: Tree) -> nat
    decreases tree,
{
    match tree {
        Tree::Leaf => 0,
        Tree::Node { left, at, color, right } => black_height(*left) + if color is Black {
            1nat
        } else {
            0nat
        },
    }
}

/// On every way down stand as many black nodes.
pub open spec fn balanced(tree: Tree) -> bool
    decreases tree,
{
    match tree {
        Tree::Leaf => true,
        Tree::Node { left, at, color, right } => {
            &&& balanced(*left)
            &&& balanced(*right)
            &&& black_height(*left) == black_height(*right)
        },
    }
}

/// How many nodes stand on the longest way down.
pub open spec fn height(tree: Tree) -> nat
    decreases tree,
{
    match tree {
        Tree::Leaf => 0,
        Tree::Node { left, at, color, right } => if height(*left) >= height(*right) {
            height(*left) + 1
        } else {
            height(*right) + 1
        },
    }
}

/// The longest way down a red-black tree is at most twice as long as its black nodes
/// are many, and of `h` black nodes on every way down there are at least `2^h - 1`
/// nodes: a lookup among `n` nodes passes no more than `2 * log2(n + 1)` of them.
pub proof fn lemma_height(tree: Tree)
    requires
        no_red_red(tree),
        balanced(tree),
    ensures
        height(tree) <= 2 * black_height(tree) + if is_red(tree) {
            1int
        } else {
            0
        },
        pow2(black_height(tree)) <= inorder(tree).len() + 1,
    decreases tree,
{
    match tree {
        Tree::Leaf => {
            lemma2_to64();
        },
        Tree::Node { left, at, color, right } => {
            lemma_height(*left);
            lemma_height(*right);
            if color is Black {
                lemma_pow2_unfold(black_height(tree));
            }
        },
    }
}

/// A tree stays where it is while its nodes keep their links and colors.
pub proof fn lemma_shape_frame(
    before: Seq<MemtableNode>,
    after: Seq<MemtableNode>,
    link: Option<usize>,
    tree: Tree,
)
    requires
        shape(before, link, tree),
        before.len() <= after.len(),
        forall|at: nat| #[trigger]
            inorder(tree).contains(at) ==> {
                &&& after[at as int].left == before[at as int].left
                &&& after[at as int].right == before[at as int].right
                &&& after[at as int].color == before[at as int].color
            },
    ensures
        shape(after, link, tree),
    decreases tree,
{
    if let Tree::Node { left, at, color, right } = tree {
        lemma_inorder_contains(tree);
        lemma_shape_frame(before, after, before[at as int].left, *left);
        lemma_shape_frame(before, after, before[at as int].right, *right);
    }
}

/// The indices of a node are its own, and those on the left and on the right.
pub proof fn lemma_inorder_contains(tree: Tree)
    ensures
        tree matches Tree::Node { left, at, color, right } ==> {
            &&& inorder(tree) == inorder(*left) + seq![at] + inorder(*right)
            &&& inorder(tree).contains(at)
            &&& forall|n: nat| #[trigger]
                inorder(tree).contains(n) ==> n == at || inorder(*left).contains(n) || inorder(
                    *right,
                ).contains(n)
            &&& forall|n: nat| #[trigger] inorder(*left).contains(n) ==> inorder(tree).contains(n)
            &&& forall|n: nat| #[trigger] inorder(*right).contains(n) ==> inorder(tree).contains(n)
        },
{
    if let Tree::Node { left, at, color, right } = tree {
        let l = inorder(*left);
        let r = inorder(*right);
        let all = inorder(tree);
        assert(all[l.len() as int] == at);
        assert forall|n: nat| #[trigger] all.contains(n) implies n == at || l.contains(n)
            || r.contains(n) by {
            let i = choose|i: int| 0 <= i < all.len() && all[i] == n;
            if i < l.len() {
                assert(l[i] == n);
            } else if i > l.len() {
                assert(r[i - l.len() - 1] == n);
            }
        }
        assert forall|n: nat| #[trigger] l.contains(n) implies all.contains(n) by {
            let i = choose|i: int| 0 <= i < l.len() && l[i] == n;
            assert(all[i] == n);
        }
        assert forall|n: nat| #[trigger] r.contains(n) implies all.contains(n) by {
            let i = choose|i: int| 0 <= i < r.len() && r[i] == n;
            assert(all[l.len() + 1 + i] == n);
        }
    }
}

/// The indices of a tree lie in the arena.
pub proof fn lemma_shape_in_arena(arena: Seq<MemtableNode>, link: Option<usize>, tree: Tree)
    requires
        shape(arena, link, tree),
    ensures
        forall|n: nat| #[trigger] inorder(tree).contains(n) ==> n < arena.len(),
    decreases tree,
{
    if let Tree::Node { left, at, color, right } = tree {
        lemma_inorder_contains(tree);
        lemma_shape_in_arena(arena, arena[at as int].left, *left);
        lemma_shape_in_arena(arena, arena[at as int].right, *right);
    }
}

/// Where the keys rise strictly, no index occurs twice.
pub proof fn lemma_sorted_no_duplicates(arena: Seq<MemtableNode>, indices: Seq<nat>)
    requires
        key_sorted(records_at(arena, indices)),
    ensures
        indices.no_duplicates(),
{
    let records = records_at(arena, indices);
    assert forall|i: int, j: int| 0 <= i < indices.len() && 0 <= j < indices.len() && i
        != j implies indices[i] != indices[j] by {
        if indices[i] == indices[j] {
            assert(records[i] == records[j]);
            if i < j {
                util::lemma_bytes_lt_total(records[i].key, records[j].key);
                assert(util::bytes_lt(records[i].key, records[j].key));
            } else {
                util::lemma_bytes_lt_total(records[j].key, records[i].key);
                assert(util::bytes_lt(records[j].key, records[i].key));
            }
        }
    }
}

/// In a tree without duplicates, the index of the root and those of the two sides
/// have nothing in common.
pub proof fn lemma_disjoint(left: Seq<nat>, at: nat, right: Seq<nat>)
    requires
        (left + seq![at] + right).no_duplicates(),
    ensures
        left.no_duplicates(),
        right.no_duplicates(),
        !left.contains(at),
        !right.contains(at),
        forall|n: nat| #[trigger] left.contains(n) ==> !right.contains(n),
{
    let all = left + seq![at] + right;
    assert forall|i: int, j: int| 0 <= i < left.len() && 0 <= j < left.len() && i
        != j implies left[i] != left[j] by {
        assert(all[i] == left[i] && all[j] == left[j]);
    }
    assert forall|i: int, j: int| 0 <= i < right.len() && 0 <= j < right.len() && i
        != j implies right[i] != right[j] by {
        assert(all[left.len() + 1 + i] == right[i] && all[left.len() + 1 + j] == right[j]);
    }
    if left.contains(at) {
        let i = choose|i: int| 0 <= i < left.len() && left[i] == at;
        assert(all[i] == all[left.len() as int]);
    }
    if right.contains(at) {
        let i = choose|i: int| 0 <= i < right.len() && right[i] == at;
        assert(all[left.len() + 1 + i] == all[left.len() as int]);
    }
    assert forall|n: nat| #[trigger] left.contains(n) implies !right.contains(n) by {
        if right.contains(n) {
            let i = choose|i: int| 0 <= i < left.len() && left[i] == n;
            let j = choose|j: int| 0 <= j < right.len() && right[j] == n;
            assert(all[i] == all[left.len() + 1 + j]);
        }
    }
}

/// Where the nodes of a subtree stand together in an order, the parts of the subtree do.
pub proof fn lemma_inorder_parts(order: Seq<nat>, first: int, tree: Tree)
    requires
        tree is Node,
        0 <= first,
        first + inorder(tree).len() <= order.len(),
        order.subrange(first, first + inorder(tree).len()) == inorder(tree),
    ensures
        ({
            let left = inorder(*tree->left);
            let right = inorder(*tree->right);
            let mid = first + left.len();
            &&& first + inorder(tree).len() == mid + 1 + right.len()
            &&& order.subrange(first, mid) == left
            &&& order[mid] == tree->at
            &&& order.subrange(mid + 1, mid + 1 + right.len()) == right
        }),
{
    let left = inorder(*tree->left);
    let right = inorder(*tree->right);
    let mid = first + left.len();
    let whole = inorder(tree);
    let here = order.subrange(first, first + whole.len());
    assert(whole == left + seq![tree->at] + right);
    assert(order.subrange(first, mid) =~= here.subrange(0, left.len() as int));
    assert(whole.subrange(0, left.len() as int) =~= left);
    assert(order[mid] == here[left.len() as int]);
    assert(order.subrange(mid + 1, mid + 1 + right.len()) =~= here.subrange(
        left.len() + 1int,
        here.len() as int,
    ));
    assert(whole.subrange(left.len() + 1int, whole.len() as int) =~= right);
}

} // verus!
