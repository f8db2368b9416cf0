//! Insertion into the red-black tree of a memtable.
use crate::memtable::entries::{key_sorted, lemma_split, upsert};
use crate::memtable::record::{Record, RecordView};
use crate::memtable::tree::{
    balanced, black_height, inorder, is_red, join, lemma_disjoint, lemma_inorder_contains,
    lemma_shape_frame, lemma_shape_in_arena, lemma_sorted_no_duplicates, no_red_red,
    no_red_red_below, records_at, shape, Color, MemtableNode, Tree,
};
use crate::util;
use crate::util::KeyOrder;
use vstd::prelude::*;

verus! {

/// All records are encoded as they should be.
pub open spec fn records_wf(arena: Seq<MemtableNode>) -> bool {
    forall|i: int| 0 <= i < arena.len() ==> (#[trigger] arena[i]).record.wf()
}

/// `after` differs from `before` in links and colors of the nodes of `tree` alone.
pub open spec fn relinked(
    before: Seq<MemtableNode>,
    after: Seq<MemtableNode>,
    tree: Tree,
) -> bool {
    &&& after.len() == before.len()
    &&& forall|i: int|
        0 <= i < before.len() ==> (#[trigger] after[i]).record == before[i].record
    &&& forall|i: int|
        0 <= i < before.len() && !inorder(tree).contains(i as nat) ==> #[trigger] after[i]
            == before[i]
}

/// What the two cases of a rotation establish.
pub open spec fn rebalanced(
    before: Seq<MemtableNode>,
    after: Seq<MemtableNode>,
    tree: Tree,
    root: usize,
    rotated: Tree,
) -> bool {
    &&& relinked(before, after, tree)
    &&& shape(after, Some(root), rotated)
    &&& inorder(rotated) == inorder(tree)
    &&& no_red_red(rotated)
    &&& balanced(rotated)
    &&& black_height(rotated) == black_height(tree)
}

/// A red node over two black ones, as a rotation leaves them.
proof fn lemma_rotated(a: Tree, x: nat, b: Tree, y: nat, c: Tree, z: nat, d: Tree)
    requires
        no_red_red(a) && no_red_red(b) && no_red_red(c) && no_red_red(d),
        balanced(a) && balanced(b) && balanced(c) && balanced(d),
        black_height(a) == black_height(b) == black_height(c) == black_height(d),
    ensures
        ({
            let rotated = join(
                join(a, x, Color::Black, b),
                y,
                Color::Red,
                join(c, z, Color::Black, d),
            );
            &&& inorder(rotated) == inorder(a) + seq![x] + inorder(b) + seq![y] + inorder(c)
                + seq![z] + inorder(d)
            &&& inorder(rotated).contains(x)
            &&& inorder(rotated).contains(y)
            &&& inorder(rotated).contains(z)
            &&& no_red_red(rotated)
            &&& balanced(rotated)
            &&& black_height(rotated) == black_height(a) + 1
        }),
{
    let left = join(a, x, Color::Black, b);
    let right = join(c, z, Color::Black, d);
    let rotated = join(left, y, Color::Red, right);
    assert(inorder(left) == inorder(a) + seq![x] + inorder(b));
    assert(inorder(right) == inorder(c) + seq![z] + inorder(d));
    assert(inorder(rotated) =~= inorder(a) + seq![x] + inorder(b) + seq![y] + inorder(c) + seq![z]
        + inorder(d));
    let at_x = inorder(a).len() as int;
    let at_y = at_x + 1 + inorder(b).len();
    let at_z = at_y + 1 + inorder(c).len();
    assert(inorder(rotated)[at_x] == x && inorder(rotated)[at_y] == y && inorder(rotated)[at_z]
        == z);
    assert(no_red_red(left) && no_red_red(right));
    assert(balanced(left) && balanced(right));
    assert(black_height(left) == black_height(a) + 1);
}

/// Four trees around three nodes in a row, as they stand in `tree`.
spec fn in_a_row(tree: Tree, a: Tree, x: nat, b: Tree, y: nat, c: Tree, z: nat, d: Tree) -> bool {
    inorder(tree) == inorder(a) + seq![x] + inorder(b) + seq![y] + inorder(c) + seq![z] + inorder(d)
}

/// Four trees that can stand side by side under the black nodes of a rotation.
spec fn level(tree: Tree, a: Tree, b: Tree, c: Tree, d: Tree) -> bool {
    &&& no_red_red(a) && no_red_red(b) && no_red_red(c) && no_red_red(d)
    &&& balanced(a) && balanced(b) && balanced(c) && balanced(d)
    &&& black_height(a) == black_height(b) == black_height(c) == black_height(d)
    &&& black_height(tree) == black_height(a) + 1
}

/// None of the nodes `x`, `y`, `z` between the four trees is in one of these.
proof fn lemma_apart(tree: Tree, a: Tree, x: nat, b: Tree, y: nat, c: Tree, z: nat, d: Tree)
    requires
        inorder(tree).no_duplicates(),
        in_a_row(tree, a, x, b, y, c, z, d),
    ensures
        x != y && y != z && x != z,
        forall|n: nat| #[trigger] inorder(a).contains(n) ==> n != x && n != y && n != z,
        forall|n: nat| #[trigger] inorder(b).contains(n) ==> n != x && n != y && n != z,
        forall|n: nat| #[trigger] inorder(c).contains(n) ==> n != x && n != y && n != z,
        forall|n: nat| #[trigger] inorder(d).contains(n) ==> n != x && n != y && n != z,
{
    let all = inorder(tree);
    let at_x = inorder(a).len() as int;
    let at_y = at_x + 1 + inorder(b).len();
    let at_z = at_y + 1 + inorder(c).len();
    assert(all[at_x] == x && all[at_y] == y && all[at_z] == z);
    assert forall|n: nat| #[trigger] inorder(a).contains(n) implies n != x && n != y && n != z by {
        let k = choose|k: int| 0 <= k < inorder(a).len() && inorder(a)[k] == n;
        assert(all[k] == n);
    }
    assert forall|n: nat| #[trigger] inorder(b).contains(n) implies n != x && n != y && n != z by {
        let k = choose|k: int| 0 <= k < inorder(b).len() && inorder(b)[k] == n;
        assert(all[at_x + 1 + k] == n);
    }
    assert forall|n: nat| #[trigger] inorder(c).contains(n) implies n != x && n != y && n != z by {
        let k = choose|k: int| 0 <= k < inorder(c).len() && inorder(c)[k] == n;
        assert(all[at_y + 1 + k] == n);
    }
    assert forall|n: nat| #[trigger] inorder(d).contains(n) implies n != x && n != y && n != z by {
        let k = choose|k: int| 0 <= k < inorder(d).len() && inorder(d)[k] == n;
        assert(all[at_z + 1 + k] == n);
    }
}

/// Makes `y` a red node over the black nodes `x` and `z`. The links `b` and `c` go
/// to the inner sides of these; their outer sides stay.
fn rotate(
    arena: &mut Vec<MemtableNode>,
    x: usize,
    y: usize,
    z: usize,
    b: Option<usize>,
    c: Option<usize>,
    Ghost(tree): Ghost<Tree>,
    Ghost(ta): Ghost<Tree>,
    Ghost(tb): Ghost<Tree>,
    Ghost(tc): Ghost<Tree>,
    Ghost(td): Ghost<Tree>,
) -> (rotated: Ghost<Tree>)
    requires
        x < old(arena)@.len() && y < old(arena)@.len() && z < old(arena)@.len(),
        inorder(tree).no_duplicates(),
        in_a_row(tree, ta, x as nat, tb, y as nat, tc, z as nat, td),
        level(tree, ta, tb, tc, td),
        shape(old(arena)@, old(arena)@[x as int].left, ta),
        shape(old(arena)@, b, tb),
        shape(old(arena)@, c, tc),
        shape(old(arena)@, old(arena)@[z as int].right, td),
    ensures
        rebalanced(old(arena)@, final(arena)@, tree, y, rotated@),
{
    let ghost before = arena@;
    proof {
        lemma_apart(tree, ta, x as nat, tb, y as nat, tc, z as nat, td);
        lemma_rotated(ta, x as nat, tb, y as nat, tc, z as nat, td);
        lemma_shape_in_arena(before, before[x as int].left, ta);
        lemma_shape_in_arena(before, b, tb);
        lemma_shape_in_arena(before, c, tc);
        lemma_shape_in_arena(before, before[z as int].right, td);
    }
    arena[x].right = b;
    arena[x].color = Color::Black;
    arena[z].left = c;
    arena[z].color = Color::Black;
    arena[y].left = Some(x);
    arena[y].right = Some(z);
    arena[y].color = Color::Red;
    proof {
        lemma_shape_frame(before, arena@, before[x as int].left, ta);
        lemma_shape_frame(before, arena@, b, tb);
        lemma_shape_frame(before, arena@, c, tc);
        lemma_shape_frame(before, arena@, before[z as int].right, td);
        assert(shape(arena@, Some(x), join(ta, x as nat, Color::Black, tb)));
        assert(shape(arena@, Some(z), join(tc, z as nat, Color::Black, td)));
    }
    Ghost(
        join(
            join(ta, x as nat, Color::Black, tb),
            y as nat,
            Color::Red,
            join(tc, z as nat, Color::Black, td),
        ),
    )
}

/// The parts of a tree whose left side and the left side of that are nodes.
proof fn lemma_left_left(tree: Tree)
    requires
        tree is Node,
        *tree->left is Node,
        *(*tree->left)->left is Node,
    ensures
        ({
            let l = *tree->left;
            let ll = *l->left;
            in_a_row(
                tree,
                *ll->left,
                ll->at,
                *ll->right,
                l->at,
                *l->right,
                tree->at,
                *tree->right,
            )
        }),
{
    let l = *tree->left;
    let ll = *l->left;
    assert(inorder(ll) == inorder(*ll->left) + seq![ll->at] + inorder(*ll->right));
    assert(inorder(l) == inorder(ll) + seq![l->at] + inorder(*l->right));
    assert(inorder(tree) == inorder(l) + seq![tree->at] + inorder(*tree->right));
}

/// The parts of a tree whose left side and the right side of that are nodes.
proof fn lemma_left_right(tree: Tree)
    requires
        tree is Node,
        *tree->left is Node,
        *(*tree->left)->right is Node,
    ensures
        ({
            let l = *tree->left;
            let lr = *l->right;
            in_a_row(
                tree,
                *l->left,
                l->at,
                *lr->left,
                lr->at,
                *lr->right,
                tree->at,
                *tree->right,
            )
        }),
{
    let l = *tree->left;
    let lr = *l->right;
    assert(inorder(lr) == inorder(*lr->left) + seq![lr->at] + inorder(*lr->right));
    assert(inorder(l) == inorder(*l->left) + seq![l->at] + inorder(lr));
    assert(inorder(tree) == inorder(l) + seq![tree->at] + inorder(*tree->right));
    assert(inorder(tree) =~= inorder(*l->left) + seq![l->at] + inorder(*lr->left) + seq![lr->at]
        + inorder(*lr->right) + seq![tree->at] + inorder(*tree->right));
}

/// The parts of a tree whose right side and the left side of that are nodes.
proof fn lemma_right_left(tree: Tree)
    requires
        tree is Node,
        *tree->right is Node,
        *(*tree->right)->left is Node,
    ensures
        ({
            let r = *tree->right;
            let rl = *r->left;
            in_a_row(
                tree,
                *tree->left,
                tree->at,
                *rl->left,
                rl->at,
                *rl->right,
                r->at,
                *r->right,
            )
        }),
{
    let r = *tree->right;
    let rl = *r->left;
    assert(inorder(rl) == inorder(*rl->left) + seq![rl->at] + inorder(*rl->right));
    assert(inorder(r) == inorder(rl) + seq![r->at] + inorder(*r->right));
    assert(inorder(tree) == inorder(*tree->left) + seq![tree->at] + inorder(r));
    assert(inorder(tree) =~= inorder(*tree->left) + seq![tree->at] + inorder(*rl->left) + seq![
        rl->at,
    ] + inorder(*rl->right) + seq![r->at] + inorder(*r->right));
}

/// The parts of a tree whose right side and the right side of that are nodes.
proof fn lemma_right_right(tree: Tree)
    requires
        tree is Node,
        *tree->right is Node,
        *(*tree->right)->right is Node,
    ensures
        ({
            let r = *tree->right;
            let rr = *r->right;
            in_a_row(
                tree,
                *tree->left,
                tree->at,
                *r->left,
                r->at,
                *rr->left,
                rr->at,
                *rr->right,
            )
        }),
{
    let r = *tree->right;
    let rr = *r->right;
    assert(inorder(rr) == inorder(*rr->left) + seq![rr->at] + inorder(*rr->right));
    assert(inorder(r) == inorder(*r->left) + seq![r->at] + inorder(rr));
    assert(inorder(tree) == inorder(*tree->left) + seq![tree->at] + inorder(r));
    assert(inorder(tree) =~= inorder(*tree->left) + seq![tree->at] + inorder(*r->left) + seq![
        r->at,
    ] + inorder(*rr->left) + seq![rr->at] + inorder(*rr->right));
}

/// Removes a red node with a red child under the left of the black node `i`.
fn balance_left(arena: &mut Vec<MemtableNode>, i: usize, Ghost(tree): Ghost<Tree>) -> (root: (
    usize,
    Ghost<Tree>,
))
    requires
        shape(old(arena)@, Some(i), tree),
        inorder(tree).no_duplicates(),
        tree matches Tree::Node { left, at, color, right } && color is Black && no_red_red_below(
            *left,
        ) && no_red_red(*right),
        balanced(tree),
    ensures
        rebalanced(old(arena)@, final(arena)@, tree, root.0, root.1@),
{
    let ghost left_tree = *tree->left;
    let ghost d = *tree->right;
    assert(shape(arena@, arena@[i as int].left, left_tree));
    assert(shape(arena@, arena@[i as int].right, d));
    if let Some(l) = arena[i].left {
        assert(left_tree->at == l);
        if arena[l].color == Color::Red {
            let ghost outer = *left_tree->left;
            let ghost inner = *left_tree->right;
            assert(shape(arena@, arena@[l as int].left, outer));
            assert(shape(arena@, arena@[l as int].right, inner));
            if let Some(ll) = arena[l].left {
                assert(outer->at == ll);
                if arena[ll].color == Color::Red {
                    let inner_link = arena[l].right;
                    let ll_right = arena[ll].right;
                    proof {
                        lemma_red_sides(left_tree);
                        lemma_red_sides(outer);
                        lemma_left_left(tree);
                    }
                    let rotated = rotate(
                        arena,
                        ll,
                        l,
                        i,
                        ll_right,
                        inner_link,
                        Ghost(tree),
                        Ghost(*outer->left),
                        Ghost(*outer->right),
                        Ghost(inner),
                        Ghost(d),
                    );
                    return (l, rotated);
                }
            }
            if let Some(lr) = arena[l].right {
                assert(inner->at == lr);
                if arena[lr].color == Color::Red {
                    let lr_left = arena[lr].left;
                    let lr_right = arena[lr].right;
                    proof {
                        lemma_red_sides(left_tree);
                        lemma_red_sides(inner);
                        lemma_left_right(tree);
                    }
                    let rotated = rotate(
                        arena,
                        l,
                        lr,
                        i,
                        lr_left,
                        lr_right,
                        Ghost(tree),
                        Ghost(outer),
                        Ghost(*inner->left),
                        Ghost(*inner->right),
                        Ghost(d),
                    );
                    return (lr, rotated);
                }
            }
        }
    }
    assert(no_red_red(left_tree));
    (i, Ghost(tree))
}

/// Removes a red node with a red child under the right of the black node `i`.
fn balance_right(arena: &mut Vec<MemtableNode>, i: usize, Ghost(tree): Ghost<Tree>) -> (root: (
    usize,
    Ghost<Tree>,
))
    requires
        shape(old(arena)@, Some(i), tree),
        inorder(tree).no_duplicates(),
        tree matches Tree::Node { left, at, color, right } && color is Black && no_red_red(*left)
            && no_red_red_below(*right),
        balanced(tree),
    ensures
        rebalanced(old(arena)@, final(arena)@, tree, root.0, root.1@),
{
    let ghost a = *tree->left;
    let ghost right_tree = *tree->right;
    assert(shape(arena@, arena@[i as int].left, a));
    assert(shape(arena@, arena@[i as int].right, right_tree));
    if let Some(r) = arena[i].right {
        assert(right_tree->at == r);
        if arena[r].color == Color::Red {
            let ghost inner = *right_tree->left;
            let ghost outer = *right_tree->right;
            assert(shape(arena@, arena@[r as int].left, inner));
            assert(shape(arena@, arena@[r as int].right, outer));
            if let Some(rl) = arena[r].left {
                assert(inner->at == rl);
                if arena[rl].color == Color::Red {
                    let rl_left = arena[rl].left;
                    let rl_right = arena[rl].right;
                    proof {
                        lemma_red_sides(right_tree);
                        lemma_red_sides(inner);
                        lemma_right_left(tree);
                    }
                    let rotated = rotate(
                        arena,
                        i,
                        rl,
                        r,
                        rl_left,
                        rl_right,
                        Ghost(tree),
                        Ghost(a),
                        Ghost(*inner->left),
                        Ghost(*inner->right),
                        Ghost(outer),
                    );
                    return (rl, rotated);
                }
            }
            if let Some(rr) = arena[r].right {
                assert(outer->at == rr);
                if arena[rr].color == Color::Red {
                    let inner_link = arena[r].left;
                    let rr_left = arena[rr].left;
                    proof {
                        lemma_red_sides(right_tree);
                        lemma_red_sides(outer);
                        lemma_right_right(tree);
                    }
                    let rotated = rotate(
                        arena,
                        i,
                        r,
                        rr,
                        inner_link,
                        rr_left,
                        Ghost(tree),
                        Ghost(a),
                        Ghost(inner),
                        Ghost(*outer->left),
                        Ghost(*outer->right),
                    );
                    return (r, rotated);
                }
            }
        }
    }
    assert(no_red_red(right_tree));
    (i, Ghost(tree))
}

/// The sides of a balanced red node.
proof fn lemma_red_sides(tree: Tree)
    requires
        balanced(tree),
        no_red_red_below(tree),
        is_red(tree),
    ensures
        balanced(*tree->left) && balanced(*tree->right),
        no_red_red(*tree->left) && no_red_red(*tree->right),
        black_height(*tree->left) == black_height(tree),
        black_height(*tree->right) == black_height(tree),
{
}

/// What putting `record` into the tree at a link establishes: the records of the
/// tree are those of before with this one in its place, the tree keeps its black
/// height, and other nodes stay as they are.
pub open spec fn inserted_at(
    before: Seq<MemtableNode>,
    after: Seq<MemtableNode>,
    tree: Tree,
    record: RecordView,
    root: usize,
    grown: Tree,
) -> bool {
    let entries = records_at(before, inorder(tree));
    &&& before.len() <= after.len()
    &&& after.len() - before.len() == upsert(entries, record).len() - entries.len()
    &&& shape(after, Some(root), grown)
    &&& records_at(after, inorder(grown)) == upsert(entries, record)
    &&& records_wf(after)
    &&& balanced(grown)
    &&& black_height(grown) == black_height(tree)
    &&& no_red_red_below(grown)
    &&& !is_red(tree) ==> no_red_red(grown)
    &&& forall|n: nat| #[trigger]
        inorder(grown).contains(n) ==> inorder(tree).contains(n) || n >= before.len()
    &&& forall|i: int|
        0 <= i < before.len() && !inorder(tree).contains(i as nat) ==> #[trigger] after[i]
            == before[i]
}

/// Records of nodes that did not change.
proof fn lemma_records_at_frame(
    before: Seq<MemtableNode>,
    after: Seq<MemtableNode>,
    indices: Seq<nat>,
)
    requires
        forall|n: nat| #[trigger]
            indices.contains(n) ==> after[n as int].record == before[n as int].record,
    ensures
        records_at(after, indices) == records_at(before, indices),
{
    assert forall|i: int| 0 <= i < indices.len() implies records_at(after, indices)[i]
        == records_at(before, indices)[i] by {
        assert(indices.contains(indices[i]));
    }
    assert(records_at(after, indices) =~= records_at(before, indices));
}

/// [`inserted_at`] without what it says of red nodes.
spec fn linked_at(
    before: Seq<MemtableNode>,
    after: Seq<MemtableNode>,
    tree: Tree,
    record: RecordView,
    root: usize,
    grown: Tree,
) -> bool {
    let entries = records_at(before, inorder(tree));
    &&& before.len() <= after.len()
    &&& after.len() - before.len() == upsert(entries, record).len() - entries.len()
    &&& shape(after, Some(root), grown)
    &&& records_at(after, inorder(grown)) == upsert(entries, record)
    &&& records_wf(after)
    &&& balanced(grown)
    &&& black_height(grown) == black_height(tree)
    &&& inorder(grown).no_duplicates()
    &&& forall|n: nat| #[trigger]
        inorder(grown).contains(n) ==> inorder(tree).contains(n) || n >= before.len()
    &&& forall|i: int|
        0 <= i < before.len() && !inorder(tree).contains(i as nat) ==> #[trigger] after[i]
            == before[i]
}

/// Linking a grown left side to its node.
proof fn lemma_left_grown(
    before: Seq<MemtableNode>,
    middle: Seq<MemtableNode>,
    after: Seq<MemtableNode>,
    tree: Tree,
    record: RecordView,
    new_left: usize,
    grown_left: Tree,
)
    requires
        tree is Node,
        shape(before, Some(tree->at as usize), tree),
        key_sorted(records_at(before, inorder(tree))),
        balanced(tree),
        inserted_at(before, middle, *tree->left, record, new_left, grown_left),
        after == middle.update(
            tree->at as int,
            MemtableNode { left: Some(new_left), ..middle[tree->at as int] },
        ),
        util::bytes_lt(record.key, before[tree->at as int].record@.key),
    ensures
        linked_at(
            before,
            after,
            tree,
            record,
            tree->at as usize,
            join(grown_left, tree->at, tree->color, *tree->right),
        ),
{
    let at = tree->at;
    let left = *tree->left;
    let right = *tree->right;
    let grown = join(grown_left, at, tree->color, right);
    let mid = before[at as int].record@;
    let left_entries = records_at(before, inorder(left));
    let right_entries = records_at(before, inorder(right));
    let entries = records_at(before, inorder(tree));
    lemma_inorder_contains(tree);
    lemma_inorder_contains(grown);
    lemma_shape_in_arena(before, Some(at as usize), tree);
    lemma_sorted_no_duplicates(before, inorder(tree));
    lemma_disjoint(inorder(left), at, inorder(right));
    assert(entries =~= left_entries + seq![mid] + right_entries);
    lemma_split(left_entries, mid, right_entries, record);
    crate::memtable::entries::lemma_upsert(entries, record);
    assert(middle[at as int] == before[at as int]);
    assert(shape(before, before[at as int].right, right));
    lemma_shape_in_arena(middle, Some(new_left), grown_left);
    lemma_shape_frame(middle, after, Some(new_left), grown_left);
    lemma_shape_frame(before, after, before[at as int].right, right);
    lemma_records_at_frame(middle, after, inorder(grown_left));
    lemma_records_at_frame(before, after, inorder(right));
    assert(records_at(after, inorder(grown)) =~= upsert(left_entries, record) + seq![mid]
        + right_entries);
    lemma_sorted_no_duplicates(after, inorder(grown));
    assert(records_wf(after)) by {
        assert forall|i: int| 0 <= i < after.len() implies (#[trigger] after[i]).record.wf() by {
            assert(middle[i].record.wf());
        }
    }
}

/// Linking a grown right side to its node.
proof fn lemma_right_grown(
    before: Seq<MemtableNode>,
    middle: Seq<MemtableNode>,
    after: Seq<MemtableNode>,
    tree: Tree,
    record: RecordView,
    new_right: usize,
    grown_right: Tree,
)
    requires
        tree is Node,
        shape(before, Some(tree->at as usize), tree),
        key_sorted(records_at(before, inorder(tree))),
        balanced(tree),
        inserted_at(before, middle, *tree->right, record, new_right, grown_right),
        after == middle.update(
            tree->at as int,
            MemtableNode { right: Some(new_right), ..middle[tree->at as int] },
        ),
        util::bytes_lt(before[tree->at as int].record@.key, record.key),
    ensures
        linked_at(
            before,
            after,
            tree,
            record,
            tree->at as usize,
            join(*tree->left, tree->at, tree->color, grown_right),
        ),
{
    let at = tree->at;
    let left = *tree->left;
    let right = *tree->right;
    let grown = join(left, at, tree->color, grown_right);
    let mid = before[at as int].record@;
    let left_entries = records_at(before, inorder(left));
    let right_entries = records_at(before, inorder(right));
    let entries = records_at(before, inorder(tree));
    lemma_inorder_contains(tree);
    lemma_inorder_contains(grown);
    lemma_shape_in_arena(before, Some(at as usize), tree);
    lemma_sorted_no_duplicates(before, inorder(tree));
    lemma_disjoint(inorder(left), at, inorder(right));
    assert(entries =~= left_entries + seq![mid] + right_entries);
    lemma_split(left_entries, mid, right_entries, record);
    crate::memtable::entries::lemma_upsert(entries, record);
    assert(middle[at as int] == before[at as int]);
    assert(shape(before, before[at as int].left, left));
    lemma_shape_in_arena(middle, Some(new_right), grown_right);
    lemma_shape_frame(middle, after, Some(new_right), grown_right);
    lemma_shape_frame(before, after, before[at as int].left, left);
    lemma_records_at_frame(middle, after, inorder(grown_right));
    lemma_records_at_frame(before, after, inorder(left));
    assert(records_at(after, inorder(grown)) =~= left_entries + seq![mid] + upsert(
        right_entries,
        record,
    ));
    lemma_sorted_no_duplicates(after, inorder(grown));
    assert(records_wf(after)) by {
        assert forall|i: int| 0 <= i < after.len() implies (#[trigger] after[i]).record.wf() by {
            assert(middle[i].record.wf());
        }
    }
}

/// Balancing what was linked.
proof fn lemma_rebalanced(
    before: Seq<MemtableNode>,
    linked: Seq<MemtableNode>,
    after: Seq<MemtableNode>,
    tree: Tree,
    record: RecordView,
    linked_root: usize,
    grown: Tree,
    root: usize,
    rotated: Tree,
)
    requires
        linked_at(before, linked, tree, record, linked_root, grown),
        rebalanced(linked, after, grown, root, rotated),
    ensures
        inserted_at(before, after, tree, record, root, rotated),
{
    lemma_shape_in_arena(linked, Some(linked_root), grown);
    lemma_records_at_frame(linked, after, inorder(grown));
    assert(records_wf(after)) by {
        assert forall|i: int| 0 <= i < after.len() implies (#[trigger] after[i]).record.wf() by {
            assert(linked[i].record.wf());
        }
    }
    assert forall|i: int| 0 <= i < before.len() && !inorder(tree).contains(
        i as nat,
    ) implies #[trigger] after[i] == before[i] by {
        assert(linked[i] == before[i]);
        assert(!inorder(grown).contains(i as nat));
    }
}

/// Puts `record` into the tree at `link`. Where its key is there, the record of
/// that key takes over its value or tombstone; else a red leaf is added, and the
/// way up is balanced.
pub fn insert_at(
    arena: &mut Vec<MemtableNode>,
    link: Option<usize>,
    record: Record,
    Ghost(tree): Ghost<Tree>,
) -> (root: (usize, Ghost<Tree>))
    requires
        shape(old(arena)@, link, tree),
        records_wf(old(arena)@),
        key_sorted(records_at(old(arena)@, inorder(tree))),
        record.wf(),
        no_red_red(tree),
        balanced(tree),
    ensures
        inserted_at(old(arena)@, final(arena)@, tree, record@, root.0, root.1@),
    decreases tree,
{
    let ghost before = arena@;
    let ghost entries = records_at(before, inorder(tree));
    match link {
        None => {
            let at: usize = arena.len();
            let ghost view = record@;
            let ghost grown = join(Tree::Leaf, at as nat, Color::Red, Tree::Leaf);
            arena.push(MemtableNode { record, left: None, right: None, color: Color::Red });
            proof {
                assert(inorder(Tree::Leaf) =~= Seq::<nat>::empty());
                assert(inorder(grown) =~= seq![at as nat]);
                assert(shape(arena@, None, Tree::Leaf));
                assert(records_at(arena@, inorder(grown)) =~= upsert(entries, view));
            }
            (at, Ghost(grown))
        },
        Some(i) => {
            let ghost left = *tree->left;
            let ghost right = *tree->right;
            let ghost color = tree->color;
            let ghost mid = before[i as int].record@;
            let ghost left_entries = records_at(before, inorder(left));
            let ghost right_entries = records_at(before, inorder(right));
            proof {
                lemma_inorder_contains(tree);
                lemma_shape_in_arena(before, link, tree);
                lemma_sorted_no_duplicates(before, inorder(tree));
                lemma_disjoint(inorder(left), i as nat, inorder(right));
                assert(entries =~= left_entries + seq![mid] + right_entries);
                lemma_split(left_entries, mid, right_entries, record@);
                util::lemma_bytes_lt_total(record@.key, mid.key);
                assert(shape(before, before[i as int].left, left));
                assert(shape(before, before[i as int].right, right));
            }
            match util::key_order(record.key(), arena[i].record.key()) {
                KeyOrder::Equal => {
                    arena[i].record.update_from_record(&record);
                    proof {
                        lemma_shape_frame(before, arena@, before[i as int].left, left);
                        lemma_shape_frame(before, arena@, before[i as int].right, right);
                        lemma_records_at_frame(before, arena@, inorder(left));
                        lemma_records_at_frame(before, arena@, inorder(right));
                        assert(records_at(arena@, inorder(tree)) =~= left_entries + seq![record@]
                            + right_entries);
                    }
                    (i, Ghost(tree))
                },
                KeyOrder::Less => {
                    let ghost view = record@;
                    let child = arena[i].left;
                    let (new_left, Ghost(grown_left)) = insert_at(arena, child, record, Ghost(left));
                    let ghost middle = arena@;
                    arena[i].left = Some(new_left);
                    let ghost grown = join(grown_left, i as nat, color, right);
                    proof {
                        lemma_left_grown(before, middle, arena@, tree, view, new_left, grown_left);
                    }
                    if arena[i].color == Color::Black {
                        let ghost linked = arena@;
                        let (root, Ghost(rotated)) = balance_left(arena, i, Ghost(grown));
                        proof {
                            lemma_rebalanced(before, linked, arena@, tree, view, i, grown, root, rotated);
                        }
                        (root, Ghost(rotated))
                    } else {
                        (i, Ghost(grown))
                    }
                },
                KeyOrder::Greater => {
                    let ghost view = record@;
                    let child = arena[i].right;
                    let (new_right, Ghost(grown_right)) = insert_at(
                        arena,
                        child,
                        record,
                        Ghost(right),
                    );
                    let ghost middle = arena@;
                    arena[i].right = Some(new_right);
                    let ghost grown = join(left, i as nat, color, grown_right);
                    proof {
                        lemma_right_grown(
                            before,
                            middle,
                            arena@,
                            tree,
                            view,
                            new_right,
                            grown_right,
                        );
                    }
                    if arena[i].color == Color::Black {
                        let ghost linked = arena@;
                        let (root, Ghost(rotated)) = balance_right(arena, i, Ghost(grown));
                        proof {
                            lemma_rebalanced(before, linked, arena@, tree, view, i, grown, root, rotated);
                        }
                        (root, Ghost(rotated))
                    } else {
                        (i, Ghost(grown))
                    }
                },
            }
        },
    }
}

} // verus!
