//! Properties of the library as a whole, over the models that the functions'
//! contracts use.
use vstd::prelude::*;

use crate::cursor::{
    Cursor, Direction, Target, child_count, has_parent, jumped_left, jumped_right, keeps_others,
    left_base, left_base_at, right_base, right_base_at, walk_target,
};
use crate::node::{lemma_sub_push, prefix};
use crate::tree::Tree;
use crate::visits::{count, lemma_count_pos, prefixes};

verus! {

/// A node's visitor count is the number of cursors visiting it.
pub proof fn law_visitors_are_cursors<V, S, P>(tree: Tree<V, S, P>, path: Seq<usize>)
    requires
        tree.wf(),
        tree.node_at(path) is Some,
    ensures
        tree.node_at(path).unwrap().visitors == count(tree.visits(), path.drop_first()),
{
}

/// A node that no cursor visits has no children: children are released when
/// the last cursor leaves a node.
pub proof fn law_unvisited_nodes_have_no_children<V, S, P>(tree: Tree<V, S, P>, path: Seq<usize>)
    requires
        tree.wf(),
        tree.node_at(path) is Some,
        tree.node_at(path).unwrap().visitors == 0,
    ensures
        tree.node_at(path).unwrap().children.len() == 0,
{
}

/// Every node on a cursor's path, from the root down to the node the cursor
/// visits, exists and is visited; so its children stay populated while the
/// cursor is there.
pub proof fn law_cursor_path_is_visited<V, S, P>(tree: Tree<V, S, P>, cursor: Cursor, k: int)
    requires
        cursor.is_in(tree),
        1 <= k <= cursor@.len(),
    ensures
        tree.node_at(cursor@.subrange(0, k)) is Some,
        tree.node_at(cursor@.subrange(0, k)).unwrap().visitors >= 1,
{
    let rel = cursor@.drop_first();
    let a = cursor@.subrange(0, k);
    assert(a.drop_first() =~= rel.subrange(0, k - 1));
    assert(prefix(a.drop_first(), rel));
    assert(tree.visits()[cursor.id()].contains(a.drop_first()));
    lemma_count_pos(tree.visits(), cursor.id(), a.drop_first());
}

/// With no cursor left, the root is not visited and has no children: every
/// other node is released.
pub proof fn law_no_cursor_leaves_only_the_root<V, S, P>(tree: Tree<V, S, P>)
    requires
        tree.wf(),
        forall|d: int| 0 <= d < tree.visits().len() ==> #[trigger] tree.visits()[d] == Set::<
            Seq<usize>,
        >::empty(),
    ensures
        tree.root_view().visitors == 0,
        tree.root_view().children.len() == 0,
{
    let e = Seq::<usize>::empty();
    assert(tree.root_view().sub(e) is Some);
    lemma_count_none(tree.visits(), e);
}

proof fn lemma_count_none(h: Seq<Set<Seq<usize>>>, p: Seq<usize>)
    requires
        forall|d: int| 0 <= d < h.len() ==> !(#[trigger] h[d]).contains(p),
    ensures
        count(h, p) == 0,
    decreases h.len(),
{
    if h.len() > 0 {
        assert(!h[h.len() - 1].contains(p));
        assert forall|d: int| 0 <= d < h.drop_last().len() implies !(#[trigger] h.drop_last()[d]).contains(
            p,
        ) by {
            assert(h.drop_last()[d] == h[d]);
        }
        lemma_count_none(h.drop_last(), p);
    }
}

/// Moving, creating or releasing one cursor leaves every other cursor of the
/// tree valid, at its path: each operation changes the record of visits of
/// its own cursor only.
pub proof fn law_other_cursors_stay_valid<V, S, P>(
    before: Tree<V, S, P>,
    after: Tree<V, S, P>,
    moved: int,
    other: Cursor,
)
    requires
        other.is_in(before),
        other.id() != moved,
        after.wf(),
        keeps_others(before.visits(), after.visits(), moved),
    ensures
        other.is_in(after),
        after.node_at(other@) is Some,
{
    let rel = other@.drop_first();
    assert(prefix(rel, rel));
    assert(after.visits()[other.id()].contains(rel));
}

/// A new cursor leaves every existing cursor valid.
pub proof fn law_new_cursor_keeps_others<V, S, P>(
    before: Tree<V, S, P>,
    after: Tree<V, S, P>,
    other: Cursor,
)
    requires
        other.is_in(before),
        after.wf(),
        after.visits() == before.visits().push(prefixes(Seq::empty())),
    ensures
        other.is_in(after),
{
    assert(after.visits()[other.id()] == before.visits()[other.id()]);
}

/// Walking down to a child and then up returns to the starting node, when
/// the child was built with a link to its parent.
pub proof fn law_walk_down_then_up<V, S, P>(
    tree: Tree<V, S, P>,
    later: Tree<V, S, P>,
    p: Seq<usize>,
    target: Target,
)
    requires
        p.len() >= 1,
        walk_target(tree, p, Direction::Down(target)) is Some,
        has_parent(later, walk_target(tree, p, Direction::Down(target)).unwrap()),
    ensures
        walk_target(later, walk_target(tree, p, Direction::Down(target)).unwrap(), Direction::Up)
            == Some(p),
{
    let q = walk_target(tree, p, Direction::Down(target)).unwrap();
    assert(q.drop_last() =~= p);
}

/// Walking right to the next sibling and then left returns to the starting
/// node, as long as the parent kept its children (as a walk guarantees) and
/// the sibling was built with a link to its parent.
pub proof fn law_walk_right_then_left<V, S, P>(
    tree: Tree<V, S, P>,
    later: Tree<V, S, P>,
    p: Seq<usize>,
)
    requires
        walk_target(tree, p, Direction::Right) is Some,
        has_parent(later, walk_target(tree, p, Direction::Right).unwrap()),
        child_count(tree, p.drop_last()) <= usize::MAX,
        child_count(later, p.drop_last()) == child_count(tree, p.drop_last()),
    ensures
        walk_target(later, walk_target(tree, p, Direction::Right).unwrap(), Direction::Left)
            == Some(p),
{
    let q = walk_target(tree, p, Direction::Right).unwrap();
    assert(q.drop_last() =~= p.drop_last());
    assert(q.drop_last().push((q.last() - 1) as usize) =~= p);
}

/// Walking left to the previous sibling and then right returns to the
/// starting node, as long as the parent kept its children (as a walk
/// guarantees) and the sibling was built with a link to its parent.
pub proof fn law_walk_left_then_right<V, S, P>(
    tree: Tree<V, S, P>,
    later: Tree<V, S, P>,
    p: Seq<usize>,
)
    requires
        walk_target(tree, p, Direction::Left) is Some,
        has_parent(later, walk_target(tree, p, Direction::Left).unwrap()),
        p.last() < child_count(tree, p.drop_last()),
        child_count(later, p.drop_last()) == child_count(tree, p.drop_last()),
    ensures
        walk_target(later, walk_target(tree, p, Direction::Left).unwrap(), Direction::Right)
            == Some(p),
{
    let q = walk_target(tree, p, Direction::Left).unwrap();
    assert(q.drop_last() =~= p.drop_last());
    assert(q.drop_last().push((q.last() + 1) as usize) =~= p);
}

/// A walk to the next sibling goes where a walk up and then down to the next
/// index goes.
pub proof fn law_right_is_up_then_down<V, S, P>(
    tree: Tree<V, S, P>,
    later: Tree<V, S, P>,
    p: Seq<usize>,
)
    requires
        p.len() > 1,
        p.last() < usize::MAX,
        child_count(later, p.drop_last()) == child_count(tree, p.drop_last()),
    ensures
        walk_target(tree, p, Direction::Right) == (match walk_target(tree, p, Direction::Up) {
            Some(up) => walk_target(later, up, Direction::Down(Target::Index((p.last() + 1) as usize))),
            None => None,
        }),
{
}

/// A walk to the previous sibling goes where a walk up and then down to the
/// previous index goes.
pub proof fn law_left_is_up_then_down<V, S, P>(
    tree: Tree<V, S, P>,
    later: Tree<V, S, P>,
    p: Seq<usize>,
)
    requires
        p.len() > 1,
        p.last() > 0,
        child_count(later, p.drop_last()) == child_count(tree, p.drop_last()),
    ensures
        walk_target(tree, p, Direction::Left) == (match walk_target(tree, p, Direction::Up) {
            Some(up) => walk_target(later, up, Direction::Down(Target::Index((p.last() - 1) as usize))),
            None => None,
        }),
{
}

/// Moving down selects, among the `n` children of the node at `p`: index 0
/// for the first child, index `n - 1` for the last, and index `i` for
/// `Index(i)` when `i < n`; a node without children offers no move down.
pub proof fn law_down_selects_by_index<V, S, P>(tree: Tree<V, S, P>, p: Seq<usize>)
    requires
        child_count(tree, p) <= usize::MAX,
    ensures
        child_count(tree, p) > 0 ==> walk_target(tree, p, Direction::Down(Target::First)) == Some(
            p.push(0usize),
        ),
        child_count(tree, p) > 0 ==> walk_target(tree, p, Direction::Down(Target::Last)) == Some(
            p.push((child_count(tree, p) - 1) as usize),
        ),
        child_count(tree, p) == 0 ==> walk_target(tree, p, Direction::Down(Target::First)) is None
            && walk_target(tree, p, Direction::Down(Target::Last)) is None,
        forall|i: usize|
            #[trigger] walk_target(tree, p, Direction::Down(Target::Index(i))) == (if i
                < child_count(tree, p) {
                Some(p.push(i))
            } else {
                None
            }),
{
}

/// Moving down to the first child goes where moving down to index 0 goes,
/// and moving down to the last child where moving down to the highest index
/// goes.
pub proof fn law_first_and_last_are_indices<V, S, P>(tree: Tree<V, S, P>, p: Seq<usize>)
    requires
        0 < child_count(tree, p) <= usize::MAX,
    ensures
        walk_target(tree, p, Direction::Down(Target::First)) == walk_target(
            tree,
            p,
            Direction::Down(Target::Index(0)),
        ),
        walk_target(tree, p, Direction::Down(Target::Last)) == walk_target(
            tree,
            p,
            Direction::Down(Target::Index((child_count(tree, p) - 1) as usize)),
        ),
{
}

/// The first child reached by moving down has no previous sibling, and the
/// last child has no next sibling, as long as the node keeps its children.
pub proof fn law_first_and_last_are_ends<V, S, P>(
    tree: Tree<V, S, P>,
    later: Tree<V, S, P>,
    p: Seq<usize>,
)
    requires
        0 < child_count(tree, p) <= usize::MAX,
        child_count(later, p) == child_count(tree, p),
    ensures
        walk_target(later, walk_target(tree, p, Direction::Down(Target::First)).unwrap(), Direction::Left)
            is None,
        walk_target(later, walk_target(tree, p, Direction::Down(Target::Last)).unwrap(), Direction::Right)
            is None,
{
    let f = walk_target(tree, p, Direction::Down(Target::First)).unwrap();
    let l = walk_target(tree, p, Direction::Down(Target::Last)).unwrap();
    assert(f.drop_last() =~= p);
    assert(l.drop_last() =~= p);
}

/// A jump to the right reaches the node a walk to the right reaches, when
/// that next sibling exists.
pub proof fn law_jump_right_is_walk_when_possible<V, S, P>(
    tree: Tree<V, S, P>,
    later: Tree<V, S, P>,
    p: Seq<usize>,
    q: Seq<usize>,
)
    requires
        walk_target(tree, p, Direction::Right) is Some,
        jumped_right(tree, p, later, q),
    ensures
        q == walk_target(tree, p, Direction::Right).unwrap(),
{
    let d = p.len() - 1;
    assert(p.subrange(0, d + 1) =~= p);
    assert(p.subrange(0, d) =~= p.drop_last());
    let b = right_base(tree, p);
    assert(b == walk_target(tree, p, Direction::Right).unwrap());
    assert(q =~= b);
}

/// A jump to the left reaches the node a walk to the left reaches, when
/// that previous sibling exists.
pub proof fn law_jump_left_is_walk_when_possible<V, S, P>(
    tree: Tree<V, S, P>,
    later: Tree<V, S, P>,
    p: Seq<usize>,
    q: Seq<usize>,
)
    requires
        walk_target(tree, p, Direction::Left) is Some,
        jumped_left(tree, p, later, q),
    ensures
        q == walk_target(tree, p, Direction::Left).unwrap(),
{
    let d = p.len() - 1;
    assert(p.subrange(0, d + 1) =~= p);
    assert(p.subrange(0, d) =~= p.drop_last());
    let b = left_base(tree, p);
    assert(b == walk_target(tree, p, Direction::Left).unwrap());
    assert(q =~= b);
}

/// Every node of `tree` that a cursor visits above depth `depth` has `n(x)`
/// children, at least one (and, as any vector, at most `usize::MAX`), where
/// `x` is its path; and every visited node down to that depth but the root
/// was built with a link to its parent. This is the shape of a tree whose
/// leaves all lie at depth `depth` or deeper, built for upward traversal.
pub open spec fn complete_above<V, S, P>(
    tree: Tree<V, S, P>,
    n: spec_fn(Seq<usize>) -> nat,
    depth: nat,
) -> bool {
    &&& forall|x: Seq<usize>|
        1 <= x.len() < depth && tree.node_at(x) is Some && tree.node_at(x).unwrap().visitors > 0
            ==> #[trigger] child_count(tree, x) == n(x) && 1 <= n(x) <= usize::MAX
    &&& forall|x: Seq<usize>|
        1 < x.len() <= depth && tree.node_at(x) is Some && tree.node_at(x).unwrap().visitors > 0
            ==> #[trigger] has_parent(tree, x)
}

/// A jump to the right followed by a jump to the left returns to the start,
/// when the tree has the same complete shape above the start's depth in the
/// three states.
pub proof fn law_jump_right_then_left<V, S, P>(
    t0: Tree<V, S, P>,
    c0: Cursor,
    t1: Tree<V, S, P>,
    c1: Cursor,
    t2: Tree<V, S, P>,
    c2: Cursor,
    n: spec_fn(Seq<usize>) -> nat,
)
    requires
        c0.is_in(t0),
        c1.is_in(t1),
        c2.is_in(t2),
        complete_above(t0, n, c0@.len()),
        complete_above(t1, n, c0@.len()),
        complete_above(t2, n, c0@.len()),
        jumped_right(t0, c0@, t1, c1@),
        jumped_left(t1, c1@, t2, c2@),
    ensures
        c2@ == c0@,
{
    let p = c0@;
    let q = c1@;
    let r = c2@;
    let d = p.len();
    assert forall|k: int| 1 <= k < d implies p[k] < #[trigger] child_count(t0, p.subrange(0, k))
        && child_count(t0, p.subrange(0, k)) == n(p.subrange(0, k)) && n(p.subrange(0, k))
        <= usize::MAX by {
        lemma_cursor_steps(t0, c0, k);
    }
    assert forall|k: int| 1 <= k < d implies #[trigger] has_parent(t0, p.subrange(0, k + 1)) by {
        law_cursor_path_is_visited(t0, c0, k + 1);
    }
    lemma_leaf_depth(t1, c1, n, d);
    assert forall|k: int| 1 <= k < d implies #[trigger] has_parent(t1, q.subrange(0, k + 1)) by {
        law_cursor_path_is_visited(t1, c1, k + 1);
    }
    let j = lemma_right_base(t0, p, d - 1);
    let m: int = if j >= 1 {
        j + 1
    } else {
        1
    };
    let b = right_base(t0, p);
    if j >= 1 {
        assert(n(p.subrange(0, j)) <= usize::MAX);
        assert(b == p.subrange(0, j).push((p[j] + 1) as usize));
        assert(q[j] == b[j]);
        assert forall|k: int| 0 <= k < j implies q[k] == p[k] by {
            assert(q[k] == b[k]);
        }
        lemma_left_base_at(t1, q, j, d - 1);
        assert(q.subrange(0, j).push((q[j] - 1) as usize) =~= p.subrange(0, m));
    } else {
        assert(b == p.subrange(0, 1));
        assert(q[0] == b[0]);
        lemma_left_base_none(t1, q, d - 1);
        assert(q.subrange(0, 1) =~= p.subrange(0, m));
    }
    assert(left_base(t1, q) == p.subrange(0, m));
    lemma_leaf_depth(t2, c2, n, d);
    assert(r.subrange(0, m) =~= p.subrange(0, m));
    assert forall|k: int| 1 <= k < d implies #[trigger] child_count(t2, r.subrange(0, k)) == n(
        r.subrange(0, k),
    ) by {
        lemma_cursor_steps(t2, c2, k);
    }
    lemma_descents_agree(t0, t2, n, p, r, m, d as int);
    assert(r =~= r.subrange(0, d as int));
    assert(p =~= p.subrange(0, d as int));
}

/// On a cursor's path each index names an existing child of the node above
/// it, and that node is visited.
proof fn lemma_cursor_steps<V, S, P>(tree: Tree<V, S, P>, c: Cursor, k: int)
    requires
        c.is_in(tree),
        1 <= k < c@.len(),
    ensures
        tree.node_at(c@.subrange(0, k)) is Some,
        tree.node_at(c@.subrange(0, k)).unwrap().visitors > 0,
        c@[k] < child_count(tree, c@.subrange(0, k)),
{
    law_cursor_path_is_visited(tree, c, k);
    law_cursor_path_is_visited(tree, c, k + 1);
    let a = c@.subrange(0, k);
    assert(c@.subrange(0, k + 1).drop_first() =~= a.drop_first().push(c@[k]));
    lemma_sub_push(tree.root_view(), a.drop_first(), c@[k]);
}

/// A cursor no deeper than `depth` whose node has no children is at depth
/// `depth`, in a tree complete above that depth.
proof fn lemma_leaf_depth<V, S, P>(
    tree: Tree<V, S, P>,
    c: Cursor,
    n: spec_fn(Seq<usize>) -> nat,
    depth: nat,
)
    requires
        c.is_in(tree),
        complete_above(tree, n, depth),
        c@.len() <= depth,
        c@.len() < depth ==> child_count(tree, c@) == 0,
    ensures
        c@.len() == depth,
{
    law_cursor_path_is_visited(tree, c, c@.len() as int);
    assert(c@.subrange(0, c@.len() as int) =~= c@);
    if c@.len() < depth {
        assert(child_count(tree, c@) == n(c@));
    }
}

/// Where a jump to the right turns, along a path of existing children each
/// built with a link to its parent: at a next sibling found at depth `j`
/// (`j >= 1`), or at the root (`j == 0`).
proof fn lemma_right_base<V, S, P>(t: Tree<V, S, P>, p: Seq<usize>, d: int) -> (j: int)
    requires
        0 <= d < p.len(),
        forall|k: int| 1 <= k <= d ==> p[k] < #[trigger] child_count(t, p.subrange(0, k)),
        forall|k: int| 1 <= k <= d ==> #[trigger] has_parent(t, p.subrange(0, k + 1)),
    ensures
        0 <= j <= d,
        j == 0 ==> right_base_at(t, p, d) == p.subrange(0, 1) && forall|k: int|
            1 <= k <= d ==> p[k] + 1 == #[trigger] child_count(t, p.subrange(0, k)),
        j >= 1 ==> {
            &&& p[j] + 1 < child_count(t, p.subrange(0, j))
            &&& right_base_at(t, p, d) == p.subrange(0, j).push((p[j] + 1) as usize)
            &&& forall|k: int|
                j < k <= d ==> p[k] + 1 == #[trigger] child_count(t, p.subrange(0, k))
        },
    decreases d,
{
    if d <= 0 {
        0
    } else {
        assert(has_parent(t, p.subrange(0, d + 1)));
        if p[d] + 1 < child_count(t, p.subrange(0, d)) {
            d
        } else {
            lemma_right_base(t, p, d - 1)
        }
    }
}

/// A jump to the left turns at the deepest nonzero index, when every node
/// below it on the path was built with a link to its parent.
proof fn lemma_left_base_at<V, S, P>(t: Tree<V, S, P>, q: Seq<usize>, j: int, d: int)
    requires
        1 <= j <= d < q.len(),
        q[j] > 0,
        forall|k: int| j < k <= d ==> q[k] == 0,
        forall|k: int| 1 <= k <= d ==> #[trigger] has_parent(t, q.subrange(0, k + 1)),
    ensures
        left_base_at(t, q, d) == q.subrange(0, j).push((q[j] - 1) as usize),
    decreases d,
{
    assert(has_parent(t, q.subrange(0, d + 1)));
    if d > j {
        lemma_left_base_at(t, q, j, d - 1);
    }
}

/// A jump to the left along zero indices, each node built with a link to
/// its parent, turns at the root.
proof fn lemma_left_base_none<V, S, P>(t: Tree<V, S, P>, q: Seq<usize>, d: int)
    requires
        0 <= d < q.len(),
        forall|k: int| 1 <= k <= d ==> q[k] == 0,
        forall|k: int| 1 <= k <= d ==> #[trigger] has_parent(t, q.subrange(0, k + 1)),
    ensures
        left_base_at(t, q, d) == q.subrange(0, 1),
    decreases d,
{
    if d > 0 {
        assert(has_parent(t, q.subrange(0, d + 1)));
        lemma_left_base_none(t, q, d - 1);
    }
}

/// Two descents through last children of the same shape, from a common
/// prefix, agree.
proof fn lemma_descents_agree<V, S, P>(
    t0: Tree<V, S, P>,
    t2: Tree<V, S, P>,
    n: spec_fn(Seq<usize>) -> nat,
    p: Seq<usize>,
    r: Seq<usize>,
    m: int,
    k: int,
)
    requires
        1 <= m <= k <= p.len(),
        p.len() == r.len(),
        r.subrange(0, m) == p.subrange(0, m),
        forall|i: int| m <= i < p.len() ==> p[i] + 1 == #[trigger] child_count(t0, p.subrange(0, i)),
        forall|i: int| m <= i < r.len() ==> r[i] + 1 == #[trigger] child_count(t2, r.subrange(0, i)),
        forall|i: int|
            1 <= i < p.len() ==> #[trigger] child_count(t0, p.subrange(0, i)) == n(p.subrange(0, i)),
        forall|i: int|
            1 <= i < r.len() ==> #[trigger] child_count(t2, r.subrange(0, i)) == n(r.subrange(0, i)),
    ensures
        r.subrange(0, k) == p.subrange(0, k),
    decreases k,
{
    if k > m {
        let i = k - 1;
        lemma_descents_agree(t0, t2, n, p, r, m, i);
        assert(child_count(t0, p.subrange(0, i)) == n(p.subrange(0, i)));
        assert(child_count(t2, r.subrange(0, i)) == n(r.subrange(0, i)));
        assert(r.subrange(0, k) =~= r.subrange(0, i).push(r[i]));
        assert(p.subrange(0, k) =~= p.subrange(0, i).push(p[i]));
    }
}

} // verus!
