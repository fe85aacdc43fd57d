//! Traversing a tree with a cursor.
//!
//! A cursor stores the absolute path from the root of its tree to the node
//! it visits. Every node on that path is visited by the cursor, so its
//! children stay populated while the cursor is there.
use vstd::prelude::*;

use crate::node::{Node, NodeView, Populate, copy_link, first_visit, gives, prefix};
use crate::tree::Tree;
use crate::visits::{
    prefixes,
    lemma_prefixes_pop,
    lemma_prefixes_push,
    lemma_prefixes_side,
    lemma_prefix_antisym,
};

verus! {

/// Selects the child a cursor moves to when it moves down.
#[derive(Debug, Default, Copy, Clone, PartialEq, Eq, Hash)]
pub enum Target {
    /// The child at the given zero-based index.
    Index(usize),
    /// The first child.
    #[default]
    First,
    /// The last child.
    Last,
}

/// The direction of a cursor movement.
#[derive(Debug, Copy, Clone, PartialEq, Eq, Hash)]
pub enum Direction {
    /// To the parent node.
    Up,
    /// To the child selected by the target.
    Down(Target),
    /// To the previous sibling.
    Left,
    /// To the next sibling.
    Right,
}

/// The index of the child that `target` selects among `len` children.
pub open spec fn target_index(target: Target, len: nat) -> Option<nat> {
    match target {
        Target::First => if len > 0 {
            Some(0)
        } else {
            None
        },
        Target::Last => if len > 0 {
            Some((len - 1) as nat)
        } else {
            None
        },
        Target::Index(i) => if i < len {
            Some(i as nat)
        } else {
            None
        },
    }
}

/// The number of children of the node at absolute path `p`.
pub open spec fn child_count<V, S, P>(tree: Tree<V, S, P>, p: Seq<usize>) -> nat {
    tree.node_at(p).unwrap().children.len()
}

/// The node at `p` is not the root and was built with a link to its parent:
/// a cursor there can move up.
pub open spec fn has_parent<V, S, P>(tree: Tree<V, S, P>, p: Seq<usize>) -> bool {
    &&& p.len() > 1
    &&& tree.node_at(p) is Some
    &&& tree.node_at(p).unwrap().parent is Some
}

/// Every node on `p` below depth `m` was built with a link to its parent: a
/// cursor at `p` can climb to depth `m`.
pub open spec fn climbable<V, S, P>(tree: Tree<V, S, P>, p: Seq<usize>, m: int) -> bool {
    forall|k: int| m < k <= p.len() ==> #[trigger] has_parent(tree, p.subrange(0, k))
}

/// The path one edge away from `p` in direction `dir`, if that node exists.
pub open spec fn walk_target<V, S, P>(tree: Tree<V, S, P>, p: Seq<usize>, dir: Direction) -> Option<
    Seq<usize>,
> {
    match dir {
        Direction::Up => if has_parent(tree, p) {
            Some(p.drop_last())
        } else {
            None
        },
        Direction::Down(t) => match target_index(t, child_count(tree, p)) {
            Some(i) => Some(p.push(i as usize)),
            None => None,
        },
        Direction::Right => if has_parent(tree, p) && p.last() + 1 < child_count(tree, p.drop_last()) {
            Some(p.drop_last().push((p.last() + 1) as usize))
        } else {
            None
        },
        Direction::Left => if has_parent(tree, p) && p.last() > 0 && p.last() - 1 < child_count(
            tree,
            p.drop_last(),
        ) {
            Some(p.drop_last().push((p.last() - 1) as usize))
        } else {
            None
        },
    }
}

/// The record of visits is the same for every cursor but `c`.
pub open spec fn keeps_others(before: Seq<Set<Seq<usize>>>, after: Seq<Set<Seq<usize>>>, c: int) -> bool {
    &&& after.len() == before.len()
    &&& forall|d: int| 0 <= d < before.len() && d != c ==> after[d] == before[d]
}

/// The nodes on both `p` and `q` have as many children in `after` as in
/// `before`.
pub open spec fn keeps_counts<V, S, P>(
    before: Tree<V, S, P>,
    after: Tree<V, S, P>,
    p: Seq<usize>,
    q: Seq<usize>,
) -> bool {
    forall|a: Seq<usize>|
        prefix(a, p) && prefix(a, q) && a.len() >= 1 ==> #[trigger] child_count(after, a)
            == child_count(before, a)
}

/// `after` is `before` where the node at `to` was visited once more, and
/// nothing else changed; a node nobody visited got as children the nodes its
/// callback gave.
pub open spec fn entered<V, S, P: Populate<V, S>>(
    before: Tree<V, S, P>,
    after: Tree<V, S, P>,
    to: Seq<usize>,
) -> bool {
    &&& before.node_at(to) is Some
    &&& after.node_at(to) is Some
    &&& before.node_at(to).unwrap().visited(after.node_at(to).unwrap())
    &&& before.node_at(to).unwrap().visitors == 0 ==> first_visit(
        before.node_at(to).unwrap(),
        after.node_at(to).unwrap(),
        to,
        None,
    )
    &&& after.root_view() == before.root_view().put(to.drop_first(), after.node_at(to).unwrap())
}

/// `after` is `before` where one visit of the node at `from` ended, and
/// nothing else changed.
pub open spec fn exited<V, S, P>(before: Tree<V, S, P>, after: Tree<V, S, P>, from: Seq<usize>) -> bool {
    &&& before.node_at(from) is Some
    &&& after.node_at(from) is Some
    &&& before.node_at(from).unwrap().left(after.node_at(from).unwrap())
    &&& after.root_view() == before.root_view().put(from.drop_first(), after.node_at(from).unwrap())
}

/// `after` is `before` where the node at `to` was visited once more and one
/// visit of the node at `from`, on another branch, ended; nothing else
/// changed. A node at `to` that nobody visited got as children the nodes its
/// callback gave.
pub open spec fn crossed<V, S, P: Populate<V, S>>(
    before: Tree<V, S, P>,
    after: Tree<V, S, P>,
    from: Seq<usize>,
    to: Seq<usize>,
) -> bool {
    &&& before.node_at(to) is Some
    &&& after.node_at(to) is Some
    &&& before.node_at(from) is Some
    &&& after.node_at(from) is Some
    &&& before.node_at(to).unwrap().visited(after.node_at(to).unwrap())
    &&& before.node_at(to).unwrap().visitors == 0 ==> first_visit(
        before.node_at(to).unwrap(),
        after.node_at(to).unwrap(),
        to,
        None,
    )
    &&& before.node_at(from).unwrap().left(after.node_at(from).unwrap())
    &&& after.root_view() == before.root_view().put(
        to.drop_first(),
        after.node_at(to).unwrap(),
    ).put(from.drop_first(), after.node_at(from).unwrap())
}

/// How a one-edge move in `dir` from `from` to `to` changed the tree.
pub open spec fn walked<V, S, P: Populate<V, S>>(
    before: Tree<V, S, P>,
    after: Tree<V, S, P>,
    dir: Direction,
    from: Seq<usize>,
    to: Seq<usize>,
) -> bool {
    match dir {
        Direction::Up => exited(before, after, from),
        Direction::Down(_) => entered(before, after, to),
        _ => crossed(before, after, from, to),
    }
}

/// The node at `q` exists, nobody visits it, and its callback, handed its
/// source, its range and `q`, may give the error `e`.
pub open spec fn refused<V, S, P: Populate<V, S>>(tree: Tree<V, S, P>, q: Seq<usize>, e: P::Error) -> bool {
    &&& tree.node_at(q) is Some
    &&& tree.node_at(q).unwrap().visitors == 0
    &&& gives(tree.node_at(q).unwrap(), q, Err(e))
}

/// A child or a sibling of the node at `p` refused its population with `e`.
pub open spec fn refused_near<V, S, P: Populate<V, S>>(tree: Tree<V, S, P>, p: Seq<usize>, e: P::Error) -> bool {
    exists|q: Seq<usize>|
        q.len() >= 2 && (q.drop_last() == p || q.drop_last() == p.drop_last())
            && #[trigger] refused(tree, q, e)
}

/// `after` is the tree model `before` with one visit of the node at the
/// absolute path `path` ended, and nothing else changed.
pub open spec fn left_at<V, S, P>(
    before: NodeView<V, S, P>,
    after: NodeView<V, S, P>,
    path: Seq<usize>,
) -> bool {
    &&& before.sub(path.drop_first()) is Some
    &&& after.sub(path.drop_first()) is Some
    &&& before.sub(path.drop_first()).unwrap().left(after.sub(path.drop_first()).unwrap())
    &&& after == before.put(path.drop_first(), after.sub(path.drop_first()).unwrap())
}

/// `after` is the tree model `before` with the node at the absolute path
/// `path` visited once more, and nothing else changed; a node nobody visited
/// got as children the nodes its callback gave.
pub open spec fn entered_at<V, S, P: Populate<V, S>>(
    before: NodeView<V, S, P>,
    after: NodeView<V, S, P>,
    path: Seq<usize>,
) -> bool {
    &&& before.sub(path.drop_first()) is Some
    &&& after.sub(path.drop_first()) is Some
    &&& before.sub(path.drop_first()).unwrap().visited(after.sub(path.drop_first()).unwrap())
    &&& before.sub(path.drop_first()).unwrap().visitors == 0 ==> first_visit(
        before.sub(path.drop_first()).unwrap(),
        after.sub(path.drop_first()).unwrap(),
        path,
        None,
    )
    &&& after == before.put(path.drop_first(), after.sub(path.drop_first()).unwrap())
}

/// `trace` lists the tree models while the visits of the nodes on `p` below
/// depth `m` end, deepest first: from `trace[k]` to `trace[k + 1]` the visit
/// of `p[..p.len() - k]` ends.
pub open spec fn ascent<V, S, P>(trace: Seq<NodeView<V, S, P>>, p: Seq<usize>, m: int) -> bool {
    &&& 0 <= m <= p.len()
    &&& trace.len() == p.len() - m + 1
    &&& forall|k: int|
        0 <= k < trace.len() - 1 ==> #[trigger] left_at(
            trace[k],
            trace[k + 1],
            p.subrange(0, p.len() - k),
        )
}

/// `trace` lists the tree models while the nodes on `q` below depth `m` are
/// visited, shallowest first: from `trace[k]` to `trace[k + 1]` the node at
/// `q[..m + k + 1]` is visited.
pub open spec fn descent<V, S, P: Populate<V, S>>(
    trace: Seq<NodeView<V, S, P>>,
    q: Seq<usize>,
    m: int,
) -> bool {
    &&& 0 <= m <= q.len()
    &&& trace.len() == q.len() - m + 1
    &&& forall|k: int|
        0 <= k < trace.len() - 1 ==> #[trigger] entered_at(
            trace[k],
            trace[k + 1],
            q.subrange(0, m + k + 1),
        )
}

/// `after` comes from `before` by ending the visits of the nodes on `p`
/// below depth `m`, deepest first: `p`, then `p[..p.len() - 1]`, down to
/// `p[..m + 1]`.
pub open spec fn ascended<V, S, P>(
    before: NodeView<V, S, P>,
    after: NodeView<V, S, P>,
    p: Seq<usize>,
    m: int,
) -> bool {
    exists|trace: Seq<NodeView<V, S, P>>|
        #[trigger] ascent(trace, p, m) && trace[0] == before && trace.last() == after
}

/// `after` comes from `before` by visiting the nodes on `q` below depth
/// `m`, shallowest first: `q[..m + 1]`, then `q[..m + 2]`, up to `q`.
pub open spec fn descended<V, S, P: Populate<V, S>>(
    before: NodeView<V, S, P>,
    after: NodeView<V, S, P>,
    q: Seq<usize>,
    m: int,
) -> bool {
    exists|trace: Seq<NodeView<V, S, P>>|
        #[trigger] descent(trace, q, m) && trace[0] == before && trace.last() == after
}

/// `after` comes from `before` by visiting the node at `to` and then ending
/// the visit of the node at `from`.
pub open spec fn crossed_at<V, S, P: Populate<V, S>>(
    before: NodeView<V, S, P>,
    after: NodeView<V, S, P>,
    from: Seq<usize>,
    to: Seq<usize>,
) -> bool {
    exists|mid: NodeView<V, S, P>| #[trigger] entered_at(before, mid, to) && left_at(mid, after, from)
}

/// An ascent that has not moved yet.
pub proof fn lemma_ascent_start<V, S, P>(t: NodeView<V, S, P>, p: Seq<usize>)
    ensures
        ascent(seq![t], p, p.len() as int),
        ascended(t, t, p, p.len() as int),
{
    assert(ascent(seq![t], p, p.len() as int));
}

/// An ascent, one step longer.
pub proof fn lemma_ascent_push<V, S, P>(
    trace: Seq<NodeView<V, S, P>>,
    p: Seq<usize>,
    m: int,
    after: NodeView<V, S, P>,
)
    requires
        ascent(trace, p, m),
        m >= 1,
        left_at(trace.last(), after, p.subrange(0, m)),
    ensures
        ascent(trace.push(after), p, m - 1),
        trace.push(after)[0] == trace[0],
{
    let t2 = trace.push(after);
    assert forall|k: int| 0 <= k < t2.len() - 1 implies #[trigger] left_at(
        t2[k],
        t2[k + 1],
        p.subrange(0, p.len() - k),
    ) by {
        if k < trace.len() - 1 {
            assert(left_at(trace[k], trace[k + 1], p.subrange(0, p.len() - k)));
        }
    }
}

/// A descent that has not moved yet.
pub proof fn lemma_descent_start<V, S, P: Populate<V, S>>(t: NodeView<V, S, P>, q: Seq<usize>)
    ensures
        descent(seq![t], q, q.len() as int),
        descended(t, t, q, q.len() as int),
{
    assert(descent(seq![t], q, q.len() as int));
}

/// A descent, one step deeper.
pub proof fn lemma_descent_push<V, S, P: Populate<V, S>>(
    trace: Seq<NodeView<V, S, P>>,
    q: Seq<usize>,
    m: int,
    i: usize,
    after: NodeView<V, S, P>,
)
    requires
        descent(trace, q, m),
        entered_at(trace.last(), after, q.push(i)),
    ensures
        descent(trace.push(after), q.push(i), m),
        trace.push(after)[0] == trace[0],
{
    let t2 = trace.push(after);
    let q2 = q.push(i);
    assert forall|k: int| 0 <= k < t2.len() - 1 implies #[trigger] entered_at(
        t2[k],
        t2[k + 1],
        q2.subrange(0, m + k + 1),
    ) by {
        if k < trace.len() - 1 {
            assert(q2.subrange(0, m + k + 1) =~= q.subrange(0, m + k + 1));
            assert(entered_at(trace[k], trace[k + 1], q.subrange(0, m + k + 1)));
        } else {
            assert(q2.subrange(0, m + k + 1) =~= q2);
        }
    }
}

/// A jump from `p` to `q` that turned at `base` took the tree model from
/// `before` to `after`: ending the visits on `p` below the depth of `base`,
/// then (when `base` is not on `p`) moving from `p`'s node at that depth to
/// `base`, then visiting the nodes on `q` below `base`.
pub open spec fn jumped_through<V, S, P: Populate<V, S>>(
    before: NodeView<V, S, P>,
    after: NodeView<V, S, P>,
    p: Seq<usize>,
    base: Seq<usize>,
    q: Seq<usize>,
) -> bool {
    exists|m1: NodeView<V, S, P>, m2: NodeView<V, S, P>|
        #![trigger ascended(before, m1, p, base.len() as int), descended(m2, after, q, base.len() as int)]
        ascended(before, m1, p, base.len() as int) && descended(m2, after, q, base.len() as int) && (
        if prefix(base, p) {
            m2 == m1
        } else {
            crossed_at(m1, m2, p.subrange(0, base.len() as int), base)
        })
}

/// A jump from `p` that would turn at `base` stopped on a refused
/// population: either on the way up, at a node on `p`, after ending the
/// visits below it; or on the way down, at a node below `base`, after the
/// visits of a jump through `base` to it.
pub open spec fn stopped_on_jump<V, S, P: Populate<V, S>>(
    before: NodeView<V, S, P>,
    after: NodeView<V, S, P>,
    p: Seq<usize>,
    base: Seq<usize>,
    at: Seq<usize>,
) -> bool {
    ||| at.len() >= 1 && at == p.subrange(0, at.len() as int) && ascended(
        before,
        after,
        p,
        at.len() as int,
    )
    ||| prefix(base, at) && jumped_through(before, after, p, base, at)
}

/// The tree did not change.
pub open spec fn same_tree<V, S, P>(a: Tree<V, S, P>, b: Tree<V, S, P>) -> bool {
    a.root_view() == b.root_view() && a.visits() == b.visits()
}


/// Where a jump to the right turns down again, searching upward from the
/// node at depth `d` of `p`: the next sibling of the first node on the way
/// that has one, or the node where the climb stops (the root, or a node
/// built without a link to its parent).
pub open spec fn right_base_at<V, S, P>(tree: Tree<V, S, P>, p: Seq<usize>, d: int) -> Seq<usize>
    decreases d,
{
    if d <= 0 || !has_parent(tree, p.subrange(0, d + 1)) {
        p.subrange(0, d + 1)
    } else if p[d] + 1 < child_count(tree, p.subrange(0, d)) {
        p.subrange(0, d).push((p[d] + 1) as usize)
    } else {
        right_base_at(tree, p, d - 1)
    }
}

/// Where a jump to the right from `p` turns down again.
pub open spec fn right_base<V, S, P>(tree: Tree<V, S, P>, p: Seq<usize>) -> Seq<usize> {
    right_base_at(tree, p, p.len() - 1)
}

/// Where a jump to the left turns down again, searching upward from the
/// node at depth `d` of `p`: the previous sibling of the first node on the
/// way that has one, or the node where the climb stops (the root, or a node
/// built without a link to its parent).
pub open spec fn left_base_at<V, S, P>(tree: Tree<V, S, P>, p: Seq<usize>, d: int) -> Seq<usize>
    decreases d,
{
    if d <= 0 || !has_parent(tree, p.subrange(0, d + 1)) {
        p.subrange(0, d + 1)
    } else if p[d] > 0 {
        p.subrange(0, d).push((p[d] - 1) as usize)
    } else {
        left_base_at(tree, p, d - 1)
    }
}

/// Where a jump to the left from `p` turns down again.
pub open spec fn left_base<V, S, P>(tree: Tree<V, S, P>, p: Seq<usize>) -> Seq<usize> {
    left_base_at(tree, p, p.len() - 1)
}

/// A jump to the right from `p` in `before` ended at `q` in `after`: from the
/// turning point it descended through first children, down to the depth of
/// `p` or to a leaf.
pub open spec fn jumped_right<V, S, P>(
    before: Tree<V, S, P>,
    p: Seq<usize>,
    after: Tree<V, S, P>,
    q: Seq<usize>,
) -> bool {
    let b = right_base(before, p);
    &&& prefix(b, q)
    &&& q.len() <= p.len()
    &&& forall|k: int| b.len() <= k < q.len() ==> q[k] == 0
    &&& q.len() < p.len() ==> child_count(after, q) == 0
}

/// A jump to the left from `p` in `before` ended at `q` in `after`: from the
/// turning point it descended through last children, down to the depth of
/// `p` or to a leaf.
pub open spec fn jumped_left<V, S, P>(
    before: Tree<V, S, P>,
    p: Seq<usize>,
    after: Tree<V, S, P>,
    q: Seq<usize>,
) -> bool {
    let b = left_base(before, p);
    &&& prefix(b, q)
    &&& q.len() <= p.len()
    &&& forall|k: int|
        b.len() <= k < q.len() ==> q[k] + 1 == child_count(after, #[trigger] q.subrange(0, k))
    &&& q.len() < p.len() ==> child_count(after, q) == 0
}

/// The number of leading positions on which `a` and `b` agree.
pub open spec fn common_len(a: Seq<usize>, b: Seq<usize>) -> nat
    decreases a.len(),
{
    if a.len() == 0 || b.len() == 0 || a[0] != b[0] {
        0
    } else {
        1 + common_len(a.drop_first(), b.drop_first())
    }
}

pub proof fn lemma_common_len(a: Seq<usize>, b: Seq<usize>)
    ensures
        common_len(a, b) <= a.len(),
        common_len(a, b) <= b.len(),
        forall|k: int| 0 <= k < common_len(a, b) ==> a[k] == b[k],
        common_len(a, b) < a.len() && common_len(a, b) < b.len() ==> a[common_len(a, b) as int]
            != b[common_len(a, b) as int],
    decreases a.len(),
{
    if a.len() > 0 && b.len() > 0 && a[0] == b[0] {
        lemma_common_len(a.drop_first(), b.drop_first());
        assert forall|k: int| 0 <= k < common_len(a, b) implies a[k] == b[k] by {
            if k > 0 {
                assert(a.drop_first()[k - 1] == b.drop_first()[k - 1]);
            }
        }
    }
}

/// # Returns the first index at which two slices differ
///
/// If one slice is a non-empty prefix of the other (or both are equal, or
/// both are empty), returns `None`. If exactly one slice is empty, returns
/// `Some(0)`.
pub fn vec_equ(a: &[usize], b: &[usize]) -> (r: Option<usize>)
    ensures
        (a@.len() == 0) != (b@.len() == 0) ==> r == Some(0usize),
        (a@.len() == 0) == (b@.len() == 0) ==> r == (if common_len(a@, b@) < a@.len()
            && common_len(a@, b@) < b@.len() {
            Some(common_len(a@, b@) as usize)
        } else {
            None
        }),
{
    if (a.len() == 0 && b.len() != 0) || (a.len() != 0 && b.len() == 0) {
        return Some(0);
    }
    proof {
        lemma_common_len(a@, b@);
    }
    let mut i: usize = 0;
    while i < a.len() && i < b.len()
        invariant
            i <= a@.len(),
            i <= b@.len(),
            forall|k: int| 0 <= k < i ==> a@[k] == b@[k],
            i <= common_len(a@, b@),
        decreases a@.len() - i,
    {
        proof {
            lemma_common_len(a@, b@);
        }
        if a[i] != b[i] {
            return Some(i);
        }
        proof {
            if common_len(a@, b@) == i {
                assert(a@[i as int] != b@[i as int]);
            }
        }
        i = i + 1;
    }
    None
}

/// # A cursor
///
/// A cursor stores the absolute path from the root of its tree to the node
/// it visits: `[0]` is the root, and every later element is the zero-based
/// index of the selected child at that level. It visits every node on that
/// path.
pub struct Cursor {
    path: Vec<usize>,
    id: Ghost<int>,
}

impl View for Cursor {
    type V = Seq<usize>;

    closed spec fn view(&self) -> Seq<usize> {
        self.path@
    }
}

impl Cursor {
    /// The cursor's entry in the record of visits of its tree.
    pub closed spec fn id(&self) -> int {
        self.id@
    }

    /// The cursor belongs to `tree`, which is well formed: its path starts at
    /// the root and its entry in the record holds exactly the nodes on its
    /// path.
    pub open spec fn is_in<V, S, P>(&self, tree: Tree<V, S, P>) -> bool {
        &&& tree.wf()
        &&& self@.len() >= 1
        &&& self@[0] == 0
        &&& 0 <= self.id() < tree.visits().len()
        &&& tree.visits()[self.id()] == prefixes(self@.drop_first())
    }

    /// Returns the absolute path from the root to the node the cursor visits.
    pub fn path(&self) -> (p: &Vec<usize>)
        ensures
            p@ == self@,
    {
        &self.path
    }

    proof fn lemma_node_exists<V, S, P>(&self, tree: Tree<V, S, P>)
        requires
            self.is_in(tree),
        ensures
            tree.node_at(self@) is Some,
            tree.root_view().sub(self@.drop_first()) is Some,
            self@.subrange(0, self@.len() as int) == self@,
            self@.drop_first() == self@.subrange(1, self@.len() as int),
    {
        let rel = self@.drop_first();
        assert(prefix(rel, rel));
        assert(tree.visits()[self.id()].contains(rel));
        assert(self@.subrange(0, self@.len() as int) =~= self@);
        assert(self@.drop_first() =~= self@.subrange(1, self@.len() as int));
    }

    /// Returns the node the cursor visits.
    pub fn node<'a, V, S, P>(&self, tree: &'a Tree<V, S, P>) -> (n: &'a Node<V, S, P>)
        requires
            self.is_in(*tree),
        ensures
            tree.node_at(self@) == Some(n@),
    {
        proof {
            self.lemma_node_exists(*tree);
        }
        tree.node(&self.path, self.path.len())
    }

    /// Creates a cursor at the root of `tree`, visiting the root.
    ///
    /// On error the tree is unchanged and no cursor is produced.
    pub(crate) fn new<V, S, P: Populate<V, S>>(tree: &mut Tree<V, S, P>) -> (r: Result<
        Cursor,
        P::Error,
    >)
        requires
            old(tree).wf(),
            old(tree).root_view().visitors < usize::MAX,
        ensures
            r matches Ok(c) ==> {
                &&& c.is_in(*final(tree))
                &&& c@ == seq![0usize]
                &&& entered(*old(tree), *final(tree), c@)
                &&& c.id() == old(tree).visits().len()
                &&& final(tree).visits() == old(tree).visits().push(prefixes(Seq::empty()))
            },
            r is Err ==> same_tree(*final(tree), *old(tree)) && old(tree).root_view().visitors == 0,
            r matches Err(e) ==> refused(*old(tree), seq![0usize], e),
    {
        let c = tree.add_entry();
        let mut path: Vec<usize> = Vec::new();
        path.push(0);
        proof {
            assert(path@.drop_first() =~= Seq::<usize>::empty());
            assert(tree.root_view().sub(Seq::empty()) is Some);
        }
        match tree.visit_node(&path, c) {
            Ok(()) => {
                proof {
                    assert(Set::<Seq<usize>>::empty().insert(Seq::empty()) =~= prefixes(
                        Seq::empty(),
                    )) by {
                        assert forall|z: Seq<usize>| #[trigger] prefixes(Seq::empty()).contains(z) implies z
                            == Seq::<usize>::empty() by {
                            assert(z =~= Seq::<usize>::empty());
                        }
                    }
                }
                Ok(Cursor { path, id: c })
            },
            Err(e) => {
                tree.remove_last_entry();
                proof {
                    assert(tree.visits() =~= old(tree).visits());
                }
                Err(e)
            },
        }
    }

    /// Whether the visited node was built with a link to its parent (the
    /// root never counts as having one).
    fn parent_linked<V, S, P>(&self, tree: &Tree<V, S, P>) -> (b: bool)
        requires
            self.is_in(*tree),
        ensures
            b == has_parent(*tree, self@),
    {
        proof {
            self.lemma_node_exists(*tree);
        }
        if self.path.len() > 1 {
            match self.node(tree).parent() {
                Some(_) => true,
                None => false,
            }
        } else {
            false
        }
    }

    /// # Moves to the parent node
    ///
    /// Returns `false` at the root, and at a node built without a link to its
    /// parent; the cursor then stays.
    fn up<V, S, P>(&mut self, tree: &mut Tree<V, S, P>) -> (moved: bool)
        requires
            old(self).is_in(*old(tree)),
        ensures
            final(self).id() == old(self).id(),
            final(self).is_in(*final(tree)),
            keeps_others(old(tree).visits(), final(tree).visits(), old(self).id()),
            moved == has_parent(*old(tree), old(self)@),
            moved ==> final(self)@ == old(self)@.drop_last(),
            moved ==> exited(*old(tree), *final(tree), old(self)@),
            !moved ==> final(self)@ == old(self)@ && same_tree(*final(tree), *old(tree)),
            moved ==> {
                &&& forall|q: Seq<usize>|
                    prefix(q, final(self)@) && q.len() >= 1 ==> (#[trigger] final(tree).node_at(
                        q,
                    )).unwrap().shallow_eq(old(tree).node_at(q).unwrap())
            },
    {
        if self.parent_linked(tree) {
            let ghost p = self.path@;
            let ghost rel = p.drop_first();
            let ghost t0 = *tree;
            proof {
                lemma_prefixes_pop(rel);
                assert forall|z: Seq<usize>|
                    #[trigger] tree.visits()[self.id()].contains(z) && prefix(rel, z) implies z
                        == rel by {
                    lemma_prefix_antisym(z, rel);
                }
                assert(tree.visits()[self.id()].contains(rel)) by {
                    assert(prefix(rel, rel));
                }
            }
            tree.leave_node(&self.path, self.id);
            self.path.pop();
            proof {
                assert(self@.drop_first() =~= rel.drop_last());
                assert forall|q: Seq<usize>|
                    prefix(q, self@) && q.len() >= 1 implies (#[trigger] tree.node_at(
                        q,
                    )).unwrap().shallow_eq(t0.node_at(q).unwrap()) by {
                    crate::node::lemma_sub_put(
                        t0.root_view(),
                        rel,
                        tree.root_view().sub(rel).unwrap(),
                        q.drop_first(),
                    );
                    assert(prefix(q.drop_first(), rel));
                }
            }
            true
        } else {
            false
        }
    }
}

impl Cursor {
    /// # Moves to the child selected by `target`
    ///
    /// Returns `Ok(false)` and stays when there is no such child. On success
    /// the cursor visits the child and appends its index to its path. If
    /// populating the child fails, nothing changes.
    fn down<V, S, P: Populate<V, S>>(&mut self, tree: &mut Tree<V, S, P>, target: Target) -> (r:
        Result<bool, P::Error>)
        requires
            old(self).is_in(*old(tree)),
        ensures
            final(self).id() == old(self).id(),
            final(self).is_in(*final(tree)),
            keeps_others(old(tree).visits(), final(tree).visits(), old(self).id()),
            child_count(*old(tree), old(self)@) <= usize::MAX,
            r matches Err(e) ==> refused_near(*final(tree), final(self)@, e),
            match target_index(target, child_count(*old(tree), old(self)@)) {
                Some(i) => {
                    ||| r == Ok::<bool, P::Error>(true) && final(self)@ == old(self)@.push(
                        i as usize,
                    ) && entered(*old(tree), *final(tree), final(self)@)
                    ||| r matches Err(e) && final(self)@ == old(self)@ && same_tree(
                        *final(tree),
                        *old(tree),
                    ) && refused(*old(tree), old(self)@.push(i as usize), e)
                },
                None => r == Ok::<bool, P::Error>(false) && final(self)@ == old(self)@
                    && same_tree(*final(tree), *old(tree)),
            },
            forall|q: Seq<usize>|
                prefix(q, old(self)@) && q.len() >= 1 ==> (#[trigger] final(tree).node_at(
                    q,
                )).unwrap().shallow_eq(old(tree).node_at(q).unwrap()),
    {
        let ghost p = self.path@;
        let ghost rel = p.drop_first();
        let ghost t0 = *tree;
        proof {
            self.lemma_node_exists(*tree);
        }
        let count = self.node(tree).children_count();
        let index = match target {
            Target::First => if count > 0 {
                Some(0)
            } else {
                None
            },
            Target::Last => if count > 0 {
                Some(count - 1)
            } else {
                None
            },
            Target::Index(i) => if i < count {
                Some(i)
            } else {
                None
            },
        };
        match index {
            Some(i) => {
                self.path.push(i);
                proof {
                    assert(self@.drop_first() =~= rel.push(i));
                    crate::node::lemma_sub_push(t0.root_view(), rel, i);
                    lemma_prefixes_push(rel, i);
                    assert(rel.push(i).drop_last() =~= rel);
                }
                match tree.visit_node(&self.path, self.id) {
                    Ok(()) => {
                        proof {
                            assert forall|q: Seq<usize>|
                                prefix(q, p) && q.len() >= 1 implies (#[trigger] tree.node_at(
                                    q,
                                )).unwrap().shallow_eq(t0.node_at(q).unwrap()) by {
                                crate::node::lemma_sub_put(
                                    t0.root_view(),
                                    rel.push(i),
                                    tree.root_view().sub(rel.push(i)).unwrap(),
                                    q.drop_first(),
                                );
                                assert(prefix(q.drop_first(), rel.push(i)));
                            }
                        }
                        Ok(true)
                    },
                    Err(e) => {
                        self.path.pop();
                        proof {
                            assert(self@ =~= p);
                            assert(p.push(i).drop_first() =~= rel.push(i));
                            assert(p.push(i).drop_last() =~= p);
                            assert(tree.node_at(p.push(i)) is Some);
                            assert(refused(*tree, p.push(i), e));
                        }
                        Err(e)
                    },
                }
            },
            None => Ok(false),
        }
    }

    /// Moves to the sibling at index `j` of the current node: visits the
    /// sibling, then leaves the current node. If populating the sibling
    /// fails, nothing changes.
    fn side<V, S, P: Populate<V, S>>(&mut self, tree: &mut Tree<V, S, P>, j: usize) -> (r: Result<
        (),
        P::Error,
    >)
        requires
            old(self).is_in(*old(tree)),
            old(self)@.len() > 1,
            j < child_count(*old(tree), old(self)@.drop_last()),
            j != old(self)@.last(),
        ensures
            final(self).id() == old(self).id(),
            final(self).is_in(*final(tree)),
            keeps_others(old(tree).visits(), final(tree).visits(), old(self).id()),
            r is Ok ==> final(self)@ == old(self)@.drop_last().push(j) && crossed(
                *old(tree),
                *final(tree),
                old(self)@,
                final(self)@,
            ) && crossed_at(old(tree).root_view(), final(tree).root_view(), old(self)@, final(self)@),
            r matches Err(e) ==> final(self)@ == old(self)@ && same_tree(*final(tree), *old(tree))
                && refused(*old(tree), old(self)@.drop_last().push(j), e),
            r matches Err(e) ==> refused_near(*final(tree), final(self)@, e),
            forall|q: Seq<usize>|
                prefix(q, old(self)@.drop_last()) && q.len() >= 1 ==> (#[trigger] final(tree).node_at(q)).unwrap().shallow_eq(old(tree).node_at(q).unwrap()),
    {
        let ghost p = self.path@;
        let ghost rel = p.drop_first();
        let ghost b = rel.drop_last().push(j);
        let ghost t0 = *tree;
        let ghost h0 = tree.visits();
        let len = self.path.len();
        let mut next = copy_link(&self.path);
        next.set(len - 1, j);
        proof {
            self.lemma_node_exists(*tree);
            assert(next@ =~= p.drop_last().push(j));
            assert(next@.drop_first() =~= b);
            assert(p.drop_last().drop_first() =~= rel.drop_last());
            assert(rel.last() == p.last());
            lemma_prefixes_side(rel, j);
            crate::node::lemma_sub_prefix(t0.root_view(), rel.drop_last(), rel);
            crate::node::lemma_sub_push(t0.root_view(), rel.drop_last(), j);
            assert(b.drop_last() =~= rel.drop_last());
        }
        match tree.visit_node(&next, self.id) {
            Ok(()) => {
                let ghost t1 = *tree;
                proof {
                    assert(b.len() == rel.len());
                    assert(b != rel) by {
                        assert(b[rel.len() - 1] != rel[rel.len() - 1]);
                    }
                    assert forall|z: Seq<usize>|
                        #[trigger] tree.visits()[self.id()].contains(z) && prefix(rel, z) implies z
                            == rel by {
                        if z == b {
                            assert(z[rel.len() - 1] != rel[rel.len() - 1]);
                        } else {
                            lemma_prefix_antisym(z, rel);
                        }
                    }
                    assert(prefix(rel, rel));
                    crate::node::lemma_sub_put(t0.root_view(), b, t1.root_view().sub(b).unwrap(), rel);
                    if !prefix(b, rel) && !prefix(rel, b) {
                    } else {
                        assert(false);
                    }
                }
                tree.leave_node(&self.path, self.id);
                self.path = next;
                proof {
                    crate::node::lemma_sub_put(
                        t1.root_view(),
                        rel,
                        tree.root_view().sub(rel).unwrap(),
                        b,
                    );
                    assert(self@.drop_first() == b);
                    assert(p.drop_first() == rel);
                    assert(entered_at(t0.root_view(), t1.root_view(), self@));
                    assert(left_at(t1.root_view(), tree.root_view(), p));
                    assert forall|q: Seq<usize>|
                        prefix(q, p.drop_last()) && q.len() >= 1 implies (#[trigger] tree.node_at(
                            q,
                        )).unwrap().shallow_eq(t0.node_at(q).unwrap()) by {
                        let qr = q.drop_first();
                        assert(prefix(qr, rel.drop_last()));
                        crate::node::lemma_sub_put(
                            t0.root_view(),
                            b,
                            t1.root_view().sub(b).unwrap(),
                            qr,
                        );
                        crate::node::lemma_sub_put(
                            t1.root_view(),
                            rel,
                            tree.root_view().sub(rel).unwrap(),
                            qr,
                        );
                        assert(prefix(qr, b));
                        assert(prefix(qr, rel));
                    }
                }
                Ok(())
            },
            Err(e) => {
                proof {
                    assert(next@.drop_last() =~= p.drop_last());
                    assert(tree.node_at(next@) is Some);
                    assert(refused(*tree, next@, e));
                }
                Err(e)
            },
        }
    }

    /// # Moves to the next sibling in the same branch
    ///
    /// Returns `Ok(false)` and stays at the root, at a node built without a
    /// link to its parent, or at the last child.
    fn right<V, S, P: Populate<V, S>>(&mut self, tree: &mut Tree<V, S, P>) -> (r: Result<
        bool,
        P::Error,
    >)
        requires
            old(self).is_in(*old(tree)),
        ensures
            final(self).id() == old(self).id(),
            final(self).is_in(*final(tree)),
            keeps_others(old(tree).visits(), final(tree).visits(), old(self).id()),
            keeps_counts(*old(tree), *final(tree), old(self)@, final(self)@),
            match walk_target(*old(tree), old(self)@, Direction::Right) {
                Some(q) => {
                    ||| r == Ok::<bool, P::Error>(true) && final(self)@ == q && walked(
                        *old(tree),
                        *final(tree),
                        Direction::Right,
                        old(self)@,
                        q,
                    )
                    ||| r matches Err(e) && final(self)@ == old(self)@ && same_tree(
                        *final(tree),
                        *old(tree),
                    ) && refused(*old(tree), q, e)
                },
                None => r == Ok::<bool, P::Error>(false) && final(self)@ == old(self)@
                    && same_tree(*final(tree), *old(tree)),
            },
    {
        let len = self.path.len();
        if self.parent_linked(tree) {
            let i = self.path[len - 1];
            proof {
                self.lemma_parent_exists(*tree);
            }
            let count = tree.node(&self.path, len - 1).children_count();
            proof {
                assert(self@.subrange(0, len - 1) =~= self@.drop_last());
            }
            if count - i > 1 {
                let ghost p = self@;
                let ghost t0 = *tree;
                match self.side(tree, i + 1) {
                    Ok(()) => {
                        proof {
                            assert(self@.drop_last() =~= p.drop_last());
                            Self::lemma_side_counts(t0, *tree, p, self@);
                        }
                        Ok(true)
                    },
                    Err(e) => Err(e),
                }
            } else {
                Ok(false)
            }
        } else {
            Ok(false)
        }
    }

    /// # Moves to the previous sibling in the same branch
    ///
    /// Returns `Ok(false)` and stays at the root, at a node built without a
    /// link to its parent, or at the first child.
    fn left<V, S, P: Populate<V, S>>(&mut self, tree: &mut Tree<V, S, P>) -> (r: Result<
        bool,
        P::Error,
    >)
        requires
            old(self).is_in(*old(tree)),
        ensures
            final(self).id() == old(self).id(),
            final(self).is_in(*final(tree)),
            keeps_others(old(tree).visits(), final(tree).visits(), old(self).id()),
            keeps_counts(*old(tree), *final(tree), old(self)@, final(self)@),
            match walk_target(*old(tree), old(self)@, Direction::Left) {
                Some(q) => {
                    ||| r == Ok::<bool, P::Error>(true) && final(self)@ == q && walked(
                        *old(tree),
                        *final(tree),
                        Direction::Left,
                        old(self)@,
                        q,
                    )
                    ||| r matches Err(e) && final(self)@ == old(self)@ && same_tree(
                        *final(tree),
                        *old(tree),
                    ) && refused(*old(tree), q, e)
                },
                None => r == Ok::<bool, P::Error>(false) && final(self)@ == old(self)@
                    && same_tree(*final(tree), *old(tree)),
            },
    {
        let len = self.path.len();
        if self.parent_linked(tree) {
            let i = self.path[len - 1];
            proof {
                self.lemma_parent_exists(*tree);
            }
            let count = tree.node(&self.path, len - 1).children_count();
            proof {
                assert(self@.subrange(0, len - 1) =~= self@.drop_last());
            }
            if i > 0 && i - 1 < count {
                let ghost p = self@;
                let ghost t0 = *tree;
                match self.side(tree, i - 1) {
                    Ok(()) => {
                        proof {
                            assert(self@.drop_last() =~= p.drop_last());
                            Self::lemma_side_counts(t0, *tree, p, self@);
                        }
                        Ok(true)
                    },
                    Err(e) => Err(e),
                }
            } else {
                Ok(false)
            }
        } else {
            Ok(false)
        }
    }

    /// After a move to a sibling, the nodes common to both paths are those
    /// above the sibling, whose child counts the move kept.
    proof fn lemma_side_counts<V, S, P>(
        before: Tree<V, S, P>,
        after: Tree<V, S, P>,
        p: Seq<usize>,
        q: Seq<usize>,
    )
        requires
            p.len() > 1,
            q.len() == p.len(),
            q.drop_last() == p.drop_last(),
            q.last() != p.last(),
            forall|a: Seq<usize>|
                prefix(a, p.drop_last()) && a.len() >= 1 ==> (#[trigger] after.node_at(
                    a,
                )).unwrap().shallow_eq(before.node_at(a).unwrap()),
        ensures
            keeps_counts(before, after, p, q),
    {
        assert forall|a: Seq<usize>|
            prefix(a, p) && prefix(a, q) && a.len() >= 1 implies #[trigger] child_count(after, a)
                == child_count(before, a) by {
            if a.len() == p.len() {
                assert(a[p.len() - 1] == p.last());
                assert(a[p.len() - 1] == q.last());
            }
            assert(prefix(a, p.drop_last()));
            assert(after.node_at(a).unwrap().shallow_eq(before.node_at(a).unwrap()));
        }
    }

    /// The parent of the visited node exists, and the visited node is one of
    /// its children.
    proof fn lemma_parent_exists<V, S, P>(&self, tree: Tree<V, S, P>)
        requires
            self.is_in(tree),
            self@.len() > 1,
        ensures
            tree.node_at(self@.drop_last()) is Some,
            tree.root_view().sub(self@.subrange(1, self@.len() - 1)) is Some,
            self@.last() < child_count(tree, self@.drop_last()),
    {
        let rel = self@.drop_first();
        self.lemma_node_exists(tree);
        assert(self@.drop_last().drop_first() =~= rel.drop_last());
        assert(self@.subrange(1, self@.len() - 1) =~= rel.drop_last());
        crate::node::lemma_sub_prefix(tree.root_view(), rel.drop_last(), rel);
        crate::node::lemma_sub_push(tree.root_view(), rel.drop_last(), rel.last());
        assert(rel.drop_last().push(rel.last()) =~= rel);
    }

    /// # Attempts exactly one movement in `direction`
    ///
    /// Crosses at most one edge of the tree: to the parent, to the child
    /// selected by the target, or to the next or previous sibling in the same
    /// branch. Moving up or sideways needs the current node to carry a link
    /// to its parent. When that node does not exist, or that link is missing,
    /// the cursor stays and the result
    /// is `Ok(false)`; otherwise it moves there and the result is `Ok(true)`.
    /// An error from populating the new node is returned with the cursor and
    /// the tree unchanged; it can only come when that node was not visited.
    pub fn walk<V, S, P: Populate<V, S>>(
        &mut self,
        tree: &mut Tree<V, S, P>,
        direction: Direction,
    ) -> (r: Result<bool, P::Error>)
        requires
            old(self).is_in(*old(tree)),
        ensures
            final(self).id() == old(self).id(),
            final(self).is_in(*final(tree)),
            keeps_others(old(tree).visits(), final(tree).visits(), old(self).id()),
            keeps_counts(*old(tree), *final(tree), old(self)@, final(self)@),
            match walk_target(*old(tree), old(self)@, direction) {
                Some(q) => {
                    ||| r == Ok::<bool, P::Error>(true) && final(self)@ == q && walked(
                        *old(tree),
                        *final(tree),
                        direction,
                        old(self)@,
                        q,
                    )
                    ||| r matches Err(e) && final(self)@ == old(self)@ && same_tree(
                        *final(tree),
                        *old(tree),
                    ) && refused(*old(tree), q, e)
                },
                None => r == Ok::<bool, P::Error>(false) && final(self)@ == old(self)@
                    && same_tree(*final(tree), *old(tree)),
            },
            direction == Direction::Up ==> r is Ok,
    {
        match direction {
            Direction::Up => Ok(self.up(tree)),
            Direction::Down(target) => self.down(tree, target),
            Direction::Left => self.left(tree),
            Direction::Right => self.right(tree),
        }
    }
}

/// Moving up keeps the parent links recorded on the nodes above.
proof fn lemma_climbable_kept<V, S, P>(
    before: Tree<V, S, P>,
    after: Tree<V, S, P>,
    p: Seq<usize>,
    q: Seq<usize>,
    m: int,
)
    requires
        m >= 1,
        climbable(before, p, m),
        prefix(q, p),
        q.len() >= 1,
        q[0] == 0,
        after.node_at(q) is Some,
        forall|a: Seq<usize>|
            prefix(a, q) && a.len() >= 1 ==> (#[trigger] after.node_at(a)).unwrap().shallow_eq(
                before.node_at(a).unwrap(),
            ),
    ensures
        climbable(after, q, m),
{
    assert forall|k: int| m < k <= q.len() implies #[trigger] has_parent(after, q.subrange(0, k)) by {
        let a = q.subrange(0, k);
        assert(prefix(a, q));
        assert(a =~= p.subrange(0, k));
        assert(has_parent(before, p.subrange(0, k)));
        assert(prefix(a.drop_first(), q.drop_first()));
        crate::node::lemma_sub_prefix(after.root_view(), a.drop_first(), q.drop_first());
    }
}

impl Cursor {
    /// Moves up to the root.
    fn to_root<V, S, P>(&mut self, tree: &mut Tree<V, S, P>)
        requires
            old(self).is_in(*old(tree)),
            climbable(*old(tree), old(self)@, 1),
        ensures
            final(self).id() == old(self).id(),
            final(self).is_in(*final(tree)),
            keeps_others(old(tree).visits(), final(tree).visits(), old(self).id()),
            final(self)@ == seq![0usize],
            ascended(old(tree).root_view(), final(tree).root_view(), old(self)@, 1),
    {
        let ghost p = self@;
        let ghost t0 = tree.root_view();
        let ghost mut trace = seq![t0];
        while self.path.len() > 1
            invariant
                self.id() == old(self).id(),
                self.is_in(*tree),
                keeps_others(old(tree).visits(), tree.visits(), old(self).id()),
                p == old(self)@,
                t0 == old(tree).root_view(),
                1 <= self@.len() <= p.len(),
                self@ == p.subrange(0, self@.len() as int),
                ascent(trace, p, self@.len() as int),
                trace[0] == t0,
                trace.last() == tree.root_view(),
                climbable(*tree, self@, 1),
            decreases self@.len(),
        {
            let ghost before = tree.root_view();
            let ghost tb = *tree;
            let ghost q = self@;
            proof {
                assert(q.subrange(0, q.len() as int) =~= q);
                assert(has_parent(tb, q.subrange(0, q.len() as int)));
            }
            self.up(tree);
            proof {
                self.lemma_node_exists(*tree);
                assert(prefix(self@, q));
                lemma_climbable_kept(tb, *tree, q, self@, 1);
                assert(self@ =~= p.subrange(0, self@.len() as int));
                assert(p.subrange(0, p.len() - (trace.len() - 1)) =~= q);
                assert(left_at(before, tree.root_view(), q));
                let old_trace = trace;
                trace = trace.push(tree.root_view());
                assert forall|k: int| 0 <= k < trace.len() - 1 implies #[trigger] left_at(
                    trace[k],
                    trace[k + 1],
                    p.subrange(0, p.len() - k),
                ) by {
                    if k < old_trace.len() - 1 {
                        assert(left_at(old_trace[k], old_trace[k + 1], p.subrange(0, p.len() - k)));
                    }
                }
            }
        }
        proof {
            assert(ascent(trace, p, 1));
            assert(self@ =~= seq![0usize]);
        }
    }

    /// # Moves to the parent, or else down to the deepest first-child leaf
    ///
    /// Where the cursor cannot move up (at the root, or at a node built
    /// without a link to its parent) it descends through first children as
    /// deep as they go.
    ///
    /// Always `Ok(true)`, or the error from populating a node on the way down.
    fn jump_up<V, S, P: Populate<V, S>>(&mut self, tree: &mut Tree<V, S, P>) -> (r: Result<
        bool,
        P::Error,
    >)
        requires
            old(self).is_in(*old(tree)),
        ensures
            r matches Err(e) ==> refused_near(*final(tree), final(self)@, e),
            final(self).id() == old(self).id(),
            final(self).is_in(*final(tree)),
            keeps_others(old(tree).visits(), final(tree).visits(), old(self).id()),
            r is Ok ==> r == Ok::<bool, P::Error>(true),
            has_parent(*old(tree), old(self)@) ==> r is Ok && final(self)@ == old(self)@.drop_last()
                && exited(*old(tree), *final(tree), old(self)@),
            !has_parent(*old(tree), old(self)@) ==> {
                &&& prefix(old(self)@, final(self)@)
                &&& forall|k: int|
                    old(self)@.len() <= k < final(self)@.len() ==> final(self)@[k] == 0
                &&& r is Ok ==> child_count(*final(tree), final(self)@) == 0
                &&& descended(
                    old(tree).root_view(),
                    final(tree).root_view(),
                    final(self)@,
                    old(self)@.len() as int,
                )
            },
    {
        if !self.up(tree) {
            let ghost mut dtrace = seq![tree.root_view()];
            proof {
                lemma_descent_start(tree.root_view(), self@);
            }
            loop
                invariant
                    !has_parent(*old(tree), old(self)@),
                    prefix(old(self)@, self@),
                    self.id() == old(self).id(),
                    self.is_in(*tree),
                    keeps_others(old(tree).visits(), tree.visits(), old(self).id()),
                    forall|k: int| old(self)@.len() <= k < self@.len() ==> self@[k] == 0,
                    descent(dtrace, self@, old(self)@.len() as int),
                    dtrace[0] == old(tree).root_view(),
                    dtrace.last() == tree.root_view(),
                ensures
                    self.id() == old(self).id(),
                    self.is_in(*tree),
                    keeps_others(old(tree).visits(), tree.visits(), old(self).id()),
                    prefix(old(self)@, self@),
                    forall|k: int| old(self)@.len() <= k < self@.len() ==> self@[k] == 0,
                    child_count(*tree, self@) == 0,
                    descent(dtrace, self@, old(self)@.len() as int),
                    dtrace[0] == old(tree).root_view(),
                    dtrace.last() == tree.root_view(),
                decreases usize::MAX - self@.len(),
            {
                let ghost q0 = self@;
                match self.down(tree, Target::First) {
                    Ok(true) => {
                        proof {
                            vstd::std_specs::vec::axiom_spec_len(&self.path);
                            lemma_descent_push(dtrace, q0, old(self)@.len() as int, 0, tree.root_view());
                            dtrace = dtrace.push(tree.root_view());
                        }
                    },
                    Ok(false) => {
                        break ;
                    },
                    Err(e) => {
                        proof {
                            assert(descended(old(tree).root_view(), tree.root_view(), self@, old(self)@.len() as int));
                        }
                        return Err(e);
                    },
                }
            }
            proof {
                assert(descended(old(tree).root_view(), tree.root_view(), self@, old(self)@.len() as int));
            }
        }
        Ok(true)
    }

    /// # Moves to the child selected by `target`, or to the root
    ///
    /// Always `Ok(true)`, or the error from populating the child.
    fn jump_down<V, S, P: Populate<V, S>>(&mut self, tree: &mut Tree<V, S, P>, target: Target) -> (r:
        Result<bool, P::Error>)
        requires
            old(self).is_in(*old(tree)),
            walk_target(*old(tree), old(self)@, Direction::Down(target)) is None ==> climbable(
                *old(tree),
                old(self)@,
                1,
            ),
        ensures
            r matches Err(e) ==> refused_near(*final(tree), final(self)@, e),
            final(self).id() == old(self).id(),
            final(self).is_in(*final(tree)),
            keeps_others(old(tree).visits(), final(tree).visits(), old(self).id()),
            match walk_target(*old(tree), old(self)@, Direction::Down(target)) {
                Some(q) => {
                    ||| r == Ok::<bool, P::Error>(true) && final(self)@ == q && entered(*old(tree), *final(tree), q)
                    ||| r matches Err(e) && final(self)@ == old(self)@ && same_tree(
                        *final(tree),
                        *old(tree),
                    ) && refused(*old(tree), q, e)
                },
                None => r == Ok::<bool, P::Error>(true) && final(self)@ == seq![0usize] && ascended(
                    old(tree).root_view(),
                    final(tree).root_view(),
                    old(self)@,
                    1,
                ),
            },
    {
        match self.down(tree, target) {
            Ok(true) => {},
            Ok(false) => {
                proof {
                    assert forall|k: int| 1 < k <= self@.len() implies #[trigger] has_parent(
                        *tree,
                        self@.subrange(0, k),
                    ) by {
                        assert(has_parent(*old(tree), old(self)@.subrange(0, k)));
                    }
                }
                self.to_root(tree);
            },
            Err(e) => {
                return Err(e);
            },
        }
        Ok(true)
    }

    /// # Moves to the next sibling in the same or an adjacent branch
    ///
    /// Ascends until a node with a next sibling is found, moves to that
    /// sibling, then descends through first children back to the original
    /// depth when possible. The climb stops, and the descent starts, at the
    /// root (wrapping around the tree) or at a node built without a link to
    /// its parent.
    ///
    /// Always `Ok(true)`, or the error from populating a node on the way.
    fn jump_right<V, S, P: Populate<V, S>>(&mut self, tree: &mut Tree<V, S, P>) -> (r: Result<
        bool,
        P::Error,
    >)
        requires
            old(self).is_in(*old(tree)),
        ensures
            r matches Err(e) ==> refused_near(*final(tree), final(self)@, e),
            final(self).id() == old(self).id(),
            final(self).is_in(*final(tree)),
            keeps_others(old(tree).visits(), final(tree).visits(), old(self).id()),
            r is Ok ==> r == Ok::<bool, P::Error>(true) && jumped_right(
                *old(tree),
                old(self)@,
                *final(tree),
                final(self)@,
            ),
            r is Ok ==> jumped_through(
                old(tree).root_view(),
                final(tree).root_view(),
                old(self)@,
                right_base(*old(tree), old(self)@),
                final(self)@,
            ),
            r is Err ==> stopped_on_jump(
                old(tree).root_view(),
                final(tree).root_view(),
                old(self)@,
                right_base(*old(tree), old(self)@),
                final(self)@,
            ),
    {
        let ghost p = self@;
        let ghost t0 = *tree;
        let initial_len = self.path.len();
        let mut done = false;
        let ghost mut atrace = seq![t0.root_view()];
        proof {
            lemma_ascent_start(t0.root_view(), p);
        }
        proof {
            self.lemma_node_exists(*tree);
        }
        while !done && self.parent_linked(tree)
            invariant
                ascent(atrace, p, self@.len() as int),
                atrace[0] == t0.root_view(),
                !done ==> atrace.last() == tree.root_view(),
                done ==> crossed_at(
                    atrace.last(),
                    tree.root_view(),
                    p.subrange(0, self@.len() as int),
                    self@,
                ),
                self.id() == old(self).id(),
                self.is_in(*tree),
                keeps_others(old(tree).visits(), tree.visits(), old(self).id()),
                p == old(self)@,
                t0 == *old(tree),
                p.len() >= 1 && p[0] == 0,
                t0.root_view().sub(p.drop_first()) is Some,
                initial_len == p.len(),
                self@.len() >= 1,
                done ==> self@.len() >= 2,
                done ==> !prefix(self@, p),
                self@.len() <= p.len(),
                !done ==> {
                    &&& self@ == p.subrange(0, self@.len() as int)
                    &&& right_base(t0, p) == right_base_at(t0, p, self@.len() - 1)
                    &&& forall|q: Seq<usize>|
                        prefix(q, self@) && q.len() >= 1 ==> (#[trigger] tree.node_at(q)).unwrap().parent
                            == t0.node_at(q).unwrap().parent
                    &&& forall|q: Seq<usize>|
                        prefix(q, self@) && q.len() >= 1 ==> child_count(*tree, q) == child_count(
                            t0,
                            q,
                        )
                },
                done ==> self@ == right_base(t0, p),
            decreases self@.len() + (if done {
                0int
            } else {
                1int
            }),
        {
            let len = self.path.len();
            let i = self.path[len - 1];
            proof {
                self.lemma_parent_exists(*tree);
            }
            let count = tree.node(&self.path, len - 1).children_count();
            proof {
                assert(self@.subrange(0, len - 1) =~= self@.drop_last());
                assert(p.subrange(0, len - 1) =~= self@.drop_last());
                assert(prefix(self@.drop_last(), self@));
                assert(p[len - 1] == i);
                assert(prefix(self@, self@));
                assert(prefix(self@.drop_first(), p.drop_first()));
                crate::node::lemma_sub_prefix(t0.root_view(), self@.drop_first(), p.drop_first());
                assert(self@ =~= p.subrange(0, len as int));
                assert(has_parent(t0, p.subrange(0, len as int)));
            }
            if count - i > 1 {
                let ghost q1 = self@;
                match self.side(tree, i + 1) {
                    Ok(()) => {
                        proof {
                            assert(q1 == p.subrange(0, self@.len() as int));
                            assert(p.subrange(0, len - 1).push((p[len - 1] + 1) as usize) =~= self@);
                            assert(self@[len - 1] != p[len - 1]);
                        }
                    },
                    Err(e) => {
                        return Err(e);
                    },
                }
                done = true;
            } else {
                let ghost t1 = *tree;
                let ghost q1 = self@;
                self.up(tree);
                proof {
                    assert(self@ =~= p.subrange(0, self@.len() as int));
                    lemma_ascent_push(atrace, p, q1.len() as int, tree.root_view());
                    atrace = atrace.push(tree.root_view());
                    assert forall|q: Seq<usize>|
                        prefix(q, self@) && q.len() >= 1 implies child_count(*tree, q)
                            == child_count(t0, q) by {
                        assert(prefix(q, p.subrange(0, len as int)));
                    }
                    assert forall|q: Seq<usize>|
                        prefix(q, self@) && q.len() >= 1 implies (#[trigger] tree.node_at(q)).unwrap().parent
                            == t0.node_at(q).unwrap().parent by {
                        assert(prefix(q, p.subrange(0, len as int)));
                    }
                }
            }
        }
        proof {
            if !done {
                assert(self@ == right_base(t0, p)) by {
                    assert(self@.subrange(0, self@.len() as int) =~= self@);
                    self.lemma_node_exists(*tree);
                    if self@.len() > 1 {
                        assert(prefix(self@, self@));
                        assert(prefix(self@.drop_first(), p.drop_first()));
                        crate::node::lemma_sub_prefix(t0.root_view(), self@.drop_first(), p.drop_first());
                        assert(!has_parent(t0, self@));
                    }
                }
            }
        }
        let ghost b = self@;
        let ghost m1 = atrace.last();
        let ghost m2 = tree.root_view();
        let ghost mut dtrace = seq![m2];
        proof {
            lemma_descent_start(m2, b);
            assert(prefix(b, p) <==> !done);
        }
        loop
            invariant
                ascent(atrace, p, b.len() as int),
                atrace[0] == t0.root_view(),
                atrace.last() == m1,
                b.len() >= 1,
                prefix(b, p) ==> m2 == m1,
                !prefix(b, p) ==> crossed_at(m1, m2, p.subrange(0, b.len() as int), b),
                descent(dtrace, self@, b.len() as int),
                dtrace[0] == m2,
                dtrace.last() == tree.root_view(),
                self.id() == old(self).id(),
                self.is_in(*tree),
                keeps_others(old(tree).visits(), tree.visits(), old(self).id()),
                b == right_base(t0, p),
                initial_len == p.len(),
                p == old(self)@,
                t0 == *old(tree),
                prefix(b, self@),
                self@.len() <= p.len(),
                forall|k: int| b.len() <= k < self@.len() ==> self@[k] == 0,
            ensures
                self.id() == old(self).id(),
                self.is_in(*tree),
                keeps_others(old(tree).visits(), tree.visits(), old(self).id()),
                jumped_right(t0, p, *tree, self@),
                ascent(atrace, p, b.len() as int),
                atrace[0] == t0.root_view(),
                atrace.last() == m1,
                b.len() >= 1,
                prefix(b, p) ==> m2 == m1,
                !prefix(b, p) ==> crossed_at(m1, m2, p.subrange(0, b.len() as int), b),
                descent(dtrace, self@, b.len() as int),
                dtrace[0] == m2,
                dtrace.last() == tree.root_view(),
            decreases p.len() - self@.len(),
        {
            if self.path.len() == initial_len {
                break ;
            }
            let ghost q0 = self@;
            match self.down(tree, Target::First) {
                Ok(true) => {
                    proof {
                        lemma_descent_push(dtrace, q0, b.len() as int, 0, tree.root_view());
                        dtrace = dtrace.push(tree.root_view());
                    }
                },
                Ok(false) => {
                    break ;
                },
                Err(e) => {
                    proof {
                        assert(ascended(t0.root_view(), m1, p, b.len() as int));
                        assert(descended(m2, tree.root_view(), self@, b.len() as int));
                    }
                    return Err(e);
                },
            }
        }
        proof {
            assert(ascended(t0.root_view(), m1, p, b.len() as int));
            assert(descended(m2, tree.root_view(), self@, b.len() as int));
        }
        Ok(true)
    }

    /// # Moves to the previous sibling in the same or an adjacent branch
    ///
    /// Ascends until a node with a previous sibling is found, moves to that
    /// sibling, then descends through last children back to the original
    /// depth when possible. The climb stops, and the descent starts, at the
    /// root (wrapping around the tree) or at a node built without a link to
    /// its parent.
    ///
    /// Always `Ok(true)`, or the error from populating a node on the way.
    fn jump_left<V, S, P: Populate<V, S>>(&mut self, tree: &mut Tree<V, S, P>) -> (r: Result<
        bool,
        P::Error,
    >)
        requires
            old(self).is_in(*old(tree)),
        ensures
            r matches Err(e) ==> refused_near(*final(tree), final(self)@, e),
            final(self).id() == old(self).id(),
            final(self).is_in(*final(tree)),
            keeps_others(old(tree).visits(), final(tree).visits(), old(self).id()),
            r is Ok ==> r == Ok::<bool, P::Error>(true) && jumped_left(
                *old(tree),
                old(self)@,
                *final(tree),
                final(self)@,
            ),
            r is Ok ==> jumped_through(
                old(tree).root_view(),
                final(tree).root_view(),
                old(self)@,
                left_base(*old(tree), old(self)@),
                final(self)@,
            ),
            r is Err ==> stopped_on_jump(
                old(tree).root_view(),
                final(tree).root_view(),
                old(self)@,
                left_base(*old(tree), old(self)@),
                final(self)@,
            ),
    {
        let ghost p = self@;
        let ghost t0 = *tree;
        let initial_len = self.path.len();
        let mut done = false;
        let ghost mut atrace = seq![t0.root_view()];
        proof {
            lemma_ascent_start(t0.root_view(), p);
        }
        proof {
            self.lemma_node_exists(*tree);
        }
        while !done && self.parent_linked(tree)
            invariant
                ascent(atrace, p, self@.len() as int),
                atrace[0] == t0.root_view(),
                !done ==> atrace.last() == tree.root_view(),
                done ==> crossed_at(
                    atrace.last(),
                    tree.root_view(),
                    p.subrange(0, self@.len() as int),
                    self@,
                ),
                self.id() == old(self).id(),
                self.is_in(*tree),
                keeps_others(old(tree).visits(), tree.visits(), old(self).id()),
                p == old(self)@,
                t0 == *old(tree),
                p.len() >= 1 && p[0] == 0,
                t0.root_view().sub(p.drop_first()) is Some,
                initial_len == p.len(),
                self@.len() >= 1,
                done ==> self@.len() >= 2,
                done ==> !prefix(self@, p),
                self@.len() <= p.len(),
                !done ==> {
                    &&& self@ == p.subrange(0, self@.len() as int)
                    &&& left_base(t0, p) == left_base_at(t0, p, self@.len() - 1)
                    &&& forall|q: Seq<usize>|
                        prefix(q, self@) && q.len() >= 1 ==> (#[trigger] tree.node_at(q)).unwrap().parent
                            == t0.node_at(q).unwrap().parent
                },
                done ==> self@ == left_base(t0, p),
            decreases self@.len() + (if done {
                0int
            } else {
                1int
            }),
        {
            let len = self.path.len();
            let i = self.path[len - 1];
            proof {
                self.lemma_parent_exists(*tree);
                assert(p[len - 1] == i);
                assert(p.subrange(0, len - 1) =~= self@.drop_last());
                assert(prefix(self@, self@));
                assert(prefix(self@.drop_first(), p.drop_first()));
                crate::node::lemma_sub_prefix(t0.root_view(), self@.drop_first(), p.drop_first());
                assert(self@ =~= p.subrange(0, len as int));
                assert(has_parent(t0, p.subrange(0, len as int)));
            }
            if i > 0 {
                let ghost q1 = self@;
                match self.side(tree, i - 1) {
                    Ok(()) => {
                        proof {
                            assert(q1 == p.subrange(0, self@.len() as int));
                            assert(p.subrange(0, len - 1).push((p[len - 1] - 1) as usize) =~= self@);
                            assert(self@[len - 1] != p[len - 1]);
                        }
                    },
                    Err(e) => {
                        return Err(e);
                    },
                }
                done = true;
            } else {
                let ghost q1 = self@;
                self.up(tree);
                proof {
                    assert(self@ =~= p.subrange(0, self@.len() as int));
                    lemma_ascent_push(atrace, p, q1.len() as int, tree.root_view());
                    atrace = atrace.push(tree.root_view());
                    assert forall|q: Seq<usize>|
                        prefix(q, self@) && q.len() >= 1 implies (#[trigger] tree.node_at(q)).unwrap().parent
                            == t0.node_at(q).unwrap().parent by {
                        assert(prefix(q, p.subrange(0, len as int)));
                    }
                }
            }
        }
        proof {
            if !done {
                assert(self@ == left_base(t0, p)) by {
                    assert(self@.subrange(0, self@.len() as int) =~= self@);
                    self.lemma_node_exists(*tree);
                    if self@.len() > 1 {
                        assert(prefix(self@, self@));
                        assert(prefix(self@.drop_first(), p.drop_first()));
                        crate::node::lemma_sub_prefix(t0.root_view(), self@.drop_first(), p.drop_first());
                        assert(!has_parent(t0, self@));
                    }
                }
            }
        }
        let ghost b = self@;
        let ghost m1 = atrace.last();
        let ghost m2 = tree.root_view();
        let ghost mut dtrace = seq![m2];
        proof {
            lemma_descent_start(m2, b);
            assert(prefix(b, p) <==> !done);
        }
        loop
            invariant
                ascent(atrace, p, b.len() as int),
                atrace[0] == t0.root_view(),
                atrace.last() == m1,
                b.len() >= 1,
                prefix(b, p) ==> m2 == m1,
                !prefix(b, p) ==> crossed_at(m1, m2, p.subrange(0, b.len() as int), b),
                descent(dtrace, self@, b.len() as int),
                dtrace[0] == m2,
                dtrace.last() == tree.root_view(),
                self.id() == old(self).id(),
                self.is_in(*tree),
                keeps_others(old(tree).visits(), tree.visits(), old(self).id()),
                b == left_base(t0, p),
                initial_len == p.len(),
                p == old(self)@,
                t0 == *old(tree),
                prefix(b, self@),
                self@.len() <= p.len(),
                forall|k: int|
                    b.len() <= k < self@.len() ==> self@[k] + 1 == child_count(
                        *tree,
                        #[trigger] self@.subrange(0, k),
                    ),
            ensures
                self.id() == old(self).id(),
                self.is_in(*tree),
                keeps_others(old(tree).visits(), tree.visits(), old(self).id()),
                jumped_left(t0, p, *tree, self@),
                ascent(atrace, p, b.len() as int),
                atrace[0] == t0.root_view(),
                atrace.last() == m1,
                b.len() >= 1,
                prefix(b, p) ==> m2 == m1,
                !prefix(b, p) ==> crossed_at(m1, m2, p.subrange(0, b.len() as int), b),
                descent(dtrace, self@, b.len() as int),
                dtrace[0] == m2,
                dtrace.last() == tree.root_view(),
            decreases p.len() - self@.len(),
        {
            if self.path.len() == initial_len {
                break ;
            }
            let ghost q0 = self@;
            let ghost t1 = *tree;
            match self.down(tree, Target::Last) {
                Ok(true) => {
                    proof {
                        lemma_descent_push(dtrace, q0, b.len() as int, self@.last(), tree.root_view());
                        assert(q0.push(self@.last()) == self@);
                        dtrace = dtrace.push(tree.root_view());
                        assert forall|k: int|
                            b.len() <= k < self@.len() implies self@[k] + 1 == child_count(
                                *tree,
                                #[trigger] self@.subrange(0, k),
                            ) by {
                            if k < q0.len() {
                                assert(self@.subrange(0, k) =~= q0.subrange(0, k));
                                assert(prefix(q0.subrange(0, k), q0));
                                assert(tree.node_at(q0.subrange(0, k)).unwrap().shallow_eq(
                                    t1.node_at(q0.subrange(0, k)).unwrap(),
                                ));
                                assert(self@[k] == q0[k]);
                                assert(q0[k] + 1 == child_count(t1, q0.subrange(0, k)));
                                assert(child_count(*tree, q0.subrange(0, k)) == child_count(t1, q0.subrange(0, k)));
                            } else {
                                assert(self@.subrange(0, k) =~= q0);
                                assert(prefix(q0, q0));
                                assert(tree.node_at(q0).unwrap().shallow_eq(
                                    t1.node_at(q0).unwrap(),
                                ));
                                assert(k == q0.len());
                                assert(child_count(t1, q0) > 0);
                                assert(self@ == q0.push((child_count(t1, q0) - 1) as usize));
                                assert(self@[k] + 1 == child_count(t1, q0));
                            }
                        }
                    }
                },
                Ok(false) => {
                    break ;
                },
                Err(e) => {
                    proof {
                        assert(ascended(t0.root_view(), m1, p, b.len() as int));
                        assert(descended(m2, tree.root_view(), self@, b.len() as int));
                    }
                    return Err(e);
                },
            }
        }
        proof {
            assert(ascended(t0.root_view(), m1, p, b.len() as int));
            assert(descended(m2, tree.root_view(), self@, b.len() as int));
        }
        Ok(true)
    }
}

impl Cursor {
    /// # Moves the cursor to the node at the absolute path `path`
    ///
    /// The cursor follows the longest existing prefix of `path`: it first
    /// ascends to the longest common prefix of its path and `path`, then
    /// descends along `path` while the selected children exist. When `path`
    /// does not start at the root (`0`), the cursor returns to the root. An
    /// empty `path` leaves the cursor unchanged. Every node the cursor climbs
    /// through must carry a link to its parent.
    ///
    /// Returns `Ok(true)` when the complete `path` was reached, `Ok(false)`
    /// when `path` is invalid, or the error from populating a node on the way
    /// down; the movement performed before the error is kept. A `path` that
    /// is a prefix of the cursor's path is always reached.
    pub fn go_to<V, S, P: Populate<V, S>>(&mut self, tree: &mut Tree<V, S, P>, path: &[usize]) -> (r:
        Result<bool, P::Error>)
        requires
            old(self).is_in(*old(tree)),
            path@.len() > 0 ==> climbable(
                *old(tree),
                old(self)@,
                if path@[0] == 0 {
                    common_len(old(self)@, path@) as int
                } else {
                    1
                },
            ),
        ensures
            r matches Err(e) ==> refused_near(*final(tree), final(self)@, e),
            final(self).id() == old(self).id(),
            final(self).is_in(*final(tree)),
            keeps_others(old(tree).visits(), final(tree).visits(), old(self).id()),
            path@.len() == 0 ==> r == Ok::<bool, P::Error>(false) && final(self)@ == old(self)@
                && same_tree(*final(tree), *old(tree)),
            path@.len() > 0 && path@[0] != 0 ==> r == Ok::<bool, P::Error>(false) && final(self)@
                == seq![0usize] && ascended(
                old(tree).root_view(),
                final(tree).root_view(),
                old(self)@,
                1,
            ),
            path@.len() > 0 && path@[0] == 0 ==> {
                &&& prefix(final(self)@, path@)
                &&& common_len(old(self)@, path@) <= final(self)@.len()
                &&& r is Ok ==> r == Ok::<bool, P::Error>(final(self)@.len() == path@.len())
                &&& r is Err ==> final(self)@.len() < path@.len()
                &&& r is Ok && final(self)@.len() < path@.len() ==> child_count(
                    *final(tree),
                    final(self)@,
                ) <= path@[final(self)@.len() as int]
                &&& prefix(path@, old(self)@) ==> r == Ok::<bool, P::Error>(true) && final(self)@ == path@
                &&& path@ == old(self)@ ==> same_tree(*final(tree), *old(tree))
                &&& r matches Err(e) ==> refused(
                    *final(tree),
                    path@.subrange(0, final(self)@.len() + 1int),
                    e,
                )
                &&& exists|mid: NodeView<V, S, P>|
                    #[trigger] ascended(
                        old(tree).root_view(),
                        mid,
                        old(self)@,
                        common_len(old(self)@, path@) as int,
                    ) && descended(
                        mid,
                        final(tree).root_view(),
                        final(self)@,
                        common_len(old(self)@, path@) as int,
                    )
            },
    {
        if path.len() == 0 {
            return Ok(false);
        }
        if path[0] != 0 {
            self.to_root(tree);
            return Ok(false);
        }
        let ghost p = self@;
        let ghost t = path@;
        proof {
            lemma_common_len(p, t);
            assert(p[0] == t[0]);
            assert(common_len(p, t) >= 1);
            if prefix(t, p) {
                assert(common_len(p, t) == t.len()) by {
                    if common_len(p, t) < t.len() {
                        assert(p[common_len(p, t) as int] == t[common_len(p, t) as int]);
                    }
                }
            }
        }
        let ghost c = common_len(p, t);
        let first_difference = vec_equ(self.path.as_slice(), path);
        if first_difference.is_none() && self.path.len() == path.len() {
            proof {
                assert(p =~= t);
                assert(c == p.len());
                lemma_ascent_start(tree.root_view(), p);
                lemma_descent_start(tree.root_view(), p);
            }
            return Ok(true);
        }
        let ghost t0 = tree.root_view();
        let ghost mut atrace = seq![t0];
        proof {
            lemma_ascent_start(t0, p);
        }
        proof {
            if p == t {
                assert(c == p.len()) by {
                    if c < p.len() {
                        assert(p[c as int] == t[c as int]);
                    }
                }
            }
        }
        match first_difference {
            Some(i) => {
                while self.path.len() != i
                    invariant
                        self.id() == old(self).id(),
                        self.is_in(*tree),
                        keeps_others(old(tree).visits(), tree.visits(), old(self).id()),
                        p == old(self)@,
                        t == path@,
                        c == common_len(p, t),
                        i == c,
                        1 <= c <= self@.len() <= p.len(),
                        self@ == p.subrange(0, self@.len() as int),
                        t0 == old(tree).root_view(),
                        ascent(atrace, p, self@.len() as int),
                        atrace[0] == t0,
                        atrace.last() == tree.root_view(),
                        climbable(*tree, self@, c as int),
                    decreases self@.len(),
                {
                    let ghost q = self@;
                    let ghost tb = *tree;
                    proof {
                        assert(q.subrange(0, q.len() as int) =~= q);
                        assert(has_parent(tb, q.subrange(0, q.len() as int)));
                    }
                    self.up(tree);
                    proof {
                        self.lemma_node_exists(*tree);
                        lemma_climbable_kept(tb, *tree, q, self@, c as int);
                        assert(self@ =~= p.subrange(0, self@.len() as int));
                        assert(p.subrange(0, q.len() as int) =~= q);
                        lemma_ascent_push(atrace, p, q.len() as int, tree.root_view());
                        atrace = atrace.push(tree.root_view());
                    }
                }
            },
            None => {},
        }
        proof {
            lemma_common_len(p, t);
            assert(self@.len() >= c);
            assert(self@.len() > t.len() ==> prefix(t, self@));
            assert(self@.len() <= t.len() ==> prefix(self@, t));
            assert(self@ == p.subrange(0, self@.len() as int)) by {
                if self@.len() == p.len() {
                    assert(p.subrange(0, p.len() as int) =~= p);
                }
            }
        }
        let mut result = true;
        let ghost mut dtrace = seq![tree.root_view()];
        if self.path.len() < path.len() {
            proof {
                assert(self@.len() == c);
                lemma_descent_start(tree.root_view(), self@);
            }
            loop
                invariant_except_break
                    result,
                invariant
                    self.id() == old(self).id(),
                    self.is_in(*tree),
                    keeps_others(old(tree).visits(), tree.visits(), old(self).id()),
                    t == path@,
                    c == common_len(old(self)@, t),
                    c <= self@.len() <= t.len(),
                    prefix(self@, t),
                    !prefix(t, old(self)@),
                    ascent(atrace, old(self)@, c as int),
                    atrace[0] == old(tree).root_view(),
                    descent(dtrace, self@, c as int),
                    dtrace[0] == atrace.last(),
                    dtrace.last() == tree.root_view(),
                ensures
                    self.id() == old(self).id(),
                    self.is_in(*tree),
                    keeps_others(old(tree).visits(), tree.visits(), old(self).id()),
                    c <= self@.len() <= t.len(),
                    prefix(self@, t),
                    result == (self@.len() == t.len()),
                    !result ==> child_count(*tree, self@) <= t[self@.len() as int],
                    ascent(atrace, old(self)@, c as int),
                    atrace[0] == old(tree).root_view(),
                    descent(dtrace, self@, c as int),
                    dtrace[0] == atrace.last(),
                    dtrace.last() == tree.root_view(),
                decreases t.len() - self@.len(),
            {
                if self.path.len() == path.len() {
                    break ;
                }
                let index = path[self.path.len()];
                let ghost q0 = self@;
                match self.down(tree, Target::Index(index)) {
                    Ok(true) => {
                        proof {
                            assert(prefix(self@, t));
                            lemma_descent_push(dtrace, q0, c as int, index, tree.root_view());
                            dtrace = dtrace.push(tree.root_view());
                        }
                    },
                    Ok(false) => {
                        result = false;
                        break ;
                    },
                    Err(e) => {
                        proof {
                            assert(q0.push(index) =~= t.subrange(0, q0.len() + 1int));
                            assert(refused(*tree, t.subrange(0, self@.len() + 1int), e));
                            assert(ascended(old(tree).root_view(), atrace.last(), old(self)@, c as int));
                            assert(descended(atrace.last(), tree.root_view(), self@, c as int));
                        }
                        return Err(e);
                    },
                }
            }
        } else {
            while self.path.len() != path.len()
                invariant
                    self.id() == old(self).id(),
                    self.is_in(*tree),
                    keeps_others(old(tree).visits(), tree.visits(), old(self).id()),
                    t == path@,
                    1 <= t.len() <= self@.len(),
                    prefix(t, self@),
                    p == old(self)@,
                    c == common_len(p, t),
                    c == t.len(),
                    self@.len() <= p.len(),
                    self@ == p.subrange(0, self@.len() as int),
                    ascent(atrace, p, self@.len() as int),
                    atrace[0] == old(tree).root_view(),
                    atrace.last() == tree.root_view(),
                    climbable(*tree, self@, c as int),
                decreases self@.len(),
            {
                let ghost q = self@;
                let ghost tb = *tree;
                proof {
                    assert(q.subrange(0, q.len() as int) =~= q);
                    assert(has_parent(tb, q.subrange(0, q.len() as int)));
                }
                self.up(tree);
                proof {
                    self.lemma_node_exists(*tree);
                    lemma_climbable_kept(tb, *tree, q, self@, c as int);
                    assert(self@ =~= p.subrange(0, self@.len() as int));
                    assert(p.subrange(0, q.len() as int) =~= q);
                    lemma_ascent_push(atrace, p, q.len() as int, tree.root_view());
                    atrace = atrace.push(tree.root_view());
                }
            }
            proof {
                lemma_prefix_antisym(self@, t);
                dtrace = seq![tree.root_view()];
                lemma_descent_start(tree.root_view(), self@);
            }
        }
        proof {
            assert(ascended(old(tree).root_view(), atrace.last(), old(self)@, c as int));
            assert(descended(atrace.last(), tree.root_view(), self@, c as int));
        }
        Ok(result)
    }

    /// # Searches across parent, child and sibling branches in `direction`
    ///
    /// Behaves like [`Cursor::walk`] when the adjacent node exists. Otherwise:
    /// `Up` where the cursor cannot move up (the root, or a node built
    /// without a parent link) descends through first children to the deepest
    /// leaf; `Down` from a node without the selected child returns to the
    /// root, which needs every node on the way up to carry a parent link;
    /// `Right` and `Left` continue to the next (previous) branch, wrapping
    /// around the tree (or the subtree of a node without a parent link), and
    /// descend through first (last) children to the original depth when
    /// possible.
    ///
    /// Always returns `Ok(true)`, or the error from populating a node.
    pub fn jump<V, S, P: Populate<V, S>>(
        &mut self,
        tree: &mut Tree<V, S, P>,
        direction: Direction,
    ) -> (r: Result<bool, P::Error>)
        requires
            old(self).is_in(*old(tree)),
            direction is Down && walk_target(*old(tree), old(self)@, direction) is None ==> climbable(
                *old(tree),
                old(self)@,
                1,
            ),
        ensures
            r matches Err(e) ==> refused_near(*final(tree), final(self)@, e),
            final(self).id() == old(self).id(),
            final(self).is_in(*final(tree)),
            keeps_others(old(tree).visits(), final(tree).visits(), old(self).id()),
            r is Ok ==> r == Ok::<bool, P::Error>(true),
            match direction {
                Direction::Up => {
                    &&& has_parent(*old(tree), old(self)@) ==> r is Ok && final(self)@ == old(
                        self,
                    )@.drop_last() && exited(*old(tree), *final(tree), old(self)@)
                    &&& !has_parent(*old(tree), old(self)@) ==> {
                        &&& prefix(old(self)@, final(self)@)
                        &&& forall|k: int|
                            old(self)@.len() <= k < final(self)@.len() ==> final(self)@[k] == 0
                        &&& r is Ok ==> child_count(*final(tree), final(self)@) == 0
                        &&& descended(
                            old(tree).root_view(),
                            final(tree).root_view(),
                            final(self)@,
                            old(self)@.len() as int,
                        )
                    }
                },
                Direction::Down(target) => match walk_target(*old(tree), old(self)@, direction) {
                    Some(q) => {
                        ||| r == Ok::<bool, P::Error>(true) && final(self)@ == q && entered(*old(tree), *final(tree), q)
                        ||| r matches Err(e) && final(self)@ == old(self)@ && same_tree(
                        *final(tree),
                        *old(tree),
                    ) && refused(*old(tree), q, e)
                    },
                    None => r == Ok::<bool, P::Error>(true) && final(self)@ == seq![0usize]
                        && ascended(old(tree).root_view(), final(tree).root_view(), old(self)@, 1),
                },
                Direction::Right => (r is Ok ==> jumped_right(
                    *old(tree),
                    old(self)@,
                    *final(tree),
                    final(self)@,
                ) && jumped_through(
                    old(tree).root_view(),
                    final(tree).root_view(),
                    old(self)@,
                    right_base(*old(tree), old(self)@),
                    final(self)@,
                )) && (r is Err ==> stopped_on_jump(
                    old(tree).root_view(),
                    final(tree).root_view(),
                    old(self)@,
                    right_base(*old(tree), old(self)@),
                    final(self)@,
                )),
                Direction::Left => (r is Ok ==> jumped_left(
                    *old(tree),
                    old(self)@,
                    *final(tree),
                    final(self)@,
                ) && jumped_through(
                    old(tree).root_view(),
                    final(tree).root_view(),
                    old(self)@,
                    left_base(*old(tree), old(self)@),
                    final(self)@,
                )) && (r is Err ==> stopped_on_jump(
                    old(tree).root_view(),
                    final(tree).root_view(),
                    old(self)@,
                    left_base(*old(tree), old(self)@),
                    final(self)@,
                )),
            },
    {
        match direction {
            Direction::Up => self.jump_up(tree),
            Direction::Down(target) => self.jump_down(tree, target),
            Direction::Left => self.jump_left(tree),
            Direction::Right => self.jump_right(tree),
        }
    }

    /// # Releases every visit held by the cursor
    ///
    /// The cursor returns to the root, ending its visit to every node on the
    /// way, then ends its visit to the root. Nodes that no other cursor
    /// visits lose their children. Every node on the way up must carry a link
    /// to its parent.
    pub fn release<V, S, P>(self, tree: &mut Tree<V, S, P>)
        requires
            self.is_in(*old(tree)),
            climbable(*old(tree), self@, 1),
        ensures
            final(tree).wf(),
            final(tree).visits() == old(tree).visits().update(self.id(), Set::empty()),
            final(tree).root_view().visitors + 1 == old(tree).root_view().visitors,
            ascended(old(tree).root_view(), final(tree).root_view(), self@, 0),
    {
        let mut cursor = self;
        cursor.to_root(tree);
        let ghost h1 = tree.visits();
        let ghost mid = tree.root_view();
        proof {
            lemma_prefixes_pop(Seq::<usize>::empty().push(0usize).drop_first().push(0usize));
            assert(cursor@.drop_first() =~= Seq::<usize>::empty());
            let e = Seq::<usize>::empty();
            assert(prefix(e, e));
            assert forall|z: Seq<usize>|
                #[trigger] tree.visits()[cursor.id()].contains(z) && prefix(e, z) implies z
                    == e by {
                assert(z =~= e);
            }
        }
        tree.leave_node(&cursor.path, cursor.id);
        proof {
            let e = Seq::<usize>::empty();
            assert(h1[cursor.id()].remove(e) =~= Set::empty()) by {
                assert forall|z: Seq<usize>| #[trigger] h1[cursor.id()].contains(z) implies z == e by {
                    assert(z =~= e);
                }
            }
            assert(tree.visits() =~= old(tree).visits().update(self.id(), Set::empty()));
            assert(tree.root_view().sub(e) == Some(tree.root_view()));
            assert(old(tree).root_view().sub(e) == Some(old(tree).root_view()));
            crate::visits::lemma_count_update(h1, cursor.id(), Set::empty(), e);
            crate::visits::lemma_count_update(old(tree).visits(), cursor.id(), h1[cursor.id()], e);
            assert(old(tree).visits()[cursor.id()].contains(e)) by {
                assert(prefix(e, self@.drop_first()));
            }
            assert(h1 =~= old(tree).visits().update(cursor.id(), h1[cursor.id()]));
            let trace = choose|trace: Seq<NodeView<V, S, P>>|
                #[trigger] ascent(trace, self@, 1) && trace[0] == old(tree).root_view()
                    && trace.last() == mid;
            assert(self@.subrange(0, 1) =~= seq![0usize]);
            assert(left_at(mid, tree.root_view(), seq![0usize]));
            lemma_ascent_push(trace, self@, 1, tree.root_view());
            assert(trace.push(tree.root_view()).last() == tree.root_view());
        }
    }
}

impl<V, S, P: Populate<V, S>> Tree<V, S, P> {
    /// # Creates a cursor at the root
    ///
    /// The cursor's path is `[0]`; it visits the root, whose children are
    /// populated when no other cursor visits it. On error the tree is
    /// unchanged and no cursor is produced.
    pub fn cursor(&mut self) -> (r: Result<Cursor, P::Error>)
        requires
            old(self).wf(),
            old(self).root_view().visitors < usize::MAX,
        ensures
            r matches Ok(c) ==> {
                &&& c.is_in(*final(self))
                &&& c@ == seq![0usize]
                &&& entered(*old(self), *final(self), c@)
                &&& c.id() == old(self).visits().len()
                &&& final(self).visits() == old(self).visits().push(prefixes(Seq::empty()))
            },
            r is Err ==> same_tree(*final(self), *old(self)) && old(self).root_view().visitors == 0,
            r matches Err(e) ==> refused(*old(self), seq![0usize], e),
    {
        Cursor::new(self)
    }
}

} // verus!
