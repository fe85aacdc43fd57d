//! Who visits which node.
//!
//! A tree keeps, as ghost state, one entry per cursor it ever created: the
//! set of relative paths that the cursor visits (the prefixes of its path;
//! empty once the cursor is released). A node's visitor count is the number
//! of entries that hold its path.
use vstd::prelude::*;

use crate::node::{NodeView, prefix, lemma_sub_put, lemma_sub_concat};

verus! {

/// The number of entries of `h` that hold the path `p`.
pub open spec fn count(h: Seq<Set<Seq<usize>>>, p: Seq<usize>) -> nat
    decreases h.len(),
{
    if h.len() == 0 {
        0
    } else {
        count(h.drop_last(), p) + (if h.last().contains(p) {
            1nat
        } else {
            0nat
        })
    }
}

/// The prefixes of `q`: what a cursor at relative path `q` visits.
pub open spec fn prefixes(q: Seq<usize>) -> Set<Seq<usize>> {
    Set::new(|z: Seq<usize>| prefix(z, q))
}

/// Two paths, each a prefix of the other, are equal.
pub proof fn lemma_prefix_antisym(a: Seq<usize>, b: Seq<usize>)
    requires
        prefix(a, b),
        prefix(b, a),
    ensures
        a == b,
{
    assert(a =~= b);
}

/// Leaving the end of a path: what remains visited are the prefixes of the
/// path without its last step.
pub proof fn lemma_prefixes_pop(q: Seq<usize>)
    requires
        q.len() > 0,
    ensures
        prefixes(q).remove(q) == prefixes(q.drop_last()),
{
    assert forall|z: Seq<usize>| prefixes(q).remove(q).contains(z) == prefixes(q.drop_last()).contains(z) by {
        if prefix(z, q) && z != q {
            if z.len() == q.len() {
                lemma_prefix_antisym(z, q);
            }
        }
    }
    assert(prefixes(q).remove(q) =~= prefixes(q.drop_last()));
}

/// Descending one step: the prefixes of the longer path are those of the
/// shorter one and the longer path itself.
pub proof fn lemma_prefixes_push(q: Seq<usize>, i: usize)
    ensures
        prefixes(q.push(i)) == prefixes(q).insert(q.push(i)),
        !prefixes(q).contains(q.push(i)),
        prefixes(q).contains(q),
{
    assert forall|z: Seq<usize>| prefixes(q.push(i)).contains(z) == prefixes(q).insert(q.push(i)).contains(z) by {
        if prefix(z, q.push(i)) && z.len() == q.len() + 1 {
            lemma_prefix_antisym(z, q.push(i));
        }
    }
    assert(prefixes(q.push(i)) =~= prefixes(q).insert(q.push(i)));
}

/// Moving to a sibling: visiting `b`, then leaving `a`, leaves the prefixes
/// of `b` visited.
pub proof fn lemma_prefixes_side(a: Seq<usize>, j: usize)
    requires
        a.len() > 0,
        a.last() != j,
    ensures
        prefixes(a).insert(a.drop_last().push(j)).remove(a) == prefixes(a.drop_last().push(j)),
        !prefixes(a).contains(a.drop_last().push(j)),
        prefixes(a).contains(a.drop_last()),
        prefixes(a).contains(a),
{
    let b = a.drop_last().push(j);
    lemma_prefixes_pop(a);
    lemma_prefixes_push(a.drop_last(), j);
    assert(b[a.len() - 1] != a[a.len() - 1]);
    assert(!prefix(b, a));
    assert(a != b);
    assert forall|z: Seq<usize>| prefixes(a).insert(b).remove(a).contains(z) == prefixes(b).contains(z) by {
        if prefixes(a).remove(a).contains(z) {
            assert(prefixes(a.drop_last()).contains(z));
        }
    }
    assert(prefixes(a).insert(b).remove(a) =~= prefixes(b));
}

/// Every node's count is the number of entries that hold it, and a node that
/// nobody visits has no children.
pub open spec fn counts_match<V, S, P>(t: NodeView<V, S, P>, h: Seq<Set<Seq<usize>>>) -> bool {
    forall|p: Seq<usize>|
        #[trigger] t.sub(p) is Some ==> {
            &&& t.sub(p).unwrap().visitors == count(h, p)
            &&& t.sub(p).unwrap().visitors == 0 ==> t.sub(p).unwrap().children.len() == 0
        }
}

/// Every held path exists.
pub open spec fn holders_valid<V, S, P>(t: NodeView<V, S, P>, h: Seq<Set<Seq<usize>>>) -> bool {
    forall|c: int, x: Seq<usize>| 0 <= c < h.len() && #[trigger] h[c].contains(x) ==> t.sub(x) is Some
}

/// Whoever holds a path holds all its prefixes.
pub open spec fn holders_closed(h: Seq<Set<Seq<usize>>>) -> bool {
    forall|c: int, x: Seq<usize>, y: Seq<usize>|
        #![trigger h[c].contains(x), prefix(y, x)]
        0 <= c < h.len() && h[c].contains(x) && prefix(y, x) ==> h[c].contains(y)
}

/// The tree and the visit entries agree.
pub open spec fn consistent<V, S, P>(t: NodeView<V, S, P>, h: Seq<Set<Seq<usize>>>) -> bool {
    &&& counts_match(t, h)
    &&& holders_valid(t, h)
    &&& holders_closed(h)
}

pub proof fn lemma_count_push(h: Seq<Set<Seq<usize>>>, s: Set<Seq<usize>>, p: Seq<usize>)
    ensures
        count(h.push(s), p) == count(h, p) + (if s.contains(p) {
            1nat
        } else {
            0nat
        }),
{
    assert(h.push(s).drop_last() =~= h);
}

pub proof fn lemma_count_update(
    h: Seq<Set<Seq<usize>>>,
    c: int,
    s: Set<Seq<usize>>,
    p: Seq<usize>,
)
    requires
        0 <= c < h.len(),
    ensures
        count(h.update(c, s), p) + (if h[c].contains(p) {
            1nat
        } else {
            0nat
        }) == count(h, p) + (if s.contains(p) {
            1nat
        } else {
            0nat
        }),
    decreases h.len(),
{
    let h2 = h.update(c, s);
    if c == h.len() - 1 {
        assert(h2.drop_last() =~= h.drop_last());
    } else {
        assert(h2.drop_last() =~= h.drop_last().update(c, s));
        lemma_count_update(h.drop_last(), c, s, p);
    }
}

pub proof fn lemma_count_pos(h: Seq<Set<Seq<usize>>>, c: int, p: Seq<usize>)
    requires
        0 <= c < h.len(),
        h[c].contains(p),
    ensures
        count(h, p) >= 1,
    decreases h.len(),
{
    if c < h.len() - 1 {
        lemma_count_pos(h.drop_last(), c, p);
    }
}

pub proof fn lemma_count_one(h: Seq<Set<Seq<usize>>>, c: int, d: int, p: Seq<usize>)
    requires
        0 <= c < h.len(),
        0 <= d < h.len(),
        c != d,
        h[c].contains(p),
        count(h, p) == 1,
    ensures
        !h[d].contains(p),
    decreases h.len(),
{
    if h[d].contains(p) {
        if c == h.len() - 1 {
            lemma_count_pos(h.drop_last(), d, p);
        } else if d == h.len() - 1 {
            lemma_count_pos(h.drop_last(), c, p);
        } else if h.last().contains(p) {
            lemma_count_pos(h.drop_last(), c, p);
        } else {
            lemma_count_one(h.drop_last(), c, d, p);
        }
    }
}

pub proof fn lemma_count_mono(h: Seq<Set<Seq<usize>>>, x: Seq<usize>, p: Seq<usize>)
    requires
        forall|d: int| 0 <= d < h.len() && #[trigger] h[d].contains(p) ==> h[d].contains(x),
    ensures
        count(h, p) <= count(h, x),
    decreases h.len(),
{
    if h.len() > 0 {
        assert forall|d: int|
            0 <= d < h.drop_last().len() && #[trigger] h.drop_last()[d].contains(p) implies h.drop_last()[d].contains(
            x,
        ) by {
            assert(h.drop_last()[d] == h[d]);
        }
        lemma_count_mono(h.drop_last(), x, p);
        if h.last().contains(p) {
            assert(h[h.len() - 1].contains(p));
        }
    }
}

pub proof fn lemma_count_lt(h: Seq<Set<Seq<usize>>>, x: Seq<usize>, p: Seq<usize>, c: int)
    requires
        forall|d: int| 0 <= d < h.len() && #[trigger] h[d].contains(p) ==> h[d].contains(x),
        0 <= c < h.len(),
        h[c].contains(x),
        !h[c].contains(p),
    ensures
        count(h, p) < count(h, x),
    decreases h.len(),
{
    assert forall|d: int|
        0 <= d < h.drop_last().len() && #[trigger] h.drop_last()[d].contains(p) implies h.drop_last()[d].contains(
        x,
    ) by {
        assert(h.drop_last()[d] == h[d]);
    }
    if c == h.len() - 1 {
        lemma_count_mono(h.drop_last(), x, p);
    } else {
        lemma_count_lt(h.drop_last(), x, p, c);
        if h.last().contains(p) {
            assert(h[h.len() - 1].contains(p));
        }
    }
}

/// Dropping a last, empty entry keeps the tree consistent.
pub proof fn lemma_remove_empty_holder<V, S, P>(t: NodeView<V, S, P>, h: Seq<Set<Seq<usize>>>)
    requires
        consistent(t, h),
        h.len() > 0,
        h.last() == Set::<Seq<usize>>::empty(),
    ensures
        consistent(t, h.drop_last()),
{
    let h2 = h.drop_last();
    assert forall|p: Seq<usize>| #[trigger] t.sub(p) is Some implies {
        &&& t.sub(p).unwrap().visitors == count(h2, p)
        &&& t.sub(p).unwrap().visitors == 0 ==> t.sub(p).unwrap().children.len() == 0
    } by {}
    assert forall|c: int, x: Seq<usize>| 0 <= c < h2.len() && #[trigger] h2[c].contains(x) implies t.sub(
        x,
    ) is Some by {
        assert(h2[c] == h[c]);
    }
    assert forall|c: int, x: Seq<usize>, y: Seq<usize>|
        #![trigger h2[c].contains(x), prefix(y, x)]
        0 <= c < h2.len() && h2[c].contains(x) && prefix(y, x) implies h2[c].contains(y) by {
        assert(h2[c] == h[c]);
    }
}

/// A node without children has no subtree below itself.
pub proof fn lemma_sub_leaf<V, S, P>(n: NodeView<V, S, P>, r: Seq<usize>)
    requires
        n.children.len() == 0,
        r.len() > 0,
    ensures
        n.sub(r) is None,
{
}

/// Two nodes with the same children have the same subtrees below them.
pub proof fn lemma_sub_same_children<V, S, P>(
    a: NodeView<V, S, P>,
    b: NodeView<V, S, P>,
    r: Seq<usize>,
)
    requires
        a.children == b.children,
        r.len() > 0,
    ensures
        a.sub(r) == b.sub(r),
{
}

/// Below fresh children there is only one level.
pub proof fn lemma_sub_fresh_children<V, S, P>(n: NodeView<V, S, P>, r: Seq<usize>)
    requires
        forall|i: int| 0 <= i < n.children.len() ==> #[trigger] n.children[i].is_fresh(),
        r.len() > 0,
        n.sub(r) is Some,
    ensures
        r.len() == 1,
        n.sub(r).unwrap().is_fresh(),
{
    let c = n.children[r[0] as int];
    assert(c.is_fresh());
    if r.len() > 1 {
        lemma_sub_leaf(c, r.drop_first());
    } else {
        assert(r.drop_first().len() == 0);
    }
}

/// A new, empty entry keeps the tree consistent.
pub proof fn lemma_add_holder<V, S, P>(t: NodeView<V, S, P>, h: Seq<Set<Seq<usize>>>)
    requires
        consistent(t, h),
    ensures
        consistent(t, h.push(Set::empty())),
{
    let h2 = h.push(Set::<Seq<usize>>::empty());
    assert forall|p: Seq<usize>| #[trigger] t.sub(p) is Some implies {
        &&& t.sub(p).unwrap().visitors == count(h2, p)
        &&& t.sub(p).unwrap().visitors == 0 ==> t.sub(p).unwrap().children.len() == 0
    } by {
        lemma_count_push(h, Set::empty(), p);
    }
    assert forall|c: int, x: Seq<usize>| 0 <= c < h2.len() && #[trigger] h2[c].contains(x) implies t.sub(
        x,
    ) is Some by {
        assert(c < h.len());
        assert(h2[c] == h[c]);
    }
    assert forall|c: int, x: Seq<usize>, y: Seq<usize>|
        #![trigger h2[c].contains(x), prefix(y, x)]
        0 <= c < h2.len() && h2[c].contains(x) && prefix(y, x) implies h2[c].contains(y) by {
        assert(c < h.len());
        assert(h2[c] == h[c]);
    }
}

/// Visiting the node at `y` on behalf of entry `c`, which holds the parent of
/// `y` but not `y`, keeps the tree consistent once `c` holds `y` too.
pub proof fn lemma_visit_step<V, S, P>(
    t: NodeView<V, S, P>,
    h: Seq<Set<Seq<usize>>>,
    c: int,
    y: Seq<usize>,
    n2: NodeView<V, S, P>,
)
    requires
        consistent(t, h),
        0 <= c < h.len(),
        t.sub(y) is Some,
        !h[c].contains(y),
        y.len() > 0 ==> h[c].contains(y.drop_last()),
        t.sub(y).unwrap().visited(n2),
    ensures
        consistent(t.put(y, n2), h.update(c, h[c].insert(y))),
{
    let n = t.sub(y).unwrap();
    let t2 = t.put(y, n2);
    let s = h[c].insert(y);
    let h2 = h.update(c, s);
    assert forall|p: Seq<usize>| #[trigger] t2.sub(p) is Some implies {
        &&& t2.sub(p).unwrap().visitors == count(h2, p)
        &&& t2.sub(p).unwrap().visitors == 0 ==> t2.sub(p).unwrap().children.len() == 0
    } by {
        lemma_sub_put(t, y, n2, p);
        lemma_count_update(h, c, s, p);
        if prefix(y, p) {
            let r = p.skip(y.len() as int);
            if p.len() == y.len() {
                assert(p =~= y);
                assert(r.len() == 0);
            } else {
                assert(p != y);
                assert(y + r =~= p);
                lemma_sub_concat(t, y, r);
                if n.visitors > 0 {
                    lemma_sub_same_children(n, n2, r);
                    assert(t.sub(p) == t2.sub(p));
                } else {
                    lemma_sub_fresh_children(n2, r);
                    assert forall|d: int| 0 <= d < h.len() && #[trigger] h[d].contains(p) implies h[d].contains(
                        y,
                    ) by {}
                    lemma_count_mono(h, y, p);
                }
            }
        } else if prefix(p, y) {
            assert(p.len() < y.len());
            assert(p != y);
            assert(prefix(p, y.drop_last()));
            assert(h[c].contains(p));
            lemma_count_pos(h, c, p);
        } else {
            assert(p != y);
        }
    }
    assert forall|d: int, x: Seq<usize>| 0 <= d < h2.len() && #[trigger] h2[d].contains(x) implies t2.sub(
        x,
    ) is Some by {
        lemma_sub_put(t, y, n2, x);
        if d == c && x == y {
            assert(prefix(y, y));
            assert(y.skip(y.len() as int).len() == 0);
        } else {
            assert(h[d].contains(x));
            if prefix(y, x) && x.len() > y.len() {
                assert(h[d].contains(y));
                lemma_count_pos(h, d, y);
                let r = x.skip(y.len() as int);
                assert(y + r =~= x);
                lemma_sub_concat(t, y, r);
                lemma_sub_same_children(n, n2, r);
            } else if prefix(y, x) {
                assert(x =~= y);
            }
        }
    }
    assert forall|d: int, x: Seq<usize>, z: Seq<usize>|
        #![trigger h2[d].contains(x), prefix(z, x)]
        0 <= d < h2.len() && h2[d].contains(x) && prefix(z, x) implies h2[d].contains(z) by {
        if d == c {
            if x == y {
                if z.len() == y.len() {
                    assert(z =~= y);
                } else {
                    assert(prefix(z, y.drop_last()));
                }
            } else {
                assert(h[c].contains(x));
            }
        }
    }
}

/// Ending the visit of entry `c` to the node at `x`, where `c` holds nothing
/// below `x`, keeps the tree consistent once `c` no longer holds `x`.
pub proof fn lemma_leave_step<V, S, P>(
    t: NodeView<V, S, P>,
    h: Seq<Set<Seq<usize>>>,
    c: int,
    x: Seq<usize>,
    n2: NodeView<V, S, P>,
)
    requires
        consistent(t, h),
        0 <= c < h.len(),
        h[c].contains(x),
        forall|z: Seq<usize>| #[trigger] h[c].contains(z) && prefix(x, z) ==> z == x,
        t.sub(x) is Some,
        t.sub(x).unwrap().left(n2),
    ensures
        consistent(t.put(x, n2), h.update(c, h[c].remove(x))),
{
    let n = t.sub(x).unwrap();
    let t2 = t.put(x, n2);
    let s = h[c].remove(x);
    let h2 = h.update(c, s);
    assert forall|p: Seq<usize>| #[trigger] t2.sub(p) is Some implies {
        &&& t2.sub(p).unwrap().visitors == count(h2, p)
        &&& t2.sub(p).unwrap().visitors == 0 ==> t2.sub(p).unwrap().children.len() == 0
    } by {
        lemma_sub_put(t, x, n2, p);
        lemma_count_update(h, c, s, p);
        if prefix(x, p) {
            let r = p.skip(x.len() as int);
            if p.len() == x.len() {
                assert(p =~= x);
                assert(r.len() == 0);
            } else {
                assert(p != x);
                assert(x + r =~= p);
                lemma_sub_concat(t, x, r);
                if n2.visitors > 0 {
                    lemma_sub_same_children(n, n2, r);
                    assert(!h[c].contains(p));
                } else {
                    lemma_sub_leaf(n2, r);
                }
            }
        } else if prefix(p, x) {
            assert(p.len() < x.len());
            assert(p != x);
            assert(h[c].contains(p));
            assert(s.contains(p));
            lemma_count_pos(h2, c, p);
        } else {
            assert(p != x);
        }
    }
    assert forall|d: int, z: Seq<usize>| 0 <= d < h2.len() && #[trigger] h2[d].contains(z) implies t2.sub(
        z,
    ) is Some by {
        lemma_sub_put(t, x, n2, z);
        assert(h[d].contains(z));
        if prefix(x, z) {
            if d == c {
                assert(z == x);
            } else {
                assert(h[d].contains(x));
                if n2.visitors == 0 {
                    lemma_count_one(h, c, d, x);
                }
                if z.len() == x.len() {
                    assert(z =~= x);
                } else {
                    let r = z.skip(x.len() as int);
                    assert(x + r =~= z);
                    lemma_sub_concat(t, x, r);
                    lemma_sub_same_children(n, n2, r);
                }
            }
        }
    }
    assert forall|d: int, z: Seq<usize>, w: Seq<usize>|
        #![trigger h2[d].contains(z), prefix(w, z)]
        0 <= d < h2.len() && h2[d].contains(z) && prefix(w, z) implies h2[d].contains(w) by {
        if d == c {
            assert(h[c].contains(z));
            assert(h[c].contains(w));
            if w == x {
                assert(prefix(x, z));
            }
        }
    }
}

} // verus!
