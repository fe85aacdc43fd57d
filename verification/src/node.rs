//! Lazily populated nodes, their builder, and the callback that populates
//! them.
//!
//! A node owns its currently populated children. It counts the cursors that
//! visit it: the first visit populates its children through the node's
//! callback, the last leave releases them.
use std::ops::Range;

use vstd::prelude::*;

verus! {

/// The address of a node: its absolute path from the root of the tree.
///
/// The root is at `[0]`; every later element is the zero-based index of the
/// selected child at that level. A node keeps its address for as long as it
/// is populated.
pub type Link = Vec<usize>;

/// The callback that creates the children of a node.
///
/// It is invoked when a cursor visits a node that no other cursor visits at
/// that moment. It receives the node's `source`, its `range` metadata and the
/// link (address) of the node itself, and returns the children in order, or
/// an error.
pub trait Populate<V, S>: Sized {
    /// The error the callback may return.
    type Error;

    /// The callback, handed `source`, `range` and the link `parent`, may
    /// return `result`.
    ///
    /// An implementation that states nothing of its results keeps this
    /// default, which holds of every result; code over any callback knows
    /// only that the result it got is one the callback may return for the
    /// arguments it was handed.
    open spec fn populates(
        &self,
        source: S,
        range: Option<Range<usize>>,
        parent: Seq<usize>,
        result: Result<Vec<Node<V, S, Self>>, Self::Error>,
    ) -> bool {
        true
    }

    /// Creates the children of the node with the given `source`, `range`
    /// and link.
    fn populate(&self, source: &S, range: Option<Range<usize>>, parent: Link) -> (r: Result<
        Vec<Node<V, S, Self>>,
        Self::Error,
    >)
        ensures
            self.populates(*source, range, parent@, r),
    ;
}

/// The error of a result, if it is one.
pub open spec fn err_of<T, E>(r: Result<T, E>) -> Option<E> {
    match r {
        Ok(_) => None,
        Err(e) => Some(e),
    }
}

/// The callback of the node `n`, handed `n`'s source, `n`'s range and the
/// link `link`, may give `result`.
pub open spec fn gives<V, S, P: Populate<V, S>>(
    n: NodeView<V, S, P>,
    link: Seq<usize>,
    result: Result<Vec<Node<V, S, P>>, P::Error>,
) -> bool {
    n.populate.populates(n.source, n.range, link, result)
}

/// How the population on a first visit of `before` (at `link`) went: either
/// the callback, handed the node's source, range and `link`, gave nodes that
/// became the children of `after`, each made fresh (`err` is `None`), or it
/// gave the error `err`.
pub open spec fn first_visit<V, S, P: Populate<V, S>>(
    before: NodeView<V, S, P>,
    after: NodeView<V, S, P>,
    link: Seq<usize>,
    err: Option<P::Error>,
) -> bool {
    match err {
        None => exists|nodes: Vec<Node<V, S, P>>|
            #[trigger] gives(before, link, Ok(nodes)) && after.holds_fresh(nodes@),
        Some(e) => gives(before, link, Err(e)),
    }
}

/// The mathematical model of a node: its data, its visitor count and the
/// models of its currently populated children.
pub struct NodeView<V, S, P> {
    pub children: Seq<NodeView<V, S, P>>,
    pub visitors: nat,
    pub parent: Option<Seq<usize>>,
    pub value: V,
    pub source: S,
    pub range: Option<Range<usize>>,
    pub populate: P,
}

/// `a` is a prefix of `b`.
pub open spec fn prefix(a: Seq<usize>, b: Seq<usize>) -> bool {
    a.len() <= b.len() && forall|i: int| 0 <= i < a.len() ==> a[i] == b[i]
}

/// The model of an optional link.
pub open spec fn link_view(l: Option<Link>) -> Option<Seq<usize>> {
    match l {
        Some(v) => Some(v@),
        None => None,
    }
}

impl<V, S, P> NodeView<V, S, P> {
    /// The subtree at the relative path `p` (child indices from this node),
    /// if every step of `p` names an existing child.
    pub open spec fn sub(self, p: Seq<usize>) -> Option<NodeView<V, S, P>>
        decreases p.len(),
    {
        if p.len() == 0 {
            Some(self)
        } else if p[0] < self.children.len() {
            self.children[p[0] as int].sub(p.drop_first())
        } else {
            None
        }
    }

    /// This node with the subtree at relative path `p` replaced by `x`.
    pub open spec fn put(self, p: Seq<usize>, x: NodeView<V, S, P>) -> NodeView<V, S, P>
        decreases p.len(),
    {
        if p.len() == 0 {
            x
        } else if p[0] < self.children.len() {
            NodeView {
                children: self.children.update(
                    p[0] as int,
                    self.children[p[0] as int].put(p.drop_first(), x),
                ),
                ..self
            }
        } else {
            self
        }
    }

    /// The data that no traversal changes.
    pub open spec fn same_data(self, other: NodeView<V, S, P>) -> bool {
        &&& self.parent == other.parent
        &&& self.value == other.value
        &&& self.source == other.source
        &&& self.range == other.range
        &&& self.populate == other.populate
    }

    /// Same data, same visitor count, same number of children.
    pub open spec fn shallow_eq(self, other: NodeView<V, S, P>) -> bool {
        &&& self.same_data(other)
        &&& self.visitors == other.visitors
        &&& self.children.len() == other.children.len()
    }

    /// Not visited and without children, as a built node is.
    pub open spec fn is_fresh(self) -> bool {
        self.visitors == 0 && self.children.len() == 0
    }

    /// The children of `self` are the nodes `nodes`, in order, each made
    /// fresh and otherwise unchanged.
    pub open spec fn holds_fresh(self, nodes: Seq<Node<V, S, P>>) -> bool {
        &&& self.children.len() == nodes.len()
        &&& forall|i: int|
            0 <= i < nodes.len() ==> #[trigger] self.children[i].is_fresh()
                && self.children[i].same_data(nodes[i]@)
    }

    /// `after` is `self` after one more visit: the count grows by one; a
    /// node visited for the first time gets fresh children from its callback,
    /// any other keeps its children.
    pub open spec fn visited(self, after: NodeView<V, S, P>) -> bool {
        &&& self.same_data(after)
        &&& after.visitors == self.visitors + 1
        &&& self.visitors > 0 ==> after.children == self.children
        &&& self.visitors == 0 ==> forall|i: int|
            0 <= i < after.children.len() ==> #[trigger] after.children[i].is_fresh()
    }

    /// `after` is `self` after one visit ended: the count drops by one; the
    /// children are released when it reaches zero and kept otherwise.
    pub open spec fn left(self, after: NodeView<V, S, P>) -> bool {
        &&& self.same_data(after)
        &&& self.visitors >= 1
        &&& after.visitors == self.visitors - 1
        &&& after.visitors > 0 ==> after.children == self.children
        &&& after.visitors == 0 ==> after.children.len() == 0
    }
}

/// Facts on how `sub` sees a tree in which the subtree at `x` was replaced.
pub proof fn lemma_sub_put<V, S, P>(
    t: NodeView<V, S, P>,
    x: Seq<usize>,
    n: NodeView<V, S, P>,
    p: Seq<usize>,
)
    requires
        t.sub(x) is Some,
    ensures
        prefix(x, p) ==> t.put(x, n).sub(p) == n.sub(p.skip(x.len() as int)),
        !prefix(x, p) && !prefix(p, x) ==> t.put(x, n).sub(p) == t.sub(p),
        prefix(p, x) && p.len() < x.len() ==> {
            &&& t.put(x, n).sub(p) is Some
            &&& t.sub(p) is Some
            &&& t.put(x, n).sub(p).unwrap().shallow_eq(t.sub(p).unwrap())
        },
    decreases x.len(),
{
    if x.len() == 0 {
        assert(p.skip(0) =~= p);
    } else {
        let i = x[0];
        let c = t.children[i as int];
        let t2 = t.put(x, n);
        assert(t2.children.len() == t.children.len());
        if p.len() == 0 {
        } else {
            let j = p[0];
            if j == i {
                lemma_sub_put(c, x.drop_first(), n, p.drop_first());
                if prefix(x, p) {
                    assert(prefix(x.drop_first(), p.drop_first()));
                    assert(p.drop_first().skip(x.drop_first().len() as int) =~= p.skip(
                        x.len() as int,
                    ));
                }
                if !prefix(x, p) && !prefix(p, x) {
                    assert(!prefix(x.drop_first(), p.drop_first())) by {
                        if prefix(x.drop_first(), p.drop_first()) {
                            assert forall|k: int| 0 <= k < x.len() implies x[k] == p[k] by {
                                if k > 0 {
                                    assert(x.drop_first()[k - 1] == p.drop_first()[k - 1]);
                                }
                            }
                        }
                    }
                    assert(!prefix(p.drop_first(), x.drop_first())) by {
                        if prefix(p.drop_first(), x.drop_first()) {
                            assert forall|k: int| 0 <= k < p.len() implies p[k] == x[k] by {
                                if k > 0 {
                                    assert(p.drop_first()[k - 1] == x.drop_first()[k - 1]);
                                }
                            }
                        }
                    }
                }
                if prefix(p, x) && p.len() < x.len() {
                    assert(prefix(p.drop_first(), x.drop_first()));
                }
            } else {
                assert(!prefix(x, p));
                assert(!prefix(p, x));
                if j < t.children.len() {
                    assert(t2.children[j as int] == t.children[j as int]);
                }
            }
        }
    }
}

/// The subtree at `a ++ b` is the subtree at `b` of the subtree at `a`.
pub proof fn lemma_sub_concat<V, S, P>(t: NodeView<V, S, P>, a: Seq<usize>, b: Seq<usize>)
    requires
        t.sub(a) is Some,
    ensures
        t.sub(a + b) == t.sub(a).unwrap().sub(b),
    decreases a.len(),
{
    if a.len() == 0 {
        assert(a + b =~= b);
    } else {
        assert((a + b).drop_first() =~= a.drop_first() + b);
        lemma_sub_concat(t.children[a[0] as int], a.drop_first(), b);
    }
}

/// Every prefix of an existing path exists.
pub proof fn lemma_sub_prefix<V, S, P>(t: NodeView<V, S, P>, a: Seq<usize>, p: Seq<usize>)
    requires
        t.sub(p) is Some,
        prefix(a, p),
    ensures
        t.sub(a) is Some,
    decreases a.len(),
{
    if a.len() > 0 {
        assert(prefix(a.drop_first(), p.drop_first()));
        lemma_sub_prefix(t.children[a[0] as int], a.drop_first(), p.drop_first());
    }
}

/// The subtree one step below `p`.
pub proof fn lemma_sub_push<V, S, P>(t: NodeView<V, S, P>, p: Seq<usize>, i: usize)
    requires
        t.sub(p) is Some,
    ensures
        t.sub(p.push(i)) == (if i < t.sub(p).unwrap().children.len() {
            Some(t.sub(p).unwrap().children[i as int])
        } else {
            None
        }),
{
    lemma_sub_concat(t, p, seq![i]);
    assert(p + seq![i] =~= p.push(i));
    assert(seq![i].drop_first() =~= Seq::<usize>::empty());
    let n = t.sub(p).unwrap();
    if i < n.children.len() {
        assert(n.children[i as int].sub(Seq::<usize>::empty()) == Some(n.children[i as int]));
    }
}

/// # A lazily populated node
///
/// A node stores a value together with the `source` data and `range`
/// metadata that its callback uses to create its children. It owns its
/// currently populated children and counts the cursors visiting it.
///
/// A node is obtained from a [`Builder`].
#[derive(Debug)]
pub struct Node<V, S, P> {
    children: Vec<Node<V, S, P>>,
    visitors: usize,
    parent: Option<Link>,
    value: V,
    source: S,
    range: Option<Range<usize>>,
    populate: P,
}

pub closed spec fn node_view<V, S, P>(n: Node<V, S, P>) -> NodeView<V, S, P>
    decreases n,
{
    NodeView {
        children: Seq::new(
            n.children@.len(),
            |i: int|
                if 0 <= i < n.children@.len() {
                    node_view(n.children@[i])
                } else {
                    vstd::pervasive::arbitrary()
                },
        ),
        visitors: n.visitors as nat,
        parent: link_view(n.parent),
        value: n.value,
        source: n.source,
        range: n.range,
        populate: n.populate,
    }
}

impl<V, S, P> View for Node<V, S, P> {
    type V = NodeView<V, S, P>;

    closed spec fn view(&self) -> NodeView<V, S, P> {
        node_view(*self)
    }
}

/// Copies an optional range.
pub fn copy_range(r: &Option<Range<usize>>) -> (c: Option<Range<usize>>)
    ensures
        c == *r,
{
    match r {
        Some(r) => Some(r.start..r.end),
        None => None,
    }
}

/// Copies a link.
pub fn copy_link(l: &Link) -> (c: Link)
    ensures
        c@ == l@,
{
    let mut c: Vec<usize> = Vec::new();
    let mut i: usize = 0;
    while i < l.len()
        invariant
            i <= l.len(),
            c@ == l@.subrange(0, i as int),
        decreases l.len() - i,
    {
        c.push(l[i]);
        i = i + 1;
        assert(c@ =~= l@.subrange(0, i as int));
    }
    assert(c@ =~= l@);
    c
}

impl<V, S, P> Node<V, S, P> {
    /// A visitor count fits in a `usize`.
    pub(crate) proof fn lemma_visitors_bound(&self)
        ensures
            self@.visitors <= usize::MAX,
    {
    }

    proof fn lemma_view_children(&self)
        ensures
            self@.children.len() == self.children@.len(),
            forall|i: int|
                0 <= i < self.children@.len() ==> #[trigger] self@.children[i]
                    == self.children@[i]@,
    {
    }

    /// Returns a reference to the node's value.
    pub fn value(&self) -> (v: &V)
        ensures
            *v == self@.value,
    {
        &self.value
    }

    /// Returns the link to the parent that the node was built with.
    pub fn parent(&self) -> (l: &Option<Link>)
        ensures
            link_view(*l) == self@.parent,
    {
        &self.parent
    }

    /// Returns the number of cursors visiting the node.
    pub fn visitors(&self) -> (n: usize)
        ensures
            n == self@.visitors,
    {
        self.visitors
    }

    /// Returns the number of currently populated children.
    pub fn children_count(&self) -> (n: usize)
        ensures
            n == self@.children.len(),
    {
        proof {
            self.lemma_view_children();
        }
        self.children.len()
    }

    /// Returns the values of all currently populated children, in order.
    pub fn children(&self) -> (vs: Vec<&V>)
        ensures
            vs@.len() == self@.children.len(),
            forall|i: int| 0 <= i < vs@.len() ==> *vs@[i] == self@.children[i].value,
    {
        proof {
            self.lemma_view_children();
        }
        let mut vs: Vec<&V> = Vec::new();
        let mut i: usize = 0;
        while i < self.children.len()
            invariant
                i <= self.children@.len(),
                vs@.len() == i,
                forall|k: int| 0 <= k < i ==> *vs@[k] == self.children@[k]@.value,
            decreases self.children@.len() - i,
        {
            vs.push(&self.children[i].value);
            i = i + 1;
        }
        vs
    }

    /// Releases all children of the node.
    fn kill_children(&mut self)
        ensures
            final(self)@.same_data(old(self)@),
            final(self)@.visitors == old(self)@.visitors,
            final(self)@.children.len() == 0,
    {
        self.children = Vec::new();
    }

    /// # Takes the result of a population callback
    ///
    /// On `Ok`, the given nodes become the node's children, in order, each
    /// made fresh (not visited, without children) and otherwise unchanged;
    /// the result is `Ok`. On `Err`, the node is unchanged and the error is
    /// returned.
    pub fn adopt_children<E>(&mut self, result: Result<Vec<Node<V, S, P>>, E>) -> (r: Result<(), E>)
        ensures
            match result {
                Ok(children) => {
                    &&& r is Ok
                    &&& final(self)@.same_data(old(self)@)
                    &&& final(self)@.visitors == old(self)@.visitors
                    &&& final(self)@.holds_fresh(children@)
                },
                Err(e) => r == Err::<(), E>(e) && final(self)@ == old(self)@,
            },
    {
        match result {
            Ok(mut children) => {
                let ghost given = children@;
                let mut i: usize = 0;
                while i < children.len()
                    invariant
                        i <= children@.len(),
                        children@.len() == given.len(),
                        forall|k: int| 0 <= k < i ==> (#[trigger] children@[k])@.is_fresh(),
                        forall|k: int|
                            0 <= k < children@.len() ==> (#[trigger] children@[k])@.same_data(
                                given[k]@,
                            ),
                        forall|k: int| i <= k < children@.len() ==> children@[k] == given[k],
                    decreases children@.len() - i,
                {
                    children[i].refresh();
                    i = i + 1;
                }
                self.children = children;
                proof {
                    self.lemma_view_children();
                }
                Ok(())
            },
            Err(e) => Err(e),
        }
    }

    /// # Unregisters a cursor as a visitor of this node
    ///
    /// Decrements the visitor count and releases the children when the count
    /// reaches zero.
    pub(crate) fn leave(&mut self)
        requires
            old(self)@.visitors >= 1,
        ensures
            old(self)@.left(final(self)@),
    {
        if self.visitors == 1 {
            self.kill_children();
        }
        let ghost mid = self@;
        proof {
            self.lemma_view_children();
        }
        self.visitors = self.visitors - 1;
        proof {
            self.lemma_view_children();
            assert(self@.children =~= mid.children);
        }
    }

    /// Makes a node fresh: not visited and without children.
    pub(crate) fn refresh(&mut self)
        ensures
            final(self)@.same_data(old(self)@),
            final(self)@.is_fresh(),
    {
        self.visitors = 0;
        self.children = Vec::new();
    }
}

impl<V, S, P: Populate<V, S>> Node<V, S, P> {
    /// Populates the node's children using its callback.
    ///
    /// On success the node's children are the nodes the callback returned,
    /// each made fresh; on error nothing changes.
    fn make_children(&mut self, link_to_itself: Link) -> (r: Result<(), P::Error>)
        ensures
            exists|res: Result<Vec<Node<V, S, P>>, P::Error>|
                #[trigger] gives(old(self)@, link_to_itself@, res) && match res {
                    Ok(nodes) => {
                        &&& r is Ok
                        &&& final(self)@.same_data(old(self)@)
                        &&& final(self)@.visitors == old(self)@.visitors
                        &&& final(self)@.holds_fresh(nodes@)
                    },
                    Err(e) => r == Err::<(), P::Error>(e) && final(self)@ == old(self)@,
                },
    {
        let ghost link = link_to_itself@;
        let range = copy_range(&self.range);
        let result = self.populate.populate(&self.source, range, link_to_itself);
        let ghost res = result;
        let r = self.adopt_children(result);
        proof {
            assert(gives(old(self)@, link, res));
        }
        r
    }

    /// # Registers a cursor as a visitor of this node
    ///
    /// Increments the visitor count; when the node was not visited, first
    /// populates its children through its callback.
    ///
    /// If the callback returns an error, the count is not incremented and the
    /// node is unchanged: its children are populated on the next successful
    /// visit.
    pub(crate) fn visit(&mut self, link_to_itself: Link) -> (r: Result<(), P::Error>)
        requires
            old(self)@.visitors < usize::MAX,
        ensures
            r is Ok ==> old(self)@.visited(final(self)@),
            r is Err ==> final(self)@ == old(self)@ && old(self)@.visitors == 0,
            old(self)@.visitors == 0 ==> first_visit(
                old(self)@,
                final(self)@,
                link_to_itself@,
                err_of(r),
            ),
    {
        if self.visitors == 0 {
            match self.make_children(link_to_itself) {
                Ok(()) => {},
                Err(e) => {
                    return Err(e);
                },
            }
        }
        let ghost mid = self@;
        proof {
            self.lemma_view_children();
        }
        self.visitors = self.visitors + 1;
        proof {
            self.lemma_view_children();
            assert(self@.children =~= mid.children);
        }
        Ok(())
    }
}

impl<V, S, P> Node<V, S, P> {
    /// The node at relative path `path[k..end]` below this one.
    pub(crate) fn node_at(&self, path: &Vec<usize>, k: usize, end: usize) -> (n: &Node<V, S, P>)
        requires
            k <= end <= path@.len(),
            self@.sub(path@.subrange(k as int, end as int)) is Some,
        ensures
            self@.sub(path@.subrange(k as int, end as int)) == Some(n@),
        decreases end - k,
    {
        proof {
            self.lemma_view_children();
        }
        if k == end {
            self
        } else {
            proof {
                assert(path@.subrange(k as int, end as int).drop_first() =~= path@.subrange(
                    k + 1,
                    end as int,
                ));
            }
            let i = path[k];
            self.children[i].node_at(path, k + 1, end)
        }
    }

    /// Ends one visit of the node at relative path `path[k..]`.
    pub(crate) fn leave_at(&mut self, path: &Vec<usize>, k: usize)
        requires
            k <= path@.len(),
            old(self)@.sub(path@.skip(k as int)) is Some,
            old(self)@.sub(path@.skip(k as int)).unwrap().visitors >= 1,
        ensures
            final(self)@.sub(path@.skip(k as int)) is Some,
            old(self)@.sub(path@.skip(k as int)).unwrap().left(
                final(self)@.sub(path@.skip(k as int)).unwrap(),
            ),
            final(self)@ == old(self)@.put(
                path@.skip(k as int),
                final(self)@.sub(path@.skip(k as int)).unwrap(),
            ),
        decreases path@.len() - k,
    {
        proof {
            self.lemma_view_children();
        }
        if k == path.len() {
            self.leave();
            proof {
                assert(path@.skip(k as int).len() == 0);
            }
        } else {
            proof {
                assert(path@.skip(k as int).drop_first() =~= path@.skip(k + 1));
            }
            let ghost old_self = self@;
            let i = path[k];
            let c = &mut self.children[i];
            c.leave_at(path, k + 1);
            proof {
                self.lemma_view_children();
                assert(self@.children =~= old_self.children.update(i as int, self.children@[i as int]@));
            }
        }
    }
}

impl<V, S, P: Populate<V, S>> Node<V, S, P> {
    /// Visits the node at relative path `path[k..]` below this one; the
    /// callback receives `path` as the node's link.
    pub(crate) fn visit_at(&mut self, path: &Vec<usize>, k: usize) -> (r: Result<(), P::Error>)
        requires
            k <= path@.len(),
            old(self)@.sub(path@.skip(k as int)) is Some,
            old(self)@.sub(path@.skip(k as int)).unwrap().visitors < usize::MAX,
        ensures
            r is Ok ==> {
                &&& final(self)@.sub(path@.skip(k as int)) is Some
                &&& old(self)@.sub(path@.skip(k as int)).unwrap().visited(
                    final(self)@.sub(path@.skip(k as int)).unwrap(),
                )
                &&& final(self)@ == old(self)@.put(
                    path@.skip(k as int),
                    final(self)@.sub(path@.skip(k as int)).unwrap(),
                )
            },
            r is Err ==> final(self)@ == old(self)@ && old(self)@.sub(
                path@.skip(k as int),
            ).unwrap().visitors == 0,
            old(self)@.sub(path@.skip(k as int)).unwrap().visitors == 0 ==> first_visit(
                old(self)@.sub(path@.skip(k as int)).unwrap(),
                final(self)@.sub(path@.skip(k as int)).unwrap(),
                path@,
                err_of(r),
            ),
        decreases path@.len() - k,
    {
        proof {
            self.lemma_view_children();
        }
        if k == path.len() {
            let link = copy_link(path);
            let r = self.visit(link);
            proof {
                assert(path@.skip(k as int).len() == 0);
            }
            r
        } else {
            proof {
                assert(path@.skip(k as int).drop_first() =~= path@.skip(k + 1));
            }
            let ghost old_self = self@;
            let i = path[k];
            let c = &mut self.children[i];
            let r = c.visit_at(path, k + 1);
            proof {
                self.lemma_view_children();
                assert(self@.children =~= old_self.children.update(i as int, self.children@[i as int]@));
                if r is Err {
                    assert(self@.children =~= old_self.children);
                }
            }
            r
        }
    }
}

/// # Builder of a [`Node`]
///
/// Required data: the node's `value`, the `source` collection handed to its
/// callback, and the callback `populate` itself. Optional data: the link to
/// the `parent`, which the node records, and the `range` metadata handed to
/// the callback. Both are `None` by default.
///
/// A populated child always stands below the node it was populated for, but
/// a cursor moves up from a node only if the node was built with a parent
/// link: the callback passes it the link it was handed, as in
/// `with_parent(Some(parent))`. A node built without one is a floor for
/// upward movement: moving up or sideways from it fails, and `go_to` and
/// `release` ask for every node they climb through to have one.
#[derive(Clone)]
pub struct Builder<V, S, P> {
    parent: Option<Link>,
    range: Option<Range<usize>>,
    value: V,
    source: S,
    populate: P,
}

impl<V, S, P> Builder<V, S, P> {
    /// # Creates a new builder
    ///
    /// Fields `parent` and `range` are set to `None`.
    pub fn new(value: V, source: S, populate: P) -> (b: Self)
        ensures
            b.spec_parent() is None,
            b.spec_range() is None,
            b.spec_value() == value,
            b.spec_source() == source,
            b.spec_populate() == populate,
    {
        Builder { parent: None, range: None, value, source, populate }
    }

    pub closed spec fn spec_parent(&self) -> Option<Seq<usize>> {
        link_view(self.parent)
    }

    pub closed spec fn spec_range(&self) -> Option<Range<usize>> {
        self.range
    }

    pub closed spec fn spec_value(&self) -> V {
        self.value
    }

    pub closed spec fn spec_source(&self) -> S {
        self.source
    }

    pub closed spec fn spec_populate(&self) -> P {
        self.populate
    }

    /// Returns the parent link.
    pub fn parent(&self) -> (r: &Option<Link>)
        ensures
            link_view(*r) == self.spec_parent(),
    {
        &self.parent
    }

    /// Returns the range.
    pub fn range(&self) -> (r: &Option<Range<usize>>)
        ensures
            *r == self.spec_range(),
    {
        &self.range
    }

    /// Returns the value.
    pub fn value(&self) -> (r: &V)
        ensures
            *r == self.spec_value(),
    {
        &self.value
    }

    /// Returns the source.
    pub fn source(&self) -> (r: &S)
        ensures
            *r == self.spec_source(),
    {
        &self.source
    }

    /// Returns the callback.
    pub fn populate(&self) -> (r: &P)
        ensures
            *r == self.spec_populate(),
    {
        &self.populate
    }

    /// Returns a mutable reference to the parent link.
    pub fn parent_mut(&mut self) -> (r: &mut Option<Link>)
        ensures
            link_view(*r) == old(self).spec_parent(),
            final(self).spec_parent() == link_view(*final(r)),
            final(self).spec_range() == old(self).spec_range(),
            final(self).spec_value() == old(self).spec_value(),
            final(self).spec_source() == old(self).spec_source(),
            final(self).spec_populate() == old(self).spec_populate(),
    {
        &mut self.parent
    }

    /// Returns a mutable reference to the range.
    pub fn range_mut(&mut self) -> (r: &mut Option<Range<usize>>)
        ensures
            *r == old(self).spec_range(),
            final(self).spec_range() == *final(r),
            final(self).spec_parent() == old(self).spec_parent(),
            final(self).spec_value() == old(self).spec_value(),
            final(self).spec_source() == old(self).spec_source(),
            final(self).spec_populate() == old(self).spec_populate(),
    {
        &mut self.range
    }

    /// Returns a mutable reference to the value.
    pub fn value_mut(&mut self) -> (r: &mut V)
        ensures
            *r == old(self).spec_value(),
            final(self).spec_value() == *final(r),
            final(self).spec_parent() == old(self).spec_parent(),
            final(self).spec_range() == old(self).spec_range(),
            final(self).spec_source() == old(self).spec_source(),
            final(self).spec_populate() == old(self).spec_populate(),
    {
        &mut self.value
    }

    /// Returns a mutable reference to the source.
    pub fn source_mut(&mut self) -> (r: &mut S)
        ensures
            *r == old(self).spec_source(),
            final(self).spec_source() == *final(r),
            final(self).spec_parent() == old(self).spec_parent(),
            final(self).spec_range() == old(self).spec_range(),
            final(self).spec_value() == old(self).spec_value(),
            final(self).spec_populate() == old(self).spec_populate(),
    {
        &mut self.source
    }

    /// Returns a mutable reference to the callback.
    pub fn populate_mut(&mut self) -> (r: &mut P)
        ensures
            *r == old(self).spec_populate(),
            final(self).spec_populate() == *final(r),
            final(self).spec_parent() == old(self).spec_parent(),
            final(self).spec_range() == old(self).spec_range(),
            final(self).spec_value() == old(self).spec_value(),
            final(self).spec_source() == old(self).spec_source(),
    {
        &mut self.populate
    }

    /// Returns the builder with the parent link set to `value`.
    pub fn with_parent(self, value: Option<Link>) -> (b: Self)
        ensures
            b.spec_parent() == link_view(value),
            b.spec_range() == self.spec_range(),
            b.spec_value() == self.spec_value(),
            b.spec_source() == self.spec_source(),
            b.spec_populate() == self.spec_populate(),
    {
        let mut b = self;
        b.parent = value;
        b
    }

    /// Returns the builder with the range set to `value`.
    pub fn with_range(self, value: Option<Range<usize>>) -> (b: Self)
        ensures
            b.spec_range() == value,
            b.spec_parent() == self.spec_parent(),
            b.spec_value() == self.spec_value(),
            b.spec_source() == self.spec_source(),
            b.spec_populate() == self.spec_populate(),
    {
        let mut b = self;
        b.range = value;
        b
    }

    /// Sets the parent link to `value`, and returns the builder for further
    /// calls.
    pub fn set_parent(&mut self, value: Option<Link>) -> (b: &mut Self)
        ensures
            b.spec_parent() == link_view(value),
            b.spec_range() == old(self).spec_range(),
            b.spec_value() == old(self).spec_value(),
            b.spec_source() == old(self).spec_source(),
            b.spec_populate() == old(self).spec_populate(),
            *final(self) == *final(b),
    {
        self.parent = value;
        self
    }

    /// Sets the range to `value`, and returns the builder for further calls.
    pub fn set_range(&mut self, value: Option<Range<usize>>) -> (b: &mut Self)
        ensures
            b.spec_range() == value,
            b.spec_parent() == old(self).spec_parent(),
            b.spec_value() == old(self).spec_value(),
            b.spec_source() == old(self).spec_source(),
            b.spec_populate() == old(self).spec_populate(),
            *final(self) == *final(b),
    {
        self.range = value;
        self
    }

    /// Builds the node, consuming the builder. The node is not visited and
    /// has no children.
    pub fn build(self) -> (n: Node<V, S, P>)
        ensures
            n@.is_fresh(),
            n@.parent == self.spec_parent(),
            n@.range == self.spec_range(),
            n@.value == self.spec_value(),
            n@.source == self.spec_source(),
            n@.populate == self.spec_populate(),
    {
        Node {
            children: Vec::new(),
            visitors: 0,
            parent: self.parent,
            value: self.value,
            source: self.source,
            range: self.range,
            populate: self.populate,
        }
    }
}

} // verus!
