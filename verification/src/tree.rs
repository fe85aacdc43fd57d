//! The tree: the owner of the root node and of the record of which cursor
//! visits which node.
use vstd::prelude::*;

use crate::node::{Node, NodeView, Populate, err_of, first_visit, prefix};
use crate::visits::{
    consistent,
    count,
    lemma_add_holder,
    lemma_count_lt,
    lemma_count_pos,
    lemma_leave_step,
    lemma_remove_empty_holder,
    lemma_visit_step,
};

verus! {

/// # A tree of lazily populated nodes
///
/// The tree owns the root node, and through it every populated node. Besides,
/// it records, for every cursor it created, which nodes that cursor visits.
pub struct Tree<V, S, P> {
    root: Node<V, S, P>,
    visits: Ghost<Seq<Set<Seq<usize>>>>,
}

impl<V, S, P> Tree<V, S, P> {
    /// The model of the root node, and through it of the whole tree.
    pub closed spec fn root_view(&self) -> NodeView<V, S, P> {
        self.root@
    }

    /// One entry per cursor created: the relative paths (below the root) of
    /// the nodes that cursor visits.
    pub closed spec fn visits(&self) -> Seq<Set<Seq<usize>>> {
        self.visits@
    }

    /// The tree and its record of visits agree: every node's visitor count
    /// is the number of cursors visiting it, nodes nobody visits have no
    /// children, and every visited path exists.
    pub open spec fn wf(&self) -> bool {
        consistent(self.root_view(), self.visits())
    }

    /// The node at the absolute path `path` (`[0]` is the root).
    pub open spec fn node_at(&self, path: Seq<usize>) -> Option<NodeView<V, S, P>> {
        if path.len() >= 1 && path[0] == 0 {
            self.root_view().sub(path.drop_first())
        } else {
            None
        }
    }

    /// Creates a tree whose root is `root`.
    ///
    /// The root starts out not visited and without children, as a built node
    /// is; its children are populated when the first cursor is created.
    pub fn new(root: Node<V, S, P>) -> (t: Self)
        ensures
            t.wf(),
            t.visits() == Seq::<Set<Seq<usize>>>::empty(),
            t.root_view().is_fresh(),
            t.root_view().same_data(root@),
    {
        let mut root = root;
        root.refresh();
        let t = Tree { root, visits: Ghost(Seq::empty()) };
        proof {
            assert forall|p: Seq<usize>| #[trigger] t.root_view().sub(p) is Some implies {
                &&& t.root_view().sub(p).unwrap().visitors == count(t.visits(), p)
                &&& t.root_view().sub(p).unwrap().visitors == 0
                    ==> t.root_view().sub(p).unwrap().children.len() == 0
            } by {
                if p.len() > 0 {
                    assert(t.root_view().children.len() == 0);
                }
            }
        }
        t
    }

    /// Returns the root node.
    pub fn root(&self) -> (n: &Node<V, S, P>)
        ensures
            n@ == self.root_view(),
    {
        &self.root
    }

    /// Returns the number of cursors visiting the root, which is the number
    /// of live cursors of the tree.
    pub fn cursor_count(&self) -> (n: usize)
        requires
            self.wf(),
        ensures
            n == self.root_view().visitors,
            n == count(self.visits(), Seq::empty()),
    {
        proof {
            assert(self.root_view().sub(Seq::empty()) is Some);
        }
        self.root.visitors()
    }

    /// The node at `path[..end]`.
    pub(crate) fn node(&self, path: &Vec<usize>, end: usize) -> (n: &Node<V, S, P>)
        requires
            1 <= end <= path@.len(),
            path@[0] == 0,
            self.root_view().sub(path@.subrange(1, end as int)) is Some,
        ensures
            self.node_at(path@.subrange(0, end as int)) == Some(n@),
    {
        proof {
            assert(path@.subrange(0, end as int).drop_first() =~= path@.subrange(1, end as int));
        }
        self.root.node_at(path, 1, end)
    }

    /// Opens a new, empty entry in the record of visits.
    pub(crate) fn add_entry(&mut self) -> (c: Ghost<int>)
        requires
            old(self).wf(),
        ensures
            final(self).wf(),
            final(self).root_view() == old(self).root_view(),
            final(self).visits() == old(self).visits().push(Set::empty()),
            c@ == old(self).visits().len(),
    {
        proof {
            lemma_add_holder(self.root@, self.visits@);
        }
        let c = Ghost(self.visits@.len() as int);
        self.visits = Ghost(self.visits@.push(Set::empty()));
        c
    }

    /// Drops the last entry of the record of visits, which is empty.
    pub(crate) fn remove_last_entry(&mut self)
        requires
            old(self).wf(),
            old(self).visits().len() > 0,
            old(self).visits().last() == Set::<Seq<usize>>::empty(),
        ensures
            final(self).wf(),
            final(self).root_view() == old(self).root_view(),
            final(self).visits() == old(self).visits().drop_last(),
    {
        proof {
            lemma_remove_empty_holder(self.root@, self.visits@);
        }
        self.visits = Ghost(self.visits@.drop_last());
    }

    /// Ends the visit of entry `c` to the node at `path`; `c` visits nothing
    /// below that node.
    pub(crate) fn leave_node(&mut self, path: &Vec<usize>, c: Ghost<int>)
        requires
            old(self).wf(),
            0 <= c@ < old(self).visits().len(),
            path@.len() >= 1,
            path@[0] == 0,
            old(self).visits()[c@].contains(path@.drop_first()),
            forall|z: Seq<usize>|
                #[trigger] old(self).visits()[c@].contains(z) && prefix(path@.drop_first(), z) ==> z
                    == path@.drop_first(),
        ensures
            final(self).wf(),
            final(self).visits() == old(self).visits().update(
                c@,
                old(self).visits()[c@].remove(path@.drop_first()),
            ),
            final(self).root_view().sub(path@.drop_first()) is Some,
            old(self).root_view().sub(path@.drop_first()) is Some,
            old(self).root_view().sub(path@.drop_first()).unwrap().left(
                final(self).root_view().sub(path@.drop_first()).unwrap(),
            ),
            final(self).root_view() == old(self).root_view().put(
                path@.drop_first(),
                final(self).root_view().sub(path@.drop_first()).unwrap(),
            ),
    {
        let ghost rel = path@.drop_first();
        let ghost t0 = self.root@;
        let ghost h0 = self.visits@;
        proof {
            assert(path@.skip(1) =~= rel);
            assert(t0.sub(rel) is Some);
            lemma_count_pos(h0, c@, rel);
        }
        self.root.leave_at(path, 1);
        proof {
            lemma_leave_step(t0, h0, c@, rel, self.root@.sub(rel).unwrap());
        }
        self.visits = Ghost(h0.update(c@, h0[c@].remove(rel)));
    }
}

impl<V, S, P: Populate<V, S>> Tree<V, S, P> {
    /// Visits the node at `path` on behalf of entry `c`, which visits the
    /// parent of that node but not the node itself.
    pub(crate) fn visit_node(&mut self, path: &Vec<usize>, c: Ghost<int>) -> (r: Result<(), P::Error>)
        requires
            old(self).wf(),
            0 <= c@ < old(self).visits().len(),
            path@.len() >= 1,
            path@[0] == 0,
            old(self).root_view().sub(path@.drop_first()) is Some,
            !old(self).visits()[c@].contains(path@.drop_first()),
            path@.len() > 1 ==> old(self).visits()[c@].contains(path@.drop_first().drop_last()),
            path@.len() == 1 ==> old(self).root_view().visitors < usize::MAX,
        ensures
            r is Ok ==> {
                &&& final(self).wf()
                &&& final(self).visits() == old(self).visits().update(
                    c@,
                    old(self).visits()[c@].insert(path@.drop_first()),
                )
                &&& final(self).root_view().sub(path@.drop_first()) is Some
                &&& old(self).root_view().sub(path@.drop_first()).unwrap().visited(
                    final(self).root_view().sub(path@.drop_first()).unwrap(),
                )
                &&& final(self).root_view() == old(self).root_view().put(
                    path@.drop_first(),
                    final(self).root_view().sub(path@.drop_first()).unwrap(),
                )
            },
            r is Err ==> {
                &&& final(self).root_view() == old(self).root_view()
                &&& final(self).visits() == old(self).visits()
                &&& old(self).root_view().sub(path@.drop_first()).unwrap().visitors == 0
            },
            old(self).node_at(path@).unwrap().visitors == 0 ==> first_visit(
                old(self).node_at(path@).unwrap(),
                final(self).node_at(path@).unwrap(),
                path@,
                err_of(r),
            ),
    {
        let ghost rel = path@.drop_first();
        let ghost t0 = self.root@;
        let ghost h0 = self.visits@;
        proof {
            assert(path@.skip(1) =~= rel);
            if rel.len() > 0 {
                let e = Seq::<usize>::empty();
                assert(prefix(e, rel.drop_last()));
                assert(h0[c@].contains(e));
                assert forall|d: int| 0 <= d < h0.len() && #[trigger] h0[d].contains(rel) implies h0[d].contains(
                    e,
                ) by {
                    assert(prefix(e, rel));
                }
                lemma_count_lt(h0, e, rel, c@);
                assert(t0.sub(e) is Some);
                assert(t0.sub(rel) is Some);
                self.root.lemma_visitors_bound();
            }
        }
        let r = self.root.visit_at(path, 1);
        if r.is_ok() {
            proof {
                lemma_visit_step(t0, h0, c@, rel, self.root@.sub(rel).unwrap());
            }
            self.visits = Ghost(h0.update(c@, h0[c@].insert(rel)));
        }
        r
    }
}

} // verus!
