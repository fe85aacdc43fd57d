# lazy_tree

A tree of lazily populated nodes with cursor-based traversal, verified with
Verus.

A node's children are created by its callback (`Populate`) when a cursor
visits the node while no other cursor does, and released when the last
cursor leaves it. Cursors move one edge at a time (`walk`), search across
branches (`jump`), or go to an absolute path (`go_to`).

Upward traversal needs parent links: a callback builds each child with the
link it was handed (`with_parent(Some(parent))`). From a node built without
one, a cursor cannot move up or to a sibling; `go_to` and `release`, which
climb, require every node they climb through to carry one.

Layout of `src/`:

- `node.rs`: nodes, their model (`NodeView`), the builder and the callback
  trait;
- `visits.rs`: the ghost record of which cursor visits which node, and the
  lemmas showing that visiting and leaving keep it consistent with the tree;
- `tree.rs`: the tree, its well-formedness, and the visit/leave steps;
- `cursor.rs`: cursors and their movements, with contracts over the model;
- `laws.rs`: properties of the library as a whole.

Operations on a cursor take the tree by mutable reference: visitor counts
and populated children live in the tree, and the tree's ghost record ties
every cursor to the nodes it keeps populated.
