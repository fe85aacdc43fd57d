//! Traversal scenarios over binary trees described by flat source arrays.
use std::ops::Range;

use lazy_tree::cursor::{Cursor, Direction, Target};
use lazy_tree::node::{Builder, Link, Node, Populate};
use lazy_tree::tree::Tree;

type MyValue = &'static str;
type MySource = &'static [Option<&'static str>];

#[derive(Debug, Clone, PartialEq, Eq)]
enum MyError {
    SourceIsEmpty,
}

/// Creates a node's children from two consecutive elements of the source,
/// starting at the index given by the node's range.
#[derive(Debug, Clone, Copy, PartialEq, Eq)]
struct Binary;

impl Populate<MyValue, MySource> for Binary {
    type Error = MyError;

    fn populate(
        &self,
        source: &MySource,
        range: Option<Range<usize>>,
        parent: Link,
    ) -> Result<Vec<Node<MyValue, MySource, Binary>>, MyError> {
        let range = if let Some(range) = range {
            range
        } else {
            return Ok(Vec::new());
        };

        let source: MySource = *source;

        if source.is_empty() {
            return Err(MyError::SourceIsEmpty);
        }

        let left_child = source.get(range.start).cloned();
        let right_child = source.get(range.start + 1).cloned();

        let mut children = vec![];

        if let Some(Some(value)) = left_child {
            children.push(
                Builder::new(value, source, Binary)
                    .with_parent(Some(parent.clone()))
                    .with_range({
                        let start = range.start * 2 + 2;
                        if source.len() < start {
                            None
                        } else {
                            Some(start..source.len())
                        }
                    })
                    .build(),
            );
        }

        if let Some(Some(value)) = right_child {
            children.push(
                Builder::new(value, source, Binary)
                    .with_parent(Some(parent.clone()))
                    .with_range({
                        let start = (range.start + 1) * 2 + 2;
                        if source.len() < start {
                            None
                        } else {
                            Some(start..source.len())
                        }
                    })
                    .build(),
            );
        }

        Ok(children)
    }
}

type MyTree = Tree<MyValue, MySource, Binary>;

fn binary_tree(source: MySource) -> MyTree {
    Tree::new(
        Builder::new("ROOT", source, Binary)
            .with_range(Some(0..source.len()))
            .build(),
    )
}

fn children_of(tree: &MyTree, cursor: &Cursor) -> Vec<&'static str> {
    cursor.node(tree).children().into_iter().map(|v| *v).collect()
}

/// ```plain
///      ROOT
///   ┌───┴───┐
///   L       R
/// ┌─┴─┐   ┌─┴─┐
/// LL  LR  RL  RR
///     │   │
///    LRL RLL
/// ```
const BINARY_0: &[Option<&str>] = &[
    /* [0, 0]       */ Some("L"),
    /* [0, 1]       */ Some("R"),
    /* [0, 0, 0]    */ Some("LL"),
    /* [0, 0, 1]    */ Some("LR"),
    /* [0, 1, 0]    */ Some("RL"),
    /* [0, 1, 1]    */ Some("RR"),
    /* [0, 0, 0, 0] */ None, // LLL
    /* [0, 0, 0, 1] */ None, // LLR
    /* [0, 0, 1, 0] */ Some("LRL"),
    /* [0, 0, 1, 1] */ None, // LRR
    /* [0, 1, 0, 0] */ Some("RLL"),
    /* [0, 1, 0, 1] */ None, // RLR
    /* [0, 1, 1, 0] */ None, // RRL
    /* [0, 1, 1, 1] */ None, // RRR
];

/// ```plain
///  ROOT
///   │
///   L
/// ┌─┴─┐
/// LL  LR
///     │
///    LRL
/// ```
const BINARY_1: &[Option<&str>] = &[
    /* [0, 0]       */ Some("L"),
    /* [0, 1]       */ None, // R
    /* [0, 0, 0]    */ Some("LL"),
    /* [0, 0, 1]    */ Some("LR"),
    /* [0, 1, 0]    */ None, // RL
    /* [0, 1, 1]    */ None, // RR
    /* [0, 0, 0, 0] */ None, // LLL
    /* [0, 0, 0, 1] */ None, // LLR
    /* [0, 0, 1, 0] */ Some("LRL"),
    /* [0, 0, 1, 1] */ None, // LRR
    /* [0, 1, 0, 0] */ None, // RLL
    /* [0, 1, 0, 1] */ None, // RLR
    /* [0, 1, 1, 0] */ None, // RRL
    /* [0, 1, 1, 1] */ None, // RRR
];

/// ```plain
///   ROOT
///    │
///    L
///  ┌─┴─┐
///  LL  LR
///  │
/// LLL
/// ```
const BINARY_2: &[Option<&str>] = &[
    /* [0, 0]       */ Some("L"),
    /* [0, 1]       */ None, // R
    /* [0, 0, 0]    */ Some("LL"),
    /* [0, 0, 1]    */ Some("LR"),
    /* [0, 1, 0]    */ None, // RL
    /* [0, 1, 1]    */ None, // RR
    /* [0, 0, 0, 0] */ Some("LLL"),
    /* [0, 0, 0, 1] */ None, // LLR
    /* [0, 0, 1, 0] */ None, // LRL
    /* [0, 0, 1, 1] */ None, // LRR
    /* [0, 1, 0, 0] */ None, // RLL
    /* [0, 1, 0, 1] */ None, // RLR
    /* [0, 1, 1, 0] */ None, // RRL
    /* [0, 1, 1, 1] */ None, // RRR
];

/// ```plain
///   ROOT
///    │
///    L
///  ┌─┴─┐
///  LL  LR
///  │   │
/// LLL LRL
///  │
/// LLLL
/// ```
const BINARY_3: &[Option<&str>] = &[
    /* [0, 0]          */ Some("L"),
    /* [0, 1]          */ None, // R
    /* [0, 0, 0]       */ Some("LL"),
    /* [0, 0, 1]       */ Some("LR"),
    /* [0, 1, 0]       */ None, // RL
    /* [0, 1, 1]       */ None, // RR
    /* [0, 0, 0, 0]    */ Some("LLL"),
    /* [0, 0, 0, 1]    */ None, // LLR
    /* [0, 0, 1, 0]    */ Some("LRL"),
    /* [0, 0, 1, 1]    */ None, // LRR
    /* [0, 1, 0, 0]    */ None, // RLL
    /* [0, 1, 0, 1]    */ None, // RLR
    /* [0, 1, 1, 0]    */ None, // RRL
    /* [0, 1, 1, 1]    */ None, // RRR
    /* [0, 0, 0, 0, 0] */ Some("LLLL"),
    /* [0, 0, 0, 0, 1] */ None, // LLLR
];

/// ```plain
///   ROOT
///    │
///    L
///  ┌─┴─┐
///  LL  LR
///  │   │
/// LLL LRL
///      │
///     LRLL
/// ```
const BINARY_4: &[Option<&str>] = &[
    /* [0, 0]          */ Some("L"),
    /* [0, 1]          */ None, // R
    /* [0, 0, 0]       */ Some("LL"),
    /* [0, 0, 1]       */ Some("LR"),
    /* [0, 1, 0]       */ None, // RL
    /* [0, 1, 1]       */ None, // RR
    /* [0, 0, 0, 0]    */ Some("LLL"),
    /* [0, 0, 0, 1]    */ None, // LLR
    /* [0, 0, 1, 0]    */ Some("LRL"),
    /* [0, 0, 1, 1]    */ None, // LRR
    /* [0, 1, 0, 0]    */ None, // RLL
    /* [0, 1, 0, 1]    */ None, // RLR
    /* [0, 1, 1, 0]    */ None, // RRL
    /* [0, 1, 1, 1]    */ None, // RRR
    /* [0, 0, 0, 0, 0] */ None, // LLLL
    /* [0, 0, 0, 0, 1] */ None, // LLLR
    /* [0, 0, 0, 1, 0] */ None, // LLRL
    /* [0, 0, 0, 1, 1] */ None, // LLRR
    /* [0, 0, 1, 0, 0] */ Some("LRLL"),
    /* [0, 0, 1, 0, 1] */ None, // LRLR
];

/// ```plain
/// ROOT
///  │
///  L
///  │
///  LL
///  │
/// LLL
///  │
/// LLLL
/// ```
const LIST: &[Option<&str>] = &[
    /* [0, 0]          */ Some("L"),
    /* [0, 1]          */ None, // R
    /* [0, 0, 0]       */ Some("LL"),
    /* [0, 0, 1]       */ None, // LR
    /* [0, 1, 0]       */ None, // RL
    /* [0, 1, 1]       */ None, // RR
    /* [0, 0, 0, 0]    */ Some("LLL"),
    /* [0, 0, 0, 1]    */ None, // LLR
    /* [0, 0, 1, 0]    */ None, // LRL
    /* [0, 0, 1, 1]    */ None, // LRR
    /* [0, 1, 0, 0]    */ None, // RLL
    /* [0, 1, 0, 1]    */ None, // RLR
    /* [0, 1, 1, 0]    */ None, // RRL
    /* [0, 1, 1, 1]    */ None, // RRR
    /* [0, 0, 0, 0, 0] */ Some("LLLL"),
    /* [0, 0, 0, 0, 1] */ None, // LLLR
];

/// ```plain
/// ROOT
/// ```
const EMPTY: &[Option<&str>] = &[None, None];

/// ```plain
///               ROOT
///        ┌───────┴───────┐
///        L               R
///    ┌───┴───┐       ┌───┴───┐
///    LL      LR      RL      RR
///  ┌─┴─┐   ┌─┴─┐   ┌─┴─┐   ┌─┴─┐
/// LLL LLR LRL LRR RLL RLR RRL RRR
/// ```
const BINARY_FULL: &[Option<&str>] = &[
    /* [0, 0]       */ Some("L"),
    /* [0, 1]       */ Some("R"),
    /* [0, 0, 0]    */ Some("LL"),
    /* [0, 0, 1]    */ Some("LR"),
    /* [0, 1, 0]    */ Some("RL"),
    /* [0, 1, 1]    */ Some("RR"),
    /* [0, 0, 0, 0] */ Some("LLL"),
    /* [0, 0, 0, 1] */ Some("LLR"),
    /* [0, 0, 1, 0] */ Some("LRL"),
    /* [0, 0, 1, 1] */ Some("LRR"),
    /* [0, 1, 0, 0] */ Some("RLL"),
    /* [0, 1, 0, 1] */ Some("RLR"),
    /* [0, 1, 1, 0] */ Some("RRL"),
    /* [0, 1, 1, 1] */ Some("RRR"),
];

fn binary_0_assert_0(tree: &MyTree, cursor: &Cursor) {
    assert_eq!(cursor.path(), &[0]);
    assert_eq!(*cursor.node(tree).value(), "ROOT");
    assert_eq!(children_of(tree, cursor), vec!["L", "R"]);
}

fn binary_0_assert_0_0(tree: &MyTree, cursor: &Cursor) {
    assert_eq!(cursor.path(), &[0, 0]);
    assert_eq!(*cursor.node(tree).value(), "L");
    assert_eq!(children_of(tree, cursor), vec!["LL", "LR"]);
}

fn binary_0_assert_0_1(tree: &MyTree, cursor: &Cursor) {
    assert_eq!(cursor.path(), &[0, 1]);
    assert_eq!(*cursor.node(tree).value(), "R");
    assert_eq!(children_of(tree, cursor), vec!["RL", "RR"]);
}

fn binary_0_assert_0_0_0(tree: &MyTree, cursor: &Cursor) {
    assert_eq!(cursor.path(), &[0, 0, 0]);
    assert_eq!(*cursor.node(tree).value(), "LL");
    assert_eq!(children_of(tree, cursor), Vec::<&str>::new());
}

fn binary_0_assert_0_0_1(tree: &MyTree, cursor: &Cursor) {
    assert_eq!(cursor.path(), &[0, 0, 1]);
    assert_eq!(*cursor.node(tree).value(), "LR");
    assert_eq!(children_of(tree, cursor), vec!["LRL"]);
}

fn binary_0_assert_0_1_0(tree: &MyTree, cursor: &Cursor) {
    assert_eq!(cursor.path(), &[0, 1, 0]);
    assert_eq!(*cursor.node(tree).value(), "RL");
    assert_eq!(children_of(tree, cursor), vec!["RLL"]);
}

fn binary_0_assert_0_1_1(tree: &MyTree, cursor: &Cursor) {
    assert_eq!(cursor.path(), &[0, 1, 1]);
    assert_eq!(*cursor.node(tree).value(), "RR");
    assert_eq!(children_of(tree, cursor), Vec::<&str>::new());
}

fn binary_0_assert_0_0_1_0(tree: &MyTree, cursor: &Cursor) {
    assert_eq!(cursor.path(), &[0, 0, 1, 0]);
    assert_eq!(*cursor.node(tree).value(), "LRL");
    assert_eq!(children_of(tree, cursor), Vec::<&str>::new());
}

fn binary_0_assert_0_1_0_0(tree: &MyTree, cursor: &Cursor) {
    assert_eq!(cursor.path(), &[0, 1, 0, 0]);
    assert_eq!(*cursor.node(tree).value(), "RLL");
    assert_eq!(children_of(tree, cursor), Vec::<&str>::new());
}

fn binary_1_assert_0(tree: &MyTree, cursor: &Cursor) {
    assert_eq!(cursor.path(), &[0]);
    assert_eq!(*cursor.node(tree).value(), "ROOT");
    assert_eq!(children_of(tree, cursor), vec!["L"]);
}

fn binary_1_assert_0_0_0(tree: &MyTree, cursor: &Cursor) {
    assert_eq!(cursor.path(), &[0, 0, 0]);
    assert_eq!(*cursor.node(tree).value(), "LL");
    assert_eq!(children_of(tree, cursor), Vec::<&str>::new());
}

fn binary_1_assert_0_0_1(tree: &MyTree, cursor: &Cursor) {
    assert_eq!(cursor.path(), &[0, 0, 1]);
    assert_eq!(*cursor.node(tree).value(), "LR");
    assert_eq!(children_of(tree, cursor), vec!["LRL"]);
}

fn binary_1_assert_0_0_1_0(tree: &MyTree, cursor: &Cursor) {
    assert_eq!(cursor.path(), &[0, 0, 1, 0]);
    assert_eq!(*cursor.node(tree).value(), "LRL");
    assert_eq!(children_of(tree, cursor), Vec::<&str>::new());
}

fn binary_2_assert_0(tree: &MyTree, cursor: &Cursor) {
    assert_eq!(cursor.path(), &[0]);
    assert_eq!(*cursor.node(tree).value(), "ROOT");
    assert_eq!(children_of(tree, cursor), vec!["L"]);
}

fn binary_2_assert_0_0(tree: &MyTree, cursor: &Cursor) {
    assert_eq!(cursor.path(), &[0, 0]);
    assert_eq!(*cursor.node(tree).value(), "L");
    assert_eq!(children_of(tree, cursor), vec!["LL", "LR"]);
}

fn binary_2_assert_0_0_0(tree: &MyTree, cursor: &Cursor) {
    assert_eq!(cursor.path(), &[0, 0, 0]);
    assert_eq!(*cursor.node(tree).value(), "LL");
    assert_eq!(children_of(tree, cursor), vec!["LLL"]);
}

fn binary_2_assert_0_0_1(tree: &MyTree, cursor: &Cursor) {
    assert_eq!(cursor.path(), &[0, 0, 1]);
    assert_eq!(*cursor.node(tree).value(), "LR");
    assert_eq!(children_of(tree, cursor), Vec::<&str>::new());
}

fn binary_2_assert_0_0_0_0(tree: &MyTree, cursor: &Cursor) {
    assert_eq!(cursor.path(), &[0, 0, 0, 0]);
    assert_eq!(*cursor.node(tree).value(), "LLL");
    assert_eq!(children_of(tree, cursor), Vec::<&str>::new());
}

fn binary_3_assert_0(tree: &MyTree, cursor: &Cursor) {
    assert_eq!(cursor.path(), &[0]);
    assert_eq!(*cursor.node(tree).value(), "ROOT");
    assert_eq!(children_of(tree, cursor), vec!["L"]);
}

fn binary_3_assert_0_0(tree: &MyTree, cursor: &Cursor) {
    assert_eq!(cursor.path(), &[0, 0]);
    assert_eq!(*cursor.node(tree).value(), "L");
    assert_eq!(children_of(tree, cursor), vec!["LL", "LR"]);
}

fn binary_3_assert_0_0_0(tree: &MyTree, cursor: &Cursor) {
    assert_eq!(cursor.path(), &[0, 0, 0]);
    assert_eq!(*cursor.node(tree).value(), "LL");
    assert_eq!(children_of(tree, cursor), vec!["LLL"]);
}

fn binary_3_assert_0_0_1(tree: &MyTree, cursor: &Cursor) {
    assert_eq!(cursor.path(), &[0, 0, 1]);
    assert_eq!(*cursor.node(tree).value(), "LR");
    assert_eq!(children_of(tree, cursor), vec!["LRL"]);
}

fn binary_3_assert_0_0_0_0(tree: &MyTree, cursor: &Cursor) {
    assert_eq!(cursor.path(), &[0, 0, 0, 0]);
    assert_eq!(*cursor.node(tree).value(), "LLL");
    assert_eq!(children_of(tree, cursor), vec!["LLLL"]);
}

fn binary_3_assert_0_0_1_0(tree: &MyTree, cursor: &Cursor) {
    assert_eq!(cursor.path(), &[0, 0, 1, 0]);
    assert_eq!(*cursor.node(tree).value(), "LRL");
    assert_eq!(children_of(tree, cursor), Vec::<&str>::new());
}

fn binary_3_assert_0_0_0_0_0(tree: &MyTree, cursor: &Cursor) {
    assert_eq!(cursor.path(), &[0, 0, 0, 0, 0]);
    assert_eq!(*cursor.node(tree).value(), "LLLL");
    assert_eq!(children_of(tree, cursor), Vec::<&str>::new());
}

fn binary_4_assert_0(tree: &MyTree, cursor: &Cursor) {
    assert_eq!(cursor.path(), &[0]);
    assert_eq!(*cursor.node(tree).value(), "ROOT");
    assert_eq!(children_of(tree, cursor), vec!["L"]);
}

fn binary_4_assert_0_0(tree: &MyTree, cursor: &Cursor) {
    assert_eq!(cursor.path(), &[0, 0]);
    assert_eq!(*cursor.node(tree).value(), "L");
    assert_eq!(children_of(tree, cursor), vec!["LL", "LR"]);
}

fn binary_4_assert_0_0_0(tree: &MyTree, cursor: &Cursor) {
    assert_eq!(cursor.path(), &[0, 0, 0]);
    assert_eq!(*cursor.node(tree).value(), "LL");
    assert_eq!(children_of(tree, cursor), vec!["LLL"]);
}

fn binary_4_assert_0_0_1(tree: &MyTree, cursor: &Cursor) {
    assert_eq!(cursor.path(), &[0, 0, 1]);
    assert_eq!(*cursor.node(tree).value(), "LR");
    assert_eq!(children_of(tree, cursor), vec!["LRL"]);
}

fn binary_4_assert_0_0_0_0(tree: &MyTree, cursor: &Cursor) {
    assert_eq!(cursor.path(), &[0, 0, 0, 0]);
    assert_eq!(*cursor.node(tree).value(), "LLL");
    assert_eq!(children_of(tree, cursor), Vec::<&str>::new());
}

fn binary_4_assert_0_0_1_0(tree: &MyTree, cursor: &Cursor) {
    assert_eq!(cursor.path(), &[0, 0, 1, 0]);
    assert_eq!(*cursor.node(tree).value(), "LRL");
    assert_eq!(children_of(tree, cursor), vec!["LRLL"]);
}

fn binary_4_assert_0_0_1_0_0(tree: &MyTree, cursor: &Cursor) {
    assert_eq!(cursor.path(), &[0, 0, 1, 0, 0]);
    assert_eq!(*cursor.node(tree).value(), "LRLL");
    assert_eq!(children_of(tree, cursor), Vec::<&str>::new());
}

fn list_assert_0(tree: &MyTree, cursor: &Cursor) {
    assert_eq!(cursor.path(), &[0]);
    assert_eq!(*cursor.node(tree).value(), "ROOT");
    assert_eq!(children_of(tree, cursor), vec!["L"]);
}

fn list_assert_0_0(tree: &MyTree, cursor: &Cursor) {
    assert_eq!(cursor.path(), &[0, 0]);
    assert_eq!(*cursor.node(tree).value(), "L");
    assert_eq!(children_of(tree, cursor), vec!["LL"]);
}

fn list_assert_0_0_0(tree: &MyTree, cursor: &Cursor) {
    assert_eq!(cursor.path(), &[0, 0, 0]);
    assert_eq!(*cursor.node(tree).value(), "LL");
    assert_eq!(children_of(tree, cursor), vec!["LLL"]);
}

fn list_assert_0_0_0_0(tree: &MyTree, cursor: &Cursor) {
    assert_eq!(cursor.path(), &[0, 0, 0, 0]);
    assert_eq!(*cursor.node(tree).value(), "LLL");
    assert_eq!(children_of(tree, cursor), vec!["LLLL"]);
}

fn list_assert_0_0_0_0_0(tree: &MyTree, cursor: &Cursor) {
    assert_eq!(cursor.path(), &[0, 0, 0, 0, 0]);
    assert_eq!(*cursor.node(tree).value(), "LLLL");
    assert_eq!(children_of(tree, cursor), Vec::<&str>::new());
}

fn empty_assert_0(tree: &MyTree, cursor: &Cursor) {
    assert_eq!(cursor.path(), &[0]);
    assert_eq!(*cursor.node(tree).value(), "ROOT");
    assert_eq!(children_of(tree, cursor), Vec::<&str>::new());
}

fn binary_full_assert_0(tree: &MyTree, cursor: &Cursor) {
    assert_eq!(cursor.path(), &[0]);
    assert_eq!(*cursor.node(tree).value(), "ROOT");
    assert_eq!(children_of(tree, cursor), vec!["L", "R"]);
}

fn binary_full_assert_0_0(tree: &MyTree, cursor: &Cursor) {
    assert_eq!(cursor.path(), &[0, 0]);
    assert_eq!(*cursor.node(tree).value(), "L");
    assert_eq!(children_of(tree, cursor), vec!["LL", "LR"]);
}

fn binary_full_assert_0_1(tree: &MyTree, cursor: &Cursor) {
    assert_eq!(cursor.path(), &[0, 1]);
    assert_eq!(*cursor.node(tree).value(), "R");
    assert_eq!(children_of(tree, cursor), vec!["RL", "RR"]);
}

fn binary_full_assert_0_0_0(tree: &MyTree, cursor: &Cursor) {
    assert_eq!(cursor.path(), &[0, 0, 0]);
    assert_eq!(*cursor.node(tree).value(), "LL");
    assert_eq!(children_of(tree, cursor), vec!["LLL", "LLR"]);
}

fn binary_full_assert_0_0_1(tree: &MyTree, cursor: &Cursor) {
    assert_eq!(cursor.path(), &[0, 0, 1]);
    assert_eq!(*cursor.node(tree).value(), "LR");
    assert_eq!(children_of(tree, cursor), vec!["LRL", "LRR"]);
}

fn binary_full_assert_0_1_0(tree: &MyTree, cursor: &Cursor) {
    assert_eq!(cursor.path(), &[0, 1, 0]);
    assert_eq!(*cursor.node(tree).value(), "RL");
    assert_eq!(children_of(tree, cursor), vec!["RLL", "RLR"]);
}

fn binary_full_assert_0_1_1(tree: &MyTree, cursor: &Cursor) {
    assert_eq!(cursor.path(), &[0, 1, 1]);
    assert_eq!(*cursor.node(tree).value(), "RR");
    assert_eq!(children_of(tree, cursor), vec!["RRL", "RRR"]);
}

fn binary_full_assert_0_0_0_0(tree: &MyTree, cursor: &Cursor) {
    assert_eq!(cursor.path(), &[0, 0, 0, 0]);
    assert_eq!(*cursor.node(tree).value(), "LLL");
    assert_eq!(children_of(tree, cursor), Vec::<&str>::new());
}

fn binary_full_assert_0_0_0_1(tree: &MyTree, cursor: &Cursor) {
    assert_eq!(cursor.path(), &[0, 0, 0, 1]);
    assert_eq!(*cursor.node(tree).value(), "LLR");
    assert_eq!(children_of(tree, cursor), Vec::<&str>::new());
}

fn binary_full_assert_0_0_1_0(tree: &MyTree, cursor: &Cursor) {
    assert_eq!(cursor.path(), &[0, 0, 1, 0]);
    assert_eq!(*cursor.node(tree).value(), "LRL");
    assert_eq!(children_of(tree, cursor), Vec::<&str>::new());
}

fn binary_full_assert_0_0_1_1(tree: &MyTree, cursor: &Cursor) {
    assert_eq!(cursor.path(), &[0, 0, 1, 1]);
    assert_eq!(*cursor.node(tree).value(), "LRR");
    assert_eq!(children_of(tree, cursor), Vec::<&str>::new());
}

fn binary_full_assert_0_1_0_0(tree: &MyTree, cursor: &Cursor) {
    assert_eq!(cursor.path(), &[0, 1, 0, 0]);
    assert_eq!(*cursor.node(tree).value(), "RLL");
    assert_eq!(children_of(tree, cursor), Vec::<&str>::new());
}

fn binary_full_assert_0_1_0_1(tree: &MyTree, cursor: &Cursor) {
    assert_eq!(cursor.path(), &[0, 1, 0, 1]);
    assert_eq!(*cursor.node(tree).value(), "RLR");
    assert_eq!(children_of(tree, cursor), Vec::<&str>::new());
}

fn binary_full_assert_0_1_1_0(tree: &MyTree, cursor: &Cursor) {
    assert_eq!(cursor.path(), &[0, 1, 1, 0]);
    assert_eq!(*cursor.node(tree).value(), "RRL");
    assert_eq!(children_of(tree, cursor), Vec::<&str>::new());
}

fn binary_full_assert_0_1_1_1(tree: &MyTree, cursor: &Cursor) {
    assert_eq!(cursor.path(), &[0, 1, 1, 1]);
    assert_eq!(*cursor.node(tree).value(), "RRR");
    assert_eq!(children_of(tree, cursor), Vec::<&str>::new());
}

#[test]
/// Uses [`BINARY_0`]
fn go_to() {
    let mut tree = binary_tree(BINARY_0);
    let mut cursor = tree.cursor().unwrap();
    binary_0_assert_0(&tree, &cursor);

    assert!(cursor.go_to(&mut tree, &[0, 0]).unwrap());
    binary_0_assert_0_0(&tree, &cursor);

    assert!(cursor.go_to(&mut tree, &[0, 1]).unwrap());
    binary_0_assert_0_1(&tree, &cursor);

    assert!(cursor.go_to(&mut tree, &[0, 0, 0]).unwrap());
    binary_0_assert_0_0_0(&tree, &cursor);

    assert!(cursor.go_to(&mut tree, &[0, 0, 1]).unwrap());
    binary_0_assert_0_0_1(&tree, &cursor);

    assert!(cursor.go_to(&mut tree, &[0, 1, 0]).unwrap());
    binary_0_assert_0_1_0(&tree, &cursor);

    assert!(cursor.go_to(&mut tree, &[0, 1, 1]).unwrap());
    binary_0_assert_0_1_1(&tree, &cursor);

    assert!(cursor.go_to(&mut tree, &[0, 0, 1, 0]).unwrap());
    binary_0_assert_0_0_1_0(&tree, &cursor);

    assert!(cursor.go_to(&mut tree, &[0, 1, 0, 0]).unwrap());
    binary_0_assert_0_1_0_0(&tree, &cursor);

    assert!(!cursor.go_to(&mut tree, &[0, 0, 0, 0, 0, 0, 0]).unwrap());
}

#[test]
/// Uses [`BINARY_0`]
fn wrong_go_to() {
    let mut tree = binary_tree(BINARY_0);
    let mut cursor = tree.cursor().unwrap();
    binary_0_assert_0(&tree, &cursor);

    assert!(cursor.go_to(&mut tree, &[0, 0]).unwrap());
    binary_0_assert_0_0(&tree, &cursor);

    assert!(!cursor.go_to(&mut tree, &[0, 0, 2]).unwrap());
    binary_0_assert_0_0(&tree, &cursor);

    assert!(!cursor.go_to(&mut tree, &[0, 1, 2]).unwrap());
    binary_0_assert_0_1(&tree, &cursor);

    assert!(!cursor.go_to(&mut tree, &[0, 3, 0]).unwrap());
    binary_0_assert_0(&tree, &cursor);

    assert!(!cursor.go_to(&mut tree, &[3, 0, 0]).unwrap());
    binary_0_assert_0(&tree, &cursor);
}

#[test]
/// Uses [`BINARY_0`]
///
/// Jump from ROOT to LL
fn jump_up_from_root() {
    let mut tree = binary_tree(BINARY_0);
    let mut cursor = tree.cursor().unwrap();
    binary_0_assert_0(&tree, &cursor);

    assert!(cursor.jump(&mut tree, Direction::Up).unwrap());
    binary_0_assert_0_0_0(&tree, &cursor);
}

#[test]
/// Uses [`BINARY_0`]
///
/// Jump from LL to L
fn jump_up() {
    let mut tree = binary_tree(BINARY_0);
    let mut cursor = tree.cursor().unwrap();
    binary_0_assert_0(&tree, &cursor);

    assert!(cursor.go_to(&mut tree, &[0, 0, 0]).unwrap());
    binary_0_assert_0_0_0(&tree, &cursor);

    assert!(cursor.jump(&mut tree, Direction::Up).unwrap());
    binary_0_assert_0_0(&tree, &cursor);
}

#[test]
/// Uses [`EMPTY`]
fn jump_up_from_root_in_empty_tree() {
    let mut tree = binary_tree(EMPTY);
    let mut cursor = tree.cursor().unwrap();
    empty_assert_0(&tree, &cursor);

    assert!(cursor.jump(&mut tree, Direction::Up).unwrap());
    empty_assert_0(&tree, &cursor);
}

#[test]
/// Uses [`BINARY_0`]
///
/// Jump from RLL to ROOT
fn jump_down_from_leaf() {
    let mut tree = binary_tree(BINARY_0);
    let mut cursor = tree.cursor().unwrap();
    binary_0_assert_0(&tree, &cursor);

    assert!(cursor.go_to(&mut tree, &[0, 1, 0, 0]).unwrap());
    binary_0_assert_0_1_0_0(&tree, &cursor);
    assert!(cursor.jump(&mut tree, Direction::Down(Target::First)).unwrap());
    binary_0_assert_0(&tree, &cursor);

    assert!(cursor.go_to(&mut tree, &[0, 1, 0, 0]).unwrap());
    binary_0_assert_0_1_0_0(&tree, &cursor);
    assert!(cursor.jump(&mut tree, Direction::Down(Target::Last)).unwrap());
    binary_0_assert_0(&tree, &cursor);

    assert!(cursor.go_to(&mut tree, &[0, 1, 0, 0]).unwrap());
    binary_0_assert_0_1_0_0(&tree, &cursor);
    assert!(cursor.jump(&mut tree, Direction::Down(Target::Index(0))).unwrap());
    binary_0_assert_0(&tree, &cursor);

    assert!(cursor.go_to(&mut tree, &[0, 1, 0, 0]).unwrap());
    binary_0_assert_0_1_0_0(&tree, &cursor);
    assert!(cursor.jump(&mut tree, Direction::Down(Target::Index(2))).unwrap());
    binary_0_assert_0(&tree, &cursor);
}

#[test]
/// Uses [`BINARY_0`]
///
/// Jumps from:
/// - L to LL
/// - L to LR
/// - L to ROOT
fn jump_down() {
    let mut tree = binary_tree(BINARY_0);
    let mut cursor = tree.cursor().unwrap();
    binary_0_assert_0(&tree, &cursor);

    assert!(cursor.go_to(&mut tree, &[0, 0]).unwrap());
    binary_0_assert_0_0(&tree, &cursor);
    assert!(cursor.jump(&mut tree, Direction::Down(Target::First)).unwrap());
    binary_0_assert_0_0_0(&tree, &cursor);

    assert!(cursor.go_to(&mut tree, &[0, 0]).unwrap());
    binary_0_assert_0_0(&tree, &cursor);
    assert!(cursor.jump(&mut tree, Direction::Down(Target::Last)).unwrap());
    binary_0_assert_0_0_1(&tree, &cursor);

    assert!(cursor.go_to(&mut tree, &[0, 0]).unwrap());
    binary_0_assert_0_0(&tree, &cursor);
    assert!(cursor.jump(&mut tree, Direction::Down(Target::Index(1))).unwrap());
    binary_0_assert_0_0_1(&tree, &cursor);

    assert!(cursor.go_to(&mut tree, &[0, 0]).unwrap());
    binary_0_assert_0_0(&tree, &cursor);
    assert!(cursor.jump(&mut tree, Direction::Down(Target::Index(2))).unwrap());
    binary_0_assert_0(&tree, &cursor);
}

#[test]
/// Uses [`EMPTY`]
fn jump_down_from_root_in_empty_tree() {
    let mut tree = binary_tree(EMPTY);
    let mut cursor = tree.cursor().unwrap();
    empty_assert_0(&tree, &cursor);

    assert!(cursor.jump(&mut tree, Direction::Down(Target::First)).unwrap());
    empty_assert_0(&tree, &cursor);

    assert!(cursor.jump(&mut tree, Direction::Down(Target::Last)).unwrap());
    empty_assert_0(&tree, &cursor);

    assert!(cursor.jump(&mut tree, Direction::Down(Target::Index(0))).unwrap());
    empty_assert_0(&tree, &cursor);

    assert!(cursor.jump(&mut tree, Direction::Down(Target::Index(2))).unwrap());
    empty_assert_0(&tree, &cursor);
}

#[test]
/// Uses [`BINARY_0`]
///
/// Attempt to walk from ROOT to LL
fn walk_up_from_root() {
    let mut tree = binary_tree(BINARY_0);
    let mut cursor = tree.cursor().unwrap();
    binary_0_assert_0(&tree, &cursor);

    assert!(!cursor.walk(&mut tree, Direction::Up).unwrap());
    binary_0_assert_0(&tree, &cursor);
}

#[test]
/// Uses [`BINARY_0`]
///
/// Move from LL to L
fn walk_up() {
    let mut tree = binary_tree(BINARY_0);
    let mut cursor = tree.cursor().unwrap();
    binary_0_assert_0(&tree, &cursor);

    assert!(cursor.go_to(&mut tree, &[0, 0, 0]).unwrap());
    binary_0_assert_0_0_0(&tree, &cursor);

    assert!(cursor.walk(&mut tree, Direction::Up).unwrap());
    binary_0_assert_0_0(&tree, &cursor);
}

#[test]
/// Uses [`EMPTY`]
fn walk_up_from_root_in_empty_tree() {
    let mut tree = binary_tree(EMPTY);
    let mut cursor = tree.cursor().unwrap();
    empty_assert_0(&tree, &cursor);

    assert!(!cursor.walk(&mut tree, Direction::Up).unwrap());
    empty_assert_0(&tree, &cursor);
}

#[test]
/// Uses [`BINARY_0`]
///
/// Attempt to walk from RLL to ROOT
fn walk_down_from_leaf() {
    let mut tree = binary_tree(BINARY_0);
    let mut cursor = tree.cursor().unwrap();
    binary_0_assert_0(&tree, &cursor);

    assert!(cursor.go_to(&mut tree, &[0, 1, 0, 0]).unwrap());
    binary_0_assert_0_1_0_0(&tree, &cursor);

    assert!(!cursor.walk(&mut tree, Direction::Down(Target::First)).unwrap());
    binary_0_assert_0_1_0_0(&tree, &cursor);
}

#[test]
/// Uses [`BINARY_0`]
///
/// Attempts to walk from:
/// - L to LL
/// - L to LR
/// - L to ROOT
fn walk_down() {
    let mut tree = binary_tree(BINARY_0);
    let mut cursor = tree.cursor().unwrap();
    binary_0_assert_0(&tree, &cursor);

    assert!(cursor.go_to(&mut tree, &[0, 0]).unwrap());
    binary_0_assert_0_0(&tree, &cursor);
    assert!(cursor.walk(&mut tree, Direction::Down(Target::First)).unwrap());
    binary_0_assert_0_0_0(&tree, &cursor);

    assert!(cursor.go_to(&mut tree, &[0, 0]).unwrap());
    binary_0_assert_0_0(&tree, &cursor);
    assert!(cursor.walk(&mut tree, Direction::Down(Target::Last)).unwrap());
    binary_0_assert_0_0_1(&tree, &cursor);

    assert!(cursor.go_to(&mut tree, &[0, 0]).unwrap());
    binary_0_assert_0_0(&tree, &cursor);
    assert!(cursor.walk(&mut tree, Direction::Down(Target::Index(1))).unwrap());
    binary_0_assert_0_0_1(&tree, &cursor);

    assert!(cursor.go_to(&mut tree, &[0, 0]).unwrap());
    binary_0_assert_0_0(&tree, &cursor);
    assert!(!cursor.walk(&mut tree, Direction::Down(Target::Index(2))).unwrap());
    binary_0_assert_0_0(&tree, &cursor);
}

#[test]
/// Uses [`EMPTY`]
fn walk_down_from_root_in_empty_tree() {
    let mut tree = binary_tree(EMPTY);
    let mut cursor = tree.cursor().unwrap();
    empty_assert_0(&tree, &cursor);

    assert!(!cursor.walk(&mut tree, Direction::Down(Target::First)).unwrap());
    empty_assert_0(&tree, &cursor);

    assert!(!cursor.walk(&mut tree, Direction::Down(Target::Last)).unwrap());
    empty_assert_0(&tree, &cursor);

    assert!(!cursor.walk(&mut tree, Direction::Down(Target::Index(0))).unwrap());
    empty_assert_0(&tree, &cursor);

    assert!(!cursor.walk(&mut tree, Direction::Down(Target::Index(2))).unwrap());
    empty_assert_0(&tree, &cursor);
}

#[test]
/// Uses [`BINARY_0`]
///
/// Jump from LL to RR
fn jump_left_across_tree_different_branch_same_depth() {
    let mut tree = binary_tree(BINARY_0);
    let mut cursor = tree.cursor().unwrap();
    binary_0_assert_0(&tree, &cursor);

    assert!(cursor.go_to(&mut tree, &[0, 0, 0]).unwrap());
    binary_0_assert_0_0_0(&tree, &cursor);

    assert!(cursor.jump(&mut tree, Direction::Left).unwrap());
    binary_0_assert_0_1_1(&tree, &cursor);
}

#[test]
/// Uses [`BINARY_0`]
///
/// Jump from L to R
fn jump_left_across_tree_same_branch_same_depth() {
    let mut tree = binary_tree(BINARY_0);
    let mut cursor = tree.cursor().unwrap();
    binary_0_assert_0(&tree, &cursor);

    assert!(cursor.go_to(&mut tree, &[0, 0]).unwrap());
    binary_0_assert_0_0(&tree, &cursor);

    assert!(cursor.jump(&mut tree, Direction::Left).unwrap());
    binary_0_assert_0_1(&tree, &cursor);
}

#[test]
/// Uses [`BINARY_2`]
///
/// Jump from LLL to LR
fn jump_left_across_tree_to_shorter_branch() {
    let mut tree = binary_tree(BINARY_2);
    let mut cursor = tree.cursor().unwrap();
    binary_2_assert_0(&tree, &cursor);

    assert!(cursor.go_to(&mut tree, &[0, 0, 0, 0]).unwrap());
    binary_2_assert_0_0_0_0(&tree, &cursor);

    assert!(cursor.jump(&mut tree, Direction::Left).unwrap());
    binary_2_assert_0_0_1(&tree, &cursor);
}

#[test]
/// Uses [`BINARY_1`]
///
/// Jump from LL to LR
fn jump_left_across_tree_to_longer_branch() {
    let mut tree = binary_tree(BINARY_1);
    let mut cursor = tree.cursor().unwrap();

    binary_1_assert_0(&tree, &cursor);

    assert!(cursor.go_to(&mut tree, &[0, 0, 0]).unwrap());
    binary_1_assert_0_0_0(&tree, &cursor);

    assert!(cursor.jump(&mut tree, Direction::Left).unwrap());
    binary_1_assert_0_0_1(&tree, &cursor);
}

#[test]
/// Uses [`BINARY_0`]
///
/// Jump from R to L
fn jump_left_in_branch_same_depth() {
    let mut tree = binary_tree(BINARY_0);
    let mut cursor = tree.cursor().unwrap();
    binary_0_assert_0(&tree, &cursor);

    assert!(cursor.go_to(&mut tree, &[0, 1]).unwrap());
    binary_0_assert_0_1(&tree, &cursor);

    assert!(cursor.jump(&mut tree, Direction::Left).unwrap());
    binary_0_assert_0_0(&tree, &cursor);
}

#[test]
/// Uses [`BINARY_1`]
///
/// Jump from LRL to LL
fn jump_left_between_branches_to_shorter_branch() {
    let mut tree = binary_tree(BINARY_1);
    let mut cursor = tree.cursor().unwrap();
    binary_1_assert_0(&tree, &cursor);

    assert!(cursor.go_to(&mut tree, &[0, 0, 1, 0]).unwrap());
    binary_1_assert_0_0_1_0(&tree, &cursor);

    assert!(cursor.jump(&mut tree, Direction::Left).unwrap());
    binary_1_assert_0_0_0(&tree, &cursor);
}

#[test]
/// Uses [`BINARY_3`]
///
/// Jump from LRL to LLL
fn jump_left_between_branches_to_longer_branch() {
    let mut tree = binary_tree(BINARY_3);
    let mut cursor = tree.cursor().unwrap();
    binary_3_assert_0(&tree, &cursor);

    assert!(cursor.go_to(&mut tree, &[0, 0, 1, 0]).unwrap());
    binary_3_assert_0_0_1_0(&tree, &cursor);

    assert!(cursor.jump(&mut tree, Direction::Left).unwrap());
    binary_3_assert_0_0_0_0(&tree, &cursor);
}

#[test]
/// Uses [`BINARY_0`]
///
/// Jump from RL to LR
fn jump_left_between_branches_same_depth() {
    let mut tree = binary_tree(BINARY_0);
    let mut cursor = tree.cursor().unwrap();
    binary_0_assert_0(&tree, &cursor);

    assert!(cursor.go_to(&mut tree, &[0, 1, 0]).unwrap());
    binary_0_assert_0_1_0(&tree, &cursor);

    assert!(cursor.jump(&mut tree, Direction::Left).unwrap());
    binary_0_assert_0_0_1(&tree, &cursor);
}

#[test]
/// Uses [`LIST`]
fn jump_left_in_list() {
    let mut tree = binary_tree(LIST);
    let mut cursor = tree.cursor().unwrap();
    list_assert_0(&tree, &cursor);

    assert!(cursor.go_to(&mut tree, &[0, 0, 0]).unwrap());
    list_assert_0_0_0(&tree, &cursor);

    assert!(cursor.jump(&mut tree, Direction::Left).unwrap());
    list_assert_0_0_0(&tree, &cursor);
}

#[test]
/// Uses [`EMPTY`]
fn jump_left_in_empty_tree() {
    let mut tree = binary_tree(EMPTY);
    let mut cursor = tree.cursor().unwrap();
    empty_assert_0(&tree, &cursor);

    assert!(cursor.jump(&mut tree, Direction::Left).unwrap());
    empty_assert_0(&tree, &cursor);
}

#[test]
/// Uses [`BINARY_0`]
///
/// Jump from RR to LL
fn jump_right_across_tree_different_branch_same_depth() {
    let mut tree = binary_tree(BINARY_0);
    let mut cursor = tree.cursor().unwrap();
    binary_0_assert_0(&tree, &cursor);

    assert!(cursor.go_to(&mut tree, &[0, 1, 1]).unwrap());
    binary_0_assert_0_1_1(&tree, &cursor);

    assert!(cursor.jump(&mut tree, Direction::Right).unwrap());
    binary_0_assert_0_0_0(&tree, &cursor);
}

#[test]
/// Uses [`BINARY_0`]
///
/// Jump from R to L
fn jump_right_across_tree_same_branch_same_depth() {
    let mut tree = binary_tree(BINARY_0);
    let mut cursor = tree.cursor().unwrap();
    binary_0_assert_0(&tree, &cursor);

    assert!(cursor.go_to(&mut tree, &[0, 1]).unwrap());
    binary_0_assert_0_1(&tree, &cursor);

    assert!(cursor.jump(&mut tree, Direction::Right).unwrap());
    binary_0_assert_0_0(&tree, &cursor);
}

#[test]
/// Uses [`BINARY_1`]
///
/// Jump from LRL to LL
fn jump_right_across_tree_to_shorter_branch() {
    let mut tree = binary_tree(BINARY_1);
    let mut cursor = tree.cursor().unwrap();
    binary_1_assert_0(&tree, &cursor);

    assert!(cursor.go_to(&mut tree, &[0, 0, 1, 0]).unwrap());
    binary_1_assert_0_0_1_0(&tree, &cursor);

    assert!(cursor.jump(&mut tree, Direction::Right).unwrap());
    binary_1_assert_0_0_0(&tree, &cursor);
}

#[test]
/// Uses [`BINARY_2`]
///
/// Jump from LR to LL
fn jump_right_across_tree_to_longer_branch() {
    let mut tree = binary_tree(BINARY_2);
    let mut cursor = tree.cursor().unwrap();
    binary_2_assert_0(&tree, &cursor);

    assert!(cursor.go_to(&mut tree, &[0, 0, 1]).unwrap());
    binary_2_assert_0_0_1(&tree, &cursor);

    assert!(cursor.jump(&mut tree, Direction::Right).unwrap());
    binary_2_assert_0_0_0(&tree, &cursor);
}

#[test]
/// Uses [`BINARY_0`]
///
/// Jump from L to R
fn jump_right_in_branch_same_depth() {
    let mut tree = binary_tree(BINARY_0);
    let mut cursor = tree.cursor().unwrap();
    binary_0_assert_0(&tree, &cursor);

    assert!(cursor.go_to(&mut tree, &[0, 0]).unwrap());
    binary_0_assert_0_0(&tree, &cursor);

    assert!(cursor.jump(&mut tree, Direction::Right).unwrap());
    binary_0_assert_0_1(&tree, &cursor);
}

#[test]
/// Uses [`BINARY_2`]
///
/// Jump from LLL to LR
fn jump_right_between_branches_to_shorter_branch() {
    let mut tree = binary_tree(BINARY_2);
    let mut cursor = tree.cursor().unwrap();
    binary_2_assert_0(&tree, &cursor);

    assert!(cursor.go_to(&mut tree, &[0, 0, 0, 0]).unwrap());
    binary_2_assert_0_0_0_0(&tree, &cursor);

    assert!(cursor.jump(&mut tree, Direction::Right).unwrap());
    binary_2_assert_0_0_1(&tree, &cursor);
}

#[test]
/// Uses [`BINARY_4`]
///
/// Jump from LLL to LRL
fn jump_right_between_branches_to_longer_branch() {
    let mut tree = binary_tree(BINARY_4);
    let mut cursor = tree.cursor().unwrap();
    binary_4_assert_0(&tree, &cursor);

    assert!(cursor.go_to(&mut tree, &[0, 0, 0, 0]).unwrap());
    binary_4_assert_0_0_0_0(&tree, &cursor);

    assert!(cursor.jump(&mut tree, Direction::Right).unwrap());
    binary_4_assert_0_0_1_0(&tree, &cursor);
}

#[test]
/// Uses [`BINARY_0`]
///
/// Jump from LR to RL
fn jump_right_between_branches_same_depth() {
    let mut tree = binary_tree(BINARY_0);
    let mut cursor = tree.cursor().unwrap();
    binary_0_assert_0(&tree, &cursor);

    assert!(cursor.go_to(&mut tree, &[0, 0, 1]).unwrap());
    binary_0_assert_0_0_1(&tree, &cursor);

    assert!(cursor.jump(&mut tree, Direction::Right).unwrap());
    binary_0_assert_0_1_0(&tree, &cursor);
}

#[test]
/// Uses [`LIST`]
fn jump_right_in_list() {
    let mut tree = binary_tree(LIST);
    let mut cursor = tree.cursor().unwrap();
    list_assert_0(&tree, &cursor);

    assert!(cursor.go_to(&mut tree, &[0, 0, 0]).unwrap());
    list_assert_0_0_0(&tree, &cursor);

    assert!(cursor.jump(&mut tree, Direction::Right).unwrap());
    list_assert_0_0_0(&tree, &cursor);
}

#[test]
/// Uses [`EMPTY`]
fn jump_right_in_empty_tree() {
    let mut tree = binary_tree(EMPTY);
    let mut cursor = tree.cursor().unwrap();
    empty_assert_0(&tree, &cursor);

    assert!(cursor.jump(&mut tree, Direction::Right).unwrap());
    empty_assert_0(&tree, &cursor);
}

#[test]
/// Uses [`BINARY_0`]
///
/// Attempt to walk from LL to RR
fn walk_left_across_tree_different_branch_same_depth() {
    let mut tree = binary_tree(BINARY_0);
    let mut cursor = tree.cursor().unwrap();
    binary_0_assert_0(&tree, &cursor);

    assert!(cursor.go_to(&mut tree, &[0, 0, 0]).unwrap());
    binary_0_assert_0_0_0(&tree, &cursor);

    assert!(!cursor.walk(&mut tree, Direction::Left).unwrap());
    binary_0_assert_0_0_0(&tree, &cursor);
}

#[test]
/// Uses [`BINARY_0`]
///
/// Attempt to walk from L to R
fn walk_left_across_tree_same_branch_same_depth() {
    let mut tree = binary_tree(BINARY_0);
    let mut cursor = tree.cursor().unwrap();
    binary_0_assert_0(&tree, &cursor);

    assert!(cursor.go_to(&mut tree, &[0, 0]).unwrap());
    binary_0_assert_0_0(&tree, &cursor);

    assert!(!cursor.walk(&mut tree, Direction::Left).unwrap());
    binary_0_assert_0_0(&tree, &cursor);
}

#[test]
/// Uses [`BINARY_2`]
///
/// Attempt to walk from LLL to LR
fn walk_left_across_tree_to_shorter_branch() {
    let mut tree = binary_tree(BINARY_2);
    let mut cursor = tree.cursor().unwrap();
    binary_2_assert_0(&tree, &cursor);

    assert!(cursor.go_to(&mut tree, &[0, 0, 0, 0]).unwrap());
    binary_2_assert_0_0_0_0(&tree, &cursor);

    assert!(!cursor.walk(&mut tree, Direction::Left).unwrap());
    binary_2_assert_0_0_0_0(&tree, &cursor);
}

#[test]
/// Uses [`BINARY_1`]
///
/// Attempt to walk from LL to LR
fn walk_left_across_tree_to_longer_branch() {
    let mut tree = binary_tree(BINARY_1);
    let mut cursor = tree.cursor().unwrap();

    binary_1_assert_0(&tree, &cursor);

    assert!(cursor.go_to(&mut tree, &[0, 0, 0]).unwrap());
    binary_1_assert_0_0_0(&tree, &cursor);

    assert!(!cursor.walk(&mut tree, Direction::Left).unwrap());
    binary_1_assert_0_0_0(&tree, &cursor);
}

#[test]
/// Uses [`BINARY_0`]
///
/// Move from R to L
fn walk_left_in_branch_same_depth() {
    let mut tree = binary_tree(BINARY_0);
    let mut cursor = tree.cursor().unwrap();
    binary_0_assert_0(&tree, &cursor);

    assert!(cursor.go_to(&mut tree, &[0, 1]).unwrap());
    binary_0_assert_0_1(&tree, &cursor);

    assert!(cursor.walk(&mut tree, Direction::Left).unwrap());
    binary_0_assert_0_0(&tree, &cursor);
}

#[test]
/// Uses [`BINARY_1`]
///
/// Attempt to walk from LRL to LL
fn walk_left_between_branches_to_shorter_branch() {
    let mut tree = binary_tree(BINARY_1);
    let mut cursor = tree.cursor().unwrap();
    binary_1_assert_0(&tree, &cursor);

    assert!(cursor.go_to(&mut tree, &[0, 0, 1, 0]).unwrap());
    binary_1_assert_0_0_1_0(&tree, &cursor);

    assert!(!cursor.walk(&mut tree, Direction::Left).unwrap());
    binary_1_assert_0_0_1_0(&tree, &cursor);
}

#[test]
/// Uses [`BINARY_3`]
///
/// Attempt to walk from LRL to LLL
fn walk_left_between_branches_to_longer_branch() {
    let mut tree = binary_tree(BINARY_3);
    let mut cursor = tree.cursor().unwrap();
    binary_3_assert_0(&tree, &cursor);

    assert!(cursor.go_to(&mut tree, &[0, 0, 1, 0]).unwrap());
    binary_3_assert_0_0_1_0(&tree, &cursor);

    assert!(!cursor.walk(&mut tree, Direction::Left).unwrap());
    binary_3_assert_0_0_1_0(&tree, &cursor);
}

#[test]
/// Uses [`BINARY_0`]
///
/// Attempt to walk from RL to LR
fn walk_left_between_branches_same_depth() {
    let mut tree = binary_tree(BINARY_0);
    let mut cursor = tree.cursor().unwrap();
    binary_0_assert_0(&tree, &cursor);

    assert!(cursor.go_to(&mut tree, &[0, 1, 0]).unwrap());
    binary_0_assert_0_1_0(&tree, &cursor);

    assert!(!cursor.walk(&mut tree, Direction::Left).unwrap());
    binary_0_assert_0_1_0(&tree, &cursor);
}

#[test]
/// Uses [`LIST`]
fn walk_left_in_list() {
    let mut tree = binary_tree(LIST);
    let mut cursor = tree.cursor().unwrap();
    list_assert_0(&tree, &cursor);

    assert!(cursor.go_to(&mut tree, &[0, 0, 0]).unwrap());
    list_assert_0_0_0(&tree, &cursor);

    assert!(!cursor.walk(&mut tree, Direction::Left).unwrap());
    list_assert_0_0_0(&tree, &cursor);
}

#[test]
/// Uses [`EMPTY`]
fn walk_left_in_empty_tree() {
    let mut tree = binary_tree(EMPTY);
    let mut cursor = tree.cursor().unwrap();
    empty_assert_0(&tree, &cursor);

    assert!(!cursor.walk(&mut tree, Direction::Left).unwrap());
    empty_assert_0(&tree, &cursor);
}

#[test]
/// Uses [`BINARY_0`]
///
/// Attempt to walk from RR to LL
fn walk_right_across_tree_different_branch_same_depth() {
    let mut tree = binary_tree(BINARY_0);
    let mut cursor = tree.cursor().unwrap();
    binary_0_assert_0(&tree, &cursor);

    assert!(cursor.go_to(&mut tree, &[0, 1, 1]).unwrap());
    binary_0_assert_0_1_1(&tree, &cursor);

    assert!(!cursor.walk(&mut tree, Direction::Right).unwrap());
    binary_0_assert_0_1_1(&tree, &cursor);
}

#[test]
/// Uses [`BINARY_0`]
///
/// Attempt to walk from R to L
fn walk_right_across_tree_same_branch_same_depth() {
    let mut tree = binary_tree(BINARY_0);
    let mut cursor = tree.cursor().unwrap();
    binary_0_assert_0(&tree, &cursor);

    assert!(cursor.go_to(&mut tree, &[0, 1]).unwrap());
    binary_0_assert_0_1(&tree, &cursor);

    assert!(!cursor.walk(&mut tree, Direction::Right).unwrap());
    binary_0_assert_0_1(&tree, &cursor);
}

#[test]
/// Uses [`BINARY_1`]
///
/// Attempt to walk from LRL to LL
fn walk_right_across_tree_to_shorter_branch() {
    let mut tree = binary_tree(BINARY_1);
    let mut cursor = tree.cursor().unwrap();
    binary_1_assert_0(&tree, &cursor);

    assert!(cursor.go_to(&mut tree, &[0, 0, 1, 0]).unwrap());
    binary_1_assert_0_0_1_0(&tree, &cursor);

    assert!(!cursor.walk(&mut tree, Direction::Right).unwrap());
    binary_1_assert_0_0_1_0(&tree, &cursor);
}

#[test]
/// Uses [`BINARY_2`]
///
/// Attempt to walk from LR to LL
fn walk_right_across_tree_to_longer_branch() {
    let mut tree = binary_tree(BINARY_2);
    let mut cursor = tree.cursor().unwrap();
    binary_2_assert_0(&tree, &cursor);

    assert!(cursor.go_to(&mut tree, &[0, 0, 1]).unwrap());
    binary_2_assert_0_0_1(&tree, &cursor);

    assert!(!cursor.walk(&mut tree, Direction::Right).unwrap());
    binary_2_assert_0_0_1(&tree, &cursor);
}

#[test]
/// Uses [`BINARY_0`]
///
/// Move from L to R
fn walk_right_in_branch_same_depth() {
    let mut tree = binary_tree(BINARY_0);
    let mut cursor = tree.cursor().unwrap();
    binary_0_assert_0(&tree, &cursor);

    assert!(cursor.go_to(&mut tree, &[0, 0]).unwrap());
    binary_0_assert_0_0(&tree, &cursor);

    assert!(cursor.walk(&mut tree, Direction::Right).unwrap());
    binary_0_assert_0_1(&tree, &cursor);
}

#[test]
/// Uses [`BINARY_2`]
///
/// Attempt to walk from LLL to LR
fn walk_right_between_branches_to_shorter_branch() {
    let mut tree = binary_tree(BINARY_2);
    let mut cursor = tree.cursor().unwrap();
    binary_2_assert_0(&tree, &cursor);

    assert!(cursor.go_to(&mut tree, &[0, 0, 0, 0]).unwrap());
    binary_2_assert_0_0_0_0(&tree, &cursor);

    assert!(!cursor.walk(&mut tree, Direction::Right).unwrap());
    binary_2_assert_0_0_0_0(&tree, &cursor);
}

#[test]
/// Uses [`BINARY_4`]
///
/// Attempt to walk from LLL to LRL
fn walk_right_between_branches_to_longer_branch() {
    let mut tree = binary_tree(BINARY_4);
    let mut cursor = tree.cursor().unwrap();
    binary_4_assert_0(&tree, &cursor);

    assert!(cursor.go_to(&mut tree, &[0, 0, 0, 0]).unwrap());
    binary_4_assert_0_0_0_0(&tree, &cursor);

    assert!(!cursor.walk(&mut tree, Direction::Right).unwrap());
    binary_4_assert_0_0_0_0(&tree, &cursor);
}

#[test]
/// Uses [`BINARY_0`]
///
/// Attempt to walk from LR to RL
fn walk_right_between_branches_same_depth() {
    let mut tree = binary_tree(BINARY_0);
    let mut cursor = tree.cursor().unwrap();
    binary_0_assert_0(&tree, &cursor);

    assert!(cursor.go_to(&mut tree, &[0, 0, 1]).unwrap());
    binary_0_assert_0_0_1(&tree, &cursor);

    assert!(!cursor.walk(&mut tree, Direction::Right).unwrap());
    binary_0_assert_0_0_1(&tree, &cursor);
}

#[test]
/// Uses [`LIST`]
fn walk_right_in_list() {
    let mut tree = binary_tree(LIST);
    let mut cursor = tree.cursor().unwrap();
    list_assert_0(&tree, &cursor);

    assert!(cursor.go_to(&mut tree, &[0, 0, 0]).unwrap());
    list_assert_0_0_0(&tree, &cursor);

    assert!(!cursor.walk(&mut tree, Direction::Right).unwrap());
    list_assert_0_0_0(&tree, &cursor);
}

#[test]
/// Uses [`EMPTY`]
fn walk_right_in_empty_tree() {
    let mut tree = binary_tree(EMPTY);
    let mut cursor = tree.cursor().unwrap();
    empty_assert_0(&tree, &cursor);

    assert!(!cursor.walk(&mut tree, Direction::Right).unwrap());
    empty_assert_0(&tree, &cursor);
}

#[test]
/// Uses [`BINARY_FULL`]
fn multiple_cursors_one_thread() {
    let mut tree = binary_tree(BINARY_FULL);

    let mut cursor_0 = tree.cursor().unwrap();
    binary_full_assert_0(&tree, &cursor_0);
    let mut cursor_1 = tree.cursor().unwrap();
    binary_full_assert_0(&tree, &cursor_1);

    let mut cursor_2 = tree.cursor().unwrap();
    binary_full_assert_0(&tree, &cursor_2);
    let mut cursor_3 = tree.cursor().unwrap();
    binary_full_assert_0(&tree, &cursor_3);

    let mut cursor_4 = tree.cursor().unwrap();
    binary_full_assert_0(&tree, &cursor_4);
    let mut cursor_5 = tree.cursor().unwrap();
    binary_full_assert_0(&tree, &cursor_5);

    assert!(cursor_0.go_to(&mut tree, &[0, 0]).unwrap()); // ->
    binary_full_assert_0_0(&tree, &cursor_0);
    assert!(cursor_1.go_to(&mut tree, &[0, 1]).unwrap()); // <-
    binary_full_assert_0_1(&tree, &cursor_1);

    assert!(cursor_2.go_to(&mut tree, &[0, 0, 0]).unwrap()); // ->
    binary_full_assert_0_0_0(&tree, &cursor_2);
    assert!(cursor_3.go_to(&mut tree, &[0, 1, 1]).unwrap()); // <-
    binary_full_assert_0_1_1(&tree, &cursor_3);

    assert!(cursor_4.go_to(&mut tree, &[0, 0, 0, 0]).unwrap()); // ->
    binary_full_assert_0_0_0_0(&tree, &cursor_4);
    assert!(cursor_5.go_to(&mut tree, &[0, 1, 1, 1]).unwrap()); // <-
    binary_full_assert_0_1_1_1(&tree, &cursor_5);

    for _ in 0..10 {
        assert!(cursor_0.jump(&mut tree, Direction::Right).unwrap());
        binary_full_assert_0_1(&tree, &cursor_0);
        assert!(cursor_0.jump(&mut tree, Direction::Right).unwrap());
        binary_full_assert_0_0(&tree, &cursor_0);
        assert!(cursor_1.jump(&mut tree, Direction::Left).unwrap());
        binary_full_assert_0_0(&tree, &cursor_1);
        assert!(cursor_1.jump(&mut tree, Direction::Left).unwrap());
        binary_full_assert_0_1(&tree, &cursor_1);

        assert!(cursor_2.jump(&mut tree, Direction::Right).unwrap());
        binary_full_assert_0_0_1(&tree, &cursor_2);
        assert!(cursor_2.jump(&mut tree, Direction::Right).unwrap());
        binary_full_assert_0_1_0(&tree, &cursor_2);
        assert!(cursor_2.jump(&mut tree, Direction::Right).unwrap());
        binary_full_assert_0_1_1(&tree, &cursor_2);
        assert!(cursor_2.jump(&mut tree, Direction::Right).unwrap());
        binary_full_assert_0_0_0(&tree, &cursor_2);
        assert!(cursor_3.jump(&mut tree, Direction::Left).unwrap());
        binary_full_assert_0_1_0(&tree, &cursor_3);
        assert!(cursor_3.jump(&mut tree, Direction::Left).unwrap());
        binary_full_assert_0_0_1(&tree, &cursor_3);
        assert!(cursor_3.jump(&mut tree, Direction::Left).unwrap());
        binary_full_assert_0_0_0(&tree, &cursor_3);
        assert!(cursor_3.jump(&mut tree, Direction::Left).unwrap());
        binary_full_assert_0_1_1(&tree, &cursor_3);

        assert!(cursor_4.jump(&mut tree, Direction::Right).unwrap());
        binary_full_assert_0_0_0_1(&tree, &cursor_4);
        assert!(cursor_4.jump(&mut tree, Direction::Right).unwrap());
        binary_full_assert_0_0_1_0(&tree, &cursor_4);
        assert!(cursor_4.jump(&mut tree, Direction::Right).unwrap());
        binary_full_assert_0_0_1_1(&tree, &cursor_4);
        assert!(cursor_4.jump(&mut tree, Direction::Right).unwrap());
        binary_full_assert_0_1_0_0(&tree, &cursor_4);
        assert!(cursor_4.jump(&mut tree, Direction::Right).unwrap());
        binary_full_assert_0_1_0_1(&tree, &cursor_4);
        assert!(cursor_4.jump(&mut tree, Direction::Right).unwrap());
        binary_full_assert_0_1_1_0(&tree, &cursor_4);
        assert!(cursor_4.jump(&mut tree, Direction::Right).unwrap());
        binary_full_assert_0_1_1_1(&tree, &cursor_4);
        assert!(cursor_4.jump(&mut tree, Direction::Right).unwrap());
        binary_full_assert_0_0_0_0(&tree, &cursor_4);
        assert!(cursor_5.jump(&mut tree, Direction::Left).unwrap());
        binary_full_assert_0_1_1_0(&tree, &cursor_5);
        assert!(cursor_5.jump(&mut tree, Direction::Left).unwrap());
        binary_full_assert_0_1_0_1(&tree, &cursor_5);
        assert!(cursor_5.jump(&mut tree, Direction::Left).unwrap());
        binary_full_assert_0_1_0_0(&tree, &cursor_5);
        assert!(cursor_5.jump(&mut tree, Direction::Left).unwrap());
        binary_full_assert_0_0_1_1(&tree, &cursor_5);
        assert!(cursor_5.jump(&mut tree, Direction::Left).unwrap());
        binary_full_assert_0_0_1_0(&tree, &cursor_5);
        assert!(cursor_5.jump(&mut tree, Direction::Left).unwrap());
        binary_full_assert_0_0_0_1(&tree, &cursor_5);
        assert!(cursor_5.jump(&mut tree, Direction::Left).unwrap());
        binary_full_assert_0_0_0_0(&tree, &cursor_5);
        assert!(cursor_5.jump(&mut tree, Direction::Left).unwrap());
        binary_full_assert_0_1_1_1(&tree, &cursor_5);
    }
}

#[test]
/// Uses [`BINARY_FULL`]
fn cursor_drop() {
    let mut tree = binary_tree(BINARY_FULL);
    let mut cursor = tree.cursor().unwrap();

    binary_full_assert_0(&tree, &cursor);
    assert_eq!(cursor.node(&tree).visitors(), 1);
    assert!(!cursor.node(&tree).children().is_empty());
    {
        let root = tree.root();
        assert_eq!(root.visitors(), 1);
        assert!(!root.children().is_empty());
    }

    assert!(cursor.walk(&mut tree, Direction::Down(Target::First)).unwrap());
    binary_full_assert_0_0(&tree, &cursor);
    assert_eq!(cursor.node(&tree).visitors(), 1);
    assert!(!cursor.node(&tree).children().is_empty());
    {
        let root = tree.root();
        assert_eq!(root.visitors(), 1);
        assert!(!root.children().is_empty());
    }

    cursor.release(&mut tree);
    {
        let root = tree.root();
        assert_eq!(root.visitors(), 0);
        assert!(root.children().is_empty());
    }
}
