//! The exploration tree and its depth-first traversal.
//!
//! The tree itself is a `trees::Tree`, and it is traversed by a
//! `trees::TreeWalk`. Verus cannot look inside either, so this file says what
//! they hold ([`tree_shape`], [`walk_pending`]) and states, without proof, what
//! the few operations used here do to that.

use vstd::prelude::*;
use vstd::string::StringExecFns;
use trees::Tree;
use trees::TreeWalk;
use crate::grid::{simple_walk, PositionInMatrix};

verus! {

/// What a node of the exploration tree carries: the letter of its cell,
/// whether the path from the root down to it spells a whole word, and the
/// position of the cell.
#[derive(Clone, Copy, Debug, PartialEq, Eq, Structural)]
pub struct CharLeaf {
    pub char: char,
    pub is_word: bool,
    pub pos: PositionInMatrix,
}

impl CharLeaf {
    /// The leaf in words: `CharLeaf (c)` for a leaf with the letter `c`.
    pub fn label(&self) -> (text: String)
        ensures
            text@ == "CharLeaf ("@.push(self.char) + ")"@,
    {
        let mut text = String::from_str("CharLeaf (");
        text.push(self.char);
        text.append(")");
        text
    }
}

/// A tree as a mathematical value: what the root carries, and the subtrees
/// below it from first to last.
pub ghost struct Shape {
    pub leaf: CharLeaf,
    pub children: Seq<Shape>,
}

/// How a depth-first traversal meets a node: a node without children is met
/// once (`Leaf`), any other node before (`Begin`) and after (`End`) its
/// children.
#[derive(Clone, Copy, Debug, PartialEq, Eq, Structural)]
pub enum VisitKind {
    Begin,
    End,
    Leaf,
}

/// One step of a traversal: how a node is met, and what the node carries.
#[derive(Clone, Copy, Debug, PartialEq, Eq, Structural)]
pub struct Visit {
    pub kind: VisitKind,
    pub leaf: CharLeaf,
}

/// A tree that is only a root.
pub open spec fn lone(leaf: CharLeaf) -> Shape {
    Shape { leaf, children: Seq::empty() }
}

/// `shape` with one more subtree, after those it has.
pub open spec fn with_child(shape: Shape, child: Shape) -> Shape {
    Shape { leaf: shape.leaf, children: shape.children.push(child) }
}

/// The depth-first traversal of a tree.
pub open spec fn visits(shape: Shape) -> Seq<Visit>
    decreases shape,
{
    if shape.children.len() == 0 {
        seq![Visit { kind: VisitKind::Leaf, leaf: shape.leaf }]
    } else {
        seq![Visit { kind: VisitKind::Begin, leaf: shape.leaf }] + visits_of_all(shape.children)
            + seq![Visit { kind: VisitKind::End, leaf: shape.leaf }]
    }
}

/// The traversals of several trees, one after the other.
pub open spec fn visits_of_all(shapes: Seq<Shape>) -> Seq<Visit>
    decreases shapes,
{
    if shapes.len() == 0 {
        Seq::empty()
    } else {
        visits(shapes[0]) + visits_of_all(shapes.drop_first())
    }
}

/// Below the path `above`, every path from the root of `shape` down to one
/// of its nodes is a walk in the grid that visits no cell twice.
pub open spec fn routed(shape: Shape, above: Seq<PositionInMatrix>) -> bool
    decreases shape,
{
    &&& simple_walk(above.push(shape.leaf.pos))
    &&& forall|i: int|
        0 <= i < shape.children.len() ==> routed(
            #[trigger] shape.children[i],
            above.push(shape.leaf.pos),
        )
}

/// `trees::Tree`: a tree that owns its nodes. Nothing is said of what is
/// inside.
#[verifier::external_type_specification]
#[verifier::external_body]
#[verifier::reject_recursive_types(T)]
pub struct ExTree<T>(Tree<T>);

/// `trees::TreeWalk`: a depth-first traversal that owns the tree it goes
/// through. Nothing is said of what is inside.
#[verifier::external_type_specification]
#[verifier::external_body]
#[verifier::reject_recursive_types(T)]
pub struct ExTreeWalk<T>(TreeWalk<T>);

/// The nodes that a `trees::Tree` holds, as a [`Shape`].
pub uninterp spec fn tree_shape(tree: Tree<CharLeaf>) -> Shape;

/// The visits that a `trees::TreeWalk` has not passed yet, the one it stands
/// on first.
pub uninterp spec fn walk_pending(walk: TreeWalk<CharLeaf>) -> Seq<Visit>;

/// `trees::Tree::new`: a tree that holds the given data in its root and
/// nothing else.
#[verifier::external_body]
pub(crate) fn tree_new(leaf: CharLeaf) -> (tree: Tree<CharLeaf>)
    ensures
        tree_shape(tree) == lone(leaf),
{
    Tree::new(leaf)
}

/// `trees::Tree::push_back`: `child` becomes the last child of the root of
/// `tree`; what the tree held stays as it was. (The crate counts nodes in
/// `usize`, which a tree that fits in memory cannot overflow.)
#[verifier::external_body]
pub(crate) fn tree_push_back(tree: &mut Tree<CharLeaf>, child: Tree<CharLeaf>)
    ensures
        tree_shape(*final(tree)) == with_child(tree_shape(*old(tree)), tree_shape(child)),
{
    tree.push_back(child)
}

/// `trees::TreeWalk::from`: a traversal that owns `tree` and stands on the
/// first visit of its root, with the whole depth-first traversal to come.
#[verifier::external_body]
pub(crate) fn walk_from(tree: Tree<CharLeaf>) -> (walk: TreeWalk<CharLeaf>)
    ensures
        walk_pending(walk) == visits(tree_shape(tree)),
{
    TreeWalk::from(tree)
}

/// `trees::TreeWalk::get`, with `trees::Node::data` on the node it hands out:
/// the visit that the traversal stands on, or `None` once it is over.
#[verifier::external_body]
pub(crate) fn walk_get(walk: &TreeWalk<CharLeaf>) -> (visit: Option<Visit>)
    ensures
        visit == (if walk_pending(*walk).len() == 0 {
            None
        } else {
            Some(walk_pending(*walk)[0])
        }),
{
    walk.get().map(
        |visit| match visit {
            trees::walk::Visit::Begin(node) => Visit { kind: VisitKind::Begin, leaf: *node.data() },
            trees::walk::Visit::End(node) => Visit { kind: VisitKind::End, leaf: *node.data() },
            trees::walk::Visit::Leaf(node) => Visit { kind: VisitKind::Leaf, leaf: *node.data() },
        },
    )
}

/// `trees::TreeWalk::forward`: the traversal moves on to its next visit; once
/// it is over it stays over.
#[verifier::external_body]
pub(crate) fn walk_forward(walk: &mut TreeWalk<CharLeaf>)
    ensures
        walk_pending(*final(walk)) == (if walk_pending(*old(walk)).len() == 0 {
            walk_pending(*old(walk))
        } else {
            walk_pending(*old(walk)).drop_first()
        }),
{
    walk.forward()
}

} // verus!
