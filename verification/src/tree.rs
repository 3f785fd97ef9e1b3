//! What a cursor needs from the nodes it walks, and where a canonical path leads.
use vstd::prelude::*;
use crate::path::{canonical_step, lemma_strip_rights, strip_rights, trailing_rights};
use crate::step::Step;

verus! {

/// A node that can list its children.
///
/// Any type that can hand out its children, in order, can be walked by a
/// [`Zipper`](crate::zipper::Zipper). A node without children is a leaf: it returns an
/// empty list, which is not an error.
pub trait Zippable: Clone + Sized {
    /// The children of this node, in order.
    fn children(&self) -> Vec<Self>;

    /// The children of this node, as proofs speak of them. An implementation that does
    /// not say what they are leaves them to be whatever `children` returns.
    open spec fn spec_children(&self) -> Seq<Self> {
        (choose|found: Vec<Self>| call_ensures(Self::children, (self,), found))@
    }
}

/// The children of a node.
pub open spec fn children_of<T: Zippable>(node: T) -> Seq<T> {
    node.spec_children()
}

/// The walk is described over a tree that holds still: a clone of a node is that node
/// again, and whenever a node is asked for its children it returns `children_of` it.
/// Cursors are built only over node types of which this holds.
pub open spec fn obeys_tree_model<T: Zippable>() -> bool {
    &&& forall|node: T, copy: T| #[trigger] cloned(node, copy) ==> node == copy
    &&& forall|node: T, found: Vec<T>| #[trigger]
        call_ensures(T::children, (&node,), found) ==> found@ == children_of(node)
}

/// Asks a node for its children.
pub fn list_children<T: Zippable>(node: &T) -> (kids: Vec<T>)
    requires
        obeys_tree_model::<T>(),
    ensures
        kids@ == children_of(*node),
{
    node.children()
}

/// A second copy of a node.
pub fn copy_node<T: Zippable>(node: &T) -> (copy: T)
    requires
        obeys_tree_model::<T>(),
    ensures
        copy == *node,
{
    let copy = node.clone();
    assert(cloned(*node, copy));
    copy
}

/// The canonical path of the parent: what `Up` makes of a path.
pub open spec fn parent_path(trail: Seq<Step>) -> Seq<Step> {
    canonical_step(trail, Step::Up)
}

/// The last step that is not `Right` is a `Down`: the path enters a level and then
/// only moves along it.
pub open spec fn enters_level(trail: Seq<Step>) -> bool {
    strip_rights(trail).len() > 0 && strip_rights(trail).last() == Step::Down
}

/// The node to which a canonical path leads from `root`: the child of the parent's node
/// that stands as many places from the first as the path ends in `Right`s.
pub open spec fn node_at<T: Zippable>(root: T, trail: Seq<Step>) -> T
    decreases trail.len(),
{
    if trail.len() == 0 {
        root
    } else {
        proof {
            lemma_strip_rights(trail);
        }
        children_of(node_at(root, parent_path(trail)))[trailing_rights(trail) as int]
    }
}

/// The path leads to a node that exists: it is empty, or its parent's path does so and
/// that node has enough children.
pub open spec fn in_tree<T: Zippable>(root: T, trail: Seq<Step>) -> bool
    decreases trail.len(),
{
    trail.len() == 0 || {
        proof {
            lemma_strip_rights(trail);
        }
        &&& enters_level(trail)
        &&& in_tree(root, parent_path(trail))
        &&& trailing_rights(trail) < children_of(node_at(root, parent_path(trail))).len()
    }
}

/// `Down` leads from a node to its first child.
pub proof fn lemma_down<T: Zippable>(root: T, trail: Seq<Step>)
    ensures
        parent_path(trail.push(Step::Down)) == trail,
        trailing_rights(trail.push(Step::Down)) == 0,
        node_at(root, trail.push(Step::Down)) == children_of(node_at(root, trail))[0],
        in_tree(root, trail.push(Step::Down)) <==> in_tree(root, trail) && children_of(
            node_at(root, trail),
        ).len() > 0,
{
    let next = trail.push(Step::Down);
    assert(next.drop_last() == trail);
    assert(strip_rights(next) == next);
}

/// `Right` leads from a node that has a parent to its next sibling.
pub proof fn lemma_right<T: Zippable>(root: T, trail: Seq<Step>)
    requires
        trail.len() > 0,
    ensures
        parent_path(trail.push(Step::Right)) == parent_path(trail),
        trailing_rights(trail.push(Step::Right)) == trailing_rights(trail) + 1,
        node_at(root, trail.push(Step::Right)) == children_of(
            node_at(root, parent_path(trail)),
        )[trailing_rights(trail) as int + 1],
        in_tree(root, trail.push(Step::Right)) <==> in_tree(root, trail) && trailing_rights(trail)
            + 1 < children_of(node_at(root, parent_path(trail))).len(),
{
    let next = trail.push(Step::Right);
    assert(next.drop_last() == trail);
    assert(strip_rights(next) == strip_rights(trail));
}

/// Dropping the last step of a path that ends in `Right` leads to the previous sibling.
pub proof fn lemma_left<T: Zippable>(root: T, trail: Seq<Step>)
    requires
        trailing_rights(trail) > 0,
    ensures
        trail.len() > 0,
        trail.last() == Step::Right,
        in_tree(root, trail) ==> trail.len() > 1,
        parent_path(trail.drop_last()) == parent_path(trail),
        trailing_rights(trail.drop_last()) == trailing_rights(trail) - 1,
        in_tree(root, trail) ==> in_tree(root, trail.drop_last()),
        in_tree(root, trail) ==> node_at(root, trail.drop_last()) == children_of(
            node_at(root, parent_path(trail)),
        )[trailing_rights(trail) as int - 1],
{
    lemma_strip_rights(trail);
    lemma_strip_rights(trail.drop_last());
    if in_tree(root, trail) {
        assert(strip_rights(trail.drop_last()) == strip_rights(trail));
        assert(trail.drop_last().len() > 0);
    }
}

/// A path in the tree ends in `Down` or `Right`, and what remains when that step is
/// dropped is a path in the tree as well.
pub proof fn lemma_in_tree_prefix<T: Zippable>(root: T, trail: Seq<Step>)
    requires
        in_tree(root, trail),
        trail.len() > 0,
    ensures
        in_tree(root, trail.drop_last()),
        trail.last() == Step::Down || trail.last() == Step::Right,
        trail.last() == Step::Down ==> parent_path(trail) == trail.drop_last(),
        trail.last() == Step::Right ==> trail.len() > 1,
{
    lemma_strip_rights(trail);
    if trail.last() == Step::Right {
        lemma_left(root, trail);
    } else {
        assert(strip_rights(trail) == trail);
    }
}

} // verus!
