//! The walk as mathematics: where a cursor stands, and what each move makes of it.
use vstd::prelude::*;
use crate::path::{canonical_step, lemma_strip_rights, strip_rights, trailing_rights};
use crate::step::{Step, ZipperErr};
use crate::tree::{
    children_of, in_tree, lemma_down, lemma_in_tree_prefix, lemma_left, lemma_right, node_at,
    parent_path, Zippable,
};

verus! {

/// What a cursor is, to the eye of a proof.
///
/// The node under the cursor, its place among its siblings and its ancestors all follow
/// from the root and the canonical path, so the model keeps only those two, the journey,
/// and the set of paths whose positions have been memoised.
pub struct ZipperView<T> {
    /// The node the walk began on.
    pub root: T,
    /// The canonical path from the root to where the cursor stands.
    pub path: Seq<Step>,
    /// Every step taken, in the order taken.
    pub journey: Seq<Step>,
    /// The paths under which a position is memoised.
    pub cached: Set<Seq<Step>>,
}

/// Every memoised path is a real, non-root position of the tree.
pub open spec fn sound<T: Zippable>(root: T, cached: Set<Seq<Step>>) -> bool {
    forall|key: Seq<Step>| #[trigger] cached.contains(key) ==> key.len() > 0 && in_tree(root, key)
}

/// Every non-empty beginning of the path is memoised: the position itself, each of its
/// ancestors below the root, and every sibling that was passed on the way.
pub open spec fn complete(cached: Set<Seq<Step>>, path: Seq<Step>) -> bool {
    forall|n: int| 0 < n <= path.len() ==> cached.contains(#[trigger] path.take(n))
}

impl<T: Zippable> ZipperView<T> {
    /// A cursor on `root` that has not moved and has memoised nothing.
    pub open spec fn fresh(root: T) -> Self {
        ZipperView { root, path: Seq::empty(), journey: Seq::empty(), cached: Set::empty() }
    }

    /// The node under the cursor.
    pub open spec fn node(self) -> T {
        node_at(self.root, self.path)
    }

    /// Whether the cursor stands below the root.
    pub open spec fn has_parent(self) -> bool {
        self.path.len() > 0
    }

    /// The place of the node among its siblings, counted from zero; none at the root.
    pub open spec fn index(self) -> Option<nat> {
        if self.has_parent() {
            Some(trailing_rights(self.path))
        } else {
            None
        }
    }

    /// The node of the parent; meaningful only below the root.
    pub open spec fn parent_node(self) -> T {
        node_at(self.root, parent_path(self.path))
    }

    /// What holds of every cursor: it stands on a node of the tree, its path is no
    /// longer than its journey, and its memo is sound and complete for where it stands.
    pub open spec fn wf(self) -> bool {
        &&& in_tree(self.root, self.path)
        &&& self.path.len() <= self.journey.len()
        &&& sound(self.root, self.cached)
        &&& complete(self.cached, self.path)
    }

    /// The cursor after a step in `direction` that ends on `target`.
    pub open spec fn arrive(self, direction: Step, target: Seq<Step>) -> Self {
        ZipperView { path: target, journey: self.journey.push(direction), ..self }
    }

    /// The same cursor with one more memoised path.
    pub open spec fn remember(self, key: Seq<Step>) -> Self {
        ZipperView { cached: self.cached.insert(key), ..self }
    }

    /// To the first child. A memoised target is taken from the memo; otherwise the node
    /// is asked for its children, the first one is entered and memoised, and a leaf
    /// refuses.
    pub open spec fn down(self) -> Result<Self, ZipperErr> {
        let target = canonical_step(self.path, Step::Down);
        if self.cached.contains(target) {
            Ok(self.arrive(Step::Down, target))
        } else if children_of(self.node()).len() > 0 {
            Ok(self.arrive(Step::Down, target).remember(target))
        } else {
            Err(ZipperErr::CannotGoDown)
        }
    }

    /// To the parent, which the root does not have. The memo is neither asked nor
    /// changed.
    pub open spec fn up(self) -> Result<Self, ZipperErr> {
        if self.has_parent() {
            Ok(self.arrive(Step::Up, canonical_step(self.path, Step::Up)))
        } else {
            Err(ZipperErr::CannotGoUp)
        }
    }

    /// To the next sibling. The root has none; below it a memoised target is taken from
    /// the memo, and otherwise the parent is asked for the child one place further,
    /// which is entered and memoised if it exists.
    pub open spec fn right(self) -> Result<Self, ZipperErr> {
        let target = canonical_step(self.path, Step::Right);
        if !self.has_parent() {
            Err(ZipperErr::CannotGoRight)
        } else if self.cached.contains(target) {
            Ok(self.arrive(Step::Right, target))
        } else if trailing_rights(self.path) + 1 < children_of(self.parent_node()).len() {
            Ok(self.arrive(Step::Right, target).remember(target))
        } else {
            Err(ZipperErr::CannotGoRight)
        }
    }

    /// To the previous sibling. The root and every first child have none; elsewhere a
    /// memoised target is taken from the memo, and otherwise the parent is asked for
    /// the child one place nearer, which is entered and memoised.
    pub open spec fn left(self) -> Result<Self, ZipperErr> {
        let target = canonical_step(self.path, Step::Left);
        if !self.has_parent() || trailing_rights(self.path) == 0 {
            Err(ZipperErr::CannotGoLeft)
        } else if self.cached.contains(target) {
            Ok(self.arrive(Step::Left, target))
        } else if trailing_rights(self.path) - 1 < children_of(self.parent_node()).len() {
            Ok(self.arrive(Step::Left, target).remember(target))
        } else {
            Err(ZipperErr::CannotGoLeft)
        }
    }

    /// To where the path stood one step earlier. A memoised target is taken from the
    /// memo; an unmemoised one is reached only when it is the root, from a cursor that
    /// has a parent. Nothing is memoised.
    pub open spec fn back(self) -> Result<Self, ZipperErr> {
        let target = canonical_step(self.path, Step::Back);
        if self.cached.contains(target) {
            Ok(self.arrive(Step::Back, target))
        } else if target.len() == 0 && self.has_parent() {
            Ok(self.arrive(Step::Back, target))
        } else {
            Err(ZipperErr::CannotGoBack)
        }
    }

    /// One step in the given direction.
    pub open spec fn step(self, direction: Step) -> Result<Self, ZipperErr> {
        match direction {
            Step::Up => self.up(),
            Step::Down => self.down(),
            Step::Left => self.left(),
            Step::Right => self.right(),
            Step::Back => self.back(),
        }
    }

    /// The steps one after the other, from the first. The first step that cannot be
    /// taken ends the walk with its error, and no later step is tried.
    pub open spec fn travel(self, steps: Seq<Step>) -> Result<Self, ZipperErr>
        decreases steps.len(),
    {
        if steps.len() == 0 {
            Ok(self)
        } else {
            match self.step(steps.first()) {
                Ok(next) => next.travel(steps.drop_first()),
                Err(e) => Err(e),
            }
        }
    }
}

/// A beginning of a beginning is a beginning.
pub proof fn lemma_take_take(path: Seq<Step>, n: int, m: int)
    requires
        0 <= m <= n <= path.len(),
    ensures
        path.take(n).take(m) == path.take(m),
{
}

/// A memo that is complete for a path is complete for each of its beginnings.
pub proof fn lemma_complete_take(cached: Set<Seq<Step>>, path: Seq<Step>, n: int)
    requires
        complete(cached, path),
        0 <= n <= path.len(),
    ensures
        complete(cached, path.take(n)),
{
    assert forall|m: int| 0 < m <= path.take(n).len() implies cached.contains(
        #[trigger] path.take(n).take(m),
    ) by {
        lemma_take_take(path, n, m);
        assert(cached.contains(path.take(m)));
    }
}

/// A memo that is complete for a path and holds the path one step longer is complete
/// for that one too.
pub proof fn lemma_complete_push(cached: Set<Seq<Step>>, path: Seq<Step>, step: Step)
    requires
        complete(cached, path),
        cached.contains(path.push(step)),
    ensures
        complete(cached, path.push(step)),
{
    let longer = path.push(step);
    assert forall|m: int| 0 < m <= longer.len() implies cached.contains(
        #[trigger] longer.take(m),
    ) by {
        if m == longer.len() {
            assert(longer.take(m) == longer);
        } else {
            assert(longer.take(m) == path.take(m));
        }
    }
}

/// What `Up` makes of a path is one of its beginnings.
pub proof fn lemma_parent_is_prefix(path: Seq<Step>)
    ensures
        parent_path(path).len() <= path.len(),
        path.len() > 0 ==> parent_path(path).len() < path.len(),
        parent_path(path) == path.take(parent_path(path).len() as int),
{
    lemma_strip_rights(path);
    let stripped = strip_rights(path);
    if stripped.len() > 0 {
        let n = stripped.len() as int;
        assert(stripped.drop_last() == path.take(n).take(n - 1));
        lemma_take_take(path, n, n - 1);
    } else {
        assert(path.take(0) == Seq::<Step>::empty());
    }
}

/// From a leaf `Down` fails; from any other node it leads to the first child.
pub proof fn lemma_down_outcome<T: Zippable>(from: ZipperView<T>)
    requires
        from.wf(),
    ensures
        children_of(from.node()).len() == 0 ==> from.down() == Err::<ZipperView<T>, ZipperErr>(
            ZipperErr::CannotGoDown,
        ),
        children_of(from.node()).len() > 0 ==> (from.down() matches Ok(to) && to.wf() && to.root
            == from.root && to.path == from.path.push(Step::Down) && to.journey
            == from.journey.push(Step::Down) && to.node() == children_of(from.node())[0]
            && to.cached == from.cached.insert(to.path)),
{
    let target = from.path.push(Step::Down);
    lemma_down(from.root, from.path);
    if from.cached.contains(target) {
        assert(from.cached.insert(target) == from.cached);
    }
    if children_of(from.node()).len() > 0 {
        let to = from.down()->Ok_0;
        lemma_complete_push(to.cached, from.path, Step::Down);
        assert forall|n: int| 0 < n <= from.path.len() implies to.cached.contains(
            #[trigger] from.path.take(n),
        ) by {
            assert(from.cached.contains(from.path.take(n)));
        }
    }
}

/// From the root `Up` fails; from any other node it leads to the parent and leaves the
/// memo as it was.
pub proof fn lemma_up_outcome<T: Zippable>(from: ZipperView<T>)
    requires
        from.wf(),
    ensures
        !from.has_parent() ==> from.up() == Err::<ZipperView<T>, ZipperErr>(
            ZipperErr::CannotGoUp,
        ),
        from.has_parent() ==> (from.up() matches Ok(to) && to.wf() && to.root == from.root
            && to.path == parent_path(from.path) && to.journey == from.journey.push(Step::Up)
            && to.node() == from.parent_node() && to.cached == from.cached),
{
    if from.has_parent() {
        lemma_parent_is_prefix(from.path);
        lemma_complete_take(from.cached, from.path, parent_path(from.path).len() as int);
    }
}

/// `Right` fails at the root and at a last child; from any other node it leads to the
/// next sibling.
pub proof fn lemma_right_outcome<T: Zippable>(from: ZipperView<T>)
    requires
        from.wf(),
    ensures
        !from.has_parent() || trailing_rights(from.path) + 1 >= children_of(
            from.parent_node(),
        ).len() ==> from.right() == Err::<ZipperView<T>, ZipperErr>(ZipperErr::CannotGoRight),
        from.has_parent() && trailing_rights(from.path) + 1 < children_of(
            from.parent_node(),
        ).len() ==> (from.right() matches Ok(to) && to.wf() && to.root == from.root && to.path
            == from.path.push(Step::Right) && to.journey == from.journey.push(Step::Right)
            && to.node() == children_of(from.parent_node())[trailing_rights(from.path) as int + 1]
            && to.cached == from.cached.insert(to.path)),
{
    let target = from.path.push(Step::Right);
    if from.has_parent() {
        lemma_right(from.root, from.path);
        if from.cached.contains(target) {
            assert(from.cached.insert(target) == from.cached);
        }
        if trailing_rights(from.path) + 1 < children_of(from.parent_node()).len() {
            let to = from.right()->Ok_0;
            assert forall|n: int| 0 < n <= from.path.len() implies to.cached.contains(
                #[trigger] from.path.take(n),
            ) by {
                assert(from.cached.contains(from.path.take(n)));
            }
            lemma_complete_push(to.cached, from.path, Step::Right);
        }
    }
}

/// `Left` fails at the root and at a first child; from any other node it leads to the
/// previous sibling.
pub proof fn lemma_left_outcome<T: Zippable>(from: ZipperView<T>)
    requires
        from.wf(),
    ensures
        !from.has_parent() || trailing_rights(from.path) == 0 ==> from.left() == Err::<
            ZipperView<T>,
            ZipperErr,
        >(ZipperErr::CannotGoLeft),
        from.has_parent() && trailing_rights(from.path) > 0 ==> (from.left() matches Ok(to)
            && to.wf() && to.root == from.root && to.path == from.path.drop_last() && to.journey
            == from.journey.push(Step::Left) && to.node() == children_of(
            from.parent_node(),
        )[trailing_rights(from.path) as int - 1] && to.cached == from.cached),
{
    if from.has_parent() && trailing_rights(from.path) > 0 {
        lemma_left(from.root, from.path);
        let target = from.path.drop_last();
        assert(target == from.path.take(from.path.len() - 1));
        assert(from.cached.contains(target));
        lemma_complete_take(from.cached, from.path, from.path.len() - 1);
    }
}

/// `Back` fails at the root; from any other node it leads to where the path stood one
/// step earlier, and leaves the memo as it was.
pub proof fn lemma_back_outcome<T: Zippable>(from: ZipperView<T>)
    requires
        from.wf(),
    ensures
        !from.has_parent() ==> from.back() == Err::<ZipperView<T>, ZipperErr>(
            ZipperErr::CannotGoBack,
        ),
        from.has_parent() ==> (from.back() matches Ok(to) && to.wf() && to.root == from.root
            && to.path == from.path.drop_last() && to.journey == from.journey.push(Step::Back)
            && to.cached == from.cached),
{
    if from.has_parent() {
        let target = from.path.drop_last();
        assert(target == from.path.take(from.path.len() - 1));
        lemma_in_tree_prefix(from.root, from.path);
        lemma_complete_take(from.cached, from.path, from.path.len() - 1);
        if target.len() > 0 {
            assert(from.cached.contains(target));
        }
    } else {
        assert(canonical_step(from.path, Step::Back) == from.path);
    }
}

/// Whatever the direction, a step that succeeds leaves a cursor of which all holds that
/// held before: it stays in the same tree, and its journey has grown by that step.
pub proof fn lemma_step_keeps_wf<T: Zippable>(from: ZipperView<T>, direction: Step)
    requires
        from.wf(),
    ensures
        from.step(direction) matches Ok(to) ==> (to.wf() && to.root == from.root && to.path
            == canonical_step(from.path, direction) && to.journey == from.journey.push(
            direction,
        ) && from.cached.subset_of(to.cached)),
{
    lemma_down_outcome(from);
    lemma_up_outcome(from);
    lemma_right_outcome(from);
    lemma_left_outcome(from);
    lemma_back_outcome(from);
}

} // verus!
