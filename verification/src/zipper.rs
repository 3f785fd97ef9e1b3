//! The cursor and its moves.
use vstd::prelude::*;
use std::rc::Rc;
use crate::cache::{mirrors, PositionCache};
use crate::history::History;
use crate::model::{
    complete, lemma_complete_push, lemma_complete_take, lemma_parent_is_prefix,
    lemma_step_keeps_wf, ZipperView,
};
use crate::path::{canonical_step, lemma_strip_rights, path_clone, trailing_rights};
pub use crate::step::{Step, ZipperErr};
pub use crate::tree::Zippable;
use crate::tree::{
    children_of, copy_node, enters_level, in_tree, lemma_down, lemma_in_tree_prefix, lemma_left,
    lemma_right, list_children, node_at, obeys_tree_model, parent_path,
};

verus! {

/// A position as it was when a cursor stood on it: the node, the history that led
/// there, the place among the siblings, and the same of the parent.
///
/// Snapshots are never changed, so any number of cursors and memo entries can share
/// one chain of ancestors.
#[derive(Debug)]
pub struct Snapshot<T: Zippable> {
    node: T,
    history: History,
    parent: Option<Rc<Snapshot<T>>>,
    index_in_parent: Option<usize>,
}

impl<T: Zippable> Snapshot<T> {
    /// The canonical path that led to this position.
    pub closed spec fn path(self) -> Seq<Step> {
        self.history.path_view()
    }

    /// The node at the upper end of the chain of ancestors.
    pub closed spec fn root(self) -> T
        decreases self,
    {
        match self.parent {
            None => self.node,
            Some(parent) => parent.root(),
        }
    }

    /// The chain of ancestors is a real one. The root has neither parent nor index and
    /// an empty path. Every other position is the child of its parent that its index
    /// names, and its path is the parent's path, one `Down`, and one `Right` for each
    /// sibling before it.
    pub closed spec fn wf(self) -> bool
        decreases self,
    {
        match self.parent {
            None => self.index_in_parent is None && self.path().len() == 0,
            Some(parent) => {
                &&& self.index_in_parent matches Some(index)
                &&& parent.wf()
                &&& enters_level(self.path())
                &&& parent_path(self.path()) == parent.path()
                &&& trailing_rights(self.path()) == index
                &&& index < children_of(parent.node).len()
                &&& self.node == children_of(parent.node)[index as int]
            },
        }
    }

    /// A well-formed position is where its path leads from its root.
    proof fn lemma_located(&self)
        requires
            self.wf(),
        ensures
            in_tree(self.root(), self.path()),
            self.node == node_at(self.root(), self.path()),
            self.parent is Some <==> self.path().len() > 0,
        decreases self,
    {
        match self.parent {
            None => {},
            Some(parent) => {
                parent.lemma_located();
                lemma_strip_rights(self.path());
            },
        }
    }
}

impl<T: Zippable> Snapshot<T> {
    /// Two snapshots of one position: they differ at most in the journey they record.
    pub closed spec fn same_place(self, other: Self) -> bool {
        &&& self.node == other.node
        &&& self.parent == other.parent
        &&& self.index_in_parent == other.index_in_parent
        &&& self.path() == other.path()
    }

    /// Every snapshot stands on its own place.
    pub proof fn lemma_same_place_is_reflexive(&self)
        ensures
            self.same_place(*self),
    {
    }

    /// What makes a snapshot well-formed does not look at its journey.
    proof fn lemma_same_place(&self, other: &Self)
        requires
            self.same_place(*other),
        ensures
            self.wf() == other.wf(),
            self.root() == other.root(),
    {
    }
}

/// `Rc::clone`: another handle on the same value, which is not copied.
#[verifier::external_body]
fn share<V>(handle: &Rc<V>) -> (second: Rc<V>)
    ensures
        second == *handle,
{
    Rc::clone(handle)
}

impl<T: Zippable> Clone for Snapshot<T> {
    /// A second snapshot of the same position, with the same ancestors behind it.
    fn clone(&self) -> (copy: Self)
        ensures
            obeys_tree_model::<T>() ==> copy.same_place(*self),
    {
        let node = self.node.clone();
        assert(cloned(self.node, node));
        Snapshot {
            node,
            history: self.history.clone(),
            parent: share_parent(&self.parent),
            index_in_parent: self.index_in_parent,
        }
    }
}

/// Another handle on the same parent, where there is one.
fn share_parent<T: Zippable>(parent: &Option<Rc<Snapshot<T>>>) -> (handle: Option<
    Rc<Snapshot<T>>,
>)
    ensures
        handle == *parent,
{
    match parent {
        Some(snapshot) => Some(share(snapshot)),
        None => None,
    }
}

/// The table behind a handle, to be changed: the table itself where no other cursor
/// holds it, and a copy of it where one does.
fn own_table<T: Zippable>(cache: Rc<PositionCache<T>>) -> (table: PositionCache<T>)
    requires
        obeys_tree_model::<T>(),
    ensures
        mirrors(table@, cache@),
{
    match Rc::try_unwrap(cache) {
        Ok(table) => table,
        Err(shared) => (*shared).clone(),
    }
}

/// What came of a move, in the model: the model of the new cursor, or the error.
pub open spec fn outcome<T: Zippable>(moved: Result<Zipper<T>, ZipperErr>) -> Result<
    ZipperView<T>,
    ZipperErr,
> {
    match moved {
        Ok(to) => Ok(to@),
        Err(e) => Err(e),
    }
}

/// Makes a cursor of a node: implemented for every [`Zippable`] type.
pub trait ToZipper: Zippable {
    /// A cursor that stands on a copy of this node, as the root of the walk.
    fn zipper(&self) -> (cursor: Zipper<Self>)
        requires
            obeys_tree_model::<Self>(),
        ensures
            cursor.wf(),
            cursor@ == ZipperView::fresh(*self),
            cursor.focus() == *self,
    ;
}

impl<T: Zippable> ToZipper for T {
    fn zipper(&self) -> (cursor: Zipper<Self>) {
        Zipper::new(copy_node(self))
    }
}

/// A cursor over a tree of [`Zippable`] nodes.
///
/// The tree has its root at the top and grows wider towards the bottom. A cursor starts
/// at the root, so at first it can only go down.
#[derive(Debug)]
pub struct Zipper<T: Zippable> {
    /// The node under the cursor.
    pub node: T,
    history: History,
    parent: Option<Rc<Snapshot<T>>>,
    index_in_parent: Option<usize>,
    cache: Rc<PositionCache<T>>,
}

impl<T: Zippable> Clone for Zipper<T> {
    /// A second cursor on the same place, with the same history. The two share their
    /// ancestors and, until one of them memoises a new position, their memo.
    fn clone(&self) -> (copy: Self)
        ensures
            self.wf() ==> copy.wf() && copy@ == self@ && copy.focus() == self.focus(),
    {
        let node = self.node.clone();
        assert(cloned(self.node, node));
        let copy = Zipper {
            node,
            history: self.history.clone(),
            parent: share_parent(&self.parent),
            index_in_parent: self.index_in_parent,
            cache: share(&self.cache),
        };
        proof {
            if self.wf() {
                copy.here().lemma_same_place(&self.here());
                self.lemma_moved(&copy);
            }
        }
        copy
    }
}

impl<T: Zippable> View for Zipper<T> {
    type V = ZipperView<T>;

    closed spec fn view(&self) -> ZipperView<T> {
        ZipperView {
            root: self.here().root(),
            path: self.history.path_view(),
            journey: self.history.journey_view(),
            cached: self.cache@.dom(),
        }
    }
}

impl<T: Zippable> Zipper<T> {
    /// The position the cursor stands on.
    spec fn here(self) -> Snapshot<T> {
        Snapshot {
            node: self.node,
            history: self.history,
            parent: self.parent,
            index_in_parent: self.index_in_parent,
        }
    }

    /// The node under the cursor.
    pub closed spec fn focus(self) -> T {
        self.node
    }

    /// The entry under `key` is the position to which `key` leads in this cursor's tree.
    spec fn memo_ok(self, key: Seq<Step>) -> bool {
        let memo = self.cache@[key];
        &&& key.len() > 0
        &&& memo.wf()
        &&& memo.root() == self.here().root()
        &&& memo.path() == key
    }

    /// What every cursor satisfies: the tree holds still, the cursor stands where its
    /// path leads, every memo entry is the position its key leads to, and the memo is
    /// complete for the path.
    pub closed spec fn wf(self) -> bool {
        &&& obeys_tree_model::<T>()
        &&& self.here().wf()
        &&& self.history.wf()
        &&& forall|key: Seq<Step>| #[trigger] self.cache@.contains_key(key) ==> self.memo_ok(key)
        &&& complete(self.cache@.dom(), self.history.path_view())
    }

    /// A well-formed cursor has a well-formed model, and its node is the model's.
    pub proof fn lemma_view(&self)
        requires
            self.wf(),
        ensures
            obeys_tree_model::<T>(),
            self@.wf(),
            self.focus() == self@.node(),
    {
        self.here().lemma_located();
        assert forall|key: Seq<Step>| #[trigger] self@.cached.contains(key) implies key.len() > 0
            && in_tree(self@.root, key) by {
            assert(self.cache@.contains_key(key));
            assert(self.memo_ok(key));
            self.cache@[key].lemma_located();
        }
    }

    /// A cursor on `root` that has not moved.
    pub fn new(root: T) -> (cursor: Self)
        requires
            obeys_tree_model::<T>(),
        ensures
            cursor.wf(),
            cursor@ == ZipperView::fresh(root),
            cursor.focus() == root,
    {
        let cursor = Zipper {
            node: root,
            parent: None,
            index_in_parent: None,
            history: History::new(),
            cache: Rc::new(PositionCache::new()),
        };
        assert(cursor@.cached =~= Set::<Seq<Step>>::empty());
        cursor
    }

    /// A cursor that was reached without a change to the memo is well-formed where it
    /// stands in the same tree and the memo is complete for its path.
    proof fn lemma_moved(&self, to: &Self)
        requires
            self.wf(),
            to.cache == self.cache,
            to.here().wf(),
            to.here().root() == self.here().root(),
            to.history.wf(),
            complete(self.cache@.dom(), to.history.path_view()),
        ensures
            to.wf(),
            to@.root == self@.root,
            to@.cached == self@.cached,
            to.focus() == to@.node(),
    {
        assert forall|key: Seq<Step>| #[trigger] to.cache@.contains_key(key) implies to.memo_ok(
            key,
        ) by {
            assert(self.memo_ok(key));
        }
        to.lemma_view();
    }

    /// A cursor that was reached by memoising its own position is well-formed where it
    /// stands in the same tree, one step beyond a path for which the memo was complete.
    proof fn lemma_memoised(&self, to: &Self, before: PositionCache<T>, memo: Snapshot<T>)
        requires
            self.wf(),
            to.history.path_view().len() > 0,
            mirrors(before@, self.cache@),
            to.cache@ == before@.insert(to.history.path_view(), memo),
            to.here().same_place(memo),
            to.here().wf(),
            to.here().root() == self.here().root(),
            to.history.wf(),
            complete(self.cache@.dom(), to.history.path_view().drop_last()),
        ensures
            to.wf(),
            to@.root == self@.root,
            to@.cached == self@.cached.insert(to@.path),
            to.focus() == to@.node(),
    {
        let target = to.history.path_view();
        let step = target.last();
        assert(target == target.drop_last().push(step));
        assert(to.cache@.dom() =~= self.cache@.dom().insert(target));
        assert forall|n: int| 0 < n <= target.drop_last().len() implies to.cache@.dom().contains(
            #[trigger] target.drop_last().take(n),
        ) by {
            assert(self.cache@.dom().contains(target.drop_last().take(n)));
        }
        lemma_complete_push(to.cache@.dom(), target.drop_last(), step);
        to.here().lemma_same_place(&memo);
        assert forall|key: Seq<Step>| #[trigger] to.cache@.contains_key(key) implies to.memo_ok(
            key,
        ) by {
            if key != target {
                assert(before@.contains_key(key));
                assert(self.memo_ok(key));
                before@[key].lemma_same_place(&self.cache@[key]);
            }
        }
        to.lemma_view();
    }

    /// Moves down to the first child of the node, or fails with `CannotGoDown` where the
    /// node has no children.
    pub fn down(self) -> (moved: Result<Zipper<T>, ZipperErr>)
        requires
            self.wf(),
            self@.journey.len() < usize::MAX,
        ensures
            outcome(moved) == self@.down(),
            moved matches Ok(to) ==> to.wf(),
            moved is Ok <==> children_of(self.focus()).len() > 0,
            moved matches Ok(to) ==> to.focus() == children_of(self.focus())[0],
            moved matches Err(e) ==> e == ZipperErr::CannotGoDown,
    {
        proof {
            self.lemma_view();
            lemma_down(self@.root, self@.path);
        }
        let ghost target = self@.path.push(Step::Down);
        let next_history = self.history.clone().step(Step::Down);
        match self.cache.find(next_history.canonical()) {
            Some(found) => {
                let node = copy_node(&found.node);
                let parent = share_parent(&found.parent);
                let index_in_parent = found.index_in_parent;
                proof {
                    assert(self.memo_ok(target));
                    found.lemma_located();
                }
                let to = Zipper {
                    node,
                    history: next_history,
                    parent,
                    index_in_parent,
                    cache: self.cache,
                };
                proof {
                    to.here().lemma_same_place(found);
                    lemma_complete_push(self.cache@.dom(), self@.path, Step::Down);
                    self.lemma_moved(&to);
                    assert(to@ == self@.down()->Ok_0);
                }
                Ok(to)
            },
            None => {
                let mut kids = list_children(&self.node);
                if kids.len() > 0 {
                    let first = kids.swap_remove(0);
                    let key = path_clone(next_history.canonical());
                    let above = Rc::new(
                        Snapshot {
                            node: self.node,
                            history: self.history,
                            parent: self.parent,
                            index_in_parent: self.index_in_parent,
                        },
                    );
                    let memo = Snapshot {
                        node: copy_node(&first),
                        history: next_history.clone(),
                        parent: Some(share(&above)),
                        index_in_parent: Some(0),
                    };
                    let mut cache = own_table(self.cache);
                    let ghost before = cache;
                    cache.insert(key, memo);
                    let to = Zipper {
                        node: first,
                        history: next_history,
                        parent: Some(above),
                        index_in_parent: Some(0),
                        cache: Rc::new(cache),
                    };
                    proof {
                        assert(*above == self.here());
                        assert(target.drop_last() == self@.path);
                        self.lemma_memoised(&to, before, memo);
                        assert(to@ == self@.down()->Ok_0);
                    }
                    Ok(to)
                } else {
                    Err(ZipperErr::CannotGoDown)
                }
            },
        }
    }

    /// Moves up to the parent of the node, or fails with `CannotGoUp` at the root.
    pub fn up(self) -> (moved: Result<Zipper<T>, ZipperErr>)
        requires
            self.wf(),
            self@.journey.len() < usize::MAX,
        ensures
            outcome(moved) == self@.up(),
            moved matches Ok(to) ==> to.wf(),
            moved is Ok <==> self@.has_parent(),
            moved matches Ok(to) ==> to.focus() == self@.parent_node(),
            moved matches Err(e) ==> e == ZipperErr::CannotGoUp,
    {
        proof {
            self.lemma_view();
            self.here().lemma_located();
        }
        match &self.parent {
            Some(parent) => {
                let node = copy_node(&parent.node);
                let above = share_parent(&parent.parent);
                let index_in_parent = parent.index_in_parent;
                let to = Zipper {
                    node,
                    history: self.history.step(Step::Up),
                    parent: above,
                    index_in_parent,
                    cache: self.cache,
                };
                proof {
                    to.here().lemma_same_place(parent);
                    lemma_parent_is_prefix(self@.path);
                    lemma_complete_take(
                        self.cache@.dom(),
                        self@.path,
                        parent_path(self@.path).len() as int,
                    );
                    self.lemma_moved(&to);
                    assert(to@ == self@.up()->Ok_0);
                }
                Ok(to)
            },
            None => Err(ZipperErr::CannotGoUp),
        }
    }

    /// Moves right to the next sibling of the node, or fails with `CannotGoRight` at
    /// the root and at a last child.
    pub fn right(self) -> (moved: Result<Zipper<T>, ZipperErr>)
        requires
            self.wf(),
            self@.journey.len() < usize::MAX,
        ensures
            outcome(moved) == self@.right(),
            moved matches Ok(to) ==> to.wf(),
            moved is Ok <==> self@.has_parent() && trailing_rights(self@.path) + 1 < children_of(
                self@.parent_node(),
            ).len(),
            moved matches Ok(to) ==> to.focus() == children_of(
                self@.parent_node(),
            )[trailing_rights(self@.path) as int + 1],
            moved matches Err(e) ==> e == ZipperErr::CannotGoRight,
    {
        proof {
            self.lemma_view();
            self.here().lemma_located();
        }
        let parent = match &self.parent {
            Some(parent) => share(parent),
            None => {
                return Err(ZipperErr::CannotGoRight);
            },
        };
        let index = match self.index_in_parent {
            Some(index) => index,
            None => {
                return Err(ZipperErr::CannotGoRight);
            },
        };
        proof {
            parent.lemma_located();
            lemma_right(self@.root, self@.path);
        }
        let ghost target = self@.path.push(Step::Right);
        let next_history = self.history.clone().step(Step::Right);
        match self.cache.find(next_history.canonical()) {
            Some(found) => {
                let node = copy_node(&found.node);
                let above = share_parent(&found.parent);
                let index_in_parent = found.index_in_parent;
                proof {
                    assert(self.memo_ok(target));
                    found.lemma_located();
                }
                let to = Zipper {
                    node,
                    history: next_history,
                    parent: above,
                    index_in_parent,
                    cache: self.cache,
                };
                proof {
                    to.here().lemma_same_place(found);
                    lemma_complete_push(self.cache@.dom(), self@.path, Step::Right);
                    self.lemma_moved(&to);
                    assert(to@ == self@.right()->Ok_0);
                }
                Ok(to)
            },
            None => {
                let mut siblings = list_children(&parent.node);
                assert(index < siblings.len());
                let right_index = index + 1;
                if right_index < siblings.len() {
                    let right = siblings.swap_remove(right_index);
                    let key = path_clone(next_history.canonical());
                    let memo = Snapshot {
                        node: copy_node(&right),
                        history: next_history.clone(),
                        parent: Some(share(&parent)),
                        index_in_parent: Some(right_index),
                    };
                    let mut cache = own_table(self.cache);
                    let ghost before = cache;
                    cache.insert(key, memo);
                    let to = Zipper {
                        node: right,
                        history: next_history,
                        parent: Some(parent),
                        index_in_parent: Some(right_index),
                        cache: Rc::new(cache),
                    };
                    proof {
                        assert(target.drop_last() == self@.path);
                        self.lemma_memoised(&to, before, memo);
                        assert(to@ == self@.right()->Ok_0);
                    }
                    Ok(to)
                } else {
                    Err(ZipperErr::CannotGoRight)
                }
            },
        }
    }

    /// Moves left to the previous sibling of the node, or fails with `CannotGoLeft` at
    /// the root and at a first child.
    pub fn left(self) -> (moved: Result<Zipper<T>, ZipperErr>)
        requires
            self.wf(),
            self@.journey.len() < usize::MAX,
        ensures
            outcome(moved) == self@.left(),
            moved matches Ok(to) ==> to.wf(),
            moved is Ok <==> self@.has_parent() && trailing_rights(self@.path) > 0,
            moved matches Ok(to) ==> to.focus() == children_of(
                self@.parent_node(),
            )[trailing_rights(self@.path) as int - 1],
            moved matches Err(e) ==> e == ZipperErr::CannotGoLeft,
    {
        proof {
            self.lemma_view();
            self.here().lemma_located();
        }
        let parent = match &self.parent {
            Some(parent) => share(parent),
            None => {
                return Err(ZipperErr::CannotGoLeft);
            },
        };
        let index = match self.index_in_parent {
            Some(index) => index,
            None => {
                return Err(ZipperErr::CannotGoLeft);
            },
        };
        if index == 0 {
            return Err(ZipperErr::CannotGoLeft);
        }
        proof {
            parent.lemma_located();
            lemma_left(self@.root, self@.path);
            assert(self@.path.drop_last() == self@.path.take(self@.path.len() - 1));
            lemma_complete_take(self.cache@.dom(), self@.path, self@.path.len() - 1);
        }
        let ghost target = self@.path.drop_last();
        let next_history = self.history.clone().step(Step::Left);
        match self.cache.find(next_history.canonical()) {
            Some(found) => {
                let node = copy_node(&found.node);
                let above = share_parent(&found.parent);
                let index_in_parent = found.index_in_parent;
                proof {
                    assert(self.memo_ok(target));
                    found.lemma_located();
                }
                let to = Zipper {
                    node,
                    history: next_history,
                    parent: above,
                    index_in_parent,
                    cache: self.cache,
                };
                proof {
                    to.here().lemma_same_place(found);
                    self.lemma_moved(&to);
                    assert(to@ == self@.left()->Ok_0);
                }
                Ok(to)
            },
            None => {
                // The way to this node led over the previous sibling, so a complete memo
                // holds it. A memo without it is served like any other miss.
                let mut siblings = list_children(&parent.node);
                let left_index = index - 1;
                if left_index < siblings.len() {
                    let left = siblings.swap_remove(left_index);
                    let key = path_clone(next_history.canonical());
                    let memo = Snapshot {
                        node: copy_node(&left),
                        history: next_history.clone(),
                        parent: Some(share(&parent)),
                        index_in_parent: Some(left_index),
                    };
                    let mut cache = own_table(self.cache);
                    let ghost before = cache;
                    cache.insert(key, memo);
                    let to = Zipper {
                        node: left,
                        history: next_history,
                        parent: Some(parent),
                        index_in_parent: Some(left_index),
                        cache: Rc::new(cache),
                    };
                    Ok(to)
                } else {
                    Err(ZipperErr::CannotGoLeft)
                }
            },
        }
    }

    /// Moves back to where the canonical path stood one step earlier, or fails with
    /// `CannotGoBack` at the root.
    pub fn back(self) -> (moved: Result<Zipper<T>, ZipperErr>)
        requires
            self.wf(),
            self@.journey.len() < usize::MAX,
        ensures
            outcome(moved) == self@.back(),
            moved matches Ok(to) ==> to.wf(),
            moved is Ok <==> self@.has_parent(),
            moved matches Ok(to) ==> to.focus() == node_at(self@.root, self@.path.drop_last()),
            moved matches Err(e) ==> e == ZipperErr::CannotGoBack,
    {
        proof {
            self.lemma_view();
            self.here().lemma_located();
            if self@.has_parent() {
                assert(self@.path.drop_last() == self@.path.take(self@.path.len() - 1));
                lemma_complete_take(self.cache@.dom(), self@.path, self@.path.len() - 1);
                lemma_in_tree_prefix(self@.root, self@.path);
            }
        }
        let ghost target = canonical_step(self@.path, Step::Back);
        let next_history = self.history.clone().step(Step::Back);
        match self.cache.find(next_history.canonical()) {
            Some(found) => {
                let node = copy_node(&found.node);
                let above = share_parent(&found.parent);
                let index_in_parent = found.index_in_parent;
                proof {
                    assert(self.memo_ok(target));
                    found.lemma_located();
                }
                let to = Zipper {
                    node,
                    history: next_history,
                    parent: above,
                    index_in_parent,
                    cache: self.cache,
                };
                proof {
                    to.here().lemma_same_place(found);
                    self.lemma_moved(&to);
                    assert(to@ == self@.back()->Ok_0);
                }
                Ok(to)
            },
            None => {
                match &self.parent {
                    Some(parent) => {
                        if next_history.path_len() == 0 {
                            let node = copy_node(&parent.node);
                            let above = share_parent(&parent.parent);
                            let index_in_parent = parent.index_in_parent;
                            let to = Zipper {
                                node,
                                history: next_history,
                                parent: above,
                                index_in_parent,
                                cache: self.cache,
                            };
                            proof {
                                parent.lemma_located();
                                lemma_parent_is_prefix(self@.path);
                                to.here().lemma_same_place(parent);
                                self.lemma_moved(&to);
                                assert(to@ == self@.back()->Ok_0);
                            }
                            Ok(to)
                        } else {
                            Err(ZipperErr::CannotGoBack)
                        }
                    },
                    None => Err(ZipperErr::CannotGoBack),
                }
            },
        }
    }

    /// Takes one step in the given direction, or fails with the error of that
    /// direction.
    pub fn step(self, step: &Step) -> (moved: Result<Zipper<T>, ZipperErr>)
        requires
            self.wf(),
            self@.journey.len() < usize::MAX,
        ensures
            outcome(moved) == self@.step(*step),
            moved matches Ok(to) ==> to.wf(),
    {
        match step {
            Step::Up => self.up(),
            Step::Down => self.down(),
            Step::Left => self.left(),
            Step::Right => self.right(),
            Step::Back => self.back(),
        }
    }

    /// Takes the given steps one after the other. The first step that cannot be taken
    /// ends the walk with its error; the steps behind it are not tried.
    pub fn travel(self, path: Vec<Step>) -> (moved: Result<Zipper<T>, ZipperErr>)
        requires
            self.wf(),
            self@.journey.len() + path@.len() <= usize::MAX,
        ensures
            outcome(moved) == self@.travel(path@),
            moved matches Ok(to) ==> to.wf(),
    {
        let ghost start = self@;
        let mut zipper = self;
        let mut taken: usize = 0;
        assert(path@.skip(0) == path@);
        while taken < path.len()
            invariant
                start == self@,
                taken <= path.len(),
                zipper.wf(),
                zipper@.journey.len() == start.journey.len() + taken,
                start.journey.len() + path@.len() <= usize::MAX,
                start.travel(path@) == zipper@.travel(path@.skip(taken as int)),
            decreases path.len() - taken,
        {
            let ghost from = zipper@;
            let ghost rest = path@.skip(taken as int);
            proof {
                assert(rest.first() == path@[taken as int]);
                assert(rest.drop_first() == path@.skip(taken + 1));
                zipper.lemma_view();
                lemma_step_keeps_wf(from, rest.first());
            }
            match zipper.step(&path[taken]) {
                Ok(next) => {
                    assert(from.travel(rest) == next@.travel(rest.drop_first()));
                    zipper = next;
                },
                Err(e) => {
                    assert(from.travel(rest) == Err::<ZipperView<T>, ZipperErr>(e));
                    return Err(e);
                },
            }
            taken = taken + 1;
        }
        Ok(zipper)
    }

    /// The shortest sequence of steps that leads from the root to where the cursor
    /// stands.
    pub fn path(&self) -> (steps: Vec<Step>)
        ensures
            steps@ == self@.path,
    {
        self.history.path()
    }

    /// Every step the cursor has taken, in the order taken. Unlike the path it keeps
    /// the steps that were undone.
    pub fn journey(&self) -> (steps: Vec<Step>)
        ensures
            steps@ == self@.journey,
    {
        self.history.journey()
    }
}

} // verus!
