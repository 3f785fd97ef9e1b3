//! What holds of every walk, proved over the model of the cursor.
use vstd::prelude::*;
use crate::model::{
    lemma_back_outcome, lemma_down_outcome, lemma_left_outcome, lemma_right_outcome,
    lemma_step_keeps_wf, lemma_up_outcome, ZipperView,
};
use crate::path::trailing_rights;
use crate::step::{Step, ZipperErr};
use crate::tree::{
    children_of, in_tree, lemma_down, lemma_in_tree_prefix, lemma_right, Zippable,
};

verus! {

/// A cursor that has not moved is well-formed.
pub proof fn lemma_fresh_is_wf<T: Zippable>(root: T)
    ensures
        ZipperView::fresh(root).wf(),
        ZipperView::fresh(root).node() == root,
{
}

/// Every beginning of a path in the tree is a path in the tree.
pub proof fn lemma_in_tree_take<T: Zippable>(root: T, trail: Seq<Step>, n: int)
    requires
        in_tree(root, trail),
        0 <= n <= trail.len(),
    ensures
        in_tree(root, trail.take(n)),
    decreases trail.len() - n,
{
    if n == trail.len() {
        assert(trail.take(n) == trail);
    } else {
        lemma_in_tree_prefix(root, trail);
        lemma_in_tree_take(root, trail.drop_last(), n);
        assert(trail.drop_last().take(n) == trail.take(n));
    }
}

/// A cursor that stands on a beginning of a path in its tree reaches the end of that
/// path by taking the remaining steps.
pub proof fn lemma_follow<T: Zippable>(from: ZipperView<T>, trail: Seq<Step>, n: int)
    requires
        from.wf(),
        in_tree(from.root, trail),
        0 <= n <= trail.len(),
        from.path == trail.take(n),
    ensures
        ({
            &&& from.travel(trail.skip(n)) matches Ok(to)
            &&& to.wf()
            &&& to.root == from.root
            &&& to.path == trail
        }),
    decreases trail.len() - n,
{
    let rest = trail.skip(n);
    if n == trail.len() {
        assert(trail.take(n) == trail);
    } else {
        let direction = trail[n];
        let longer = trail.take(n + 1);
        assert(rest.first() == direction);
        assert(rest.drop_first() == trail.skip(n + 1));
        assert(longer == from.path.push(direction));
        assert(longer.drop_last() == from.path);
        lemma_in_tree_take(from.root, trail, n + 1);
        lemma_in_tree_prefix(from.root, longer);
        if direction == Step::Down {
            lemma_down(from.root, from.path);
            lemma_down_outcome(from);
        } else {
            lemma_right(from.root, from.path);
            lemma_right_outcome(from);
        }
        let next = from.step(direction)->Ok_0;
        lemma_follow(next, trail, n + 1);
    }
}

/// Replaying the canonical path from a fresh cursor on the same root leads to the same
/// node, by the same canonical path.
pub proof fn lemma_path_round_trip<T: Zippable>(at: ZipperView<T>)
    requires
        at.wf(),
    ensures
        ({
            &&& ZipperView::fresh(at.root).travel(at.path) matches Ok(again)
            &&& again.wf()
            &&& again.path == at.path
            &&& again.node() == at.node()
        }),
{
    let start = ZipperView::fresh(at.root);
    assert(at.path.take(0) == start.path);
    assert(at.path.skip(0) == at.path);
    lemma_follow(start, at.path, 0);
}

/// A walk that succeeds ends on a well-formed cursor in the same tree, whose journey
/// is the journey it began with and then the steps of the walk.
pub proof fn lemma_travel_records<T: Zippable>(from: ZipperView<T>, steps: Seq<Step>)
    requires
        from.wf(),
    ensures
        from.travel(steps) matches Ok(to) ==> (to.wf() && to.root == from.root && to.journey
            == from.journey + steps),
    decreases steps.len(),
{
    if steps.len() == 0 {
        assert(from.journey + steps == from.journey);
    } else {
        lemma_step_keeps_wf(from, steps.first());
        if let Ok(next) = from.step(steps.first()) {
            lemma_travel_records(next, steps.drop_first());
            assert(from.journey.push(steps.first()) + steps.drop_first() == from.journey + steps);
        }
    }
}

/// The journey of a cursor that a walk from a fresh cursor has produced is that walk,
/// so replaying the journey from a fresh cursor on the same root produces the same
/// cursor again, and with it the same node.
pub proof fn lemma_journey_round_trip<T: Zippable>(root: T, steps: Seq<Step>)
    requires
        ZipperView::fresh(root).travel(steps) is Ok,
    ensures
        ({
            let at = ZipperView::fresh(root).travel(steps)->Ok_0;
            &&& at.wf()
            &&& at.journey == steps
            &&& ZipperView::fresh(root).travel(at.journey) == Ok::<ZipperView<T>, ZipperErr>(at)
        }),
{
    let start = ZipperView::fresh(root);
    lemma_travel_records(start, steps);
    assert(start.journey + steps == steps);
}

/// Going down and then up leads back to the same node by the same canonical path, and
/// makes the journey two steps longer.
pub proof fn lemma_up_undoes_down<T: Zippable>(from: ZipperView<T>)
    requires
        from.wf(),
        children_of(from.node()).len() > 0,
    ensures
        ({
            &&& from.down() matches Ok(below)
            &&& below.up() matches Ok(again)
            &&& again.wf()
            &&& again.node() == from.node()
            &&& again.path == from.path
            &&& again.journey == from.journey.push(Step::Down).push(Step::Up)
            &&& again.journey.len() == from.journey.len() + 2
        }),
{
    lemma_down_outcome(from);
    let below = from.down()->Ok_0;
    lemma_down(from.root, from.path);
    lemma_up_outcome(below);
}

/// After going down, `Back` does what `Up` does: both lead to the same node by the same
/// canonical path, and differ only in the step they add to the journey.
pub proof fn lemma_back_undoes_down<T: Zippable>(from: ZipperView<T>)
    requires
        from.wf(),
        children_of(from.node()).len() > 0,
    ensures
        ({
            &&& from.down() matches Ok(below)
            &&& below.up() matches Ok(by_up)
            &&& below.back() matches Ok(by_back)
            &&& by_back.wf()
            &&& by_back.node() == by_up.node()
            &&& by_back.node() == from.node()
            &&& by_back.path == by_up.path
            &&& by_back.root == by_up.root
            &&& by_back.cached == by_up.cached
            &&& by_up.journey == below.journey.push(Step::Up)
            &&& by_back.journey == below.journey.push(Step::Back)
        }),
{
    lemma_down_outcome(from);
    let below = from.down()->Ok_0;
    lemma_down(from.root, from.path);
    lemma_up_outcome(below);
    lemma_back_outcome(below);
    assert(below.path.drop_last() == from.path);
}

/// A first child has no sibling on its left and a last child none on its right; the
/// root has neither, nor a parent, nor a step to go back on.
pub proof fn lemma_sibling_bounds<T: Zippable>(at: ZipperView<T>)
    requires
        at.wf(),
    ensures
        at.index() == Some(0nat) ==> at.left() == Err::<ZipperView<T>, ZipperErr>(
            ZipperErr::CannotGoLeft,
        ),
        at.has_parent() && trailing_rights(at.path) + 1 == children_of(at.parent_node()).len()
            ==> at.right() == Err::<ZipperView<T>, ZipperErr>(ZipperErr::CannotGoRight),
        !at.has_parent() ==> {
            &&& at.up() == Err::<ZipperView<T>, ZipperErr>(ZipperErr::CannotGoUp)
            &&& at.left() == Err::<ZipperView<T>, ZipperErr>(ZipperErr::CannotGoLeft)
            &&& at.right() == Err::<ZipperView<T>, ZipperErr>(ZipperErr::CannotGoRight)
            &&& at.back() == Err::<ZipperView<T>, ZipperErr>(ZipperErr::CannotGoBack)
        },
{
    lemma_up_outcome(at);
    lemma_left_outcome(at);
    lemma_right_outcome(at);
    lemma_back_outcome(at);
}

/// A leaf cannot be left downwards.
pub proof fn lemma_leaf_has_no_children<T: Zippable>(at: ZipperView<T>)
    requires
        at.wf(),
        children_of(at.node()).len() == 0,
    ensures
        at.down() == Err::<ZipperView<T>, ZipperErr>(ZipperErr::CannotGoDown),
{
    lemma_down_outcome(at);
}

/// Two outcomes are alike: the same error, or cursors on the same node of the same
/// tree, with the same place among the siblings, the same canonical path and the same
/// journey. What they have memoised is not compared.
pub open spec fn alike<T: Zippable>(
    one: Result<ZipperView<T>, ZipperErr>,
    other: Result<ZipperView<T>, ZipperErr>,
) -> bool {
    match (one, other) {
        (Ok(a), Ok(b)) => {
            &&& a.root == b.root
            &&& a.path == b.path
            &&& a.journey == b.journey
            &&& a.node() == b.node()
            &&& a.index() == b.index()
            &&& a.parent_node() == b.parent_node()
        },
        (Err(e), Err(f)) => e == f,
        _ => false,
    }
}

/// The memo changes nothing but the cost of a step: two cursors that stand on the same
/// place with the same history take every step to the same outcome, whatever each of
/// them has memoised.
pub proof fn lemma_cache_is_transparent<T: Zippable>(
    one: ZipperView<T>,
    other: ZipperView<T>,
    direction: Step,
)
    requires
        one.wf(),
        other.wf(),
        one.root == other.root,
        one.path == other.path,
        one.journey == other.journey,
    ensures
        alike(one.step(direction), other.step(direction)),
{
    lemma_down_outcome(one);
    lemma_down_outcome(other);
    lemma_up_outcome(one);
    lemma_up_outcome(other);
    lemma_right_outcome(one);
    lemma_right_outcome(other);
    lemma_left_outcome(one);
    lemma_left_outcome(other);
    lemma_back_outcome(one);
    lemma_back_outcome(other);
}

/// The same of a whole walk: what was memoised before it began does not show in where
/// it ends, nor in whether it ends.
pub proof fn lemma_cache_is_transparent_to_travel<T: Zippable>(
    one: ZipperView<T>,
    other: ZipperView<T>,
    steps: Seq<Step>,
)
    requires
        one.wf(),
        other.wf(),
        one.root == other.root,
        one.path == other.path,
        one.journey == other.journey,
    ensures
        alike(one.travel(steps), other.travel(steps)),
    decreases steps.len(),
{
    if steps.len() > 0 {
        lemma_cache_is_transparent(one, other, steps.first());
        lemma_step_keeps_wf(one, steps.first());
        lemma_step_keeps_wf(other, steps.first());
        if let Ok(next) = one.step(steps.first()) {
            lemma_cache_is_transparent_to_travel(
                next,
                other.step(steps.first())->Ok_0,
                steps.drop_first(),
            );
        }
    }
}

} // verus!
