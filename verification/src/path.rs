//! Sequences of steps, held in persistent vectors, and the rule that folds a walk
//! into the shortest trail that leads to the same place.
use vstd::prelude::*;
use im::Vector;
use crate::step::Step;

verus! {

/// `im::Vector`, the persistent vector. Nothing is known of what is inside one but
/// what the functions below say.
#[verifier::external_type_specification]
#[verifier::external_body]
#[verifier::reject_recursive_types(A)]
pub struct ExVector<A>(Vector<A>);

/// The steps that a vector holds, from the first pushed to the last.
pub uninterp spec fn steps_of(v: Vector<Step>) -> Seq<Step>;

/// `im::Vector::new`: a vector that holds nothing.
#[verifier::external_body]
pub(crate) fn path_new() -> (v: Vector<Step>)
    ensures
        steps_of(v) == Seq::<Step>::empty(),
{
    Vector::new()
}

/// `im::Vector::len`: the number of steps held.
#[verifier::external_body]
pub(crate) fn path_len(v: &Vector<Step>) -> (n: usize)
    ensures
        n == steps_of(*v).len(),
{
    v.len()
}

/// `im::Vector::last`: the step pushed last, if there is one. The vector is not changed.
#[verifier::external_body]
pub(crate) fn path_last(v: &Vector<Step>) -> (s: Option<Step>)
    ensures
        s == (if steps_of(*v).len() > 0 {
            Some(steps_of(*v).last())
        } else {
            None
        }),
{
    v.last().copied()
}

/// `im::Vector::push_back`: the step is added behind the others. The call panics
/// when the length would no longer fit in `usize`, so that length is left out.
#[verifier::external_body]
pub(crate) fn path_push_back(v: &mut Vector<Step>, step: Step)
    requires
        steps_of(*old(v)).len() < usize::MAX,
    ensures
        steps_of(*final(v)) == steps_of(*old(v)).push(step),
{
    v.push_back(step)
}

/// `im::Vector::pop_back`: the last step is taken off and returned; an empty vector
/// stays empty and gives `None`.
#[verifier::external_body]
pub(crate) fn path_pop_back(v: &mut Vector<Step>) -> (s: Option<Step>)
    ensures
        steps_of(*old(v)).len() > 0 ==> s == Some(steps_of(*old(v)).last()) && steps_of(*final(v))
            == steps_of(*old(v)).drop_last(),
        steps_of(*old(v)).len() == 0 ==> s.is_none() && steps_of(*final(v)) == steps_of(*old(v)),
{
    v.pop_back()
}

/// `Clone` of `im::Vector`: a second vector with the same steps.
#[verifier::external_body]
pub(crate) fn path_clone(v: &Vector<Step>) -> (copy: Vector<Step>)
    ensures
        steps_of(copy) == steps_of(*v),
{
    v.clone()
}

/// `PartialEq` of `im::Vector`: whether two vectors hold the same steps in the same order.
#[verifier::external_body]
pub(crate) fn path_eq(a: &Vector<Step>, b: &Vector<Step>) -> (same: bool)
    ensures
        same == (steps_of(*a) == steps_of(*b)),
{
    a == b
}

/// `im::Vector::iter`: the steps in order, gathered into a `Vec`.
#[verifier::external_body]
pub(crate) fn path_to_vec(v: &Vector<Step>) -> (steps: Vec<Step>)
    ensures
        steps@ == steps_of(*v),
{
    v.iter().copied().collect()
}

/// A trail without the run of `Right` steps at its end.
pub open spec fn strip_rights(trail: Seq<Step>) -> Seq<Step>
    decreases trail.len(),
{
    if trail.len() > 0 && trail.last() == Step::Right {
        strip_rights(trail.drop_last())
    } else {
        trail
    }
}

/// How many `Right` steps stand at the end of a trail.
pub open spec fn trailing_rights(trail: Seq<Step>) -> nat
    decreases trail.len(),
{
    if trail.len() > 0 && trail.last() == Step::Right {
        1 + trailing_rights(trail.drop_last())
    } else {
        0
    }
}

/// A trail without its last step; the empty trail stays empty.
pub open spec fn drop_one(trail: Seq<Step>) -> Seq<Step> {
    if trail.len() > 0 {
        trail.drop_last()
    } else {
        trail
    }
}

/// The canonical trail after one more step.
///
/// `Down` and `Right` lead somewhere new and are appended. `Left` and `Back` undo the
/// last step of the trail. `Up` leaves a level: the sibling moves made on it no longer
/// matter, and neither does the `Down` that entered it.
pub open spec fn canonical_step(trail: Seq<Step>, direction: Step) -> Seq<Step> {
    match direction {
        Step::Back | Step::Left => drop_one(trail),
        Step::Up => drop_one(strip_rights(trail)),
        Step::Down | Step::Right => trail.push(direction),
    }
}

/// Stripping only ever shortens a trail, and what it removes are the trailing `Right`s.
pub proof fn lemma_strip_rights(trail: Seq<Step>)
    ensures
        strip_rights(trail).len() + trailing_rights(trail) == trail.len(),
        strip_rights(trail) == trail.take(strip_rights(trail).len() as int),
        strip_rights(trail).len() > 0 ==> strip_rights(trail).last() != Step::Right,
    decreases trail.len(),
{
    if trail.len() > 0 && trail.last() == Step::Right {
        lemma_strip_rights(trail.drop_last());
        let n = strip_rights(trail).len() as int;
        assert(trail.drop_last().take(n) == trail.take(n));
    } else {
        assert(trail.take(trail.len() as int) == trail);
    }
}

/// A canonical trail grows by at most one step at a time.
pub proof fn lemma_canonical_step_len(trail: Seq<Step>, direction: Step)
    ensures
        canonical_step(trail, direction).len() <= trail.len() + 1,
{
    lemma_strip_rights(trail);
}

} // verus!
