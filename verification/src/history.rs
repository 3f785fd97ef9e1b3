//! The record a cursor keeps of its own movement.
use vstd::prelude::*;
use im::Vector;
use crate::path::{
    canonical_step, lemma_canonical_step_len, path_clone, path_len, path_last, path_new,
    path_pop_back, path_push_back, path_to_vec, steps_of, strip_rights,
};
use crate::step::Step;

verus! {

/// Two trails. The path is the shortest way from the root to where the cursor stands;
/// the journey is every step that was taken, in the order taken.
#[derive(Debug)]
pub struct History {
    path: Vector<Step>,
    journey: Vector<Step>,
}

impl History {
    /// The canonical path.
    pub closed spec fn path_view(&self) -> Seq<Step> {
        steps_of(self.path)
    }

    /// The journey.
    pub closed spec fn journey_view(&self) -> Seq<Step> {
        steps_of(self.journey)
    }

    /// The path is never longer than the journey.
    pub open spec fn wf(&self) -> bool {
        self.path_view().len() <= self.journey_view().len()
    }

    /// The history of a cursor that has not moved.
    pub fn new() -> (history: Self)
        ensures
            history.path_view() == Seq::<Step>::empty(),
            history.journey_view() == Seq::<Step>::empty(),
            history.wf(),
    {
        History { path: path_new(), journey: path_new() }
    }

    /// The history after one more step: the journey gains the step, and the path is
    /// brought back to canonical form.
    pub fn step(self, direction: Step) -> (next: History)
        requires
            self.wf(),
            self.journey_view().len() < usize::MAX,
        ensures
            next.path_view() == canonical_step(self.path_view(), direction),
            next.journey_view() == self.journey_view().push(direction),
            next.wf(),
    {
        let mut next = self;
        match direction {
            Step::Back | Step::Left => {
                path_pop_back(&mut next.path);
            },
            Step::Up => {
                loop
                    invariant
                        strip_rights(steps_of(next.path)) == strip_rights(self.path_view()),
                        next.journey == self.journey,
                    ensures
                        steps_of(next.path) == strip_rights(self.path_view()),
                    decreases steps_of(next.path).len(),
                {
                    match path_last(&next.path) {
                        Some(Step::Right) => {
                            path_pop_back(&mut next.path);
                        },
                        _ => {
                            break ;
                        },
                    }
                }
                path_pop_back(&mut next.path);
            },
            _ => {
                path_push_back(&mut next.path, direction);
            },
        }
        path_push_back(&mut next.journey, direction);
        proof {
            lemma_canonical_step_len(self.path_view(), direction);
        }
        next
    }

    /// The canonical path, first step first.
    pub fn path(&self) -> (steps: Vec<Step>)
        ensures
            steps@ == self.path_view(),
    {
        path_to_vec(&self.path)
    }

    /// The journey, first step first.
    pub fn journey(&self) -> (steps: Vec<Step>)
        ensures
            steps@ == self.journey_view(),
    {
        path_to_vec(&self.journey)
    }

    /// The vector that holds the canonical path.
    pub(crate) fn canonical(&self) -> (path: &Vector<Step>)
        ensures
            steps_of(*path) == self.path_view(),
    {
        &self.path
    }

    /// How many steps the canonical path holds.
    pub fn path_len(&self) -> (n: usize)
        ensures
            n == self.path_view().len(),
    {
        path_len(&self.path)
    }
}

impl Clone for History {
    fn clone(&self) -> (copy: Self)
        ensures
            copy.path_view() == self.path_view(),
            copy.journey_view() == self.journey_view(),
    {
        History { path: path_clone(&self.path), journey: path_clone(&self.journey) }
    }
}

} // verus!
