//! The memo of positions a walk has already reached.
use vstd::prelude::*;
use std::collections::HashMap;
use im::Vector;
use crate::path::{path_clone, path_eq, path_to_vec, steps_of};
use crate::step::Step;
use crate::tree::{obeys_tree_model, Zippable};
use crate::zipper::Snapshot;

verus! {

broadcast use vstd::std_specs::hash::group_hash_axioms;

/// The hashes of paths are the numbers below this prime, the largest under 2 to the 32.
pub const HASH_MODULUS: u64 = 4_294_967_291;

/// A number for each direction.
pub open spec fn step_code(step: Step) -> int {
    match step {
        Step::Up => 1,
        Step::Down => 2,
        Step::Left => 3,
        Step::Right => 4,
        Step::Back => 5,
    }
}

/// The hash of a path: the steps as the digits of a number to the base 31, taken modulo
/// a prime.
pub open spec fn path_hash(trail: Seq<Step>) -> int
    decreases trail.len(),
{
    if trail.len() == 0 {
        0
    } else {
        (path_hash(trail.drop_last()) * 31 + step_code(trail.last())) % (HASH_MODULUS as int)
    }
}

/// The number of a direction.
fn code_of(step: Step) -> (code: u8)
    ensures
        code == step_code(step),
{
    match step {
        Step::Up => 1,
        Step::Down => 2,
        Step::Left => 3,
        Step::Right => 4,
        Step::Back => 5,
    }
}

/// Computes the hash of the path that a vector holds.
fn hash_path(path: &Vector<Step>) -> (hash: u64)
    ensures
        hash == path_hash(steps_of(*path)),
{
    let steps = path_to_vec(path);
    let mut hash: u64 = 0;
    let mut i: usize = 0;
    while i < steps.len()
        invariant
            i <= steps.len(),
            hash == path_hash(steps@.take(i as int)),
            hash < HASH_MODULUS,
        decreases steps.len() - i,
    {
        assert(steps@.take(i + 1).drop_last() == steps@.take(i as int));
        hash = (hash * 31 + code_of(steps[i]) as u64) % HASH_MODULUS;
        i = i + 1;
    }
    assert(steps@.take(i as int) == steps@);
    hash
}

/// One memoised position and the canonical path that leads to it.
#[derive(Debug)]
pub struct Memo<T: Zippable> {
    path: Vector<Step>,
    position: Snapshot<T>,
}

impl<T: Zippable> Clone for Memo<T> {
    fn clone(&self) -> (copy: Self) {
        Memo { path: path_clone(&self.path), position: self.position.clone() }
    }
}

/// A table from canonical paths to the positions they lead to.
///
/// The entries are grouped by the hash of their path, and nothing is ever taken out.
/// Within a group the entries are kept in the order in which they came, and the youngest
/// entry for a path is the one that counts.
#[derive(Debug)]
pub struct PositionCache<T: Zippable> {
    buckets: HashMap<u64, Vec<Memo<T>>>,
}

/// The table that a list of entries stands for.
pub closed spec fn table<T: Zippable>(entries: Seq<Memo<T>>) -> Map<Seq<Step>, Snapshot<T>>
    decreases entries.len(),
{
    if entries.len() == 0 {
        Map::empty()
    } else {
        table(entries.drop_last()).insert(steps_of(entries.last().path), entries.last().position)
    }
}

/// The entries that share the hash of `key`.
pub closed spec fn bucket_of<T: Zippable>(
    buckets: Map<u64, Vec<Memo<T>>>,
    key: Seq<Step>,
) -> Seq<Memo<T>> {
    if buckets.contains_key(path_hash(key) as u64) {
        buckets[path_hash(key) as u64]@
    } else {
        Seq::empty()
    }
}

impl<T: Zippable> View for PositionCache<T> {
    type V = Map<Seq<Step>, Snapshot<T>>;

    closed spec fn view(&self) -> Map<Seq<Step>, Snapshot<T>> {
        Map::new(
            |key: Seq<Step>| table(bucket_of(self.buckets@, key)).contains_key(key),
            |key: Seq<Step>| table(bucket_of(self.buckets@, key))[key],
        )
    }
}

/// Two tables hold the same positions under the same paths.
pub open spec fn mirrors<T: Zippable>(
    one: Map<Seq<Step>, Snapshot<T>>,
    other: Map<Seq<Step>, Snapshot<T>>,
) -> bool {
    &&& one.dom() == other.dom()
    &&& forall|key: Seq<Step>| #[trigger] one.contains_key(key) ==> one[key].same_place(other[key])
}

/// The youngest entry for `path` in a list of entries.
fn youngest<'a, T: Zippable>(entries: &'a Vec<Memo<T>>, path: &Vector<Step>) -> (found: Option<
    &'a Snapshot<T>,
>)
    ensures
        match found {
            Some(position) => table(entries@).contains_key(steps_of(*path)) && *position == table(
                entries@,
            )[steps_of(*path)],
            None => !table(entries@).contains_key(steps_of(*path)),
        },
{
    let ghost key = steps_of(*path);
    let mut i = entries.len();
    assert(entries@.take(i as int) == entries@);
    while i > 0
        invariant
            i <= entries.len(),
            key == steps_of(*path),
            table(entries@).contains_key(key) == table(entries@.take(i as int)).contains_key(key),
            table(entries@).contains_key(key) ==> table(entries@)[key] == table(
                entries@.take(i as int),
            )[key],
        decreases i,
    {
        i = i - 1;
        assert(entries@.take(i + 1).drop_last() == entries@.take(i as int));
        assert(entries@.take(i + 1).last() == entries@[i as int]);
        if path_eq(&entries[i].path, path) {
            return Some(&entries[i].position);
        }
    }
    None
}

impl<T: Zippable> Clone for PositionCache<T> {
    /// A second table with the same entries. The ancestors of the positions are
    /// shared, not copied.
    fn clone(&self) -> (copy: Self)
        ensures
            obeys_tree_model::<T>() ==> mirrors(copy@, self@),
    {
        let copy = PositionCache { buckets: self.buckets.clone() };
        proof {
            assert forall|key: Seq<Step>| #[trigger] copy@.contains_key(key) implies copy@[key].same_place(
                self@[key],
            ) by {
                copy@[key].lemma_same_place_is_reflexive();
            }
        }
        copy
    }
}

impl<T: Zippable> PositionCache<T> {
    /// A table without entries.
    pub fn new() -> (cache: Self)
        ensures
            cache@ == Map::<Seq<Step>, Snapshot<T>>::empty(),
    {
        let cache = PositionCache { buckets: HashMap::new() };
        assert(cache@ =~= Map::<Seq<Step>, Snapshot<T>>::empty());
        cache
    }

    /// The position memoised under `path`, if there is one. The table is not changed.
    pub fn find(&self, path: &Vector<Step>) -> (found: Option<&Snapshot<T>>)
        ensures
            match found {
                Some(position) => self@.contains_key(steps_of(*path)) && *position
                    == self@[steps_of(*path)],
                None => !self@.contains_key(steps_of(*path)),
            },
    {
        let hash = hash_path(path);
        match self.buckets.get(&hash) {
            Some(entries) => youngest(entries, path),
            None => None,
        }
    }

    /// Memoises `position` under `path`, in place of what stood there before.
    pub fn insert(&mut self, path: Vector<Step>, position: Snapshot<T>)
        ensures
            final(self)@ == old(self)@.insert(steps_of(path), position),
    {
        let ghost key = steps_of(path);
        let hash = hash_path(&path);
        let mut entries = match self.buckets.remove(&hash) {
            Some(entries) => entries,
            None => Vec::new(),
        };
        let ghost before = entries@;
        entries.push(Memo { path, position });
        assert(entries@.drop_last() == before);
        assert(before == bucket_of(old(self).buckets@, key));
        self.buckets.insert(hash, entries);
        assert forall|other: Seq<Step>|
            bucket_of(self.buckets@, other) == (if path_hash(other) == path_hash(key) {
                before.push(Memo { path, position })
            } else {
                bucket_of(old(self).buckets@, other)
            }) by {}
        assert(self@ =~= old(self)@.insert(key, position));
    }
}

} // verus!
