//! A counter: how often each value was seen.
//!
//! The counter keeps its values in an ordered map, so what is proved of it
//! holds for the types whose comparison is known to be a total order.

use std::collections::BTreeMap;
use vstd::laws_cmp::obeys_cmp;
use vstd::prelude::*;
use vstd::std_specs::iter::IteratorSpec;

verus! {

/// Whether the comparison of `T` is known to be a total order: what an
/// ordered map needs of its keys. It is known of the integer types.
pub open spec fn totally_ordered<T: Ord>() -> bool {
    obeys_cmp::<T>()
}

/// How often `value` occurs in `items`.
pub open spec fn occurrences<T>(items: Seq<T>, value: T) -> nat
    decreases items.len(),
{
    if items.len() == 0 {
        0
    } else {
        occurrences(items.drop_last(), value) + (if items.last() == value {
            1nat
        } else {
            0nat
        })
    }
}

/// The count that `counts` holds for `value`: zero for a value that was
/// never seen.
pub open spec fn count_in<T>(counts: Map<T, u128>, value: T) -> u128 {
    if counts.contains_key(value) {
        counts[value]
    } else {
        0
    }
}

/// `counts` after `value` was seen once more.
pub open spec fn counted_once<T>(counts: Map<T, u128>, value: T) -> Map<T, u128> {
    counts.insert(value, (count_in(counts, value) + 1) as u128)
}

/// `counts` after the values of `items` were seen, one after the other.
pub open spec fn counted<T>(counts: Map<T, u128>, items: Seq<T>) -> Map<T, u128>
    decreases items.len(),
{
    if items.len() == 0 {
        counts
    } else {
        counted_once(counted(counts, items.drop_last()), items.last())
    }
}

/// Counting a sequence of values adds, for each value, the number of times
/// it occurs, as long as no count outgrows its type.
pub proof fn lemma_counted<T>(counts: Map<T, u128>, items: Seq<T>, value: T)
    requires
        count_in(counts, value) + items.len() <= u128::MAX,
    ensures
        count_in(counted(counts, items), value) == count_in(counts, value) + occurrences(
            items,
            value,
        ),
        occurrences(items, value) <= items.len(),
    decreases items.len(),
{
    if items.len() > 0 {
        lemma_counted(counts, items.drop_last(), value);
    }
}

/// Two finite maps of the same size, of which one holds every entry of
/// the other, are the same map.
pub proof fn lemma_same_entries<T>(a: Map<T, u128>, b: Map<T, u128>)
    requires
        a.dom().finite(),
        b.dom().finite(),
        a.len() == b.len(),
        forall|k: T| #[trigger] a.contains_key(k) ==> b.contains_key(k) && b[k] == a[k],
    ensures
        a == b,
{
    assert(a.dom().subset_of(b.dom()));
    vstd::set_lib::lemma_subset_equality(a.dom(), b.dom());
    assert(a =~= b);
}

/// Counts how often each value of a type was seen. Its view maps each value
/// that was seen to its count.
#[derive(Debug)]
pub struct Counter<T> {
    state: BTreeMap<T, u128>,
}

impl<T> View for Counter<T> {
    type V = Map<T, u128>;

    closed spec fn view(&self) -> Map<T, u128> {
        self.state@
    }
}

impl<T: Ord> Counter<T> {
    /// A counter that has seen nothing.
    pub fn new() -> (res: Counter<T>)
        ensures
            res@ == Map::<T, u128>::empty(),
    {
        Counter { state: BTreeMap::new() }
    }

    /// A counter that has seen the values of `iter`, one after the other.
    pub fn from_iter(iter: Vec<T>) -> (res: Counter<T>)
        requires
            totally_ordered::<T>(),
            iter@.len() <= u128::MAX,
        ensures
            res@ == counted(Map::<T, u128>::empty(), iter@),
    {
        let mut counter: Counter<T> = Counter::new();
        counter.update_from_iter(iter);
        counter
    }

    /// Sees `elem` once more. The count of `elem` must not be the largest
    /// that its type holds.
    pub fn update_from_value(&mut self, elem: T)
        requires
            totally_ordered::<T>(),
            count_in(old(self)@, elem) < u128::MAX,
        ensures
            final(self)@ == counted_once(old(self)@, elem),
    {
        broadcast use vstd::std_specs::btree::group_btree_axioms;

        let count: u128 = match self.state.get(&elem) {
            Some(count) => *count,
            None => 0,
        };
        self.state.insert(elem, count + 1);
    }

    /// Sees the values of `iter`, one after the other. No count may outgrow
    /// its type.
    pub fn update_from_iter(&mut self, iter: Vec<T>)
        requires
            totally_ordered::<T>(),
            forall|value: T| count_in(old(self)@, value) + iter@.len() <= u128::MAX,
        ensures
            final(self)@ == counted(old(self)@, iter@),
    {
        let ghost start = self@;
        for elem in items: iter
            invariant
                totally_ordered::<T>(),
                forall|value: T| count_in(start, value) + items.seq().len() <= u128::MAX,
                self@ == counted(start, items.seq().take(items.index() as int)),
        {
            proof {
                let done = items.seq().take(items.index() as int);
                let next = items.seq().take(items.index() + 1);
                assert(next.drop_last() =~= done);
                assert(next.last() == elem);
                lemma_counted(start, done, elem);
            }
            self.update_from_value(elem);
        }
        proof {
            assert(iter@.take(iter@.len() as int) =~= iter@);
        }
    }

    /// The number of different values seen.
    pub fn len(&self) -> (res: usize)
        requires
            totally_ordered::<T>(),
        ensures
            res == self@.len(),
    {
        broadcast use vstd::std_specs::btree::group_btree_axioms;

        self.state.len()
    }

    /// Whether this counter and `other` hold the same counts for the same
    /// values.
    pub fn eq(&self, other: &Counter<T>) -> (res: bool)
        requires
            totally_ordered::<T>(),
        ensures
            res == (self@ == other@),
    {
        broadcast use vstd::std_specs::btree::group_btree_axioms;

        if self.state.len() != other.state.len() {
            return false;
        }
        for entry in entries: self.state.iter()
            invariant
                totally_ordered::<T>(),
                self@.len() == other@.len(),
                forall|i: int|
                    0 <= i < entries.index() ==> other@.contains_key(*(#[trigger] entries.seq()[i]).0)
                        && other@[*entries.seq()[i].0] == *entries.seq()[i].1,
        {
            let (key, value) = entry;
            match other.state.get(key) {
                Some(count) => {
                    if *count != *value {
                        return false;
                    }
                },
                None => {
                    return false;
                },
            }
        }
        proof {
            lemma_same_entries(self@, other@);
        }
        true
    }

    /// The values seen, each with its count, in ascending order of the
    /// values.
    pub fn entries(&self) -> (res: Vec<(T, u128)>) where T: Copy
        requires
            totally_ordered::<T>(),
        ensures
            res@.len() == self@.len(),
            forall|i: int|
                0 <= i < res@.len() ==> self@.contains_key((#[trigger] res@[i]).0) && self@[res@[i].0]
                    == res@[i].1,
            forall|k: T| #[trigger] self@.contains_key(k) ==> res@.contains((k, self@[k])),
            vstd::std_specs::btree::increasing_seq(res@.map_values(|entry: (T, u128)| entry.0)),
    {
        broadcast use vstd::std_specs::btree::group_btree_axioms;

        let mut res: Vec<(T, u128)> = Vec::new();
        let ghost listed = vstd::std_specs::btree::spec_btree_map_iter(&self.state).remaining();
        for entry in entries: self.state.iter()
            invariant
                totally_ordered::<T>(),
                entries.seq() == listed,
                res@.len() == entries.index(),
                forall|i: int|
                    0 <= i < entries.index() ==> (#[trigger] res@[i]).0 == *entries.seq()[i].0
                        && res@[i].1 == *entries.seq()[i].1,
        {
            let (key, value) = entry;
            res.push((*key, *value));
        }
        proof {
            assert forall|k: T| #[trigger] self@.contains_key(k) implies res@.contains(
                (k, self@[k]),
            ) by {
                assert(listed.contains((&k, &self@[k])));
                let j = choose|j: int| 0 <= j < listed.len() && listed[j] == (&k, &self@[k]);
                assert(res@[j] == (k, self@[k]));
            }
            assert(res@.map_values(|entry: (T, u128)| entry.0) =~= listed.map_values(
                |kv: (&T, &u128)| *kv.0,
            ));
        }
        res
    }

    /// How often `elem` was seen.
    pub fn get(&self, elem: &T) -> (res: u128)
        requires
            totally_ordered::<T>(),
        ensures
            res == count_in(self@, *elem),
    {
        broadcast use vstd::std_specs::btree::group_btree_axioms;

        match self.state.get(elem) {
            Some(count) => *count,
            None => 0,
        }
    }
}

} // verus!
