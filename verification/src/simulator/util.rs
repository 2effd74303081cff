//! Conversions between vectors and arrays, and what holds of lists in general.

use vstd::prelude::*;
use crate::simulator::NDIMS;

verus! {

/// Turns a vector of exactly `NDIMS` items into an array, keeping their order.
pub fn vec_to_array<T>(vector: Vec<T>) -> (array: [T; NDIMS])
    requires
        vector.len() == NDIMS,
    ensures
        array@ == vector@,
{
    let mut vector = vector;
    let second = vector.pop().unwrap();
    let first = vector.pop().unwrap();
    let array = [first, second];
    assert(array@ =~= seq![first, second]);
    array
}

/// A filter that every item passes keeps the list as it is.
pub proof fn lemma_filter_all<A>(list: Seq<A>, pred: spec_fn(A) -> bool)
    requires
        forall|i: int| 0 <= i < list.len() ==> pred(#[trigger] list[i]),
    ensures
        list.filter(pred) == list,
    decreases list.len(),
{
    reveal(Seq::filter);
    if list.len() > 0 {
        lemma_filter_all(list.drop_last(), pred);
        assert(list.drop_last().push(list.last()) =~= list);
    }
}

/// What is left of a list without repetitions when one of its values is taken out.
pub proof fn lemma_remove_value<A>(list: Seq<A>, value: A)
    requires
        list.no_duplicates(),
        list.contains(value),
    ensures
        list.remove_value(value).no_duplicates(),
        !list.remove_value(value).contains(value),
        forall|other: A|
            other != value ==> (#[trigger] list.remove_value(value).contains(other)
                <==> list.contains(other)),
        forall|k: int|
            0 <= k < list.remove_value(value).len() ==> list.contains(
                #[trigger] list.remove_value(value)[k],
            ),
{
    list.index_of_first_ensures(value);
    let n = list.index_of_first(value).unwrap();
    let rest = list.remove(n);
    assert(rest == list.remove_value(value));
    assert forall|k: int| 0 <= k < rest.len() implies rest[k] == list[if k < n {
        k
    } else {
        k + 1
    }] by {}
    assert forall|other: A| other != value implies (#[trigger] rest.contains(other)
        <==> list.contains(other)) by {
        if list.contains(other) {
            let i = choose|i: int| 0 <= i < list.len() && list[i] == other;
            let k = if i < n {
                i
            } else {
                i - 1
            };
            assert(rest[k] == other);
        }
    }
    assert forall|k: int| 0 <= k < rest.len() implies list.contains(#[trigger] rest[k]) by {
        assert(rest[k] == list[if k < n {
            k
        } else {
            k + 1
        }]);
    }
}

/// A list with one more value holds that value and what it held before.
pub proof fn lemma_contains_push<A>(list: Seq<A>, value: A, other: A)
    ensures
        list.push(value).contains(other) <==> (list.contains(other) || other == value),
{
    if list.contains(other) {
        let i = choose|i: int| 0 <= i < list.len() && list[i] == other;
        assert(list.push(value)[i] == other);
    }
    if other == value {
        assert(list.push(value)[list.len() as int] == other);
    }
}

/// What a list without repetitions is after a new value is put behind it.
pub proof fn lemma_push_value<A>(list: Seq<A>, value: A)
    requires
        list.no_duplicates(),
        !list.contains(value),
    ensures
        list.push(value).no_duplicates(),
        forall|other: A|
            #[trigger] list.push(value).contains(other) <==> (list.contains(other) || other
                == value),
{
    assert forall|other: A| #[trigger]
        list.push(value).contains(other) <==> (list.contains(other) || other == value) by {
        if list.contains(other) {
            let i = choose|i: int| 0 <= i < list.len() && list[i] == other;
            assert(list.push(value)[i] == other);
        }
        if other == value {
            assert(list.push(value)[list.len() as int] == other);
        }
    }
}

/// What a filter lets through stood in the list.
pub proof fn lemma_filtered_subset<A>(list: Seq<A>, pred: spec_fn(A) -> bool, i: int)
    requires
        0 <= i < list.filter(pred).len(),
    ensures
        list.contains(list.filter(pred)[i]),
    decreases list.len(),
{
    reveal(Seq::filter);
    if list.len() > 0 {
        let front = list.drop_last();
        if pred(list.last()) && i == front.filter(pred).len() {
            assert(list[list.len() - 1] == list.last());
        } else {
            lemma_filtered_subset(front, pred, i);
            let j = choose|j: int| 0 <= j < front.len() && front[j] == front.filter(pred)[i];
            assert(list[j] == front[j]);
        }
    }
}

} // verus!
