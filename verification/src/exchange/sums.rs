//! Searches in sequences and sums over them, and how a sum changes when a
//! sequence is edited.

use vstd::prelude::*;

verus! {

/// The index of the first element for which `wanted` holds; the length where there is none.
pub open spec fn first_index<A>(items: Seq<A>, wanted: spec_fn(A) -> bool) -> int
    decreases items.len(),
{
    if items.len() == 0 || wanted(items[0]) {
        0
    } else {
        1 + first_index(items.drop_first(), wanted)
    }
}

/// `first_index` is the one index that has `wanted` at it, or the end, and nothing wanted before it.
pub proof fn lemma_first_index<A>(items: Seq<A>, wanted: spec_fn(A) -> bool, at: int)
    requires
        0 <= at <= items.len(),
        forall|k: int| 0 <= k < at ==> !wanted(#[trigger] items[k]),
        at < items.len() ==> wanted(items[at]),
    ensures
        first_index(items, wanted) == at,
    decreases items.len(),
{
    if at > 0 {
        assert(!wanted(items[0]));
        let rest = items.drop_first();
        assert forall|k: int| 0 <= k < at - 1 implies !wanted(#[trigger] rest[k]) by {
            assert(rest[k] == items[k + 1]);
        }
        lemma_first_index(rest, wanted, at - 1);
    }
}

/// What `first_index` returns lies within the sequence or at its end, with
/// `wanted` at it where it lies within, and nothing wanted before it.
pub proof fn lemma_first_index_found<A>(items: Seq<A>, wanted: spec_fn(A) -> bool)
    ensures
        0 <= first_index(items, wanted) <= items.len(),
        first_index(items, wanted) < items.len() ==> wanted(items[first_index(items, wanted)]),
        forall|k: int| 0 <= k < first_index(items, wanted) ==> !wanted(#[trigger] items[k]),
    decreases items.len(),
{
    if items.len() == 0 || wanted(items[0]) {
    } else {
        let rest = items.drop_first();
        lemma_first_index_found(rest, wanted);
        assert forall|k: int| 0 <= k < first_index(items, wanted) implies !wanted(
            #[trigger] items[k],
        ) by {
            if k > 0 {
                assert(rest[k - 1] == items[k]);
            }
        }
    }
}

/// The sum of the weights of the items.
pub open spec fn sum_over<A>(items: Seq<A>, weight: spec_fn(A) -> nat) -> nat
    decreases items.len(),
{
    if items.len() == 0 {
        0
    } else {
        sum_over(items.drop_last(), weight) + weight(items.last())
    }
}

/// The sum over two sequences joined is the sum of their sums.
pub proof fn lemma_sum_concat<A>(a: Seq<A>, b: Seq<A>, weight: spec_fn(A) -> nat)
    ensures
        sum_over(a + b, weight) == sum_over(a, weight) + sum_over(b, weight),
    decreases b.len(),
{
    if b.len() == 0 {
        assert(a + b =~= a);
    } else {
        assert((a + b).drop_last() =~= a + b.drop_last());
        assert((a + b).last() == b.last());
        lemma_sum_concat(a, b.drop_last(), weight);
    }
}

/// The sum over one item is its weight.
pub proof fn lemma_sum_one<A>(item: A, weight: spec_fn(A) -> nat)
    ensures
        sum_over(seq![item], weight) == weight(item),
{
    assert(seq![item].drop_last() =~= Seq::<A>::empty());
    assert(sum_over(seq![item].drop_last(), weight) == 0);
}

/// A sum falls into what stands before an item, the item, and what stands behind it.
pub proof fn lemma_sum_split<A>(items: Seq<A>, at: int, weight: spec_fn(A) -> nat)
    requires
        0 <= at < items.len(),
    ensures
        sum_over(items, weight) == sum_over(items.take(at), weight) + weight(items[at])
            + sum_over(items.skip(at + 1), weight),
{
    assert(items =~= items.take(at) + seq![items[at]] + items.skip(at + 1));
    lemma_sum_concat(items.take(at) + seq![items[at]], items.skip(at + 1), weight);
    lemma_sum_concat(items.take(at), seq![items[at]], weight);
    lemma_sum_one(items[at], weight);
}

/// A sum is the weight of the first item and the sum over the others.
pub proof fn lemma_sum_first<A>(items: Seq<A>, weight: spec_fn(A) -> nat)
    requires
        items.len() > 0,
    ensures
        sum_over(items, weight) == weight(items[0]) + sum_over(items.drop_first(), weight),
{
    lemma_sum_split(items, 0, weight);
    assert(items.take(0) =~= Seq::<A>::empty());
    assert(items.skip(1) =~= items.drop_first());
}

/// Taking an item out takes its weight off the sum.
pub proof fn lemma_sum_remove<A>(items: Seq<A>, at: int, weight: spec_fn(A) -> nat)
    requires
        0 <= at < items.len(),
    ensures
        sum_over(items.remove(at), weight) + weight(items[at]) == sum_over(items, weight),
{
    lemma_sum_split(items, at, weight);
    assert(items.remove(at) =~= items.take(at) + items.skip(at + 1));
    lemma_sum_concat(items.take(at), items.skip(at + 1), weight);
}

/// Putting an item in adds its weight to the sum.
pub proof fn lemma_sum_insert<A>(items: Seq<A>, at: int, item: A, weight: spec_fn(A) -> nat)
    requires
        0 <= at <= items.len(),
    ensures
        sum_over(items.insert(at, item), weight) == sum_over(items, weight) + weight(item),
{
    let grown = items.insert(at, item);
    lemma_sum_remove(grown, at, weight);
    assert(grown.remove(at) =~= items);
}

/// Replacing an item replaces its weight in the sum.
pub proof fn lemma_sum_update<A>(items: Seq<A>, at: int, item: A, weight: spec_fn(A) -> nat)
    requires
        0 <= at < items.len(),
    ensures
        sum_over(items.update(at, item), weight) + weight(items[at]) == sum_over(items, weight)
            + weight(item),
{
    let changed = items.update(at, item);
    lemma_sum_remove(items, at, weight);
    lemma_sum_remove(changed, at, weight);
    assert(changed.remove(at) =~= items.remove(at));
}

/// A sum over nothing but weightless items is zero.
pub proof fn lemma_sum_zero<A>(items: Seq<A>, weight: spec_fn(A) -> nat)
    requires
        forall|i: int| 0 <= i < items.len() ==> weight(#[trigger] items[i]) == 0,
    ensures
        sum_over(items, weight) == 0,
    decreases items.len(),
{
    if items.len() > 0 {
        assert forall|i: int| 0 <= i < items.drop_last().len() implies weight(
            #[trigger] items.drop_last()[i],
        ) == 0 by {
            assert(items.drop_last()[i] == items[i]);
        }
        lemma_sum_zero(items.drop_last(), weight);
        assert(weight(items[items.len() - 1]) == 0);
    }
}

/// Every item's weight is at most the sum.
pub proof fn lemma_sum_bounds_item<A>(items: Seq<A>, at: int, weight: spec_fn(A) -> nat)
    requires
        0 <= at < items.len(),
    ensures
        weight(items[at]) <= sum_over(items, weight),
{
    lemma_sum_split(items, at, weight);
}

/// A sum is no larger than the sum of weights that are nowhere smaller.
pub proof fn lemma_sum_monotone<A>(items: Seq<A>, lower: spec_fn(A) -> nat, upper: spec_fn(A) -> nat)
    requires
        forall|i: int| 0 <= i < items.len() ==> lower(#[trigger] items[i]) <= upper(items[i]),
    ensures
        sum_over(items, lower) <= sum_over(items, upper),
    decreases items.len(),
{
    if items.len() > 0 {
        assert forall|i: int| 0 <= i < items.drop_last().len() implies lower(
            #[trigger] items.drop_last()[i],
        ) <= upper(items.drop_last()[i]) by {
            assert(items.drop_last()[i] == items[i]);
        }
        lemma_sum_monotone(items.drop_last(), lower, upper);
        assert(lower(items[items.len() - 1]) <= upper(items[items.len() - 1]));
    }
}

} // verus!
