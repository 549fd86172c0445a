//! Max-min aggregation: the membership curve that a set of activation
//! strengths cuts out of a set of membership functions.

use vstd::prelude::*;
use std::collections::HashMap;
use std::hash::Hash;
use vstd::std_specs::hash::*;
use vstd::std_specs::iter::IteratorSpec;
use crate::membership::{defined_at, degree_of, evaluate, is_membership};

verus! {

/// The degree that `f` gives `x`, cut off at the activation strength `cut`:
/// the lesser of the two.
pub open spec fn clipped<F: Fn(i64) -> i32>(f: F, cut: i32, x: i64) -> int {
    if degree_of(f, x) <= cut {
        degree_of(f, x) as int
    } else {
        cut as int
    }
}

/// Whether `y` is the aggregated membership at `x`: the greatest of 0 and the
/// clipped degrees of the labels that `acuts` activates.
pub open spec fn is_aggregate<V, F: Fn(i64) -> i32>(
    functions: Map<V, F>,
    acuts: Map<V, i32>,
    x: i64,
    y: int,
) -> bool {
    &&& 0 <= y
    &&& forall|l: V| #[trigger] acuts.contains_key(l) ==> clipped(functions[l], acuts[l], x) <= y
    &&& (y == 0 || exists|l: V| #[trigger]
        acuts.contains_key(l) && y == clipped(functions[l], acuts[l], x))
}

/// The aggregated membership at `x`.
pub open spec fn aggregate<V, F: Fn(i64) -> i32>(
    functions: Map<V, F>,
    acuts: Map<V, i32>,
    x: i64,
) -> int {
    choose|y: int| is_aggregate(functions, acuts, x, y)
}

/// Over finitely many labels the aggregated membership exists, and is a degree
/// that fits the fixed-point type.
pub proof fn lemma_aggregate_exists<V, F: Fn(i64) -> i32>(
    functions: Map<V, F>,
    acuts: Map<V, i32>,
    x: i64,
)
    requires
        acuts.dom().finite(),
    ensures
        is_aggregate(functions, acuts, x, aggregate(functions, acuts, x)),
        0 <= aggregate(functions, acuts, x) <= i32::MAX,
    decreases acuts.dom().len(),
{
    if acuts.dom().len() == 0 {
        assert(is_aggregate(functions, acuts, x, 0));
    } else {
        let l = acuts.dom().choose();
        let rest = acuts.remove(l);
        lemma_aggregate_exists(functions, rest, x);
        let below = aggregate(functions, rest, x);
        let here = clipped(functions[l], acuts[l], x);
        let y = if here > below {
            here
        } else {
            below
        };
        assert forall|k: V| #[trigger] acuts.contains_key(k) implies clipped(
            functions[k],
            acuts[k],
            x,
        ) <= y by {
            if k != l {
                assert(rest.contains_key(k));
            }
        }
        if y != 0 {
            if y == here {
                assert(acuts.contains_key(l));
            } else {
                let k = choose|k: V| #[trigger]
                    rest.contains_key(k) && below == clipped(functions[k], rest[k], x);
                assert(acuts.contains_key(k));
            }
        }
        assert(is_aggregate(functions, acuts, x, y));
    }
}

/// Raising activation strengths never lowers the aggregated membership: where
/// `higher` activates the labels of `lower`, each at least as strongly, the
/// aggregate under `higher` is at least the aggregate under `lower`.
pub proof fn lemma_aggregate_monotone<V, F: Fn(i64) -> i32>(
    functions: Map<V, F>,
    lower: Map<V, i32>,
    higher: Map<V, i32>,
    x: i64,
)
    requires
        lower.dom().finite(),
        higher.dom().finite(),
        forall|l: V| #[trigger]
            lower.contains_key(l) ==> higher.contains_key(l) && lower[l] <= higher[l],
    ensures
        aggregate(functions, lower, x) <= aggregate(functions, higher, x),
{
    lemma_aggregate_exists(functions, lower, x);
    lemma_aggregate_exists(functions, higher, x);
}

/// With a single label the aggregated membership is that label's clipped
/// degree, or 0 where the clipped degree is negative.
pub proof fn lemma_aggregate_single<V, F: Fn(i64) -> i32>(
    functions: Map<V, F>,
    acuts: Map<V, i32>,
    l: V,
    x: i64,
)
    requires
        acuts.dom() == set![l],
    ensures
        aggregate(functions, acuts, x) == if clipped(functions[l], acuts[l], x) >= 0 {
            clipped(functions[l], acuts[l], x)
        } else {
            0
        },
{
    lemma_aggregate_exists(functions, acuts, x);
    assert(acuts.contains_key(l));
}

/// Where no activation strength is above 0, in particular where all are 0 or
/// there is no label at all, the aggregated membership is 0.
pub proof fn lemma_aggregate_zero<V, F: Fn(i64) -> i32>(
    functions: Map<V, F>,
    acuts: Map<V, i32>,
    x: i64,
)
    requires
        acuts.dom().finite(),
        forall|l: V| #[trigger] acuts.contains_key(l) ==> acuts[l] <= 0,
    ensures
        aggregate(functions, acuts, x) == 0,
{
    lemma_aggregate_exists(functions, acuts, x);
}

/// Computes the aggregated membership at `x`.
pub(crate) fn aggregate_at<V: Eq + Hash + Copy, F: Fn(i64) -> i32>(
    functions: &HashMap<V, F>,
    acuts: &HashMap<V, i32>,
    x: i64,
) -> (y: i32)
    requires
        obeys_key_model::<V>(),
        forall|l: V| #[trigger] acuts@.contains_key(l) ==> functions@.contains_key(l),
        forall|l: V| #[trigger] functions@.contains_key(l) ==> is_membership(functions@[l]),
    ensures
        y == aggregate(functions@, acuts@, x),
        forall|l: V| #[trigger] acuts@.contains_key(l) ==> defined_at(functions@[l], x),
{
    broadcast use group_hash_axioms;
    let ghost pairs = spec_hash_map_iter(acuts).remaining();
    let ghost mut seen: int = 0;
    let mut y: i32 = 0;
    for pair in it: acuts.iter()
        invariant
            obeys_key_model::<V>(),
            forall|l: V| #[trigger] acuts@.contains_key(l) ==> functions@.contains_key(l),
            forall|l: V| #[trigger] functions@.contains_key(l) ==> is_membership(functions@[l]),
            it.seq() == pairs,
            it.index() == seen,
            pairs == spec_hash_map_iter(acuts).remaining(),
            0 <= y,
            forall|j: int|
                0 <= j < seen ==> clipped(functions@[*pairs[j].0], *pairs[j].1, x) <= y,
            forall|j: int| 0 <= j < seen ==> defined_at(functions@[*(#[trigger] pairs[j]).0], x),
            y == 0 || exists|j: int|
                0 <= j < seen && y == clipped(functions@[*pairs[j].0], *pairs[j].1, x),
    {
        let (l, a) = pair;
        assert(acuts@.contains_key(*l));
        match functions.get(l) {
            Some(f) => {
                let d = evaluate(f, x);
                let c = if d <= *a {
                    d
                } else {
                    *a
                };
                if c > y {
                    y = c;
                }
            },
            // Every label that is activated has a function.
            None => {},
        }
        proof {
            seen = seen + 1;
        }
    }
    proof {
        assert forall|l: V| #[trigger] acuts@.contains_key(l) implies clipped(
            functions@[l],
            acuts@[l],
            x,
        ) <= y by {
            assert(pairs.contains((&l, &acuts@[l])));
            let j = choose|j: int| 0 <= j < pairs.len() && pairs[j] == (&l, &acuts@[l]);
            assert(clipped(functions@[*pairs[j].0], *pairs[j].1, x) <= y);
        }
        assert forall|l: V| #[trigger] acuts@.contains_key(l) implies defined_at(
            functions@[l],
            x,
        ) by {
            assert(pairs.contains((&l, &acuts@[l])));
            let j = choose|j: int| 0 <= j < pairs.len() && pairs[j] == (&l, &acuts@[l]);
            assert(defined_at(functions@[*pairs[j].0], x));
        }
        if y != 0 {
            let j = choose|j: int|
                0 <= j < seen && y == clipped(functions@[*pairs[j].0], *pairs[j].1, x);
            assert(acuts@.contains_key(*pairs[j].0));
        }
        assert(is_aggregate(functions@, acuts@, x, y as int));
        lemma_aggregate_exists(functions@, acuts@, x);
    }
    y
}

} // verus!
