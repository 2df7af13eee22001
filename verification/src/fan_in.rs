//! The fan-in map: results are gathered in the order in which their tasks
//! finish, so the output is a reordering of the order-preserving map's.

use vstd::prelude::*;
use crate::mapper::{
    callable_on, computes, lemma_image_is_determined, lemma_lay_out_keeps_items, maps_to,
    plan_with, run_plan,
};
use crate::policy::{select_fan_in, MIN_BOUND};

verus! {

/// `order` names each of the indices `0 .. n` once: `order[k]` is the index
/// of the task whose result arrived as number `k`.
pub open spec fn is_arrival_order(order: Seq<int>, n: nat) -> bool {
    &&& order.len() == n
    &&& forall|k: int| 0 <= k < n ==> 0 <= #[trigger] order[k] < n
    &&& forall|j: int, k: int| 0 <= j < k < n ==> order[j] != order[k]
}

/// `out` holds, for every element of `input`, one value that `f` returns for
/// it, and `order` says where: `out[k]` belongs to `input[order[k]]`.
pub open spec fn gathers<T, R, F: Fn(T) -> R>(
    f: F,
    input: Seq<T>,
    out: Seq<R>,
    order: Seq<int>,
) -> bool {
    &&& is_arrival_order(order, input.len())
    &&& out.len() == input.len()
    &&& forall|k: int|
        0 <= k < out.len() ==> call_ensures(f, (input[order[k]],), #[trigger] out[k])
}

/// `out` is an image of `input` under `f` in some order of arrival: every
/// element of `input` was mapped exactly once, none was skipped.
pub open spec fn arrives_from<T, R, F: Fn(T) -> R>(f: F, input: Seq<T>, out: Seq<R>) -> bool {
    exists|order: Seq<int>| gathers(f, input, out, order)
}

/// Maps `mapper` over `v` and gathers the results as they arrive: the result
/// has one element for each element of `v`, each element of `v` was mapped
/// exactly once, and nothing is promised of the order unless `v` is shorter
/// than `MIN_BOUND`, in which case the order is that of `v`. With a
/// deterministic `mapper` the result holds what the order-preserving map
/// returns, each value as often.
///
/// An input of `MIN_BOUND` elements or more is laid out with one task for
/// each element, however long it is. The plan is worked off on the calling
/// thread by [`run_plan`], so here results arrive in input order; a runner
/// which hands each task to a thread sees them arrive in any order, which is
/// why the contract leaves the order open.
pub fn worker_channels<T, R, F>(v: Vec<T>, mapper: F) -> (out: Vec<R>) where
    T: Send + 'static,
    R: Send + 'static,
    F: Fn(T) -> R + Copy + Send + 'static,

    requires
        callable_on(mapper, v@),
    ensures
        out@.len() == v@.len(),
        arrives_from(mapper, v@, out@),
        v@.len() < MIN_BOUND ==> maps_to(mapper, v@, out@),
        forall|g: spec_fn(T) -> R| #[trigger]
            computes(mapper, g) ==> out@.to_multiset() == v@.map_values(g).to_multiset(),
{
    let ghost input = v@;
    let strategy = select_fan_in(v.len());
    let laid_out = plan_with(v, strategy);
    proof {
        lemma_lay_out_keeps_items(input, strategy);
    }
    let out = run_plan(laid_out, mapper);
    proof {
        lemma_in_order_is_an_arrival(mapper, input, out@);
        assert forall|g: spec_fn(T) -> R| #[trigger] computes(mapper, g) implies out@.to_multiset()
            == input.map_values(g).to_multiset() by {
            lemma_arrival_multiset(mapper, g, input, out@);
        }
    }
    out
}

/// Input order is one of the orders in which results can arrive.
pub proof fn lemma_in_order_is_an_arrival<T, R, F: Fn(T) -> R>(f: F, input: Seq<T>, out: Seq<R>)
    requires
        maps_to(f, input, out),
    ensures
        arrives_from(f, input, out),
{
    let order = Seq::new(input.len(), |k: int| k);
    assert(gathers(f, input, out, order));
}

/// A reordering keeps every element as often as it was there: if `a[k]` is
/// `b[order[k]]` for an `order` that names each index once, `a` and `b` hold
/// the same elements with the same multiplicities.
pub proof fn lemma_reordered_same_multiset<A>(a: Seq<A>, b: Seq<A>, order: Seq<int>)
    requires
        is_arrival_order(order, b.len()),
        a.len() == b.len(),
        forall|k: int| 0 <= k < a.len() ==> #[trigger] a[k] == b[order[k]],
    ensures
        a.to_multiset() == b.to_multiset(),
    decreases a.len(),
{
    if a.len() == 0 {
        assert(a =~= b);
    } else {
        let n = a.len() as int;
        let j = order[n - 1];
        let shorter_a = a.drop_last();
        let shorter_b = b.remove(j);
        let shorter_order = Seq::new(
            (n - 1) as nat,
            |k: int|
                if order[k] < j {
                    order[k]
                } else {
                    order[k] - 1
                },
        );
        assert forall|k: int| 0 <= k < n - 1 implies 0 <= #[trigger] shorter_order[k] < n - 1 by {
            assert(order[k] != order[n - 1]);
        }
        assert forall|i: int, k: int| 0 <= i < k < n - 1 implies shorter_order[i]
            != shorter_order[k] by {
            assert(order[i] != order[k]);
            assert(order[i] != order[n - 1]);
            assert(order[k] != order[n - 1]);
        }
        assert forall|k: int| 0 <= k < shorter_a.len() implies #[trigger] shorter_a[k]
            == shorter_b[shorter_order[k]] by {
            assert(order[k] != order[n - 1]);
            assert(a[k] == b[order[k]]);
        }
        lemma_reordered_same_multiset(shorter_a, shorter_b, shorter_order);
        shorter_a.to_multiset_ensures();
        b.to_multiset_ensures();
        assert(a =~= shorter_a.push(a[n - 1]));
        assert(a[n - 1] == b[j]);
        assert(b.contains(b[j]));
        assert(b.to_multiset().remove(b[j]).insert(b[j]) =~= b.to_multiset());
    }
}

/// With a deterministic `f`, what arrives holds `g` of every element of the
/// input, each as often as the input holds the element, whatever the order
/// of arrival.
pub proof fn lemma_arrival_multiset<T, R, F: Fn(T) -> R>(
    f: F,
    g: spec_fn(T) -> R,
    input: Seq<T>,
    gathered: Seq<R>,
)
    requires
        computes(f, g),
        arrives_from(f, input, gathered),
    ensures
        gathered.to_multiset() == input.map_values(g).to_multiset(),
{
    let order = choose|order: Seq<int>| gathers(f, input, gathered, order);
    let image = input.map_values(g);
    assert forall|k: int| 0 <= k < gathered.len() implies #[trigger] gathered[k]
        == image[order[k]] by {
        assert(call_ensures(f, (input[order[k]],), gathered[k]));
    }
    lemma_reordered_same_multiset(gathered, image, order);
}

/// With a deterministic `f`, the fan-in map returns the elements that the
/// order-preserving map returns, each as often: `gathered` is a result of
/// the first, `joined` one of the second, on the same input.
pub proof fn lemma_fan_in_same_multiset<T, R, F: Fn(T) -> R>(
    f: F,
    g: spec_fn(T) -> R,
    input: Seq<T>,
    gathered: Seq<R>,
    joined: Seq<R>,
)
    requires
        computes(f, g),
        arrives_from(f, input, gathered),
        maps_to(f, input, joined),
    ensures
        gathered.to_multiset() == joined.to_multiset(),
{
    lemma_arrival_multiset(f, g, input, gathered);
    lemma_image_is_determined(f, g, input, joined);
}

} // verus!
