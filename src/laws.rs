use vstd::prelude::*;
use crate::token::{Packet, Received, received_of};
use crate::reorder::{ReorderModel, Polled, poll_spec, push_spec};

verus! {

/// What the ordered iterator yields from buffer state `m` when the tokens
/// `arrivals` come in, in that order: it polls the buffer, receives another
/// token whenever the wanted position is missing, ends when none is left,
/// and stops at the first fatal signal.
pub open spec fn ordered_run<T>(m: ReorderModel<T>, arrivals: Seq<Packet<T>>) -> Seq<Polled<T>>
    decreases arrivals.len(), m.pending.dom().len(),
    when m.pending.dom().finite()
{
    let (rest, out) = poll_spec(m);
    match out {
        Polled::Ready(_) => seq![out] + ordered_run(rest, arrivals),
        Polled::Failed(_) => seq![out],
        Polled::Wait => if arrivals.len() == 0 {
            Seq::empty()
        } else {
            ordered_run(push_spec(m, arrivals[0]), arrivals.drop_first())
        },
    }
}

/// What the unordered iterator yields when the tokens `arrivals` come in, in
/// that order: one item or fatal signal per token.
pub open spec fn unordered_run<T>(arrivals: Seq<Packet<T>>) -> Seq<Received<T>> {
    arrivals.map_values(|p: Packet<T>| received_of(Some(p)))
}

/// The buffer state of a fresh ordered iterator.
pub open spec fn initial<T>() -> ReorderModel<T> {
    ReorderModel { next: 0, pending: Map::empty() }
}

/// `order` is a permutation of the positions `0..n`.
pub open spec fn is_arrival_order(order: Seq<nat>, n: nat) -> bool {
    &&& forall|j: int| 0 <= j < order.len() ==> #[trigger] order[j] < n
    &&& forall|a: int, b: int| 0 <= a < order.len() && 0 <= b < order.len() && a != b ==> order[a] != order[b]
    &&& forall|i: nat| i < n ==> #[trigger] arrives(order, i)
}

/// Position `i` occurs in `order`.
pub open spec fn arrives(order: Seq<nat>, i: nat) -> bool {
    exists|j: int| 0 <= j < order.len() && order[j] == i
}

/// The tokens of one call, where worker `i` produced `results[i]` (nothing
/// when it failed), in the order in which they finished.
pub open spec fn tokens<T>(results: Seq<Option<T>>, order: Seq<nat>) -> Seq<Packet<T>> {
    order.map_values(|i: nat| Packet { idx: i as usize, data: results[i as int] })
}

/// The results from position `k` on, in order, up to and including the first
/// failure.
pub open spec fn in_order_from<T>(results: Seq<Option<T>>, k: nat) -> Seq<Polled<T>>
    decreases results.len() - k,
{
    if k >= results.len() {
        Seq::empty()
    } else {
        match results[k as int] {
            Some(v) => seq![Polled::Ready(v)] + in_order_from(results, k + 1),
            None => seq![Polled::Failed(k as usize)],
        }
    }
}

proof fn lemma_run_from<T>(results: Seq<Option<T>>, m: ReorderModel<T>, arrivals: Seq<Packet<T>>)
    requires
        results.len() <= usize::MAX,
        m.pending.dom().finite(),
        m.next <= results.len(),
        forall|i: nat| #[trigger] m.pending.contains_key(i) ==> m.next <= i < results.len()
            && m.pending[i] == results[i as int],
        forall|j: int| 0 <= j < arrivals.len() ==> m.next <= #[trigger] arrivals[j].idx
            < results.len() && arrivals[j].data == results[arrivals[j].idx as int]
            && !m.pending.contains_key(arrivals[j].idx as nat),
        forall|a: int, b: int|
            0 <= a < arrivals.len() && 0 <= b < arrivals.len() && a != b ==> arrivals[a].idx
                != arrivals[b].idx,
        forall|i: nat| m.next <= i < results.len() ==> #[trigger] m.pending.contains_key(i)
            || exists|j: int| 0 <= j < arrivals.len() && arrivals[j].idx == i,
    ensures
        ordered_run(m, arrivals) == in_order_from(results, m.next),
    decreases arrivals.len(), m.pending.dom().len(),
{
    let k = m.next;
    if m.pending.contains_key(k) {
        let rest = ReorderModel { next: k + 1, pending: m.pending.remove(k) };
        match results[k as int] {
            Some(v) => {
                assert forall|i: nat| k + 1 <= i < results.len()
                    implies #[trigger] rest.pending.contains_key(i)
                    || exists|j: int| 0 <= j < arrivals.len() && arrivals[j].idx == i by {
                    assert(m.pending.contains_key(i) || exists|j: int| 0 <= j < arrivals.len() && arrivals[j].idx == i);
                }
                assert forall|j: int| 0 <= j < arrivals.len() implies k + 1 <= #[trigger] arrivals[j].idx by {
                    if arrivals[j].idx == k {
                        assert(m.pending.contains_key(arrivals[j].idx as nat));
                    }
                }
                lemma_run_from(results, rest, arrivals);
            },
            None => {},
        }
    } else if arrivals.len() == 0 {
        if k < results.len() {
            assert(m.pending.contains_key(k) || exists|j: int| 0 <= j < arrivals.len() && arrivals[j].idx == k);
        }
    } else {
        let a0 = arrivals[0];
        let m2 = push_spec(m, a0);
        let tail = arrivals.drop_first();
        assert forall|j: int| 0 <= j < tail.len() implies m.next <= #[trigger] tail[j].idx
            < results.len() && tail[j].data == results[tail[j].idx as int]
            && !m2.pending.contains_key(tail[j].idx as nat) by {
            assert(tail[j] == arrivals[j + 1]);
            assert(arrivals[j + 1].idx != arrivals[0].idx);
        }
        assert forall|i: nat| m2.next <= i < results.len()
            implies #[trigger] m2.pending.contains_key(i)
            || exists|j: int| 0 <= j < tail.len() && tail[j].idx == i by {
            if !m.pending.contains_key(i) && i != a0.idx {
                let j = choose|j: int| 0 <= j < arrivals.len() && arrivals[j].idx == i;
                assert(tail[j - 1].idx == i);
            }
        }
        assert forall|a: int, b: int|
            0 <= a < tail.len() && 0 <= b < tail.len() && a != b implies tail[a].idx
                != tail[b].idx by {
            assert(arrivals[a + 1].idx != arrivals[b + 1].idx);
        }
        lemma_run_from(results, m2, tail);
    }
}

/// The results of a call in which the function returned normally on every
/// input.
pub open spec fn successes<A, T>(inputs: Seq<A>, f: spec_fn(A) -> T) -> Seq<Option<T>> {
    inputs.map_values(|a: A| Some(f(a)))
}

/// Whatever order the workers finish in, the ordered iterator yields the
/// results in input order, up to and including the first failure.
pub proof fn lemma_ordered_in_input_order<T>(results: Seq<Option<T>>, order: Seq<nat>)
    requires
        results.len() <= usize::MAX,
        is_arrival_order(order, results.len()),
    ensures
        ordered_run(initial(), tokens(results, order)) == in_order_from(results, 0),
{
    let arrivals = tokens(results, order);
    let m = initial::<T>();
    assert(m.pending.dom() =~= Set::empty());
    assert forall|i: nat| m.next <= i < results.len()
        implies #[trigger] m.pending.contains_key(i)
        || exists|j: int| 0 <= j < arrivals.len() && arrivals[j].idx == i by {
        assert(arrives(order, i));
        let j = choose|j: int| 0 <= j < order.len() && order[j] == i;
        assert(arrivals[j].idx == i);
    }
    assert forall|a: int, b: int|
        0 <= a < arrivals.len() && 0 <= b < arrivals.len() && a != b implies arrivals[a].idx
            != arrivals[b].idx by {
        assert(order[a] != order[b]);
        assert(order[a] < results.len() && order[b] < results.len());
    }
    assert forall|j: int| 0 <= j < arrivals.len() implies m.next <= #[trigger] arrivals[j].idx
        < results.len() && arrivals[j].data == results[arrivals[j].idx as int]
        && !m.pending.contains_key(arrivals[j].idx as nat) by {
        assert(order[j] < results.len());
    }
    lemma_run_from(results, m, arrivals);
}


proof fn lemma_in_order_all_ok<A, T>(inputs: Seq<A>, f: spec_fn(A) -> T, k: nat)
    requires
        k <= inputs.len() <= usize::MAX,
    ensures
        in_order_from(successes(inputs, f), k)
            == inputs.subrange(k as int, inputs.len() as int).map_values(|a: A| Polled::Ready(f(a))),
    decreases inputs.len() - k,
{
    let results = successes(inputs, f);
    let want = inputs.subrange(k as int, inputs.len() as int).map_values(|a: A| Polled::Ready(f(a)));
    if k < inputs.len() {
        lemma_in_order_all_ok(inputs, f, k + 1);
        let tail = inputs.subrange((k + 1) as int, inputs.len() as int).map_values(|a: A| Polled::Ready(f(a)));
        assert(want =~= seq![Polled::Ready(f(inputs[k as int]))] + tail);
    } else {
        assert(want =~= Seq::empty());
    }
}

/// For every finite input and every function that returns normally, and
/// whatever order the workers finish in, the ordered iterator yields exactly
/// the function mapped over the input, in input order.
pub proof fn lemma_ordered_matches_sequential_map<A, T>(
    inputs: Seq<A>,
    f: spec_fn(A) -> T,
    order: Seq<nat>,
)
    requires
        inputs.len() <= usize::MAX,
        is_arrival_order(order, inputs.len()),
    ensures
        ordered_run(initial(), tokens(successes(inputs, f), order))
            == inputs.map_values(|a: A| Polled::Ready(f(a))),
{
    let results = successes(inputs, f);
    lemma_ordered_in_input_order(results, order);
    lemma_in_order_all_ok(inputs, f, 0);
    assert(inputs.subrange(0, inputs.len() as int) =~= inputs);
}

proof fn lemma_in_order_up_to_failure<T>(results: Seq<Option<T>>, k: nat, j: nat)
    requires
        j <= k < results.len() <= usize::MAX,
        results[k as int].is_none(),
        forall|i: int| 0 <= i < k ==> (#[trigger] results[i]).is_some(),
    ensures
        in_order_from(results, j).len() == k + 1 - j,
        forall|i: int| j <= i < k ==> in_order_from(results, j)[i - j] == Polled::Ready(
            results[i]->Some_0,
        ),
        in_order_from(results, j)[k - j] == Polled::<T>::Failed(k as usize),
    decreases k - j,
{
    if j < k {
        lemma_in_order_up_to_failure(results, k, j + 1);
        assert(results[j as int].is_some());
        let rest = in_order_from(results, j + 1);
        assert(in_order_from(results, j) == seq![Polled::Ready(results[j as int]->Some_0)] + rest);
    }
}

/// When the worker for position `k` fails and those before it succeed, the
/// ordered iterator yields the first `k` results in order, then the fatal
/// signal for `k`, and nothing after it, whatever order the workers finish
/// in.
pub proof fn lemma_ordered_stops_at_failure<T>(results: Seq<Option<T>>, order: Seq<nat>, k: nat)
    requires
        results.len() <= usize::MAX,
        is_arrival_order(order, results.len()),
        k < results.len(),
        results[k as int].is_none(),
        forall|i: int| 0 <= i < k ==> (#[trigger] results[i]).is_some(),
    ensures
        ordered_run(initial(), tokens(results, order)).len() == k + 1,
        forall|i: int| 0 <= i < k ==> ordered_run(initial(), tokens(results, order))[i]
            == Polled::Ready(results[i]->Some_0),
        ordered_run(initial(), tokens(results, order))[k as int] == Polled::<T>::Failed(k as usize),
{
    lemma_ordered_in_input_order(results, order);
    lemma_in_order_up_to_failure(results, k, 0);
}

/// When exactly the worker for position `k` fails, the unordered iterator
/// yields once per worker: the fatal signal for `k` at exactly one place
/// among them, and every other worker's result with its position.
pub proof fn lemma_unordered_single_failure<T>(results: Seq<Option<T>>, order: Seq<nat>, k: nat)
    requires
        results.len() <= usize::MAX,
        is_arrival_order(order, results.len()),
        k < results.len(),
        results[k as int].is_none(),
        forall|i: int| 0 <= i < results.len() && i != k ==> (#[trigger] results[i]).is_some(),
    ensures
        unordered_run(tokens(results, order)).len() == results.len(),
        exists|p: int| 0 <= p < results.len()
            && unordered_run(tokens(results, order))[p] == Received::<T>::Failed(k as usize),
        forall|p: int, q: int| 0 <= p < results.len() && 0 <= q < results.len()
            && (#[trigger] unordered_run(tokens(results, order))[p]) is Failed
            && (#[trigger] unordered_run(tokens(results, order))[q]) is Failed ==> p == q,
        forall|i: int| 0 <= i < results.len() && i != k ==> exists|p: int| 0 <= p < results.len()
            && unordered_run(tokens(results, order))[p] == Received::Item(
                i as usize,
                (#[trigger] results[i])->Some_0,
            ),
{
    let run = unordered_run(tokens(results, order));
    lemma_order_len(order, results.len());
    assert(arrives(order, k));
    let pk = choose|j: int| 0 <= j < order.len() && order[j] == k;
    assert(run[pk] == Received::<T>::Failed(k as usize));
    assert forall|p: int, q: int| 0 <= p < results.len() && 0 <= q < results.len()
        && (#[trigger] run[p]) is Failed && (#[trigger] run[q]) is Failed implies p == q by {
        assert(order[p] < results.len() && order[q] < results.len());
        if order[p] != k {
            assert(results[order[p] as int].is_some());
        }
        if order[q] != k {
            assert(results[order[q] as int].is_some());
        }
    }
    assert forall|i: int| 0 <= i < results.len() && i != k implies exists|p: int| 0 <= p < results.len()
        && run[p] == Received::Item(i as usize, (#[trigger] results[i])->Some_0) by {
        assert(arrives(order, i as nat));
        let p = choose|j: int| 0 <= j < order.len() && order[j] == i;
        assert(run[p] == Received::Item(i as usize, results[i]->Some_0));
    }
}

proof fn lemma_order_len(order: Seq<nat>, n: nat)
    requires
        is_arrival_order(order, n),
    ensures
        order.len() == n,
{
    let s = Seq::new(n, |i: int| i as nat);
    assert forall|j: int| 0 <= j < order.len() implies s.contains(#[trigger] order[j]) by {
        assert(s[order[j] as int] == order[j]);
    }
    assert forall|i: int| 0 <= i < s.len() implies order.contains(#[trigger] s[i]) by {
        assert(arrives(order, i as nat));
    }
    assert(order.no_duplicates());
    assert(s.no_duplicates());
    order.unique_seq_to_set();
    s.unique_seq_to_set();
    assert(order.to_set() =~= s.to_set());
}


proof fn lemma_permuted_multiset<T>(order: Seq<nat>, s: Seq<T>)
    requires
        is_arrival_order(order, s.len()),
    ensures
        order.map_values(|i: nat| s[i as int]).to_multiset() == s.to_multiset(),
    decreases s.len(),
{
    lemma_order_len(order, s.len());
    let picked = order.map_values(|i: nat| s[i as int]);
    if s.len() == 0 {
        assert(picked =~= Seq::<T>::empty());
        assert(s =~= Seq::<T>::empty());
    } else {
        let n1 = (s.len() - 1) as nat;
        assert(arrives(order, n1));
        let p = choose|j: int| 0 <= j < order.len() && order[j] == n1;
        let order1 = order.remove(p);
        let s1 = s.drop_last();
        assert forall|j: int| 0 <= j < order1.len() implies #[trigger] order1[j] < n1 by {
            let j0 = if j < p { j } else { j + 1 };
            assert(order1[j] == order[j0]);
            assert(order[j0] != order[p]);
        }
        assert forall|a: int, b: int| 0 <= a < order1.len() && 0 <= b < order1.len() && a != b
            implies order1[a] != order1[b] by {
            let a0 = if a < p { a } else { a + 1 };
            let b0 = if b < p { b } else { b + 1 };
            assert(order1[a] == order[a0] && order1[b] == order[b0]);
        }
        assert forall|i: nat| i < n1 implies #[trigger] arrives(order1, i) by {
            assert(arrives(order, i));
            let j = choose|j: int| 0 <= j < order.len() && order[j] == i;
            let j1 = if j < p { j } else { j - 1 };
            assert(order1[j1] == order[j]);
        }
        lemma_permuted_multiset(order1, s1);
        let picked1 = order1.map_values(|i: nat| s1[i as int]);
        assert(picked.remove(p) =~= picked1);
        vstd::seq_lib::to_multiset_remove(picked, p);
        assert(s =~= s1.push(s[n1 as int]));
        vstd::seq_lib::to_multiset_build(s1, s[n1 as int]);
        vstd::seq_lib::to_multiset_contains(picked, picked[p]);
        assert(picked.contains(picked[p]));
        assert(picked.to_multiset() =~= picked.to_multiset().remove(s[n1 as int]).insert(s[n1 as int]));
    }
}

/// Item values of the unordered iterator; only items carry one.
pub open spec fn item_value<T>(r: Received<T>) -> T {
    match r {
        Received::Item(_, v) => v,
        _ => arbitrary(),
    }
}

/// Values released by the ordered iterator; only releases carry one.
pub open spec fn ready_value<T>(p: Polled<T>) -> T {
    match p {
        Polled::Ready(v) => v,
        _ => arbitrary(),
    }
}

/// For every finite input and function that returns normally, the unordered
/// iterator yields only items, and the multiset of their values equals the
/// multiset of values that the ordered iterator yields on the same input,
/// whatever orders the workers finish in on the two calls.
pub proof fn lemma_unordered_same_values<A, T>(
    inputs: Seq<A>,
    f: spec_fn(A) -> T,
    unordered_order: Seq<nat>,
    ordered_order: Seq<nat>,
)
    requires
        inputs.len() <= usize::MAX,
        is_arrival_order(unordered_order, inputs.len()),
        is_arrival_order(ordered_order, inputs.len()),
    ensures
        forall|p: int| 0 <= p < unordered_order.len() ==> (#[trigger] unordered_run(
            tokens(successes(inputs, f), unordered_order),
        )[p]) is Item,
        unordered_run(tokens(successes(inputs, f), unordered_order)).map_values(
            |r: Received<T>| item_value(r),
        ).to_multiset() == ordered_run(
            initial(),
            tokens(successes(inputs, f), ordered_order),
        ).map_values(|p: Polled<T>| ready_value(p)).to_multiset(),
{
    let results = successes(inputs, f);
    let values = inputs.map_values(|a: A| f(a));
    lemma_order_len(unordered_order, inputs.len());
    lemma_ordered_matches_sequential_map(inputs, f, ordered_order);
    let ordered = ordered_run(initial(), tokens(results, ordered_order));
    assert(ordered.map_values(|p: Polled<T>| ready_value(p)) =~= values);
    let unordered = unordered_run(tokens(results, unordered_order));
    assert forall|p: int| 0 <= p < unordered_order.len() implies (#[trigger] unordered[p]) is Item by {
        assert(unordered_order[p] < inputs.len());
    }
    let uvals = unordered.map_values(|r: Received<T>| item_value(r));
    let picked = unordered_order.map_values(|i: nat| values[i as int]);
    assert forall|p: int| 0 <= p < unordered_order.len() implies #[trigger] uvals[p] == picked[p] by {
        assert(unordered_order[p] < inputs.len());
    }
    assert(unordered.map_values(|r: Received<T>| item_value(r)) =~= unordered_order.map_values(
        |i: nat| values[i as int],
    ));
    lemma_permuted_multiset(unordered_order, values);
}

/// With no input, both iterators end at once: an empty arrival order, and
/// nothing yielded by either iterator.
pub proof fn lemma_empty_input<T>(order: Seq<nat>)
    requires
        is_arrival_order(order, 0),
    ensures
        order.len() == 0,
        ordered_run(initial(), tokens(Seq::<Option<T>>::empty(), order)).len() == 0,
        unordered_run(tokens(Seq::<Option<T>>::empty(), order)).len() == 0,
{
    lemma_order_len(order, 0);
    let m = initial::<T>();
    assert(m.pending.dom() =~= Set::empty());
    assert(tokens(Seq::<Option<T>>::empty(), order) =~= Seq::empty());
}

/// A failure reported by the ordered iterator is final: polling again leaves
/// the buffer as it is and reports the same failure, so no value for a later
/// position ever comes out, however often it is polled.
pub proof fn lemma_failure_is_final<T>(m: ReorderModel<T>, p: Packet<T>)
    requires
        poll_spec(m).1 is Failed,
    ensures
        poll_spec(m).0 == m,
        poll_spec(poll_spec(m).0) == poll_spec(m),
        !m.pending.contains_key(p.idx as nat) ==> poll_spec(push_spec(m, p)).1 == poll_spec(m).1,
{
    if !m.pending.contains_key(p.idx as nat) {
        assert(p.idx as nat != m.next);
        assert(push_spec(m, p).pending[m.next] == m.pending[m.next]);
    }
}

} // verus!
