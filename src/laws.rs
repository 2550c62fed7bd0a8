use vstd::prelude::*;
use vstd::multiset::Multiset;
use crate::heap::pops_to;
use crate::order::{HeapOrder, MaxOrder, MinOrder, lt_spec, total_order};

verus! {

broadcast use vstd::multiset::group_multiset_axioms, vstd::seq_lib::group_to_multiset_ensures;

/// Popping an empty heap (a fresh one, or one already drained) yields nothing and leaves it
/// empty, however often it is repeated.
pub proof fn lemma_pop_on_empty<T, O: HeapOrder<T>>(
    o: O,
    before: Multiset<T>,
    r: Option<T>,
    after: Multiset<T>,
)
    requires
        before.len() == 0,
        pops_to(o, before, r, after),
    ensures
        r is None,
        after.len() == 0,
{
}

/// A pop that yields a value takes exactly one element away; one that yields nothing takes
/// none (an `add` puts exactly one in: see `Heap::add`).
pub proof fn lemma_pop_len<T, O: HeapOrder<T>>(
    o: O,
    before: Multiset<T>,
    r: Option<T>,
    after: Multiset<T>,
)
    requires
        pops_to(o, before, r, after),
    ensures
        r is Some ==> after.len() + 1 == before.len(),
        r is None ==> after.len() == before.len(),
{
}

/// The number of entries of `s` that hold a value.
pub open spec fn count_some<T>(s: Seq<Option<T>>) -> nat
    decreases s.len(),
{
    if s.len() == 0 {
        0
    } else {
        count_some(s.drop_last()) + if s.last() is Some {
            1nat
        } else {
            0nat
        }
    }
}

/// One call on a heap holding `before`: `Some(v)` is `add(v)`, which returns nothing; `None`
/// is `pop()`, which returns `result`. The heap holds `after` once the call returns.
pub open spec fn step_ok<T, O: HeapOrder<T>>(
    o: O,
    before: Multiset<T>,
    call: Option<T>,
    result: Option<T>,
    after: Multiset<T>,
) -> bool {
    match call {
        Some(v) => result is None && after == before.insert(v),
        None => pops_to(o, before, result, after),
    }
}

/// `calls[k]` takes the heap from `states[k]` to `states[k + 1]` and returns `results[k]`.
pub open spec fn is_run<T, O: HeapOrder<T>>(
    o: O,
    states: Seq<Multiset<T>>,
    calls: Seq<Option<T>>,
    results: Seq<Option<T>>,
) -> bool {
    &&& states.len() == calls.len() + 1
    &&& results.len() == calls.len()
    &&& forall|k: int|
        0 <= k < calls.len() ==> step_ok(
            o,
            #[trigger] states[k],
            calls[k],
            results[k],
            states[k + 1],
        )
}

/// After any run of `add` and `pop` calls on an empty heap, the heap holds as many elements as
/// there were `add` calls less the `pop` calls that returned a value.
pub proof fn lemma_run_len<T, O: HeapOrder<T>>(
    o: O,
    states: Seq<Multiset<T>>,
    calls: Seq<Option<T>>,
    results: Seq<Option<T>>,
)
    requires
        is_run(o, states, calls, results),
        states[0].len() == 0,
    ensures
        states.last().len() == count_some(calls) - count_some(results),
    decreases calls.len(),
{
    if calls.len() > 0 {
        let n = calls.len() - 1;
        let ps = states.drop_last();
        let pc = calls.drop_last();
        let pr = results.drop_last();
        assert forall|k: int| 0 <= k < pc.len() implies step_ok(
            o,
            #[trigger] ps[k],
            pc[k],
            pr[k],
            ps[k + 1],
        ) by {
            assert(step_ok(o, states[k], calls[k], results[k], states[k + 1]));
        }
        lemma_run_len(o, ps, pc, pr);
        assert(step_ok(o, states[n], calls[n], results[n], states[n + 1]));
        if calls[n] is None {
            lemma_pop_len(o, states[n], results[n], states[n + 1]);
        }
    }
}

/// Adding `values` one after another to an empty heap and then draining it (`Heap::drain`
/// returns `out`, whose multiset is what the heap held) gives back exactly the added values, no
/// value lost or duplicated.
pub proof fn lemma_adds_then_drain<T>(states: Seq<Multiset<T>>, values: Seq<T>, out: Seq<T>)
    requires
        states.len() == values.len() + 1,
        states[0].len() == 0,
        forall|k: int|
            0 <= k < values.len() ==> #[trigger] states[k + 1] == states[k].insert(values[k]),
        out.to_multiset() == states.last(),
    ensures
        out.to_multiset() =~= values.to_multiset(),
{
    lemma_adds_collect(states, values);
}

proof fn lemma_adds_collect<T>(states: Seq<Multiset<T>>, values: Seq<T>)
    requires
        states.len() == values.len() + 1,
        states[0].len() == 0,
        forall|k: int|
            0 <= k < values.len() ==> #[trigger] states[k + 1] == states[k].insert(values[k]),
    ensures
        states.last() =~= values.to_multiset(),
    decreases values.len(),
{
    if values.len() == 0 {
        assert(states[0] =~= Multiset::empty());
    } else {
        let n = values.len() - 1;
        let ps = states.drop_last();
        let pv = values.drop_last();
        assert forall|k: int| 0 <= k < pv.len() implies #[trigger] ps[k + 1] == ps[k].insert(
            pv[k],
        ) by {
            assert(states[k + 1] == states[k].insert(values[k]));
        }
        lemma_adds_collect(ps, pv);
        assert(values =~= pv.push(values[n]));
        assert(states[n + 1] == states[n].insert(values[n]));
    }
}

/// Of two successive pops the second never yields an element that should sit above the first.
pub proof fn lemma_successive_pops_ordered<T, O: HeapOrder<T>>(
    o: O,
    m0: Multiset<T>,
    x: T,
    m1: Multiset<T>,
    y: T,
    m2: Multiset<T>,
)
    requires
        pops_to(o, m0, Some(x), m1),
        pops_to(o, m1, Some(y), m2),
    ensures
        !o.prefers(y, x),
{
    assert(m0.contains(y));
}

/// A min-heap pops in non-decreasing order: the second of two successive pops is not smaller
/// than the first.
pub proof fn lemma_min_pops_non_decreasing<T: Ord>(
    m0: Multiset<T>,
    x: T,
    m1: Multiset<T>,
    y: T,
    m2: Multiset<T>,
)
    requires
        total_order::<T>(),
        pops_to(MinOrder, m0, Some(x), m1),
        pops_to(MinOrder, m1, Some(y), m2),
    ensures
        !lt_spec(y, x),
{
    lemma_successive_pops_ordered(MinOrder, m0, x, m1, y, m2);
}

/// A max-heap pops in non-increasing order: the second of two successive pops is not larger
/// than the first.
pub proof fn lemma_max_pops_non_increasing<T: Ord>(
    m0: Multiset<T>,
    x: T,
    m1: Multiset<T>,
    y: T,
    m2: Multiset<T>,
)
    requires
        total_order::<T>(),
        pops_to(MaxOrder, m0, Some(x), m1),
        pops_to(MaxOrder, m1, Some(y), m2),
    ensures
        !lt_spec(x, y),
{
    lemma_successive_pops_ordered(MaxOrder, m0, x, m1, y, m2);
}

} // verus!
