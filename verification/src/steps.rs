//! Runs of steps, each of which follows from the one before it and from how that went.
//!
//! Whoever carries out the steps asks for the next one and says how it went. What holds
//! of every run is stated over the sequence of its steps.
use vstd::prelude::*;

verus! {

/// The steps of a run, from `first` on, given how each of them went.
pub open spec fn trace<S, O>(first: S, after: spec_fn(S, O) -> S, outcomes: Seq<O>) -> Seq<S>
    decreases outcomes.len(),
{
    if outcomes.len() == 0 {
        seq![first]
    } else {
        let before = trace(first, after, outcomes.drop_last());
        before.push(after(before.last(), outcomes.last()))
    }
}

/// Whether the step was taken before the place `i`, and succeeded.
pub open spec fn succeeded_before<S>(steps: Seq<S>, outcomes: Seq<bool>, i: int, step: S) -> bool {
    exists|j: int| 0 <= j < i && outcomes[j] && #[trigger] steps[j] == step
}

/// A run has one step more than outcomes, and each step follows from the one before it.
pub proof fn lemma_trace<S, O>(first: S, after: spec_fn(S, O) -> S, outcomes: Seq<O>)
    ensures
        trace(first, after, outcomes).len() == outcomes.len() + 1,
        trace(first, after, outcomes)[0] == first,
        forall|n: int|
            0 < n <= outcomes.len() ==> #[trigger] trace(first, after, outcomes)[n] == after(
                trace(first, after, outcomes)[n - 1],
                outcomes[n - 1],
            ),
    decreases outcomes.len(),
{
    if outcomes.len() > 0 {
        let head = outcomes.drop_last();
        lemma_trace(first, after, head);
        let before = trace(first, after, head);
        let all = trace(first, after, outcomes);
        assert forall|n: int| 0 < n <= outcomes.len() implies #[trigger] all[n] == after(
            all[n - 1],
            outcomes[n - 1],
        ) by {
            if n < outcomes.len() {
                assert(all[n] == before[n]);
                assert(all[n - 1] == before[n - 1]);
                assert(head[n - 1] == outcomes[n - 1]);
            }
        }
    }
}

} // verus!
