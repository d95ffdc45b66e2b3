use vstd::prelude::*;

verus! {

/// A filter that takes one sample at a time and answers each with one
/// filtered sample, computed from a history of fixed length that it keeps.
///
/// An implementation promises that its answer depends on the samples fed
/// since construction alone: `response` names that dependence, and
/// `inputs` is the sequence of samples fed. Both are left unspecified by
/// default; code generic over the filter sees only the contracts below.
pub trait SampleFilter: Sized {
    /// The type of the samples taken and given back.
    type Sample: Copy;

    /// The samples fed since construction, oldest first.
    closed spec fn inputs(&self) -> Seq<Self::Sample> {
        arbitrary()
    }

    /// The value answered to the last sample of `fed`, when `fed` is the
    /// whole sequence of samples fed since construction.
    closed spec fn response(fed: Seq<Self::Sample>) -> Self::Sample {
        arbitrary()
    }

    /// A filter whose history is empty (all zeros).
    fn new() -> (r: Self)
        ensures
            r.inputs() == Seq::<Self::Sample>::empty(),
    ;

    /// Pushes `sample` into the history and returns the filtered value.
    fn feed(&mut self, sample: Self::Sample) -> (r: Self::Sample)
        ensures
            final(self).inputs() == old(self).inputs().push(sample),
            r == Self::response(final(self).inputs()),
    ;
}

/// The answers a filter of type `F` gives while it is fed `fed` from a
/// fresh start: the `i`-th is its response to the first `i + 1` samples.
pub open spec fn answers<F: SampleFilter>(fed: Seq<F::Sample>) -> Seq<F::Sample> {
    Seq::new(fed.len(), |i: int| F::response(fed.take(i + 1)))
}

/// Feeding one more sample adds one answer and keeps the earlier ones.
pub proof fn lemma_answers_push<F: SampleFilter>(fed: Seq<F::Sample>, s: F::Sample)
    ensures
        answers::<F>(fed.push(s)) == answers::<F>(fed).push(F::response(fed.push(s))),
{
    let longer = fed.push(s);
    let grown = answers::<F>(longer);
    let pushed = answers::<F>(fed).push(F::response(longer));
    assert forall|i: int| 0 <= i < grown.len() implies #[trigger] grown[i] == pushed[i] by {
        if i < fed.len() {
            assert(longer.take(i + 1) =~= fed.take(i + 1));
        } else {
            assert(longer.take(i + 1) =~= longer);
        }
    }
    assert(grown =~= pushed);
}

} // verus!
