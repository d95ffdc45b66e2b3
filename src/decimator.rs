use vstd::prelude::*;

use vstd::arithmetic::div_mod::{
    lemma_add_mod_noop, lemma_fundamental_div_mod, lemma_fundamental_div_mod_converse,
    lemma_small_mod,
};

use crate::filter::{answers, lemma_answers_push, SampleFilter};

verus! {

/// What the decimator keeps of the filter's answers `r`, when `start`
/// samples were fed before the first of them: the answer to the sample at
/// stream position `p` (counted from 1) is kept exactly when `factor`
/// divides `p`.
pub open spec fn kept<S>(r: Seq<S>, start: nat, factor: nat) -> Seq<S>
    decreases r.len(),
{
    if r.len() == 0 {
        Seq::empty()
    } else {
        let front = kept(r.drop_last(), start, factor);
        if (start + r.len()) % factor == 0 {
            front.push(r.last())
        } else {
            front
        }
    }
}

/// The kept values never outnumber the answers they are drawn from.
proof fn lemma_kept_len<S>(r: Seq<S>, start: nat, factor: nat)
    ensures
        kept(r, start, factor).len() <= r.len(),
    decreases r.len(),
{
    if r.len() > 0 {
        lemma_kept_len(r.drop_last(), start, factor);
    }
}

/// Going back one position in the stream lowers its quotient by `factor`
/// by one exactly when the position was a multiple of `factor`.
proof fn lemma_div_prev(x: int, factor: int)
    requires
        x >= 1,
        factor > 0,
    ensures
        x / factor == (x - 1) / factor + if x % factor == 0 { 1int } else { 0int },
{
    lemma_fundamental_div_mod(x, factor);
    let q = x / factor;
    let m = x % factor;
    if m == 0 {
        assert(x - 1 == (q - 1) * factor + (factor - 1)) by (nonlinear_arith)
            requires x == factor * q + m, m == 0;
        lemma_fundamental_div_mod_converse(x - 1, factor, q - 1, factor - 1);
    } else {
        assert(x - 1 == q * factor + (m - 1)) by (nonlinear_arith)
            requires x == factor * q + m;
        lemma_fundamental_div_mod_converse(x - 1, factor, q, m - 1);
    }
}

/// The number of values kept is the number of multiples of `factor`
/// among the stream positions `start + 1 ..= start + r.len()`.
pub proof fn lemma_kept_len_exact<S>(r: Seq<S>, start: nat, factor: nat)
    requires
        factor > 0,
    ensures
        kept(r, start, factor).len() == (start + r.len()) / factor - start / factor,
    decreases r.len(),
{
    if r.len() > 0 {
        lemma_kept_len_exact(r.drop_last(), start, factor);
        lemma_div_prev((start + r.len()) as int, factor as int);
    }
}

/// From a fresh start, the `k`-th value kept is the answer to the
/// `(k + 1) * factor`-th sample, and one value is kept for each whole
/// `factor` samples.
pub proof fn lemma_kept_from_start<S>(r: Seq<S>, factor: nat)
    requires
        factor > 0,
    ensures
        kept(r, 0, factor).len() == r.len() / factor,
        forall|k: int|
            0 <= k < kept(r, 0, factor).len() ==> #[trigger] kept(r, 0, factor)[k] == r[(k + 1)
                * factor - 1],
    decreases r.len(),
{
    lemma_kept_len_exact(r, 0, factor);
    if r.len() > 0 {
        let front = r.drop_last();
        lemma_kept_from_start(front, factor);
        let n = r.len() as int;
        let f = factor as int;
        let kf = kept(front, 0, factor);
        let kr = kept(r, 0, factor);
        assert(0nat / factor == 0);
        assert forall|k: int| 0 <= k < kr.len() implies #[trigger] kr[k] == r[(k + 1) * f - 1] by {
            assert(0 <= (k + 1) * f - 1) by (nonlinear_arith)
                requires k >= 0, f > 0;
            if k < kf.len() {
                let q = (n - 1) / f;
                assert(front.len() == n - 1);
                assert(kf.len() == q);
                lemma_fundamental_div_mod(n - 1, f);
                assert((k + 1) * f - 1 < n - 1) by (nonlinear_arith)
                    requires
                        k + 1 <= q,
                        f > 0,
                        n - 1 == f * q + (n - 1) % f,
                        0 <= (n - 1) % f,
                ;
                assert(kf[k] == front[(k + 1) * f - 1]);
                assert(kr[k] == kf[k]);
            } else {
                assert(n % f == 0);
                assert(kr.len() == kf.len() + 1);
                lemma_fundamental_div_mod(n, f);
                lemma_div_prev(n, f);
                assert((k + 1) * f - 1 == n - 1) by (nonlinear_arith)
                    requires k + 1 == n / f, n == f * (n / f) + n % f, n % f == 0;
            }
        }
    }
}

/// Decimating a stream in two parts, the second starting where the first
/// ended, keeps the same values as decimating it whole: the outputs do not
/// depend on how the input is split into calls.
pub proof fn lemma_kept_split<S>(a: Seq<S>, b: Seq<S>, start: nat, factor: nat)
    ensures
        kept(a + b, start, factor) == kept(a, start, factor) + kept(b, start + a.len(), factor),
    decreases b.len(),
{
    if b.len() == 0 {
        assert(a + b =~= a);
        assert(kept(b, start + a.len(), factor) =~= Seq::<S>::empty());
        assert(kept(a, start, factor) + Seq::<S>::empty() =~= kept(a, start, factor));
    } else {
        lemma_kept_split(a, b.drop_last(), start, factor);
        assert((a + b).drop_last() =~= a + b.drop_last());
        assert((a + b).last() == b.last());
        let front = kept(a, start, factor);
        let back = kept(b.drop_last(), start + a.len(), factor);
        assert((front + back).push(b.last()) =~= front + back.push(b.last()));
    }
}

/// Stepping one sample on, the stream position wraps to zero modulo
/// `factor` exactly when the phase counter does.
proof fn lemma_mod_next(n: nat, factor: nat)
    requires
        factor > 0,
    ensures
        (n + 1) % factor == ((n % factor) + 1) % factor,
{
    lemma_add_mod_noop(n as int, 1, factor as int);
    if factor > 1 {
        lemma_small_mod(1, factor);
    }
}

/// Why a decimator could not be built.
#[derive(Clone, Copy, Debug, PartialEq, Eq, Structural)]
pub enum DecimatorError {
    /// The downsampling factor was zero.
    ZeroFactor,
}

/// Keeps one filtered sample out of every `factor` fed to it.
pub struct Decimator<F: SampleFilter> {
    factor: u32,
    filter: F,
    idx: u32,
}

impl<F: SampleFilter> Decimator<F> {
    /// The downsampling factor.
    pub closed spec fn factor(&self) -> nat {
        self.factor as nat
    }

    /// The samples fed since construction, oldest first.
    pub closed spec fn inputs(&self) -> Seq<F::Sample> {
        self.filter.inputs()
    }

    /// The number of samples fed since construction.
    pub open spec fn fed(&self) -> nat {
        self.inputs().len()
    }

    /// The filter's answer to each sample fed since construction, in order.
    pub open spec fn answers(&self) -> Seq<F::Sample> {
        answers::<F>(self.inputs())
    }

    /// Every value emitted since construction, in order.
    pub open spec fn emitted(&self) -> Seq<F::Sample> {
        kept(self.answers(), 0, self.factor())
    }

    /// Every value emitted since construction, and so every value still to
    /// come, is fixed by the factor and the samples fed: two decimators that
    /// agree on both have emitted the same values.
    pub proof fn lemma_deterministic(a: &Self, b: &Self)
        requires
            a.factor() == b.factor(),
            a.inputs() == b.inputs(),
        ensures
            a.emitted() == b.emitted(),
    {
    }

    /// The factor is positive and the phase counter is the number of samples
    /// fed, modulo the factor.
    pub closed spec fn wf(&self) -> bool {
        &&& self.factor > 0
        &&& self.idx as nat == self.filter.inputs().len() % (self.factor as nat)
    }

    /// A decimator by `downsampling`, with a fresh filter; a zero factor is
    /// refused.
    pub fn new(downsampling: u32) -> (r: Result<Self, DecimatorError>)
        ensures
            r is Err <==> downsampling == 0,
            r is Err ==> r->Err_0 == DecimatorError::ZeroFactor,
            r is Ok ==> {
                let d = r->Ok_0;
                &&& d.wf()
                &&& d.factor() == downsampling as nat
                &&& d.inputs() == Seq::<F::Sample>::empty()
            },
    {
        if downsampling == 0 {
            return Err(DecimatorError::ZeroFactor);
        }
        let d = Decimator { factor: downsampling, filter: F::new(), idx: 0 };
        proof {
            lemma_small_mod(0, downsampling as nat);
        }
        Ok(d)
    }

    /// Feeds one sample through the filter and returns the filtered value
    /// when this is the `factor`-th sample since the last one returned.
    pub fn feed(&mut self, sample: F::Sample) -> (r: Option<F::Sample>)
        requires
            old(self).wf(),
        ensures
            final(self).wf(),
            final(self).factor() == old(self).factor(),
            final(self).inputs() == old(self).inputs().push(sample),
            r == if final(self).fed() % final(self).factor() == 0 {
                Some(F::response(final(self).inputs()))
            } else {
                None::<F::Sample>
            },
            final(self).emitted() == match r {
                Some(v) => old(self).emitted().push(v),
                None => old(self).emitted(),
            },
    {
        let out = self.filter.feed(sample);
        proof {
            lemma_answers_push::<F>(old(self).inputs(), sample);
            assert(self.answers().drop_last() =~= old(self).answers());
            lemma_mod_next(old(self).fed(), self.factor as nat);
        }
        self.idx = (self.idx + 1) % self.factor;
        if self.idx != 0 {
            None
        } else {
            Some(out)
        }
    }

    /// Feeds every sample of `samples` in order, and writes the values
    /// emitted to the front of `samples`, in order; returns how many there
    /// are. What follows them in `samples` is left unspecified.
    pub fn decim_in_place(&mut self, samples: &mut [F::Sample]) -> (count: usize)
        requires
            old(self).wf(),
        ensures
            final(self).wf(),
            final(self).factor() == old(self).factor(),
            final(self).inputs() == old(self).inputs() + old(samples)@,
            final(samples)@.len() == old(samples)@.len(),
            count == (old(self).fed() + old(samples)@.len()) / old(self).factor()
                - old(self).fed() / old(self).factor(),
            final(samples)@.subrange(0, count as int) == kept(
                final(self).answers().subrange(old(self).fed() as int, final(self).fed() as int),
                old(self).fed(),
                old(self).factor(),
            ),
            final(self).emitted() == old(self).emitted() + final(samples)@.subrange(0, count as int),
    {
        let ghost start = self.fed();
        let ghost before = self.answers();
        let n = samples.len();
        let mut src: usize = 0;
        let mut dest: usize = 0;
        while src < n
            invariant
                self.wf(),
                self.factor() == old(self).factor(),
                n == samples@.len(),
                n == old(samples)@.len(),
                start == old(self).fed(),
                before == old(self).answers(),
                src <= n,
                dest <= src,
                self.inputs() == old(self).inputs() + old(samples)@.subrange(0, src as int),
                self.answers().subrange(0, start as int) == before,
                samples@.subrange(src as int, n as int) == old(samples)@.subrange(src as int, n as int),
                samples@.subrange(0, dest as int) == kept(
                    self.answers().subrange(start as int, self.fed() as int),
                    start,
                    self.factor(),
                ),
            decreases n - src,
        {
            let ghost prev = self.answers();
            let ghost prev_inputs = self.inputs();
            let ghost prev_samples = samples@;
            proof {
                assert(samples@[src as int] == samples@.subrange(src as int, n as int)[0]);
            }
            let sample = samples[src];
            let out = self.feed(sample);
            proof {
                lemma_answers_push::<F>(prev_inputs, sample);
                let now = self.answers();
                assert(now.subrange(start as int, now.len() as int).drop_last()
                    =~= prev.subrange(start as int, prev.len() as int));
                assert(now.subrange(0, start as int) =~= prev.subrange(0, start as int));
                assert(self.inputs() =~= old(self).inputs() + old(samples)@.subrange(0, src + 1));
                lemma_kept_len(now.subrange(start as int, now.len() as int), start, self.factor());
            }
            match out {
                Some(v) => {
                    samples[dest] = v;
                    dest = dest + 1;
                    proof {
                        assert(samples@.subrange(0, dest as int)
                            =~= prev_samples.subrange(0, dest - 1).push(v));
                    }
                },
                None => {
                    proof {
                        assert(samples@.subrange(0, dest as int) =~= prev_samples.subrange(0, dest as int));
                    }
                },
            }
            src = src + 1;
            proof {
                let rest = old(samples)@.subrange(src - 1, n as int);
                assert(prev_samples.subrange(src - 1, n as int) == rest);
                assert forall|i: int| src <= i < n implies samples@[i] == old(samples)@[i] by {
                    assert(samples@[i] == prev_samples[i]);
                    assert(prev_samples[i] == prev_samples.subrange(src - 1, n as int)[i - src + 1]);
                }
                assert(samples@.subrange(src as int, n as int)
                    =~= old(samples)@.subrange(src as int, n as int));
            }
        }
        proof {
            let after = self.answers();
            let fresh = after.subrange(start as int, after.len() as int);
            assert(after =~= before + fresh);
            assert(old(samples)@.subrange(0, n as int) =~= old(samples)@);
            lemma_kept_split(before, fresh, 0, self.factor());
            lemma_kept_len_exact(fresh, start, self.factor());
        }
        dest
    }
}

} // verus!
