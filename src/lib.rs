//! A streaming integer-factor decimator: every sample passes through a
//! low-pass filter, and one filtered sample out of each `factor` is kept.

mod decimator;
mod filter;

pub use decimator::{
    kept, lemma_kept_from_start, lemma_kept_len_exact, lemma_kept_split, Decimator, DecimatorError,
};
pub use filter::{answers, lemma_answers_push, SampleFilter};
