use decimator::{Decimator, DecimatorError, SampleFilter};

const TAPS: usize = 6;
const COEFS: [f32; TAPS] = [1.0, 0.0, 2.0, 3.0, 0.0, 1.0];

/// A six-tap FIR filter over a ring buffer; the first coefficient weighs
/// the oldest sample in the history.
struct TestFir {
    hist: [f32; TAPS],
    idx: usize,
}

impl SampleFilter for TestFir {
    type Sample = f32;

    fn new() -> Self {
        TestFir { hist: [0.0; TAPS], idx: 0 }
    }

    fn feed(&mut self, sample: f32) -> f32 {
        self.hist[self.idx] = sample;
        self.idx = (self.idx + 1) % TAPS;
        let mut acc = 0.0;
        for k in 0..TAPS {
            acc += self.hist[(self.idx + k) % TAPS] * COEFS[k];
        }
        acc
    }
}

/// A filter that hands each sample back unchanged, with a running index
/// added so that every answer is distinct.
struct Tagger {
    n: i64,
}

impl SampleFilter for Tagger {
    type Sample = i64;

    fn new() -> Self {
        Tagger { n: 0 }
    }

    fn feed(&mut self, sample: i64) -> i64 {
        self.n += 1;
        sample * 1000 + self.n
    }
}

fn make<F: SampleFilter>(factor: u32) -> Decimator<F> {
    Decimator::new(factor).unwrap()
}

#[test]
fn test_decim() {
    let mut d = Decimator::<TestFir>::new(4).unwrap();

    assert_eq!(d.feed(1.0), None);
    assert_eq!(d.feed(1.0), None);
    assert_eq!(d.feed(1.0), None);
    assert_eq!(d.feed(1.0), Some(6.0));
    assert_eq!(d.feed(2.0), None);
    assert_eq!(d.feed(2.0), None);
    assert_eq!(d.feed(2.0), None);
    assert_eq!(d.feed(2.0), Some(13.0));
}

#[test]
fn test_in_place() {
    let mut d = Decimator::<TestFir>::new(4).unwrap();
    let mut samples = [1.0, 1.0, 1.0, 1.0, 2.0, 2.0, 2.0, 2.0];

    d.decim_in_place(&mut samples[..]);

    assert_eq!(samples[0], 6.0);
    assert_eq!(samples[1], 13.0);
    assert_eq!(samples[2], 1.0);
}

#[test]
fn batch_returns_count_and_outputs() {
    let mut d = Decimator::<TestFir>::new(4).unwrap();
    let mut samples = [1.0, 1.0, 1.0, 1.0, 2.0, 2.0, 2.0, 2.0];
    let count = d.decim_in_place(&mut samples[..]);
    assert_eq!(count, 2);
    assert_eq!(&samples[..count], &[6.0, 13.0]);
}

#[test]
fn zero_factor_is_refused() {
    assert!(matches!(Decimator::<TestFir>::new(0), Err(DecimatorError::ZeroFactor)));
    assert!(Decimator::<TestFir>::new(1).is_ok());
}

#[test]
fn emits_on_every_multiple_of_the_factor() {
    let mut d: Decimator<Tagger> = make(3);
    for call in 1..=30i64 {
        let r = d.feed(call);
        if call % 3 == 0 {
            assert_eq!(r, Some(call * 1000 + call));
        } else {
            assert_eq!(r, None);
        }
    }
}

#[test]
fn factor_one_keeps_everything() {
    let mut d: Decimator<Tagger> = make(1);
    let mut buf = [5i64, 6, 7];
    let count = d.decim_in_place(&mut buf[..]);
    assert_eq!(count, 3);
    assert_eq!(buf, [5001, 6002, 7003]);
}

#[test]
fn empty_buffer_keeps_the_phase() {
    let mut d: Decimator<Tagger> = make(2);
    assert_eq!(d.feed(1), None);
    let mut empty: [i64; 0] = [];
    assert_eq!(d.decim_in_place(&mut empty[..]), 0);
    assert_eq!(d.feed(2), Some(2002));
}

#[test]
fn batch_count_follows_the_phase() {
    let mut d: Decimator<Tagger> = make(3);
    assert_eq!(d.feed(0), None);
    assert_eq!(d.feed(0), None);
    let mut buf = [1i64, 2, 3, 4, 5, 6, 7];
    let count = d.decim_in_place(&mut buf[..]);
    // Stream positions 3..=9 hold the multiples 3, 6 and 9.
    assert_eq!(count, 3);
    assert_eq!(&buf[..count], &[1003, 4006, 7009]);
}

#[test]
fn split_batches_match_single_feeds() {
    let input: Vec<f32> = (0..23).map(|i| ((i * 7) % 5) as f32 - 1.5).collect();

    let mut one_by_one = Vec::new();
    let mut d = Decimator::<TestFir>::new(4).unwrap();
    for &s in &input {
        if let Some(v) = d.feed(s) {
            one_by_one.push(v);
        }
    }

    let mut whole = input.clone();
    let mut d = Decimator::<TestFir>::new(4).unwrap();
    let count = d.decim_in_place(&mut whole[..]);
    assert_eq!(&whole[..count], &one_by_one[..]);

    for split in [(1usize, 9usize), (3, 4), (5, 17), (0, 23)] {
        let mut d = Decimator::<TestFir>::new(4).unwrap();
        let mut got = Vec::new();
        let bounds = [0, split.0, split.1, input.len()];
        for w in bounds.windows(2) {
            let mut part = input[w[0]..w[1]].to_vec();
            let c = d.decim_in_place(&mut part[..]);
            got.extend_from_slice(&part[..c]);
        }
        assert_eq!(got, one_by_one);
    }
}

#[test]
fn fresh_decimators_agree() {
    let input = [0.5f32, -1.0, 2.0, 4.0, 0.0, 3.0, 1.0, -2.0, 0.25, 8.0];
    let mut a = Decimator::<TestFir>::new(2).unwrap();
    let mut b = Decimator::<TestFir>::new(2).unwrap();
    for &s in &input {
        assert_eq!(a.feed(s), b.feed(s));
    }
}

#[test]
fn largest_factor_waits() {
    let mut d: Decimator<Tagger> = make(u32::MAX);
    let mut buf = [1i64; 64];
    assert_eq!(d.decim_in_place(&mut buf[..]), 0);
    assert_eq!(d.feed(1), None);
}
