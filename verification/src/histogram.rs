//! Latency histograms: an `hdrhistogram::Histogram<u64>`, seen through the
//! samples recorded since it was last reset.

use vstd::prelude::*;
use vstd::multiset::Multiset;

use hdrhistogram::Histogram;

verus! {

/// A latency histogram of `u64` nanosecond samples. The histogram itself is
/// open to read (quantiles are doubles, read outside the library).
#[verifier::external_body]
pub struct LatencyHistogram {
    pub inner: Histogram<u64>,
}

/// The samples recorded in `h` since it was created or last reset.
pub uninterp spec fn histogram_samples(h: LatencyHistogram) -> Multiset<u64>;

/// `h` grows its range to fit any value recorded (it was made by
/// `Histogram::new`).
pub uninterp spec fn histogram_auto_resizes(h: LatencyHistogram) -> bool;

/// `Histogram::new`: an empty, auto-resizing histogram keeping `sigfig`
/// significant figures; `None` for its `CreationError`. That error comes
/// only for more than 5 significant figures (the range starts at 1 to 2,
/// which every other check accepts).
#[verifier::external_body]
pub(crate) fn new_histogram(sigfig: u8) -> (r: Option<LatencyHistogram>)
    ensures
        sigfig <= 5 ==> r is Some,
        r matches Some(h) ==> histogram_samples(h) =~= Multiset::<u64>::empty()
            && histogram_auto_resizes(h),
{
    match Histogram::new(sigfig) {
        Ok(inner) => Some(LatencyHistogram { inner }),
        Err(_) => None,
    }
}

/// `Histogram::record`: adds one sample of `value`; `false` for its
/// `RecordError`. That error comes only when the value is out of range and
/// the histogram may not grow (or the grown size would not fit a `usize`,
/// which a 32- or 64-bit `usize` always holds), and then the samples stay as
/// they were.
#[verifier::external_body]
pub(crate) fn record_sample(h: &mut LatencyHistogram, value: u64) -> (ok: bool)
    ensures
        histogram_auto_resizes(*old(h)) ==> ok,
        histogram_auto_resizes(*final(h)) == histogram_auto_resizes(*old(h)),
        ok ==> histogram_samples(*final(h)) =~= histogram_samples(*old(h)).insert(value),
        !ok ==> histogram_samples(*final(h)) =~= histogram_samples(*old(h)),
{
    h.inner.record(value).is_ok()
}

/// `Histogram::len`: how many samples were recorded (the count saturates at
/// `u64::MAX`).
#[verifier::external_body]
pub(crate) fn sample_count(h: &LatencyHistogram) -> (n: u64)
    ensures
        n as nat == if histogram_samples(*h).len() < u64::MAX as nat {
            histogram_samples(*h).len()
        } else {
            u64::MAX as nat
        },
{
    h.inner.len()
}

/// `Histogram::reset`: drops every sample, keeping the configuration.
#[verifier::external_body]
pub(crate) fn reset_samples(h: &mut LatencyHistogram)
    ensures
        histogram_samples(*final(h)) =~= Multiset::<u64>::empty(),
        histogram_auto_resizes(*final(h)) == histogram_auto_resizes(*old(h)),
{
    h.inner.reset()
}

} // verus!
