//! A running mean over a window of the latest samples.

use crate::ratio::Ratio;
use std::collections::VecDeque;
use vstd::prelude::*;

verus! {

/// A reading of a meter: the mean `sum / limit` of a full window.
#[derive(Debug, Copy, Clone, PartialEq, Eq, Structural)]
pub struct Rate {
    /// The sum of the samples in the window.
    pub sum: u128,
    /// The number of samples in the window, never zero.
    pub limit: usize,
}

impl Rate {
    /// The reading is strictly less than the threshold.
    pub open spec fn below(&self, threshold: Ratio) -> bool {
        self.sum * threshold.denominator < threshold.numerator * self.limit
    }
}

/// The sum of a sequence of samples.
pub open spec fn seq_sum(samples: Seq<usize>) -> int
    decreases samples.len(),
{
    if samples.len() == 0 {
        0
    } else {
        seq_sum(samples.drop_last()) + samples.last()
    }
}

/// The last `n` elements of a sequence, or all of it where it has fewer.
pub open spec fn last_n(samples: Seq<usize>, n: int) -> Seq<usize> {
    if samples.len() <= n {
        samples
    } else {
        samples.subrange(samples.len() - n, samples.len() as int)
    }
}

/// The window of a meter with the given limit after it was fed the whole
/// history, one sample at a time, starting empty.
pub open spec fn fed(limit: usize, history: Seq<usize>) -> Seq<usize>
    decreases history.len(),
{
    if history.len() == 0 {
        Seq::empty()
    } else {
        last_n(fed(limit, history.drop_last()).push(history.last()), limit as int)
    }
}

/// Keeps the latest `limit` samples and reports their mean once it holds
/// that many.
pub struct RateMeter {
    limit: usize,
    samples: VecDeque<usize>,
}

impl View for RateMeter {
    type V = Seq<usize>;

    /// The samples in the window, oldest first.
    closed spec fn view(&self) -> Seq<usize> {
        self.samples@
    }
}

impl RateMeter {
    /// The size of the window.
    pub closed spec fn spec_limit(&self) -> usize {
        self.limit
    }

    /// The window never holds more than `limit` samples.
    pub open spec fn wf(&self) -> bool {
        self@.len() <= self.spec_limit()
    }

    /// The reading: the mean of a full window. A meter whose window is not
    /// full has none, and neither has one whose window has no room at all.
    pub open spec fn spec_rate(&self) -> Option<Rate> {
        if self.spec_limit() > 0 && self@.len() >= self.spec_limit() {
            Some(Rate { sum: seq_sum(self@) as u128, limit: self.spec_limit() })
        } else {
            None
        }
    }

    /// There is a reading and it is strictly less than the threshold.
    pub open spec fn spec_is_below(&self, threshold: Ratio) -> bool {
        match self.spec_rate() {
            Some(rate) => rate.below(threshold),
            None => false,
        }
    }

    pub fn new(limit: usize) -> (meter: RateMeter)
        ensures
            meter.wf(),
            meter.spec_limit() == limit,
            meter@ == Seq::<usize>::empty(),
    {
        RateMeter { limit, samples: VecDeque::new() }
    }

    /// The size of the window.
    pub fn limit(&self) -> (limit: usize)
        ensures
            limit == self.spec_limit(),
    {
        self.limit
    }

    /// The number of samples in the window.
    pub fn len(&self) -> (len: usize)
        ensures
            len == self@.len(),
    {
        self.samples.len()
    }

    /// Appends a sample; the oldest one leaves when the window is over its
    /// limit.
    pub fn sample(&mut self, value: usize)
        requires
            old(self).wf(),
        ensures
            final(self).wf(),
            final(self).spec_limit() == old(self).spec_limit(),
            final(self)@ == last_n(old(self)@.push(value), old(self).spec_limit() as int),
    {
        self.samples.push_back(value);

        if self.samples.len() > self.limit {
            self.samples.pop_front();
        }
        assert(self.samples@ =~= last_n(old(self)@.push(value), old(self).spec_limit() as int));
    }

    /// The mean of the window, once it is full.
    pub fn rate(&self) -> (rate: Option<Rate>)
        requires
            self.wf(),
        ensures
            rate == self.spec_rate(),
    {
        let len: usize = self.samples.len();
        if self.limit > 0 && len >= self.limit {
            let mut sum: u128 = 0;
            let mut i: usize = 0;
            while i < len
                invariant
                    i <= len,
                    len == self.samples@.len(),
                    sum == seq_sum(self.samples@.take(i as int)),
                    sum <= i * usize::MAX,
                decreases len - i,
            {
                let sample: usize = self.samples[i];
                proof {
                    let next = self.samples@.take(i + 1);
                    assert(next.drop_last() =~= self.samples@.take(i as int));
                    assert(next.last() == sample);
                    assert((i + 1) * usize::MAX == i * usize::MAX + usize::MAX) by (nonlinear_arith);
                    assert(len * usize::MAX <= usize::MAX * usize::MAX) by (nonlinear_arith)
                        requires
                            len <= usize::MAX,
                    ;
                    assert((i + 1) * usize::MAX <= len * usize::MAX) by (nonlinear_arith)
                        requires
                            i + 1 <= len,
                    ;
                    assert(usize::MAX * usize::MAX <= u128::MAX) by (nonlinear_arith)
                        requires
                            usize::MAX <= u64::MAX,
                    ;
                }
                sum = sum + sample as u128;
                i = i + 1;
            }
            assert(self.samples@.take(len as int) =~= self.samples@);
            Some(Rate { sum, limit: self.limit })
        } else {
            None
        }
    }

    /// Empties the window.
    pub fn reset(&mut self)
        ensures
            final(self).wf(),
            final(self).spec_limit() == old(self).spec_limit(),
            final(self)@ == Seq::<usize>::empty(),
    {
        self.samples = VecDeque::new();
    }

    /// Whether there is a reading strictly less than the threshold. Without
    /// a reading the answer is no.
    pub fn is_below(&self, threshold: Ratio) -> (below: bool)
        requires
            self.wf(),
            threshold.wf(),
        ensures
            below == self.spec_is_below(threshold),
    {
        match self.rate() {
            Some(rate) => rate_is_below(rate, threshold),
            None => false,
        }
    }
}

/// Compares `rate.sum / rate.limit` with the threshold without overflow:
/// `sum * d < n * limit` holds exactly when `n * limit` is positive and
/// `sum <= (n * limit - 1) / d`.
fn rate_is_below(rate: Rate, threshold: Ratio) -> (below: bool)
    requires
        threshold.wf(),
    ensures
        below == rate.below(threshold),
{
    proof {
        assert(threshold.numerator * rate.limit <= u64::MAX * u64::MAX) by (nonlinear_arith)
            requires
                0 <= threshold.numerator <= u64::MAX,
                0 <= rate.limit <= u64::MAX,
        ;
    }
    let bound: u128 = threshold.numerator as u128 * rate.limit as u128;
    if bound == 0 {
        proof {
            assert(rate.sum * threshold.denominator >= 0) by (nonlinear_arith)
                requires
                    rate.sum >= 0,
                    threshold.denominator >= 0,
            ;
        }
        false
    } else {
        let quotient: u128 = (bound - 1) / threshold.denominator as u128;
        proof {
            lemma_product_below(
                rate.sum as int,
                threshold.denominator as int,
                bound as int,
                quotient as int,
            );
        }
        rate.sum <= quotient
    }
}

/// For a positive `d` and `q = (p - 1) / d`: `s * d < p` exactly when
/// `s <= q`.
proof fn lemma_product_below(s: int, d: int, p: int, q: int)
    requires
        0 <= s,
        0 < d,
        0 < p,
        q == (p - 1) / d,
    ensures
        s * d < p <==> s <= q,
{
    let r = (p - 1) % d;
    assert(p - 1 == d * q + r && 0 <= r < d) by {
        vstd::arithmetic::div_mod::lemma_fundamental_div_mod(p - 1, d);
    }
    if s <= q {
        assert(s * d <= q * d) by (nonlinear_arith)
            requires
                s <= q,
                0 < d,
        ;
        assert(q * d == d * q) by (nonlinear_arith);
    } else {
        assert(s * d >= (q + 1) * d) by (nonlinear_arith)
            requires
                s >= q + 1,
                0 < d,
        ;
        assert((q + 1) * d == d * q + d) by (nonlinear_arith);
    }
}

/// A meter that was fed a history holds its latest `limit` samples.
pub proof fn lemma_window_holds_latest(limit: usize, history: Seq<usize>)
    ensures
        fed(limit, history) == last_n(history, limit as int),
    decreases history.len(),
{
    if history.len() > 0 {
        lemma_window_holds_latest(limit, history.drop_last());
        let before = last_n(history.drop_last(), limit as int);
        assert(last_n(before.push(history.last()), limit as int) =~= last_n(
            history,
            limit as int,
        ));
    }
}

/// After at least `limit` samples the reading of a meter is the mean of the
/// latest `limit` of them; before that it has no reading and is below no
/// threshold.
pub proof fn lemma_rate_of_history(meter: RateMeter, history: Seq<usize>, threshold: Ratio)
    requires
        meter@ == fed(meter.spec_limit(), history),
    ensures
        meter.wf(),
        history.len() >= meter.spec_limit() > 0 ==> meter.spec_rate() == Some(
            Rate {
                sum: seq_sum(last_n(history, meter.spec_limit() as int)) as u128,
                limit: meter.spec_limit(),
            },
        ),
        history.len() < meter.spec_limit() ==> meter.spec_rate().is_none()
            && !meter.spec_is_below(threshold),
{
    lemma_window_holds_latest(meter.spec_limit(), history);
}

/// A meter with a window of one sample has a reading from its first
/// sample on, and the reading is the latest sample.
pub proof fn lemma_window_of_one(meter: RateMeter, history: Seq<usize>)
    requires
        meter.spec_limit() == 1,
        history.len() >= 1,
        meter@ == fed(1, history),
    ensures
        meter.spec_rate() == Some(Rate { sum: history.last() as u128, limit: 1 }),
{
    lemma_window_holds_latest(1, history);
    let window = last_n(history, 1);
    assert(window.len() == 1);
    assert(window.last() == history.last());
    assert(window.drop_last() =~= Seq::<usize>::empty());
    assert(seq_sum(window.drop_last()) == 0);
}

} // verus!
