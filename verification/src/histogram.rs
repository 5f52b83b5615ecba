//! A log2-bucketed latency histogram.

use crate::order_book::one_more;
use crate::timer::{law_nanos_last_as_long_as_the_ticks, nanos, ticks_to_ns};
use vstd::arithmetic::power2::pow2;
use vstd::prelude::*;
use vstd::std_specs::bits::u64_leading_zeros;

verus! {

/// Sample counts by order of magnitude: bucket `i` counts the samples from
/// `2^i` up to `2^(i+1)`, the first one zero as well, and the last one
/// everything beyond. The counts wrap around at the end of their range.
pub struct LatencyHistogram<const N: usize> {
    buckets: [u64; N],
    total: u64,
    max: u64,
}

/// What a histogram holds.
#[verifier::ext_equal]
pub struct HistogramView {
    pub buckets: Seq<u64>,
    pub total: u64,
    pub max: u64,
}

/// One line of a summary: a bucket that is not empty, with the bounds it is
/// listed under.
#[derive(Debug, Clone, Copy, PartialEq, Eq, Structural)]
pub struct BucketRow {
    pub lo_ns: u64,
    pub hi_ns: u64,
    pub count: u64,
}

/// The exponent of the largest power of two that is at most `n`; zero for
/// zero.
pub open spec fn magnitude(n: nat) -> nat
    decreases n,
{
    if n < 2 {
        0
    } else {
        1 + magnitude(n / 2)
    }
}

/// The bucket of a sample when there are `n` buckets.
pub open spec fn bucket_of(ticks: u64, n: nat) -> int {
    let b = magnitude(ticks as nat);
    if b < n {
        b as int
    } else {
        n - 1
    }
}

/// The summary line of bucket `i`.
pub open spec fn row_of(i: int, count: u64, hz: u64) -> BucketRow {
    BucketRow {
        lo_ns: if i == 0 {
            0
        } else {
            nanos(pow2((i - 1) as nat) as u64, hz)
        },
        hi_ns: nanos(pow2(i as nat) as u64, hz),
        count,
    }
}

/// The summary lines of these buckets: one for each that is not empty, in
/// order.
pub open spec fn rows_of(buckets: Seq<u64>, hz: u64) -> Seq<BucketRow>
    decreases buckets.len(),
{
    if buckets.len() == 0 {
        Seq::empty()
    } else {
        let front = rows_of(buckets.drop_last(), hz);
        if buckets.last() == 0 {
            front
        } else {
            front.push(row_of(buckets.len() - 1, buckets.last(), hz))
        }
    }
}

impl HistogramView {
    pub open spec fn fresh(n: nat) -> HistogramView {
        HistogramView { buckets: Seq::new(n, |i: int| 0u64), total: 0, max: 0 }
    }

    pub open spec fn record(self, ticks: u64) -> HistogramView {
        let b = bucket_of(ticks, self.buckets.len());
        HistogramView {
            buckets: self.buckets.update(b, one_more(self.buckets[b])),
            total: one_more(self.total),
            max: if ticks > self.max {
                ticks
            } else {
                self.max
            },
        }
    }

    pub open spec fn record_all(self, samples: Seq<u64>) -> HistogramView
        decreases samples.len(),
    {
        if samples.len() == 0 {
            self
        } else {
            self.record_all(samples.drop_last()).record(samples.last())
        }
    }
}

proof fn lemma_leading_zeros_give_magnitude(ticks: u64)
    requires
        ticks > 0,
    ensures
        u64_leading_zeros(ticks) == 63 - magnitude(ticks as nat),
        magnitude(ticks as nat) < 64,
    decreases ticks,
{
    reveal(u64_leading_zeros);
    if ticks >= 2 {
        lemma_leading_zeros_give_magnitude(ticks / 2);
        vstd::std_specs::bits::axiom_u64_leading_zeros(ticks);
    } else {
        assert(u64_leading_zeros(0) == 64);
        assert(u64_leading_zeros(1) == u64_leading_zeros(0) - 1);
    }
}

impl<const N: usize> View for LatencyHistogram<N> {
    type V = HistogramView;

    closed spec fn view(&self) -> HistogramView {
        HistogramView { buckets: self.buckets@, total: self.total, max: self.max }
    }
}

impl<const N: usize> LatencyHistogram<N> {
    /// Nothing is counted in a bucket that no 64-bit sample falls into.
    pub open spec fn wf(&self) -> bool {
        &&& self@.buckets.len() == N
        &&& forall|i: int| 64 <= i < N ==> (#[trigger] self@.buckets[i]) == 0
    }

    pub fn new() -> (histogram: Self)
        ensures
            histogram.wf(),
            histogram@ == HistogramView::fresh(N as nat),
            histogram@.buckets.len() == N,
            forall|i: int| 0 <= i < N ==> (#[trigger] histogram@.buckets[i]) == 0,
            histogram@.total == 0,
            histogram@.max == 0,
    {
        let histogram = LatencyHistogram { buckets: [0u64;N], total: 0, max: 0 };
        assert(histogram@.buckets =~= HistogramView::fresh(N as nat).buckets);
        histogram
    }

    /// Counts one sample.
    pub fn record(&mut self, ticks: u64)
        requires
            N > 0,
            old(self).wf(),
        ensures
            final(self).wf(),
            final(self)@ == old(self)@.record(ticks),
    {
        let b: usize = if ticks == 0 {
            0
        } else {
            proof {
                lemma_leading_zeros_give_magnitude(ticks);
            }
            let log: usize = 63 - ticks.leading_zeros() as usize;
            if log < N - 1 {
                log
            } else {
                N - 1
            }
        };
        assert(b == bucket_of(ticks, N as nat));
        let count: u64 = self.buckets[b];
        self.buckets[b] = count.wrapping_add(1);
        self.total = self.total.wrapping_add(1);
        if ticks > self.max {
            self.max = ticks;
        }
        assert(self@.buckets =~= old(self)@.record(ticks).buckets);
    }

    /// How many samples were counted.
    pub fn total(&self) -> (total: u64)
        ensures
            total == self@.total,
    {
        self.total
    }

    /// The largest sample.
    pub fn max(&self) -> (max: u64)
        ensures
            max == self@.max,
    {
        self.max
    }

    /// The lines of a summary, for a counter that runs at `hz`: one for each
    /// bucket that is not empty.
    pub fn summary_rows(&self, hz: u64) -> (rows: Vec<BucketRow>)
        requires
            self.wf(),
        ensures
            rows@ == rows_of(self@.buckets, hz),
    {
        let mut rows: Vec<BucketRow> = Vec::new();
        let mut i: usize = 0;
        assert(self@.buckets.take(0) =~= Seq::empty());
        while i < N
            invariant
                i <= N,
                self.wf(),
                rows@ == rows_of(self@.buckets.take(i as int), hz),
            decreases N - i,
        {
            let count: u64 = self.buckets[i];
            assert(count == self@.buckets[i as int]);
            assert(self@.buckets.take(i + 1).drop_last() =~= self@.buckets.take(i as int));
            if count != 0 {
                let hi: u64 = Self::power(i);
                let lo_ns: u64 = if i == 0 {
                    0
                } else {
                    ticks_to_ns(Self::power(i - 1), hz)
                };
                rows.push(BucketRow { lo_ns, hi_ns: ticks_to_ns(hi, hz), count });
            }
            i += 1;
        }
        assert(self@.buckets.take(N as int) =~= self@.buckets);
        rows
    }

    fn power(i: usize) -> (power: u64)
        requires
            i < 64,
        ensures
            power == pow2(i as nat),
    {
        proof {
            vstd::bits::lemma_u64_pow2_no_overflow(i as nat);
            vstd::bits::lemma_u64_shl_is_mul(1, i as u64);
        }
        1u64 << i as u64
    }
}

impl<const N: usize> Default for LatencyHistogram<N> {
    fn default() -> (histogram: Self)
        ensures
            histogram.wf(),
            histogram@ == HistogramView::fresh(N as nat),
    {
        Self::new()
    }
}

/// A sample of a bucket lies between its powers of two: bucket `b` below the
/// last holds the samples from `2^b` up to `2^(b+1)`, and zero is in the
/// first.
pub proof fn law_bucket_bounds(ticks: u64, n: nat)
    requires
        n > 0,
    ensures
        0 <= bucket_of(ticks, n) < n,
        ticks > 0 ==> pow2(bucket_of(ticks, n) as nat) <= ticks,
        bucket_of(ticks, n) < n - 1 ==> ticks < pow2((bucket_of(ticks, n) + 1) as nat),
        ticks == 0 ==> bucket_of(ticks, n) == 0,
{
    lemma_magnitude_bounds(ticks as nat);
    let b = magnitude(ticks as nat);
    if b >= n {
        vstd::arithmetic::power2::lemma_pow2_strictly_increases((n - 1) as nat, b);
    }
}

proof fn lemma_magnitude_bounds(n: nat)
    ensures
        n > 0 ==> pow2(magnitude(n)) <= n,
        n < pow2(magnitude(n) + 1),
    decreases n,
{
    vstd::arithmetic::power2::lemma2_to64();
    if n >= 2 {
        lemma_magnitude_bounds(n / 2);
        vstd::arithmetic::power2::lemma_pow2_unfold(magnitude(n));
        vstd::arithmetic::power2::lemma_pow2_unfold(magnitude(n) + 1);
    }
}

/// How many of the samples fall into bucket `b`.
pub open spec fn samples_in(samples: Seq<u64>, b: int, n: nat) -> nat
    decreases samples.len(),
{
    if samples.len() == 0 {
        0
    } else {
        samples_in(samples.drop_last(), b, n) + if bucket_of(samples.last(), n) == b {
            1nat
        } else {
            0nat
        }
    }
}

/// A histogram counts each sample once, in its own bucket, and keeps the
/// largest: the total is the number of samples, each bucket the number that
/// fall into it, up to wrapping around.
pub proof fn law_histogram_counts_each_sample_once(n: nat, samples: Seq<u64>)
    requires
        n > 0,
    ensures
        ({
            let h = HistogramView::fresh(n).record_all(samples);
            &&& h.buckets.len() == n
            &&& h.total == samples.len() as int % 0x1_0000_0000_0000_0000
            &&& forall|b: int|
                0 <= b < n ==> (#[trigger] h.buckets[b]) == samples_in(samples, b, n) as int
                    % 0x1_0000_0000_0000_0000
            &&& forall|i: int| 0 <= i < samples.len() ==> (#[trigger] samples[i]) <= h.max
            &&& samples.len() == 0 ==> h.max == 0
            &&& samples.len() > 0 ==> samples.contains(h.max)
        }),
    decreases samples.len(),
{
    let h = HistogramView::fresh(n).record_all(samples);
    if samples.len() > 0 {
        let front = samples.drop_last();
        law_histogram_counts_each_sample_once(n, front);
        let before = HistogramView::fresh(n).record_all(front);
        law_bucket_bounds(samples.last(), n);
        assert forall|b: int| 0 <= b < n implies (#[trigger] h.buckets[b]) == samples_in(
            samples,
            b,
            n,
        ) as int % 0x1_0000_0000_0000_0000 by {
            assert(before.buckets[b] == samples_in(front, b, n) as int
                % 0x1_0000_0000_0000_0000);
        }
        assert forall|i: int| 0 <= i < samples.len() implies (#[trigger] samples[i]) <= h.max by {
            if i < front.len() {
                assert(front[i] == samples[i]);
            }
        }
        if h.max == samples.last() {
            assert(samples[samples.len() - 1] == h.max);
        } else {
            if front.len() > 0 {
                let i = choose|i: int| 0 <= i < front.len() && front[i] == before.max;
                assert(samples[i] == h.max);
            }
        }
    }
}

/// How many of the samples fall into one of the first `k` buckets.
pub open spec fn samples_in_first(samples: Seq<u64>, k: nat, n: nat) -> nat
    decreases k,
{
    if k == 0 {
        0
    } else {
        samples_in_first(samples, (k - 1) as nat, n) + samples_in(samples, k - 1, n)
    }
}

proof fn lemma_one_more_sample(samples: Seq<u64>, k: nat, n: nat)
    requires
        samples.len() > 0,
        0 <= bucket_of(samples.last(), n),
    ensures
        samples_in_first(samples, k, n) == samples_in_first(samples.drop_last(), k, n)
            + if bucket_of(samples.last(), n) < k {
            1nat
        } else {
            0nat
        },
    decreases k,
{
    if k > 0 {
        lemma_one_more_sample(samples, (k - 1) as nat, n);
    }
}

/// No sample is lost between the buckets: together they hold all of them.
pub proof fn law_buckets_hold_every_sample(samples: Seq<u64>, n: nat)
    requires
        n > 0,
    ensures
        samples_in_first(samples, n, n) == samples.len(),
    decreases samples.len(),
{
    if samples.len() == 0 {
        lemma_no_samples(samples, n, n);
    } else {
        law_bucket_bounds(samples.last(), n);
        law_buckets_hold_every_sample(samples.drop_last(), n);
        lemma_one_more_sample(samples, n, n);
    }
}

proof fn lemma_no_samples(samples: Seq<u64>, k: nat, n: nat)
    requires
        samples.len() == 0,
    ensures
        samples_in_first(samples, k, n) == 0,
    decreases k,
{
    if k > 0 {
        lemma_no_samples(samples, (k - 1) as nat, n);
    }
}

/// One sample adds one to the bucket whose powers of two it lies between and
/// to the total, around the end of their range, leaves every other bucket
/// alone, and raises the maximum to itself if it is larger.
pub proof fn law_a_sample_counts_once(histogram: HistogramView, ticks: u64)
    requires
        histogram.buckets.len() > 0,
    ensures
        ({
            let after = histogram.record(ticks);
            let n = histogram.buckets.len();
            &&& after.buckets.len() == n
            &&& after.total == (histogram.total + 1) % 0x1_0000_0000_0000_0000
            &&& after.max == if ticks > histogram.max {
                ticks
            } else {
                histogram.max
            }
            &&& exists|b: int|
                {
                    &&& 0 <= b < n
                    &&& ticks == 0 ==> b == 0
                    &&& ticks > 0 ==> pow2(b as nat) <= ticks
                    &&& b < n - 1 ==> ticks < pow2((b + 1) as nat)
                    &&& (#[trigger] after.buckets[b]) == (histogram.buckets[b] + 1)
                        % 0x1_0000_0000_0000_0000
                    &&& forall|i: int|
                        0 <= i < n && i != b ==> (#[trigger] after.buckets[i])
                            == histogram.buckets[i]
                }
        }),
{
    let after = histogram.record(ticks);
    let n = histogram.buckets.len();
    let b = bucket_of(ticks, n);
    law_bucket_bounds(ticks, n);
    assert(after.buckets[b] == (histogram.buckets[b] + 1) % 0x1_0000_0000_0000_0000);
}

/// A summary has one row for each bucket that is not empty, in order: as many
/// rows stand ahead of it as there are such buckets ahead of its own. A row
/// shows its bucket's count, and as its upper bound how many nanoseconds `2^i`
/// ticks at `hz` last, as its lower bound how many `2^(i-1)` do, or zero for the
/// first bucket.
pub proof fn law_rows_show_their_buckets(buckets: Seq<u64>, hz: u64)
    requires
        forall|i: int| 64 <= i < buckets.len() ==> buckets[i] == 0,
    ensures
        ({
            let rows = rows_of(buckets, hz);
            let counted = |count: u64| count != 0;
            &&& rows.len() == buckets.filter(counted).len()
            &&& forall|i: int|
                0 <= i < buckets.len() && (#[trigger] buckets[i]) != 0 ==> {
                    let k = buckets.take(i).filter(counted).len() as int;
                    &&& k < rows.len()
                    &&& rows[k].count == buckets[i]
                    &&& hz == 0 ==> rows[k].hi_ns == pow2(i as nat) as int / 3
                    &&& hz > 0 ==> rows[k].hi_ns == (pow2(i as nat) as int * 1_000_000_000
                        / hz as int) % 0x1_0000_0000_0000_0000
                    &&& i == 0 ==> rows[k].lo_ns == 0
                    &&& i > 0 && hz == 0 ==> rows[k].lo_ns == pow2((i - 1) as nat) as int / 3
                    &&& i > 0 && hz > 0 ==> rows[k].lo_ns == (pow2((i - 1) as nat) as int
                        * 1_000_000_000 / hz as int) % 0x1_0000_0000_0000_0000
                }
        }),
    decreases buckets.len(),
{
    let counted = |count: u64| count != 0;
    let rows = rows_of(buckets, hz);
    reveal(Seq::filter);
    if buckets.len() > 0 {
        let front = buckets.drop_last();
        let n = buckets.len() - 1;
        law_rows_show_their_buckets(front, hz);
        assert(buckets.take(n) =~= front);
        assert forall|i: int| 0 <= i < n implies (#[trigger] buckets.take(i)) == front.take(i) by {
            assert(buckets.take(i) =~= front.take(i));
        }
        assert forall|i: int| 0 <= i < n implies (#[trigger] buckets[i]) == front[i] by {}
        if buckets[n] != 0 {
            vstd::bits::lemma_u64_pow2_no_overflow(n as nat);
            if n > 0 {
                vstd::bits::lemma_u64_pow2_no_overflow((n - 1) as nat);
                if hz > 0 {
                    law_nanos_last_as_long_as_the_ticks(pow2((n - 1) as nat) as u64, hz);
                }
            }
            if hz > 0 {
                law_nanos_last_as_long_as_the_ticks(pow2(n as nat) as u64, hz);
            }
            assert(rows == rows_of(front, hz).push(row_of(n, buckets[n], hz)));
        }
    }
}

} // verus!
