//! The engine: takes ticks out of a ring and applies them to a book.

use crate::order_book::{one_more, BookView, OrderBook};
use crate::ring_buffer::{after_consume, ahead_by, SpscDisruptor};
use crate::types::{DeltaResult, NormalizedTick, Side, Symbol};
use vstd::prelude::*;

pub use crate::histogram::LatencyHistogram;

verus! {

/// One latency sample, written into a slot of the caller's.
#[derive(Debug, Clone, Copy, PartialEq, Eq, Structural)]
pub struct TickStats {
    /// Clock ticks spent on applying.
    pub latency_ticks: u64,
    /// The sequence number of the tick that was applied.
    pub sequence: u64,
    pub result: DeltaResult,
}

impl Default for TickStats {
    fn default() -> (stats: Self)
        ensures
            stats == (TickStats { latency_ticks: 0, sequence: 0, result: DeltaResult::NoOp }),
    {
        TickStats { latency_ticks: 0, sequence: 0, result: DeltaResult::NoOp }
    }
}

/// How far a clock went from `start` to `end`, if it wrapped around at most
/// once in between.
pub open spec fn clock_distance(start: u64, end: u64) -> u64 {
    if end >= start {
        (end - start) as u64
    } else {
        (end - start + 0x1_0000_0000_0000_0000) as u64
    }
}

impl TickStats {
    /// The sample of a tick that was applied with `result` between the clock
    /// readings `start` and `end`.
    pub fn sample(start: u64, end: u64, tick: &NormalizedTick, result: DeltaResult) -> (stats: Self)
        ensures
            stats == (TickStats {
                latency_ticks: clock_distance(start, end),
                sequence: tick.sequence,
                result,
            }),
            stats.latency_ticks == (end - start) % 0x1_0000_0000_0000_0000,
            stats.sequence == tick.sequence,
            stats.result == result,
    {
        TickStats { latency_ticks: end.wrapping_sub(start), sequence: tick.sequence, result }
    }
}

/// Applies a tick to a book and counts it. When there is a slot for the sample,
/// and only then, one clock is read right before the tick is applied and one
/// right after.
pub fn process_tick<B: FnOnce() -> u64, A: FnOnce() -> u64>(
    book: &mut OrderBook,
    ticks: &mut u64,
    tick: &NormalizedTick,
    stats_out: Option<&mut TickStats>,
    before: B,
    after: A,
) -> (result: DeltaResult)
    requires
        old(book).ready_for(*tick),
        stats_out is Some ==> before.requires(()) && after.requires(()),
    ensures
        old(book).wf() ==> final(book).wf(),
        tick.symbol == old(book).symbol ==> match tick.side {
            Side::Bid => final(book).bids.wf(true),
            Side::Ask => final(book).asks.wf(false),
        },
        result == old(book)@.outcome(*tick),
        final(book)@ == old(book)@.apply(*tick),
        tick.side == Side::Bid || tick.symbol != old(book).symbol ==> final(book).asks == old(
            book,
        ).asks,
        tick.side == Side::Ask || tick.symbol != old(book).symbol ==> final(book).bids == old(
            book,
        ).bids,
        final(book).bids.spare_entries_of(old(book).bids),
        final(book).asks.spare_entries_of(old(book).asks),
        *final(ticks) == one_more(*old(ticks)),
        stats_out matches Some(slot) ==> exists|start: u64, end: u64|
            {
                &&& #[trigger] before.ensures((), start)
                &&& #[trigger] after.ensures((), end)
                &&& *final(slot) == (TickStats {
                    latency_ticks: clock_distance(start, end),
                    sequence: tick.sequence,
                    result,
                })
            },
{
    *ticks = ticks.wrapping_add(1);
    match stats_out {
        None => book.apply(tick),
        Some(slot) => {
            let start: u64 = before();
            let result: DeltaResult = book.apply(tick);
            let end: u64 = after();
            *slot = TickStats::sample(start, end, tick, result);
            result
        },
    }
}

/// None of the ticks concerns this side of the symbol's book.
pub open spec fn leave_alone(ticks: Seq<NormalizedTick>, symbol: Symbol, side: Side) -> bool {
    forall|i: int|
        0 <= i < ticks.len() ==> (#[trigger] ticks[i]).side != side || ticks[i].symbol != symbol
}

/// One engine for one instrument on one exchange: a book and the ring it is
/// fed from.
pub struct BookEngine {
    book: Box<OrderBook>,
    ring: SpscDisruptor,
    /// How many ticks were processed. Wraps around at the end of its range.
    pub ticks: u64,
}

impl BookEngine {
    /// The engine's book.
    pub closed spec fn order_book(&self) -> OrderBook {
        *self.book
    }

    /// The engine's ring.
    pub closed spec fn queue(&self) -> SpscDisruptor {
        self.ring
    }

    /// The value of `ticks`.
    pub closed spec fn processed(&self) -> u64 {
        self.ticks
    }

    pub open spec fn wf(&self) -> bool {
        &&& self.order_book().wf()
        &&& self.queue().wf()
    }

    pub fn new(book: Box<OrderBook>, ring: SpscDisruptor) -> (engine: Self)
        ensures
            engine.order_book() == *book,
            engine.queue() == ring,
            engine.processed() == 0,
    {
        BookEngine { book, ring, ticks: 0 }
    }

    /// Processes the oldest tick of the ring, if there is one. When there is,
    /// and there is a slot for the sample, one clock is read right before the
    /// tick is applied and one right after.
    pub fn run_one<B: FnOnce() -> u64, A: FnOnce() -> u64>(
        &mut self,
        stats_out: Option<&mut TickStats>,
        before: B,
        after: A,
    ) -> (result: Option<DeltaResult>)
        requires
            old(self).wf(),
            stats_out is Some ==> before.requires(()) && after.requires(()),
        ensures
            final(self).wf(),
            final(self).queue()@ == after_consume(old(self).queue()@),
            final(self).queue().dropped() == old(self).queue().dropped(),
            old(self).queue()@.len() == 0 ==> {
                &&& result is None
                &&& final(self).order_book() == old(self).order_book()
                &&& final(self).processed() == old(self).processed()
                &&& stats_out matches Some(slot) ==> *final(slot) == *slot
            },
            old(self).queue()@.len() > 0 ==> {
                let tick = old(self).queue()@[0];
                &&& result == Some(old(self).order_book()@.outcome(tick))
                &&& final(self).order_book()@ == old(self).order_book()@.apply(tick)
                &&& tick.side == Side::Bid || tick.symbol != old(self).order_book().symbol
                    ==> final(self).order_book().asks == old(self).order_book().asks
                &&& tick.side == Side::Ask || tick.symbol != old(self).order_book().symbol
                    ==> final(self).order_book().bids == old(self).order_book().bids
                &&& final(self).order_book().bids.spare_entries_of(old(self).order_book().bids)
                &&& final(self).order_book().asks.spare_entries_of(old(self).order_book().asks)
                &&& final(self).processed() == one_more(old(self).processed())
                &&& stats_out matches Some(slot) ==> exists|start: u64, end: u64|
                    {
                        &&& #[trigger] before.ensures((), start)
                        &&& #[trigger] after.ensures((), end)
                        &&& *final(slot) == (TickStats {
                            latency_ticks: clock_distance(start, end),
                            sequence: tick.sequence,
                            result: old(self).order_book()@.outcome(tick),
                        })
                    }
            },
    {
        let tick: NormalizedTick = match self.ring.try_consume() {
            Some(tick) => tick,
            None => {
                return None;
            },
        };
        Some(process_tick(&mut self.book, &mut self.ticks, &tick, stats_out, before, after))
    }

    /// Processes every tick that waits in the ring, in order, and returns how
    /// many there were.
    pub fn run_batch(&mut self) -> (n: u32)
        requires
            old(self).wf(),
        ensures
            final(self).wf(),
            n == old(self).queue()@.len(),
            final(self).queue()@ == Seq::<NormalizedTick>::empty(),
            final(self).queue().dropped() == old(self).queue().dropped(),
            final(self).order_book()@ == old(self).order_book()@.apply_all(old(self).queue()@),
            final(self).order_book().bids.levels@ == old(self).order_book()@.entries_after(
                Side::Bid,
                old(self).order_book().bids.levels@,
                old(self).queue()@,
            ),
            final(self).order_book().asks.levels@ == old(self).order_book()@.entries_after(
                Side::Ask,
                old(self).order_book().asks.levels@,
                old(self).queue()@,
            ),
            leave_alone(old(self).queue()@, old(self).order_book().symbol, Side::Bid)
                ==> final(self).order_book().bids == old(self).order_book().bids,
            leave_alone(old(self).queue()@, old(self).order_book().symbol, Side::Ask)
                ==> final(self).order_book().asks == old(self).order_book().asks,
            final(self).processed() == ahead_by(old(self).processed(), n as int),
    {
        let ghost waiting = self.ring@;
        let ghost start = self.book@;
        let mut n: u32 = 0;
        proof {
            crate::ring_buffer::law_ring_is_bounded(self.ring);
            assert(waiting.skip(0) =~= waiting);
            assert(waiting.take(0) =~= Seq::empty());
        }
        loop
            invariant
                self.wf(),
                waiting.len() <= crate::ring_buffer::RING_SIZE,
                n <= waiting.len(),
                self.ring@ == waiting.skip(n as int),
                self.ring.dropped() == old(self).queue().dropped(),
                self.book@ == start.apply_all(waiting.take(n as int)),
                self.book.symbol == start.symbol,
                self.book.bids.levels@ == start.entries_after(
                    Side::Bid,
                    old(self).book.bids.levels@,
                    waiting.take(n as int),
                ),
                self.book.asks.levels@ == start.entries_after(
                    Side::Ask,
                    old(self).book.asks.levels@,
                    waiting.take(n as int),
                ),
                leave_alone(waiting, start.symbol, Side::Bid) ==> self.book.bids == old(
                    self,
                ).book.bids,
                leave_alone(waiting, start.symbol, Side::Ask) ==> self.book.asks == old(
                    self,
                ).book.asks,
                self.ticks == old(self).ticks,
            ensures
                n == waiting.len(),
            decreases self.ring@.len(),
        {
            let tick: NormalizedTick = match self.ring.try_consume() {
                Some(tick) => tick,
                None => {
                    break ;
                },
            };
            proof {
                assert(waiting.take(n + 1).drop_last() =~= waiting.take(n as int));
                assert(waiting.skip(n as int).drop_first() =~= waiting.skip(n + 1));
            }
            let ghost before = *self.book;
            self.book.apply(&tick);
            proof {
                let levels = self.book@;
                assert(tick == waiting[n as int]);
                assert(self.book.bids.levels@ =~= levels.bids + before.bids.levels@.skip(
                    levels.bids.len() as int,
                ));
                assert(self.book.asks.levels@ =~= levels.asks + before.asks.levels@.skip(
                    levels.asks.len() as int,
                ));
            }
            n = n.wrapping_add(1);
        }
        assert(waiting.take(n as int) =~= waiting);
        self.ticks = self.ticks.wrapping_add(n as u64);
        n
    }

    pub fn book(&self) -> (book: &OrderBook)
        ensures
            *book == self.order_book(),
    {
        &self.book
    }

    /// The book, to be changed in place. The engine stays well formed if the
    /// book does.
    pub fn book_mut(&mut self) -> (book: &mut OrderBook)
        ensures
            *book == old(self).order_book(),
            final(self).order_book() == *final(book),
            final(self).queue() == old(self).queue(),
            final(self).processed() == old(self).processed(),
    {
        &mut self.book
    }

    pub fn ring(&self) -> (ring: &SpscDisruptor)
        ensures
            *ring == self.queue(),
    {
        &self.ring
    }

    /// The ring, for the feed to publish into.
    pub fn ring_mut(&mut self) -> (ring: &mut SpscDisruptor)
        ensures
            *ring == old(self).queue(),
            final(self).queue() == *final(ring),
            final(self).order_book() == old(self).order_book(),
            final(self).processed() == old(self).processed(),
    {
        &mut self.ring
    }
}

/// It does not matter whether the ring is drained one tick at a time or in a
/// batch: taking the first tick and then the rest leaves the same book.
pub proof fn law_one_at_a_time_or_at_once(book: BookView, waiting: Seq<NormalizedTick>)
    requires
        waiting.len() > 0,
    ensures
        book.apply(waiting[0]).apply_all(after_consume(waiting)) == book.apply_all(waiting),
{
    let first = waiting.take(1);
    assert(first.drop_last() =~= Seq::empty());
    assert(book.apply_all(first) == book.apply_all(first.drop_last()).apply(first.last()));
    assert(waiting =~= first + after_consume(waiting));
    crate::book_laws::law_runs_join(book, first, after_consume(waiting));
}

/// A sample measures how far the clock went: `elapsed` ticks after `start`,
/// around the end of the clock's range, are a distance of `elapsed`.
pub proof fn law_distance_is_what_elapsed(start: u64, end: u64, elapsed: u64)
    requires
        end == (start + elapsed) % 0x1_0000_0000_0000_0000,
    ensures
        clock_distance(start, end) == elapsed,
{
}

/// Ticks leave a side alone exactly when each of them is for the other side or
/// for another symbol.
pub proof fn law_leaving_alone_means_elsewhere(
    ticks: Seq<NormalizedTick>,
    symbol: Symbol,
    side: Side,
)
    ensures
        leave_alone(ticks, symbol, side) <==> forall|i: int|
            0 <= i < ticks.len() ==> (#[trigger] ticks[i]).side != side || ticks[i].symbol != symbol,
{
}

} // verus!
