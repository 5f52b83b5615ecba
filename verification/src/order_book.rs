//! The order book: two sides, the rules by which ticks update them, and the
//! health counters kept beside them.

use crate::book_side::{delta_levels, delta_result, sorted, BookSide, MAX_LEVELS};
use crate::types::{DeltaResult, Exchange, Level, NormalizedTick, Price, Qty, Side, Symbol};
use vstd::prelude::*;

verus! {

/// The book of one instrument on one exchange.
///
/// The counters observe, they gate nothing: no tick is refused over its
/// sequence number. They wrap around at the end of their range.
pub struct OrderBook {
    pub bids: BookSide,
    pub asks: BookSide,
    pub sequence: u64,
    pub last_update_ns: u64,
    /// Ticks that carried another symbol.
    pub symbol_mismatches: u64,
    /// Sequence numbers that jumped by more than one.
    pub sequence_gaps: u64,
    /// Sequence numbers that went backward or repeated.
    pub sequence_reorders: u64,
    /// Checksum mismatches reported by the adapter.
    pub checksum_failures: u64,
    /// The snapshot the bids were last cleared for; `u32::MAX` for none.
    pub bids_snapshot_id: u32,
    /// The snapshot the asks were last cleared for; `u32::MAX` for none.
    pub asks_snapshot_id: u32,
    pub symbol: Symbol,
    pub exchange: Exchange,
    /// Whether `sequence` holds the number of a tick yet.
    pub sequence_initialized: bool,
}

/// What a book holds, with each side as the sequence of its levels.
#[verifier::ext_equal]
pub struct BookView {
    pub bids: Seq<Level>,
    pub asks: Seq<Level>,
    pub sequence: u64,
    pub last_update_ns: u64,
    pub symbol_mismatches: u64,
    pub sequence_gaps: u64,
    pub sequence_reorders: u64,
    pub checksum_failures: u64,
    pub bids_snapshot_id: u32,
    pub asks_snapshot_id: u32,
    pub symbol: Symbol,
    pub exchange: Exchange,
    pub sequence_initialized: bool,
}

/// One more, wrapping around at the end of the range.
pub open spec fn one_more(count: u64) -> u64 {
    if count == u64::MAX {
        0
    } else {
        (count + 1) as u64
    }
}

/// Bids are kept in descending order, asks in ascending order.
pub open spec fn is_descending(side: Side) -> bool {
    side == Side::Bid
}

/// A delta with this result changed the book.
pub open spec fn changes_book(result: DeltaResult) -> bool {
    result != DeltaResult::NoOp && result != DeltaResult::Discarded
}

impl BookView {
    /// A book that has seen nothing.
    pub open spec fn fresh(symbol: Symbol, exchange: Exchange) -> BookView {
        BookView {
            bids: Seq::empty(),
            asks: Seq::empty(),
            sequence: 0,
            last_update_ns: 0,
            symbol_mismatches: 0,
            sequence_gaps: 0,
            sequence_reorders: 0,
            checksum_failures: 0,
            bids_snapshot_id: u32::MAX,
            asks_snapshot_id: u32::MAX,
            symbol,
            exchange,
            sequence_initialized: false,
        }
    }

    /// Both sides are in order and within their bound.
    pub open spec fn wf(self) -> bool {
        &&& sorted(self.bids, true)
        &&& sorted(self.asks, false)
        &&& self.bids.len() <= MAX_LEVELS
        &&& self.asks.len() <= MAX_LEVELS
    }

    pub open spec fn levels(self, side: Side) -> Seq<Level> {
        match side {
            Side::Bid => self.bids,
            Side::Ask => self.asks,
        }
    }

    pub open spec fn snapshot_id(self, side: Side) -> u32 {
        match side {
            Side::Bid => self.bids_snapshot_id,
            Side::Ask => self.asks_snapshot_id,
        }
    }

    pub open spec fn with_levels(self, side: Side, levels: Seq<Level>) -> BookView {
        match side {
            Side::Bid => BookView { bids: levels, ..self },
            Side::Ask => BookView { asks: levels, ..self },
        }
    }

    pub open spec fn with_snapshot_id(self, side: Side, id: u32) -> BookView {
        match side {
            Side::Bid => BookView { bids_snapshot_id: id, ..self },
            Side::Ask => BookView { asks_snapshot_id: id, ..self },
        }
    }

    /// The side is cleared for a snapshot it has not been cleared for yet;
    /// a snapshot already begun goes on.
    pub open spec fn begin_snapshot(self, side: Side, id: u32) -> BookView {
        if id == self.snapshot_id(side) {
            self
        } else {
            self.with_levels(side, Seq::empty()).with_snapshot_id(side, id)
        }
    }

    /// The book that a tick's level meets: cleared first if the tick opens a
    /// snapshot.
    pub open spec fn prepared(self, tick: NormalizedTick) -> BookView {
        if tick.is_snapshot {
            self.begin_snapshot(tick.side, tick.snapshot_id)
        } else {
            self
        }
    }

    /// The sequence number of a tick is compared with the one before it: a
    /// jump counts as a gap, a step back or a repeat as a reorder, and the
    /// first number ever counts as neither.
    pub open spec fn track_sequence(self, seq: u64) -> BookView {
        let gap = self.sequence_initialized && seq > self.sequence + 1;
        let reorder = self.sequence_initialized && seq <= self.sequence;
        BookView {
            sequence: seq,
            sequence_initialized: true,
            sequence_gaps: if gap {
                one_more(self.sequence_gaps)
            } else {
                self.sequence_gaps
            },
            sequence_reorders: if reorder {
                one_more(self.sequence_reorders)
            } else {
                self.sequence_reorders
            },
            ..self
        }
    }

    /// What applying a tick reports.
    pub open spec fn outcome(self, tick: NormalizedTick) -> DeltaResult {
        if tick.symbol != self.symbol {
            DeltaResult::Discarded
        } else {
            delta_result(
                self.prepared(tick).levels(tick.side),
                tick.price,
                tick.qty,
                is_descending(tick.side),
            )
        }
    }

    /// The book after a tick. One for another symbol is counted and changes
    /// nothing else. Any other updates its side, and its sequence number is
    /// noted whatever came of that; its receive time is noted if it changed
    /// the book.
    pub open spec fn apply(self, tick: NormalizedTick) -> BookView {
        if tick.symbol != self.symbol {
            BookView { symbol_mismatches: one_more(self.symbol_mismatches), ..self }
        } else {
            let ready = self.prepared(tick);
            let updated = ready.with_levels(
                tick.side,
                delta_levels(
                    ready.levels(tick.side),
                    tick.price,
                    tick.qty,
                    is_descending(tick.side),
                ),
            );
            let numbered = updated.track_sequence(tick.sequence);
            if changes_book(self.outcome(tick)) {
                BookView { last_update_ns: tick.ts_recv_ns, ..numbered }
            } else {
                numbered
            }
        }
    }

    /// The book after a run of ticks, in order.
    pub open spec fn apply_all(self, ticks: Seq<NormalizedTick>) -> BookView
        decreases ticks.len(),
    {
        if ticks.len() == 0 {
            self
        } else {
            self.apply_all(ticks.drop_last()).apply(ticks.last())
        }
    }

    /// All entries of a side's array after a run of ticks, if they were
    /// `entries` before: the tracked levels come first, and what lies past them
    /// is left as it was.
    pub open spec fn entries_after(
        self,
        side: Side,
        entries: Seq<Level>,
        ticks: Seq<NormalizedTick>,
    ) -> Seq<Level>
        decreases ticks.len(),
    {
        if ticks.len() == 0 {
            entries
        } else {
            let levels = self.apply_all(ticks).levels(side);
            levels + self.entries_after(side, entries, ticks.drop_last()).skip(levels.len() as int)
        }
    }

    /// Best ask minus best bid, zero when they cross, nothing when a side is
    /// empty.
    pub open spec fn spread(self) -> Option<u64> {
        if self.bids.len() == 0 || self.asks.len() == 0 {
            None
        } else if self.bids[0].price.0 <= self.asks[0].price.0 {
            Some((self.asks[0].price.0 - self.bids[0].price.0) as u64)
        } else {
            Some(0)
        }
    }

    /// The best bid is above the best ask.
    pub open spec fn crossed(self) -> bool {
        &&& self.bids.len() > 0
        &&& self.asks.len() > 0
        &&& self.bids[0].price.0 > self.asks[0].price.0
    }

    /// More than `threshold_ns` have passed since the last update.
    pub open spec fn stale(self, now_ns: u64, threshold_ns: u64) -> bool {
        now_ns - self.last_update_ns > threshold_ns
    }
}

/// The first `n` levels of a side, or all it has, each with its side.
pub open spec fn top_levels(side: Side, levels: BookSide, n: usize) -> Seq<(Side, Price, Qty)> {
    let held = if levels.count < MAX_LEVELS {
        levels.count
    } else {
        MAX_LEVELS
    };
    Seq::new(
        if n < held {
            n as nat
        } else {
            held as nat
        },
        |i: int| (side, levels.levels@[i].price, levels.levels@[i].qty),
    )
}

/// Appends the first `n` levels of a side to `out`.
fn push_top_levels(side: Side, levels: &BookSide, n: usize, out: &mut Vec<(Side, Price, Qty)>)
    ensures
        final(out)@ == old(out)@ + top_levels(side, *levels, n),
{
    let held: usize = if levels.count < MAX_LEVELS {
        levels.count
    } else {
        MAX_LEVELS
    };
    let take: usize = if n < held {
        n
    } else {
        held
    };
    let mut i: usize = 0;
    while i < take
        invariant
            i <= take <= MAX_LEVELS,
            take == top_levels(side, *levels, n).len(),
            out@ == old(out)@ + top_levels(side, *levels, n).take(i as int),
        decreases take - i,
    {
        let level: Level = levels.levels[i];
        out.push((side, level.price, level.qty));
        i += 1;
        assert(out@ =~= old(out)@ + top_levels(side, *levels, n).take(i as int));
    }
    assert(top_levels(side, *levels, n).take(take as int) =~= top_levels(side, *levels, n));
}

impl View for OrderBook {
    type V = BookView;

    open spec fn view(&self) -> BookView {
        BookView {
            bids: self.bids@,
            asks: self.asks@,
            sequence: self.sequence,
            last_update_ns: self.last_update_ns,
            symbol_mismatches: self.symbol_mismatches,
            sequence_gaps: self.sequence_gaps,
            sequence_reorders: self.sequence_reorders,
            checksum_failures: self.checksum_failures,
            bids_snapshot_id: self.bids_snapshot_id,
            asks_snapshot_id: self.asks_snapshot_id,
            symbol: self.symbol,
            exchange: self.exchange,
            sequence_initialized: self.sequence_initialized,
        }
    }
}

impl OrderBook {
    /// Both sides are within bounds and in order.
    pub open spec fn wf(&self) -> bool {
        &&& self.bids.wf(true)
        &&& self.asks.wf(false)
    }

    /// The side that the tick acts on is well formed, unless the tick clears
    /// it first. A tick for another symbol acts on none.
    pub open spec fn ready_for(&self, tick: NormalizedTick) -> bool {
        let clears = tick.is_snapshot && tick.snapshot_id != self@.snapshot_id(tick.side);
        tick.symbol == self.symbol && !clears ==> match tick.side {
            Side::Bid => self.bids.wf(true),
            Side::Ask => self.asks.wf(false),
        }
    }

    /// The first bid entry is above the first ask entry. Of a book that is
    /// well formed this says the same as [`BookView::crossed`].
    pub open spec fn crosses(&self) -> bool {
        &&& self.bids.count > 0
        &&& self.asks.count > 0
        &&& self.bids.levels@[0].price.0 > self.asks.levels@[0].price.0
    }

    pub fn new(symbol: Symbol, exchange: Exchange) -> (book: Box<Self>)
        ensures
            book.wf(),
            book@ == BookView::fresh(symbol, exchange),
            book.bids.count == 0,
            book.asks.count == 0,
            book.sequence == 0,
            book.last_update_ns == 0,
            book.symbol_mismatches == 0,
            book.sequence_gaps == 0,
            book.sequence_reorders == 0,
            book.checksum_failures == 0,
            book.bids_snapshot_id == u32::MAX,
            book.asks_snapshot_id == u32::MAX,
            book.symbol == symbol,
            book.exchange == exchange,
            !book.sequence_initialized,
            forall|i: int|
                0 <= i < MAX_LEVELS ==> (#[trigger] book.bids.levels@[i]) == (Level {
                    price: Price(0),
                    qty: Qty(0),
                }),
            forall|i: int|
                0 <= i < MAX_LEVELS ==> (#[trigger] book.asks.levels@[i]) == (Level {
                    price: Price(0),
                    qty: Qty(0),
                }),
    {
        Box::new(
            OrderBook {
                bids: BookSide::new(),
                asks: BookSide::new(),
                sequence: 0,
                last_update_ns: 0,
                symbol_mismatches: 0,
                sequence_gaps: 0,
                sequence_reorders: 0,
                checksum_failures: 0,
                bids_snapshot_id: u32::MAX,
                asks_snapshot_id: u32::MAX,
                symbol,
                exchange,
                sequence_initialized: false,
            },
        )
    }

    /// Applies one tick. A tick for another symbol is counted and dropped;
    /// every other one is applied, whatever its sequence number.
    pub fn apply(&mut self, tick: &NormalizedTick) -> (result: DeltaResult)
        requires
            old(self).ready_for(*tick),
        ensures
            old(self).wf() ==> final(self).wf(),
            tick.symbol == old(self).symbol ==> match tick.side {
                Side::Bid => final(self).bids.wf(true),
                Side::Ask => final(self).asks.wf(false),
            },
            result == old(self)@.outcome(*tick),
            final(self)@ == old(self)@.apply(*tick),
            tick.side == Side::Bid || tick.symbol != old(self).symbol ==> final(self).asks
                == old(self).asks,
            tick.side == Side::Ask || tick.symbol != old(self).symbol ==> final(self).bids
                == old(self).bids,
            final(self).bids.spare_entries_of(old(self).bids),
            final(self).asks.spare_entries_of(old(self).asks),
    {
        if tick.symbol != self.symbol {
            self.symbol_mismatches = self.symbol_mismatches.wrapping_add(1);
            return DeltaResult::Discarded;
        }
        if tick.is_snapshot {
            self.maybe_clear_for_snapshot(tick.side, tick.snapshot_id);
        }
        assert(self@ == old(self)@.prepared(*tick));
        let result: DeltaResult = match tick.side {
            Side::Bid => self.bids.apply_delta(tick.price, tick.qty, true),
            Side::Ask => self.asks.apply_delta(tick.price, tick.qty, false),
        };
        self.track_sequence(tick.sequence);
        if !matches!(result, DeltaResult::NoOp | DeltaResult::Discarded) {
            self.last_update_ns = tick.ts_recv_ns;
        }
        result
    }

    /// Counts gaps and reorders; the first number ever is only noted.
    fn track_sequence(&mut self, seq: u64)
        ensures
            final(self)@ == old(self)@.track_sequence(seq),
            final(self).bids == old(self).bids,
            final(self).asks == old(self).asks,
    {
        if self.sequence_initialized {
            if seq > self.sequence {
                if seq != self.sequence + 1 {
                    self.sequence_gaps = self.sequence_gaps.wrapping_add(1);
                }
            } else {
                self.sequence_reorders = self.sequence_reorders.wrapping_add(1);
            }
        } else {
            self.sequence_initialized = true;
        }
        self.sequence = seq;
    }

    /// Clears the side on the first tick of a snapshot.
    fn maybe_clear_for_snapshot(&mut self, side: Side, id: u32)
        ensures
            id != old(self)@.snapshot_id(side) ==> match side {
                Side::Bid => final(self).bids.wf(true),
                Side::Ask => final(self).asks.wf(false),
            },
            id == old(self)@.snapshot_id(side) ==> *final(self) == *old(self),
            final(self)@ == old(self)@.begin_snapshot(side, id),
            side == Side::Bid ==> final(self).asks == old(self).asks,
            side == Side::Ask ==> final(self).bids == old(self).bids,
            final(self).bids.levels == old(self).bids.levels,
            final(self).asks.levels == old(self).asks.levels,
    {
        match side {
            Side::Bid => {
                if id != self.bids_snapshot_id {
                    self.bids.clear();
                    self.bids_snapshot_id = id;
                }
            },
            Side::Ask => {
                if id != self.asks_snapshot_id {
                    self.asks.clear();
                    self.asks_snapshot_id = id;
                }
            },
        }
    }

    /// Best ask minus best bid, or zero when they cross.
    pub fn spread(&self) -> (spread: Option<u64>)
        ensures
            spread == (if self.bids.count > 0 && self.asks.count > 0 {
                let bid = self.bids.levels@[0].price.0;
                let ask = self.asks.levels@[0].price.0;
                Some(
                    if bid <= ask {
                        (ask - bid) as u64
                    } else {
                        0
                    },
                )
            } else {
                None
            }),
            self.wf() ==> spread == self@.spread(),
    {
        match (self.bids.best(), self.asks.best()) {
            (Some(bid), Some(ask)) => Some(ask.price.0.saturating_sub(bid.price.0)),
            _ => None,
        }
    }

    /// The best bid trades through the best ask.
    pub fn is_crossed(&self) -> (crossed: bool)
        ensures
            crossed == self.crosses(),
            crossed == (self.bids.count > 0 && self.asks.count > 0 && self.bids.levels@[0].price.0
                > self.asks.levels@[0].price.0),
            self.wf() ==> crossed == self@.crossed(),
    {
        match (self.bids.best(), self.asks.best()) {
            (Some(bid), Some(ask)) => bid.price.0 > ask.price.0,
            _ => false,
        }
    }

    /// Nothing has updated this book within `threshold_ns` of `now_ns`.
    ///
    /// Both clocks must be that of the ticks' `ts_recv_ns`.
    pub fn is_stale(&self, now_ns: u64, threshold_ns: u64) -> (stale: bool)
        ensures
            stale == self@.stale(now_ns, threshold_ns),
            stale == (now_ns > self.last_update_ns + threshold_ns),
    {
        now_ns.saturating_sub(self.last_update_ns) > threshold_ns
    }

    /// The top `n` levels of each side, best price first, bids before asks:
    /// what an exchange's checksum is computed over.
    pub fn for_checksum(&self, n: usize) -> (fed: Vec<(Side, Price, Qty)>)
        ensures
            fed@ == top_levels(Side::Bid, self.bids, n) + top_levels(Side::Ask, self.asks, n),
    {
        let mut fed: Vec<(Side, Price, Qty)> = Vec::new();
        push_top_levels(Side::Bid, &self.bids, n, &mut fed);
        push_top_levels(Side::Ask, &self.asks, n, &mut fed);
        assert(fed@ =~= top_levels(Side::Bid, self.bids, n) + top_levels(Side::Ask, self.asks, n));
        fed
    }

    /// Counts a checksum mismatch found by the adapter.
    pub fn record_checksum_failure(&mut self)
        ensures
            *final(self) == (OrderBook {
                checksum_failures: one_more(old(self).checksum_failures),
                ..*old(self)
            }),
    {
        self.checksum_failures = self.checksum_failures.wrapping_add(1);
    }
}

} // verus!
