use feedhandler::types::MAX_LEVELS;
use feedhandler::{
    BookSide, DeltaResult, Exchange, Level, NormalizedTick, OrderBook, Price, Qty, Side, Symbol,
};

fn book() -> Box<OrderBook> {
    OrderBook::new(Symbol::from_bytes(b"BTCUSDT"), Exchange::Binance)
}

fn tick(side: Side, price: u64, qty: u64, sequence: u64) -> NormalizedTick {
    NormalizedTick::new(
        Price::new(price),
        Qty::new(qty),
        sequence,
        0,
        1_000 + sequence,
        Symbol::from_bytes(b"BTCUSDT"),
        Exchange::Binance,
        side,
        false,
        0,
    )
}

fn snapshot(side: Side, price: u64, qty: u64, sequence: u64, id: u32) -> NormalizedTick {
    NormalizedTick { is_snapshot: true, snapshot_id: id, ..tick(side, price, qty, sequence) }
}

fn prices(side: &BookSide) -> Vec<u64> {
    side.levels[..side.count].iter().map(|l| l.price.raw()).collect()
}

fn full_side(descending: bool) -> BookSide {
    let mut side = BookSide::new();
    for price in 100..164 {
        assert_eq!(
            side.apply_delta(Price::new(price), Qty::new(1), descending),
            DeltaResult::Inserted
        );
    }
    side
}

#[test]
fn a_side_reports_what_it_did() {
    let mut side = BookSide::new();
    assert_eq!(side.best(), None);
    assert_eq!(side.apply_delta(Price::new(5), Qty::new(0), true), DeltaResult::NoOp);
    assert_eq!(side.apply_delta(Price::new(5), Qty::new(2), true), DeltaResult::Inserted);
    assert_eq!(side.apply_delta(Price::new(5), Qty::new(3), true), DeltaResult::Updated);
    assert_eq!(side.best(), Some(Level { price: Price::new(5), qty: Qty::new(3) }));
    assert_eq!(side.apply_delta(Price::new(5), Qty::new(0), true), DeltaResult::Removed);
    assert_eq!(side.best(), None);
}

#[test]
fn a_full_side_evicts_the_worst_or_discards() {
    let mut bids = full_side(true);
    assert_eq!(bids.count, MAX_LEVELS);
    assert_eq!(bids.apply_delta(Price::new(99), Qty::new(1), true), DeltaResult::Discarded);
    assert_eq!(prices(&bids)[63], 100);
    assert_eq!(bids.apply_delta(Price::new(200), Qty::new(1), true), DeltaResult::InsertedEvicted);
    assert_eq!(prices(&bids)[0], 200);
    assert_eq!(prices(&bids)[63], 101);

    let mut asks = full_side(false);
    assert_eq!(asks.apply_delta(Price::new(200), Qty::new(1), false), DeltaResult::Discarded);
    assert_eq!(asks.apply_delta(Price::new(99), Qty::new(1), false), DeltaResult::InsertedEvicted);
    assert_eq!(prices(&asks)[0], 99);
    assert_eq!(prices(&asks)[63], 162);
}

#[test]
fn a_full_side_still_updates_and_removes() {
    let mut side = full_side(true);
    assert_eq!(side.apply_delta(Price::new(130), Qty::new(9), true), DeltaResult::Updated);
    assert_eq!(side.apply_delta(Price::new(130), Qty::new(0), true), DeltaResult::Removed);
    assert_eq!(side.count, 63);
    assert!(!prices(&side).contains(&130));
}

#[test]
fn removing_undoes_inserting() {
    let mut side = BookSide::new();
    for price in [10u64, 30, 50] {
        side.apply_delta(Price::new(price), Qty::new(1), false);
    }
    side.apply_delta(Price::new(40), Qty::new(1), false);
    assert_eq!(prices(&side), vec![10, 30, 40, 50]);
    side.apply_delta(Price::new(40), Qty::new(0), false);
    assert_eq!(prices(&side), vec![10, 30, 50]);
}

#[test]
fn the_same_delta_twice_changes_nothing_more() {
    let mut side = BookSide::new();
    side.apply_delta(Price::new(1), Qty::new(4), true);
    assert_eq!(side.apply_delta(Price::new(1), Qty::new(4), true), DeltaResult::Updated);
    assert_eq!(side.count, 1);
    assert_eq!(side.levels[0].qty, Qty::new(4));
}

#[test]
fn clearing_empties_a_side() {
    let mut side = full_side(true);
    side.clear();
    assert_eq!(side.count, 0);
    assert_eq!(side.best(), None);
}

#[test]
fn spread_needs_both_sides() {
    let mut book = book();
    assert_eq!(book.spread(), None);
    assert!(!book.is_crossed());
    book.apply(&tick(Side::Bid, 10, 1, 1));
    assert_eq!(book.spread(), None);
    assert!(!book.is_crossed());
    book.apply(&tick(Side::Ask, 10, 1, 2));
    assert_eq!(book.spread(), Some(0));
    assert!(!book.is_crossed());
}

#[test]
fn a_tick_without_effect_is_numbered_but_no_update() {
    let mut book = book();
    book.apply(&tick(Side::Bid, 10, 1, 1));
    assert_eq!(book.apply(&tick(Side::Bid, 11, 0, 50)), DeltaResult::NoOp);
    assert_eq!(book.sequence, 50);
    assert_eq!(book.sequence_gaps, 1);
    assert_eq!(book.last_update_ns, 1_001);
}

#[test]
fn no_gap_is_counted_where_no_number_is_missing() {
    let mut book = book();
    assert_eq!(book.apply(&tick(Side::Bid, 100, 1, 1)), DeltaResult::Inserted);
    assert_eq!(book.apply(&tick(Side::Bid, 50, 0, 2)), DeltaResult::NoOp);
    assert_eq!(book.apply(&tick(Side::Bid, 101, 1, 3)), DeltaResult::Inserted);
    assert_eq!((book.sequence_gaps, book.sequence_reorders), (0, 0));
}

#[test]
fn a_discarded_level_is_numbered_too() {
    let mut book = book();
    for i in 0..64 {
        book.apply(&tick(Side::Bid, 100 + i, 1, 1 + i));
    }
    assert_eq!(book.apply(&tick(Side::Bid, 99, 1, 65)), DeltaResult::Discarded);
    assert_eq!(book.apply(&tick(Side::Bid, 100, 2, 66)), DeltaResult::Updated);
    assert_eq!((book.sequence_gaps, book.sequence_reorders), (0, 0));
}

#[test]
fn a_tick_for_another_symbol_is_not_numbered() {
    let mut book = book();
    book.apply(&tick(Side::Bid, 10, 1, 1));
    let stray = NormalizedTick { symbol: Symbol::from_bytes(b"ETH"), ..tick(Side::Bid, 9, 1, 70) };
    assert_eq!(book.apply(&stray), DeltaResult::Discarded);
    assert_eq!(book.sequence, 1);
    assert_eq!((book.sequence_gaps, book.symbol_mismatches), (0, 1));
}

#[test]
fn a_snapshot_lands_whole_between_other_ticks() {
    let mut book = book();
    book.apply(&tick(Side::Bid, 500, 1, 1));
    let stray = NormalizedTick { symbol: Symbol::from_bytes(b"ETH"), ..tick(Side::Bid, 9, 1, 3) };
    assert_eq!(book.apply(&snapshot(Side::Bid, 20, 1, 2, 4)), DeltaResult::Inserted);
    book.apply(&stray);
    book.apply(&snapshot(Side::Ask, 40, 1, 4, 9));
    assert_eq!(book.apply(&snapshot(Side::Bid, 30, 1, 5, 4)), DeltaResult::Inserted);
    book.apply(&tick(Side::Ask, 41, 1, 6));
    assert_eq!(book.apply(&snapshot(Side::Bid, 10, 1, 7, 4)), DeltaResult::Inserted);
    assert_eq!(prices(&book.bids), vec![30, 20, 10]);
    assert_eq!(prices(&book.asks), vec![40, 41]);
}

#[test]
fn a_snapshot_clears_once_whatever_comes_in_between() {
    let mut book = book();
    book.apply(&snapshot(Side::Bid, 20, 1, 1, 4));
    book.apply(&tick(Side::Bid, 25, 1, 2));
    book.apply(&snapshot(Side::Ask, 40, 1, 3, 5));
    book.apply(&snapshot(Side::Bid, 30, 1, 4, 4));
    assert_eq!(prices(&book.bids), vec![30, 25, 20]);
}

#[test]
fn a_fresh_book_has_blank_entries() {
    let book = book();
    assert!(book.bids.levels.iter().all(|l| *l == Level::empty()));
    assert!(book.asks.levels.iter().all(|l| *l == Level::empty()));
}

#[test]
fn a_repeated_number_counts_as_a_reorder() {
    let mut book = book();
    book.apply(&tick(Side::Bid, 10, 1, 5));
    book.apply(&tick(Side::Bid, 11, 1, 5));
    assert_eq!((book.sequence_gaps, book.sequence_reorders), (0, 1));
}

#[test]
fn a_first_number_of_zero_counts_as_nothing() {
    let mut book = book();
    book.apply(&tick(Side::Bid, 10, 1, 0));
    book.apply(&tick(Side::Bid, 11, 1, 1));
    assert_eq!((book.sequence_gaps, book.sequence_reorders), (0, 0));
}

#[test]
fn a_snapshot_clears_only_its_own_side() {
    let mut book = book();
    book.apply(&tick(Side::Bid, 10, 1, 1));
    book.apply(&tick(Side::Ask, 20, 1, 2));
    book.apply(&snapshot(Side::Ask, 21, 1, 3, 7));
    assert_eq!(prices(&book.bids), vec![10]);
    assert_eq!(prices(&book.asks), vec![21]);
    assert_eq!(book.asks_snapshot_id, 7);
    assert_eq!(book.bids_snapshot_id, u32::MAX);
}

#[test]
fn counters_wrap_around() {
    let mut book = book();
    book.checksum_failures = u64::MAX;
    book.record_checksum_failure();
    assert_eq!(book.checksum_failures, 0);
}

#[test]
fn a_stream_may_be_cut_anywhere() {
    let ticks: Vec<NormalizedTick> =
        (0..40).map(|i| tick(Side::Bid, i * 7 % 13, i % 3, i)).collect();
    let mut whole = book();
    for t in &ticks {
        whole.apply(t);
    }
    let mut parts = book();
    for part in [&ticks[..17], &ticks[17..]] {
        for t in part {
            parts.apply(t);
        }
    }
    assert_eq!(prices(&whole.bids), prices(&parts.bids));
    assert_eq!(whole.sequence_gaps, parts.sequence_gaps);
}

#[test]
fn numbering_does_not_change_the_levels() {
    let mut numbered = book();
    let mut shuffled = book();
    for i in 0..20u64 {
        numbered.apply(&tick(Side::Ask, i % 6, i % 4, i));
        shuffled.apply(&tick(Side::Ask, i % 6, i % 4, 900 - i));
    }
    assert_eq!(prices(&numbered.asks), prices(&shuffled.asks));
    assert!(shuffled.sequence_reorders > 0);
}

#[test]
fn staleness_starts_past_the_threshold() {
    let mut book = book();
    book.apply(&tick(Side::Bid, 10, 1, 0));
    assert!(!book.is_stale(1_100, 100));
    assert!(book.is_stale(1_101, 100));
    assert!(!book.is_stale(5, 0));
}

#[test]
fn a_checksum_feed_stops_at_what_there_is() {
    let mut book = book();
    book.apply(&tick(Side::Bid, 10, 3, 1));
    book.apply(&tick(Side::Ask, 12, 4, 2));
    let fed = book.for_checksum(100);
    assert_eq!(
        fed,
        vec![
            (Side::Bid, Price::new(10), Qty::new(3)),
            (Side::Ask, Price::new(12), Qty::new(4)),
        ]
    );
    assert!(book.for_checksum(0).is_empty());
}

#[test]
fn a_tick_does_not_depend_on_the_side_it_leaves_alone() {
    let mut book = book();
    book.asks.count = MAX_LEVELS + 1;
    assert_eq!(book.apply(&tick(Side::Bid, 10, 1, 1)), DeltaResult::Inserted);
    assert_eq!(book.asks.count, MAX_LEVELS + 1);
    assert_eq!(book.apply(&snapshot(Side::Ask, 12, 1, 2, 3)), DeltaResult::Inserted);
    assert_eq!(prices(&book.asks), vec![12]);
}
