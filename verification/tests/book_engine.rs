use feedhandler::book_engine::{process_tick, BookEngine, TickStats};
use feedhandler::{
    DeltaResult, Exchange, NormalizedTick, OrderBook, Price, Qty, Side, SpscDisruptor, Symbol,
};

fn make_tick(price: u64, qty: u64, side: Side, seq: u64) -> NormalizedTick {
    NormalizedTick {
        price: Price::new(price),
        qty: Qty::new(qty),
        sequence: seq,
        ts_exchange_ns: 0,
        ts_recv_ns: 1_700_000_000_000_000_000,
        symbol: Symbol::from_bytes(b"BTCUSDT"),
        exchange: Exchange::Binance,
        side,
        is_snapshot: false,
        _align_pad: 0,
        snapshot_id: 0,
    }
}

fn snap_tick(price: u64, qty: u64, side: Side, seq: u64, snap_id: u32) -> NormalizedTick {
    NormalizedTick { is_snapshot: true, snapshot_id: snap_id, ..make_tick(price, qty, side, seq) }
}

fn make_engine() -> BookEngine {
    let book = OrderBook::new(Symbol::from_bytes(b"BTCUSDT"), Exchange::Binance);
    BookEngine::new(book, SpscDisruptor::new())
}

fn push(eng: &mut BookEngine, t: NormalizedTick) {
    assert!(eng.ring_mut().try_publish(t), "ring full in test");
}

#[test]
fn bid_insert_roundtrip() {
    let mut eng = make_engine();
    push(&mut eng, make_tick(100_000_0000_0000, 1_0000_0000, Side::Bid, 1));
    assert_eq!(eng.run_one(None, || 0, || 0), Some(DeltaResult::Inserted));
    assert_eq!(eng.book().bids.count, 1);
    assert_eq!(eng.book().bids.levels[0].price, Price::new(100_000_0000_0000));
}

#[test]
fn bids_sorted_descending() {
    let mut eng = make_engine();
    for (p, s) in [(99u64, 1u64), (101, 2), (100, 3)] {
        push(&mut eng, make_tick(p, 1_0000_0000, Side::Bid, s));
    }
    eng.run_batch();
    let b = &eng.book().bids;
    assert_eq!(
        [b.levels[0].price.raw(), b.levels[1].price.raw(), b.levels[2].price.raw()],
        [101, 100, 99]
    );
}

#[test]
fn asks_sorted_ascending() {
    let mut eng = make_engine();
    for (p, s) in [(102u64, 1u64), (100, 2), (101, 3)] {
        push(&mut eng, make_tick(p, 1_0000_0000, Side::Ask, s));
    }
    eng.run_batch();
    let a = &eng.book().asks;
    assert_eq!(
        [a.levels[0].price.raw(), a.levels[1].price.raw(), a.levels[2].price.raw()],
        [100, 101, 102]
    );
}

#[test]
fn remove_by_zero_qty() {
    let mut eng = make_engine();
    push(&mut eng, make_tick(100, 1_0000_0000, Side::Bid, 1));
    push(&mut eng, make_tick(100, 0, Side::Bid, 2));
    eng.run_batch();
    assert_eq!(eng.book().bids.count, 0);
}

#[test]
fn snapshot_batch_all_levels_retained() {
    let mut eng = make_engine();

    for i in 0..5u64 {
        push(&mut eng, make_tick(100 + i, 1_0000_0000, Side::Bid, i));
    }
    eng.run_batch();
    assert_eq!(eng.book().bids.count, 5);

    for (i, p) in [200u64, 199, 198].into_iter().enumerate() {
        push(&mut eng, snap_tick(p, 5_0000_0000, Side::Bid, 10 + i as u64, 1));
    }
    eng.run_batch();

    assert_eq!(eng.book().bids.count, 3);
    assert_eq!(eng.book().bids.levels[0].price.raw(), 200);
    assert_eq!(eng.book().bids.levels[1].price.raw(), 199);
    assert_eq!(eng.book().bids.levels[2].price.raw(), 198);
}

#[test]
fn second_snapshot_replaces_first() {
    let mut eng = make_engine();
    for (i, p) in [200u64, 199].into_iter().enumerate() {
        push(&mut eng, snap_tick(p, 1_0000_0000, Side::Bid, i as u64, 1));
    }
    eng.run_batch();
    assert_eq!(eng.book().bids.count, 2);

    push(&mut eng, snap_tick(205, 2_0000_0000, Side::Bid, 10, 2));
    eng.run_batch();
    assert_eq!(eng.book().bids.count, 1);
    assert_eq!(eng.book().bids.levels[0].price.raw(), 205);
}

#[test]
fn spread_calculation() {
    let mut eng = make_engine();
    push(&mut eng, make_tick(9900, 1_0000_0000, Side::Bid, 1));
    push(&mut eng, make_tick(10100, 1_0000_0000, Side::Ask, 2));
    eng.run_batch();
    assert_eq!(eng.book().spread(), Some(200));
}

#[test]
fn snapshot_id_zero_still_clears_stale_book() {
    let mut eng = make_engine();
    push(&mut eng, make_tick(999, 1_0000_0000, Side::Bid, 1));
    eng.run_batch();
    assert_eq!(eng.book().bids.count, 1);

    push(&mut eng, snap_tick(100, 5_0000_0000, Side::Bid, 2, 0));
    eng.run_batch();

    assert_eq!(eng.book().bids.count, 1);
    assert_eq!(eng.book().bids.levels[0].price.raw(), 100);
}

#[test]
fn wrong_symbol_tick_is_discarded_not_applied() {
    let mut eng = make_engine();
    let wrong_symbol = NormalizedTick {
        symbol: Symbol::from_bytes(b"ETHUSDT"),
        ..make_tick(100, 1_0000_0000, Side::Bid, 1)
    };
    push(&mut eng, wrong_symbol);
    eng.run_batch();

    assert_eq!(eng.book().bids.count, 0, "wrong-symbol tick must not touch the book");
    assert_eq!(eng.book().symbol_mismatches, 1);
}

#[test]
fn crossed_book_detected_separately_from_spread() {
    let mut eng = make_engine();
    push(&mut eng, make_tick(10100, 1_0000_0000, Side::Bid, 1));
    push(&mut eng, make_tick(9900, 1_0000_0000, Side::Ask, 2));
    eng.run_batch();

    assert_eq!(eng.book().spread(), Some(0));
    assert!(eng.book().is_crossed());
}

#[test]
fn tight_book_is_not_crossed() {
    let mut eng = make_engine();
    push(&mut eng, make_tick(9900, 1_0000_0000, Side::Bid, 1));
    push(&mut eng, make_tick(10100, 1_0000_0000, Side::Ask, 2));
    eng.run_batch();

    assert!(!eng.book().is_crossed());
}

#[test]
fn sequence_gap_is_counted() {
    let mut eng = make_engine();
    push(&mut eng, make_tick(100, 1_0000_0000, Side::Bid, 1));
    push(&mut eng, make_tick(101, 1_0000_0000, Side::Bid, 5)); // skipped 2,3,4
    eng.run_batch();

    assert_eq!(eng.book().sequence_gaps, 1);
    assert_eq!(eng.book().sequence_reorders, 0);
}

#[test]
fn out_of_order_sequence_is_counted_as_reorder_not_gap() {
    let mut eng = make_engine();
    push(&mut eng, make_tick(100, 1_0000_0000, Side::Bid, 5));
    push(&mut eng, make_tick(101, 1_0000_0000, Side::Bid, 3)); // went backward
    eng.run_batch();

    assert_eq!(eng.book().sequence_reorders, 1);
    assert_eq!(eng.book().sequence_gaps, 0);
}

#[test]
fn contiguous_sequence_counts_neither() {
    let mut eng = make_engine();
    for seq in 1..=5u64 {
        push(&mut eng, make_tick(100 + seq, 1_0000_0000, Side::Bid, seq));
    }
    eng.run_batch();

    assert_eq!(eng.book().sequence_gaps, 0);
    assert_eq!(eng.book().sequence_reorders, 0);
}

#[test]
fn first_tick_ever_is_never_a_gap() {
    let mut eng = make_engine();
    push(&mut eng, make_tick(100, 1_0000_0000, Side::Bid, 500));
    eng.run_batch();

    assert_eq!(eng.book().sequence_gaps, 0);
    assert_eq!(eng.book().sequence_reorders, 0);
}

#[test]
fn fresh_update_is_not_stale() {
    let mut eng = make_engine();
    let t = NormalizedTick { ts_recv_ns: 1_000_000_000, ..make_tick(100, 1_0000_0000, Side::Bid, 1) };
    push(&mut eng, t);
    eng.run_batch();

    assert!(!eng.book().is_stale(1_000_000_500, 1_000)); // 500ns later, well under a 1us threshold
}

#[test]
fn book_past_threshold_is_stale() {
    let mut eng = make_engine();
    let t = NormalizedTick { ts_recv_ns: 1_000_000_000, ..make_tick(100, 1_0000_0000, Side::Bid, 1) };
    push(&mut eng, t);
    eng.run_batch();

    assert!(eng.book().is_stale(2_000_000_000, 1_000)); // 1 full second later, way past a 1us threshold
}

#[test]
fn never_updated_book_is_stale() {
    let book = OrderBook::new(Symbol::from_bytes(b"BTCUSDT"), Exchange::Binance);
    assert!(book.is_stale(1_000_000_000, 1_000));
}

#[test]
fn for_checksum_yields_levels_best_first_bids_then_asks() {
    let mut eng = make_engine();
    for (p, s) in [(99u64, 1u64), (101, 2), (100, 3)] {
        push(&mut eng, make_tick(p, 1_0000_0000, Side::Bid, s));
    }
    for (p, s) in [(103u64, 4u64), (102, 5)] {
        push(&mut eng, make_tick(p, 1_0000_0000, Side::Ask, s));
    }
    eng.run_batch();

    let seen: Vec<(Side, u64)> = eng
        .book()
        .for_checksum(2)
        .into_iter()
        .map(|(side, price, _qty)| (side, price.raw()))
        .collect();

    assert_eq!(seen, vec![
        (Side::Bid, 101), (Side::Bid, 100), // top 2 bids, best first, third excluded
        (Side::Ask, 102), (Side::Ask, 103), // top 2 asks, best first
    ]);
}

#[test]
fn checksum_failure_is_counted() {
    let mut book = OrderBook::new(Symbol::from_bytes(b"BTCUSDT"), Exchange::Binance);
    assert_eq!(book.checksum_failures, 0);
    book.record_checksum_failure();
    book.record_checksum_failure();
    assert_eq!(book.checksum_failures, 2);
}

#[test]
fn an_empty_ring_yields_nothing_and_leaves_the_slot() {
    let mut eng = make_engine();
    let mut slot = TickStats { latency_ticks: 9, sequence: 9, result: DeltaResult::Removed };
    assert_eq!(eng.run_one(Some(&mut slot), || 1, || 1), None);
    assert_eq!(slot, TickStats { latency_ticks: 9, sequence: 9, result: DeltaResult::Removed });
    assert_eq!(eng.ticks, 0);
    assert_eq!(eng.run_batch(), 0);
}

#[test]
fn a_stats_slot_gets_the_distance_of_the_two_readings() {
    let mut eng = make_engine();
    push(&mut eng, make_tick(100, 1, Side::Bid, 77));
    let mut slot = TickStats::default();
    assert_eq!(slot.result, DeltaResult::NoOp);
    assert_eq!(eng.run_one(Some(&mut slot), || u64::MAX - 4, || 10), Some(DeltaResult::Inserted));
    assert_eq!(
        slot,
        TickStats { latency_ticks: 15, sequence: 77, result: DeltaResult::Inserted }
    );
}

#[test]
fn a_sample_measures_from_start_to_end() {
    let tick = make_tick(100, 1, Side::Bid, 5);
    let stats = TickStats::sample(10, 35, &tick, DeltaResult::Updated);
    assert_eq!(stats, TickStats { latency_ticks: 25, sequence: 5, result: DeltaResult::Updated });
}

#[test]
fn the_clock_is_left_alone_without_a_slot() {
    let mut eng = make_engine();
    push(&mut eng, make_tick(100, 1, Side::Bid, 1));
    assert_eq!(eng.run_one(None, || panic!("read"), || panic!("read")), Some(DeltaResult::Inserted));
}

#[test]
fn one_at_a_time_leaves_the_book_that_a_batch_leaves() {
    let ticks: Vec<NormalizedTick> = vec![
        make_tick(100, 5, Side::Bid, 1),
        make_tick(101, 5, Side::Bid, 2),
        make_tick(100, 0, Side::Bid, 4),
        make_tick(105, 7, Side::Ask, 5),
        snap_tick(90, 1, Side::Bid, 6, 3),
    ];
    let mut single = make_engine();
    let mut batch = make_engine();
    for t in &ticks {
        push(&mut single, *t);
        push(&mut batch, *t);
    }
    let mut results = Vec::new();
    while let Some(result) = single.run_one(None, || 0, || 0) {
        results.push(result);
    }
    assert_eq!(
        results,
        vec![
            DeltaResult::Inserted,
            DeltaResult::Inserted,
            DeltaResult::Removed,
            DeltaResult::Inserted,
            DeltaResult::Inserted,
        ]
    );
    assert_eq!(batch.run_batch(), 5);
    assert_eq!(single.ticks, 5);
    assert_eq!(batch.ticks, 5);
    assert_eq!(single.book().bids.count, batch.book().bids.count);
    assert_eq!(single.book().bids.levels[0], batch.book().bids.levels[0]);
    assert_eq!(single.book().asks.levels[0], batch.book().asks.levels[0]);
    assert_eq!(single.book().sequence_gaps, 1);
    assert_eq!(batch.book().sequence_gaps, 1);
    assert_eq!(batch.ring().pending(), 0);
}

#[test]
fn the_book_can_be_changed_in_place() {
    let mut eng = make_engine();
    eng.book_mut().record_checksum_failure();
    assert_eq!(eng.book().checksum_failures, 1);
}

#[test]
fn a_tick_taken_elsewhere_is_applied_and_counted() {
    let mut book = OrderBook::new(Symbol::from_bytes(b"BTCUSDT"), Exchange::Binance);
    let mut ticks = u64::MAX;
    let first = make_tick(100, 1, Side::Ask, 1);
    let unread = || panic!("read");
    assert_eq!(process_tick(&mut book, &mut ticks, &first, None, unread, unread), DeltaResult::Inserted);
    assert_eq!(ticks, 0);
    let mut slot = TickStats::default();
    let second = make_tick(100, 2, Side::Ask, 2);
    let result = process_tick(&mut book, &mut ticks, &second, Some(&mut slot), || 5, || 45);
    assert_eq!(result, DeltaResult::Updated);
    assert_eq!(slot, TickStats { latency_ticks: 40, sequence: 2, result });
    assert_eq!(ticks, 1);
    assert_eq!(book.asks.levels[0].qty, Qty::new(2));
}

#[test]
fn a_batch_leaves_what_it_does_not_concern() {
    let mut eng = make_engine();
    push(&mut eng, make_tick(100, 1, Side::Ask, 1));
    push(&mut eng, make_tick(101, 1, Side::Ask, 2));
    eng.run_batch();
    let asks = eng.book().asks.levels;
    push(&mut eng, make_tick(90, 1, Side::Bid, 3));
    push(&mut eng, make_tick(91, 1, Side::Bid, 4));
    push(&mut eng, make_tick(91, 0, Side::Bid, 5));
    eng.run_batch();
    assert_eq!(eng.book().asks.count, 2);
    assert_eq!(eng.book().asks.levels, asks);
    assert_eq!(eng.book().bids.count, 1);
    assert_eq!(eng.book().bids.levels[1].price, Price::new(90));
}
