use feedhandler::metrics::write_metrics_header;
use feedhandler::{Exchange, NormalizedTick, OrderBook, Price, Qty, Side, SpscDisruptor, Symbol};

#[test]
fn header_declares_every_metric_exactly_once() {
    let mut out = String::new();
    write_metrics_header(&mut out);

    for name in [
        "feedhandler_symbol_mismatches_total",
        "feedhandler_sequence_gaps_total",
        "feedhandler_sequence_reorders_total",
        "feedhandler_checksum_failures_total",
        "feedhandler_book_last_update_ns",
        "feedhandler_book_crossed",
        "feedhandler_ring_dropped_total",
        "feedhandler_ring_pending",
    ] {
        assert_eq!(out.matches(&format!("# TYPE {name}")).count(), 1, "{name} TYPE line missing or duplicated");
        assert_eq!(out.matches(&format!("# HELP {name}")).count(), 1, "{name} HELP line missing or duplicated");
    }
}

#[test]
fn book_metrics_reflect_live_counters() {
    let mut book = OrderBook::new(Symbol::from_bytes(b"BTCUSDT"), Exchange::Binance);
    book.symbol_mismatches = 3;
    book.sequence_gaps = 7;
    book.record_checksum_failure();

    let mut out = String::new();
    book.write_metrics(&mut out);

    assert!(out.contains(r#"feedhandler_symbol_mismatches_total{symbol="BTCUSDT",exchange="binance"} 3"#));
    assert!(out.contains(r#"feedhandler_sequence_gaps_total{symbol="BTCUSDT",exchange="binance"} 7"#));
    assert!(out.contains(r#"feedhandler_checksum_failures_total{symbol="BTCUSDT",exchange="binance"} 1"#));
    assert!(out.contains(r#"feedhandler_book_crossed{symbol="BTCUSDT",exchange="binance"} 0"#));
}

#[test]
fn ring_metrics_use_the_given_label() {
    let ring = SpscDisruptor::new();
    let mut out = String::new();
    ring.write_metrics(&mut out, "binance-btcusdt");

    assert!(out.contains(r#"feedhandler_ring_dropped_total{ring="binance-btcusdt"} 0"#));
    assert!(out.contains(r#"feedhandler_ring_pending{ring="binance-btcusdt"} 0"#));
}

#[test]
fn header_text_is_exact() {
    let mut out = String::from("before\n");
    write_metrics_header(&mut out);
    let lines: Vec<&str> = out.lines().collect();
    assert_eq!(lines.len(), 17);
    assert_eq!(lines[0], "before");
    assert_eq!(
        lines[1],
        "# HELP feedhandler_symbol_mismatches_total Ticks discarded for carrying the wrong Symbol."
    );
    assert_eq!(lines[2], "# TYPE feedhandler_symbol_mismatches_total counter");
    assert_eq!(
        lines[15],
        "# HELP feedhandler_ring_pending Approximate ticks currently queued in the ring."
    );
    assert_eq!(lines[16], "# TYPE feedhandler_ring_pending gauge");
}

#[test]
fn book_samples_are_exact() {
    let mut book = OrderBook::new(Symbol::from_bytes(b"ETH"), Exchange::Hyperliquid);
    for (side, price) in [(Side::Bid, 11), (Side::Ask, 10)] {
        book.apply(&NormalizedTick::new(
            Price::new(price),
            Qty::new(1),
            price,
            0,
            1234567890,
            Symbol::from_bytes(b"ETH"),
            Exchange::Hyperliquid,
            side,
            false,
            0,
        ));
    }
    book.sequence_gaps = u64::MAX;
    let mut out = String::new();
    book.write_metrics(&mut out);
    let labels = "{symbol=\"ETH\",exchange=\"hyperliquid\"}";
    let expected = format!(
        "feedhandler_symbol_mismatches_total{labels} 0\n\
         feedhandler_sequence_gaps_total{labels} 18446744073709551615\n\
         feedhandler_sequence_reorders_total{labels} 1\n\
         feedhandler_checksum_failures_total{labels} 0\n\
         feedhandler_book_last_update_ns{labels} 1234567890\n\
         feedhandler_book_crossed{labels} 1\n"
    );
    assert_eq!(out, expected);
}

#[test]
fn a_symbol_that_is_no_text_gets_a_marker_label() {
    let book = OrderBook::new(Symbol::from_bytes(&[0xff, 0xfe]), Exchange::Bybit);
    let mut out = String::new();
    book.write_metrics(&mut out);
    assert!(out.contains("{symbol=\"<invalid-symbol>\",exchange=\"bybit\"} 0\n"));
}

#[test]
fn ring_samples_are_exact() {
    let mut ring = SpscDisruptor::new();
    for _ in 0..SpscDisruptor::capacity() {
        assert!(ring.try_publish(NormalizedTick::default()));
    }
    assert!(!ring.try_publish(NormalizedTick::default()));
    assert!(!ring.try_publish(NormalizedTick::default()));
    let mut out = String::new();
    ring.write_metrics(&mut out, "a");
    assert_eq!(
        out,
        "feedhandler_ring_dropped_total{ring=\"a\"} 2\nfeedhandler_ring_pending{ring=\"a\"} 4096\n"
    );
}
