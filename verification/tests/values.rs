use feedhandler::text::push_decimal;
use feedhandler::{
    BookSide, DeltaResult, Exchange, Level, NormalizedTick, Price, Qty, Side, Symbol,
};

#[test]
fn prices_and_quantities_keep_their_raw_value() {
    assert_eq!(Price::new(7).raw(), 7);
    assert_eq!(Qty::new(8).raw(), 8);
    assert!(Price::new(0).is_zero() && !Price::new(1).is_zero());
    assert!(Qty::new(0).is_zero() && !Qty::new(1).is_zero());
    assert_eq!(Price::default(), Price::new(0));
    assert_eq!(Qty::default(), Qty::new(0));
    assert!(Price::new(1) < Price::new(2));
}

#[test]
fn a_symbol_is_padded_with_nuls() {
    let symbol = Symbol::from_bytes(b"BTC");
    assert_eq!(symbol.as_bytes(), b"BTC\0\0\0\0\0\0\0\0\0\0\0\0\0");
    assert_eq!(symbol.as_str(), "BTC");
    assert_eq!(Symbol::default().as_str(), "");
}

#[test]
fn a_long_symbol_is_cut() {
    let symbol = Symbol::from_bytes(b"0123456789abcdefXYZ");
    assert_eq!(symbol.as_bytes(), b"0123456789abcdef");
    assert_eq!(symbol.as_str(), "0123456789abcdef");
}

#[test]
fn a_symbol_reads_as_text_without_its_trailing_nuls() {
    assert_eq!(Symbol::from_bytes(b"A\0B").as_str(), "A\0B");
    assert_eq!(Symbol::from_bytes(b"AB\0CD\0\0").as_str(), "AB\0CD");
    assert_eq!(Symbol::from_bytes(b"\0\0").as_str(), "");
    assert_eq!(Symbol::from_bytes(b"0123456789abcde\0").as_str(), "0123456789abcde");
    assert_eq!(Symbol::from_bytes("Ünï".as_bytes()).as_str(), "Ünï");
    assert_eq!(Symbol::from_bytes(&[0xc3]).as_str(), "<invalid-symbol>");
    assert_eq!(Symbol::from_bytes(&[0xc3, 0, b'A']).as_str(), "<invalid-symbol>");
}

#[test]
fn ticks_and_levels_have_their_sizes() {
    assert_eq!(std::mem::size_of::<NormalizedTick>(), 64);
    assert_eq!(std::mem::size_of::<Level>(), 16);
}

#[test]
fn symbols_are_equal_when_their_bytes_are() {
    assert!(Symbol::from_bytes(b"BTC") == Symbol::from_bytes(b"BTC\0"));
    assert!(Symbol::from_bytes(b"BTC") != Symbol::from_bytes(b"BTD"));
    assert!(Symbol::from_bytes(b"AB\0CD") != Symbol::from_bytes(b"AB"));
}

#[test]
fn exchanges_have_names() {
    assert_eq!(Exchange::Binance.as_str(), "binance");
    assert_eq!(Exchange::Bybit.as_str(), "bybit");
    assert_eq!(Exchange::Hyperliquid.as_str(), "hyperliquid");
    assert_eq!(Exchange::default(), Exchange::Binance);
}

#[test]
fn defaults_are_empty() {
    let tick = NormalizedTick::default();
    assert_eq!(tick.sequence, 0);
    assert_eq!(tick.symbol, Symbol::default());
    assert_eq!(tick.side, Side::default());
    assert_eq!(tick.side, Side::Bid);
    assert!(!tick.is_snapshot);
    assert_eq!(Level::default(), Level::empty());
    assert_eq!(Level::empty(), Level { price: Price::new(0), qty: Qty::new(0) });
    assert_eq!(DeltaResult::default(), DeltaResult::NoOp);
    assert_eq!(BookSide::default().count, 0);
}

#[test]
fn a_tick_keeps_what_it_is_made_of() {
    let tick = NormalizedTick::new(
        Price::new(1),
        Qty::new(2),
        3,
        4,
        5,
        Symbol::from_bytes(b"S"),
        Exchange::Bybit,
        Side::Ask,
        true,
        6,
    );
    assert_eq!(
        tick,
        NormalizedTick {
            price: Price::new(1),
            qty: Qty::new(2),
            sequence: 3,
            ts_exchange_ns: 4,
            ts_recv_ns: 5,
            symbol: Symbol::from_bytes(b"S"),
            exchange: Exchange::Bybit,
            side: Side::Ask,
            is_snapshot: true,
            _align_pad: 0,
            snapshot_id: 6,
        }
    );
}

#[test]
fn numbers_are_written_in_decimal() {
    for n in [0u64, 7, 10, 99, 100, 4096, 1_000_000_007, u64::MAX] {
        let mut out = String::from("n=");
        push_decimal(&mut out, n);
        assert_eq!(out, format!("n={n}"));
        assert_eq!(out[2..].parse::<u64>(), Ok(n));
    }
}
