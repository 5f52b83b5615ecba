use feedhandler::capture::{
    decode_record, encode_record, next_record, read_capture, validate_record, ByteOrder,
    ReadAction, ReadEvent, RecordBuffer, RecordError, RecordField, TICK_SIZE,
};
use feedhandler::{Exchange, NormalizedTick, OrderBook, Price, Qty, Side, Symbol};

const ORDER: ByteOrder = ByteOrder::Little;
const EXCHANGE_AT: usize = 56;

fn tick(seq: u64) -> NormalizedTick {
    NormalizedTick::new(
        Price::new(100 + seq),
        Qty::new(1),
        seq,
        0,
        0,
        Symbol::from_bytes(b"BTCUSDT"),
        Exchange::Binance,
        Side::Bid,
        false,
        0,
    )
}

fn capture_of(ticks: &[NormalizedTick]) -> Vec<u8> {
    let mut bytes = Vec::new();
    for t in ticks {
        bytes.extend_from_slice(&encode_record(t, ORDER));
    }
    bytes
}

#[test]
fn round_trips_a_session_bit_for_bit() {
    let written: Vec<NormalizedTick> = (0..50).map(tick).collect();
    let capture = capture_of(&written);

    let read: Vec<NormalizedTick> =
        read_capture(&capture, ORDER).into_iter().collect::<Result<_, RecordError>>().unwrap();

    assert_eq!(written, read);
    assert_eq!(capture_of(&read), capture);
}

#[test]
fn truncated_trailing_record_is_an_error_not_a_silent_stop() {
    let mut capture = capture_of(&[tick(1), tick(2)]);
    capture.truncate(TICK_SIZE + 10);

    let (first, at) = next_record(&capture, 0, ORDER);
    assert_eq!(first.unwrap().unwrap(), tick(1));
    let (second, at) = next_record(&capture, at, ORDER);
    let second = second.expect("truncated record must surface, not be swallowed");
    assert!(second.is_err());
    assert_eq!(second, Err(RecordError::Truncated { got: 10 }));
    let (third, _) = next_record(&capture, at, ORDER);
    assert!(third.is_none(), "reader must stop cleanly after reporting the truncation");
}

#[test]
fn corrupt_discriminant_is_rejected() {
    let mut capture = capture_of(&[tick(1)]);
    capture[EXCHANGE_AT] = 200; // no Exchange variant has this discriminant

    let (result, _) = next_record(&capture, 0, ORDER);
    let result = result.unwrap();
    assert!(result.is_err(), "an out-of-range enum discriminant must never become a tick");
    assert_eq!(
        result,
        Err(RecordError::BadDiscriminant { field: RecordField::Exchange, value: 200 })
    );
}

#[test]
fn empty_file_yields_no_records() {
    let (item, at) = next_record(&[], 0, ORDER);
    assert!(item.is_none());
    assert_eq!(at, 0);
    assert!(read_capture(&[], ORDER).is_empty());
}

#[test]
fn a_record_is_laid_out_byte_by_byte() {
    let t = NormalizedTick {
        price: Price::new(0x0102030405060708),
        qty: Qty::new(0x1112131415161718),
        sequence: 0x2122232425262728,
        ts_exchange_ns: 0x3132333435363738,
        ts_recv_ns: 0x4142434445464748,
        symbol: Symbol::from_bytes(b"0123456789abcdef"),
        exchange: Exchange::Hyperliquid,
        side: Side::Ask,
        is_snapshot: true,
        _align_pad: 0x5a,
        snapshot_id: 0x61626364,
    };
    let expected: [u8; 64] = [
        0x08, 0x07, 0x06, 0x05, 0x04, 0x03, 0x02, 0x01, 0x18, 0x17, 0x16, 0x15, 0x14, 0x13, 0x12,
        0x11, 0x28, 0x27, 0x26, 0x25, 0x24, 0x23, 0x22, 0x21, 0x38, 0x37, 0x36, 0x35, 0x34, 0x33,
        0x32, 0x31, 0x48, 0x47, 0x46, 0x45, 0x44, 0x43, 0x42, 0x41, b'0', b'1', b'2', b'3', b'4',
        b'5', b'6', b'7', b'8', b'9', b'a', b'b', b'c', b'd', b'e', b'f', 2, 1, 1, 0x5a, 0x64, 0x63,
        0x62, 0x61,
    ];
    assert_eq!(encode_record(&t, ORDER), expected);
    assert_eq!(decode_record(&expected, ORDER), Ok(t));
}

#[test]
fn each_restricted_field_is_checked_in_order() {
    let good = encode_record(&tick(7), ORDER);
    assert_eq!(validate_record(&good), Ok(()));

    let mut bad = good;
    bad[58] = 2;
    let error = RecordError::BadDiscriminant { field: RecordField::IsSnapshot, value: 2 };
    assert_eq!(validate_record(&bad), Err(error));
    assert_eq!(decode_record(&bad, ORDER), Err(error));
    assert_eq!(
        error.message(),
        "corrupt capture record: is_snapshot discriminant 2 is out of range"
    );

    bad[57] = 255;
    let error = RecordError::BadDiscriminant { field: RecordField::Side, value: 255 };
    assert_eq!(validate_record(&bad), Err(error));
    assert_eq!(error.message(), "corrupt capture record: side discriminant 255 is out of range");

    bad[56] = 3;
    let error = RecordError::BadDiscriminant { field: RecordField::Exchange, value: 3 };
    assert_eq!(validate_record(&bad), Err(error));
    assert_eq!(error.message(), "corrupt capture record: exchange discriminant 3 is out of range");
}

#[test]
fn truncation_says_how_much_was_there() {
    let error = RecordError::Truncated { got: 10 };
    assert_eq!(error.message(), "capture file truncated mid-record: got 10 of 64 bytes");
}

#[test]
fn a_corrupt_record_does_not_hide_the_next_one() {
    let mut capture = capture_of(&[tick(1), tick(2), tick(3)]);
    capture[TICK_SIZE + 57] = 9;
    assert_eq!(
        read_capture(&capture, ORDER),
        vec![
            Ok(tick(1)),
            Err(RecordError::BadDiscriminant { field: RecordField::Side, value: 9 }),
            Ok(tick(3)),
        ]
    );
}

#[test]
fn pieces_and_interruptions_do_not_matter() {
    let record = encode_record(&tick(42), ORDER);
    let mut buffer = RecordBuffer::new(ORDER);
    assert_eq!(buffer.room(), 64);
    assert!(matches!(buffer.step(ReadEvent::Interrupted), ReadAction::ReadMore));
    assert!(matches!(buffer.step(ReadEvent::Data(&record[..1])), ReadAction::ReadMore));
    assert_eq!(buffer.room(), 63);
    assert!(matches!(buffer.step(ReadEvent::Data(&record[1..63])), ReadAction::ReadMore));
    assert!(matches!(buffer.step(ReadEvent::Interrupted), ReadAction::ReadMore));
    match buffer.step(ReadEvent::Data(&record[63..])) {
        ReadAction::Done(Some(parsed)) => assert_eq!(parsed, Ok(tick(42))),
        _ => panic!("a full record is done"),
    }
}

#[test]
fn a_failed_read_is_handed_on() {
    let record = encode_record(&tick(42), ORDER);
    let mut buffer = RecordBuffer::new(ORDER);
    assert!(matches!(buffer.step(ReadEvent::Data(&record[..20])), ReadAction::ReadMore));
    assert!(matches!(buffer.step(ReadEvent::Failed), ReadAction::PassError));
}

#[test]
fn the_end_of_the_input_ends_a_record() {
    let record = encode_record(&tick(42), ORDER);
    let mut buffer = RecordBuffer::new(ORDER);
    assert!(matches!(buffer.step(ReadEvent::Data(&record[..20])), ReadAction::ReadMore));
    match buffer.step(ReadEvent::Data(&[])) {
        ReadAction::Done(Some(parsed)) => {
            assert_eq!(parsed, Err(RecordError::Truncated { got: 20 }))
        }
        _ => panic!("the end of the input ends the record"),
    }
    let mut buffer = RecordBuffer::new(ORDER);
    assert!(matches!(buffer.step(ReadEvent::Data(&[])), ReadAction::Done(None)));
}

#[test]
fn a_capture_can_be_continued() {
    let mut capture = capture_of(&[tick(1)]);
    capture.extend_from_slice(&capture_of(&[tick(2)]));
    assert_eq!(read_capture(&capture, ORDER), vec![Ok(tick(1)), Ok(tick(2))]);
}

#[test]
fn replay_reproduces_the_book() {
    let symbol = Symbol::from_bytes(b"BTCUSDT");
    let session: Vec<NormalizedTick> = (0..100).map(|i| tick(i * 37 % 101)).collect();
    let mut live = OrderBook::new(symbol, Exchange::Binance);
    for t in &session {
        live.apply(t);
    }
    let mut replayed = OrderBook::new(symbol, Exchange::Binance);
    for item in read_capture(&capture_of(&session), ORDER) {
        replayed.apply(&item.unwrap());
    }
    assert_eq!(live.bids.count, replayed.bids.count);
    assert_eq!(live.bids.levels, replayed.bids.levels);
    assert_eq!(live.sequence, replayed.sequence);
    assert_eq!(live.sequence_gaps, replayed.sequence_gaps);
    assert_eq!(live.sequence_reorders, replayed.sequence_reorders);
}

#[test]
fn a_big_endian_record_has_its_integers_reversed() {
    let t = NormalizedTick {
        price: Price::new(0x0102030405060708),
        qty: Qty::new(0x1112131415161718),
        sequence: 0x2122232425262728,
        ts_exchange_ns: 0x3132333435363738,
        ts_recv_ns: 0x4142434445464748,
        symbol: Symbol::from_bytes(b"0123456789abcdef"),
        exchange: Exchange::Bybit,
        side: Side::Ask,
        is_snapshot: false,
        _align_pad: 7,
        snapshot_id: 0x61626364,
    };
    let record = encode_record(&t, ByteOrder::Big);
    assert_eq!(record[..8], [1, 2, 3, 4, 5, 6, 7, 8]);
    assert_eq!(record[8..16], 0x1112131415161718u64.to_be_bytes());
    assert_eq!(record[16..24], 0x2122232425262728u64.to_be_bytes());
    assert_eq!(record[24..32], 0x3132333435363738u64.to_be_bytes());
    assert_eq!(record[32..40], 0x4142434445464748u64.to_be_bytes());
    assert_eq!(&record[40..56], b"0123456789abcdef");
    assert_eq!(record[56..60], [1, 1, 0, 7]);
    assert_eq!(record[60..], [0x61, 0x62, 0x63, 0x64]);
    assert_eq!(decode_record(&record, ByteOrder::Big), Ok(t));
    assert_ne!(decode_record(&record, ByteOrder::Little), Ok(t));
}

#[test]
fn a_big_endian_session_round_trips() {
    let written: Vec<NormalizedTick> = (0..50).map(tick).collect();
    let mut capture = Vec::new();
    for t in &written {
        capture.extend_from_slice(&encode_record(t, ByteOrder::Big));
    }
    let read: Vec<NormalizedTick> = read_capture(&capture, ByteOrder::Big)
        .into_iter()
        .collect::<Result<_, RecordError>>()
        .unwrap();
    assert_eq!(written, read);
}
