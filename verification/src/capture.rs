//! Captured ticks: the record a tick is stored as, and how records are read
//! back out of a stream of bytes.
//!
//! A record is 64 bytes: price, quantity, sequence number, exchange time and
//! receive time in eight bytes each, the symbol in sixteen, then one byte each
//! for the exchange, the side, the snapshot flag and the spare byte, and the
//! snapshot id in four. Integers are in the byte order of the machine that
//! made the capture. There is no framing: a capture is one record after the
//! other.

use crate::text::{decimal, push_decimal};
use crate::types::{Exchange, NormalizedTick, Price, Qty, Side, Symbol};
use vstd::arithmetic::power2::pow2;
use vstd::prelude::*;
use vstd::string::*;

verus! {

/// The length of a record.
pub const TICK_SIZE: usize = 64;

const SYMBOL_OFFSET: usize = 40;

const EXCHANGE_OFFSET: usize = 56;

const SIDE_OFFSET: usize = 57;

const IS_SNAPSHOT_OFFSET: usize = 58;

const PAD_OFFSET: usize = 59;

const SNAPSHOT_ID_OFFSET: usize = 60;

/// The last `n` base-256 digits of `value`, lowest first.
pub open spec fn le_bytes(value: nat, n: nat) -> Seq<u8>
    decreases n,
{
    if n == 0 {
        Seq::empty()
    } else {
        seq![(value % 256) as u8] + le_bytes(value / 256, (n - 1) as nat)
    }
}

/// The number with these base-256 digits, lowest first.
pub open spec fn le_value(bytes: Seq<u8>) -> nat
    decreases bytes.len(),
{
    if bytes.len() == 0 {
        0
    } else {
        bytes[0] as nat + 256 * le_value(bytes.drop_first())
    }
}

/// The order in which the bytes of an integer are stored.
#[derive(Debug, Clone, Copy, PartialEq, Eq, Structural)]
pub enum ByteOrder {
    /// The lowest byte first.
    Little,
    /// The highest byte first.
    Big,
}

/// Bytes as they are stored in this order, if they were given lowest first;
/// and the other way round.
pub open spec fn in_order(bytes: Seq<u8>, order: ByteOrder) -> Seq<u8> {
    match order {
        ByteOrder::Little => bytes,
        ByteOrder::Big => bytes.reverse(),
    }
}

/// The `n` bytes that an integer is stored as.
pub open spec fn int_bytes(value: nat, n: nat, order: ByteOrder) -> Seq<u8> {
    in_order(le_bytes(value, n), order)
}

/// The integer that these bytes hold.
pub open spec fn int_value(bytes: Seq<u8>, order: ByteOrder) -> nat {
    le_value(in_order(bytes, order))
}

/// The byte an exchange is stored as.
pub open spec fn exchange_code(exchange: Exchange) -> u8 {
    match exchange {
        Exchange::Binance => 0,
        Exchange::Bybit => 1,
        Exchange::Hyperliquid => 2,
    }
}

/// The byte a side is stored as.
pub open spec fn side_code(side: Side) -> u8 {
    match side {
        Side::Bid => 0,
        Side::Ask => 1,
    }
}

/// The byte a flag is stored as.
pub open spec fn flag_code(flag: bool) -> u8 {
    if flag {
        1
    } else {
        0
    }
}

/// The record of a tick.
pub open spec fn record_bytes(tick: NormalizedTick, order: ByteOrder) -> Seq<u8> {
    int_bytes(tick.price.0 as nat, 8, order) + int_bytes(tick.qty.0 as nat, 8, order) + int_bytes(
        tick.sequence as nat,
        8,
        order,
    ) + int_bytes(tick.ts_exchange_ns as nat, 8, order) + int_bytes(
        tick.ts_recv_ns as nat,
        8,
        order,
    ) + tick.symbol@ + seq![
        exchange_code(tick.exchange),
        side_code(tick.side),
        flag_code(tick.is_snapshot),
        tick._align_pad,
    ] + int_bytes(tick.snapshot_id as nat, 4, order)
}

/// A field of a record that not every byte is valid for.
#[derive(Debug, Clone, Copy, PartialEq, Eq, Structural)]
pub enum RecordField {
    Exchange,
    Side,
    IsSnapshot,
}

impl RecordField {
    pub open spec fn name(self) -> Seq<char> {
        match self {
            RecordField::Exchange => "exchange"@,
            RecordField::Side => "side"@,
            RecordField::IsSnapshot => "is_snapshot"@,
        }
    }

    pub fn as_str(self) -> (name: &'static str)
        ensures
            name@ == self.name(),
    {
        match self {
            RecordField::Exchange => "exchange",
            RecordField::Side => "side",
            RecordField::IsSnapshot => "is_snapshot",
        }
    }
}

/// Why bytes are no record.
#[derive(Debug, Clone, Copy, PartialEq, Eq, Structural)]
pub enum RecordError {
    /// The capture ends within a record.
    Truncated { got: usize },
    /// A field holds a byte that stands for nothing.
    BadDiscriminant { field: RecordField, value: u8 },
}

impl RecordError {
    pub open spec fn text(self) -> Seq<char> {
        match self {
            RecordError::Truncated { got } => "capture file truncated mid-record: got "@ + decimal(
                got as nat,
            ) + " of "@ + decimal(TICK_SIZE as nat) + " bytes"@,
            RecordError::BadDiscriminant { field, value } => "corrupt capture record: "@
                + field.name() + " discriminant "@ + decimal(value as nat) + " is out of range"@,
        }
    }

    /// The error in words.
    pub fn message(&self) -> (message: String)
        ensures
            message@ == self.text(),
    {
        let mut message: String = String::new();
        match *self {
            RecordError::Truncated { got } => {
                message.append("capture file truncated mid-record: got ");
                push_decimal(&mut message, got as u64);
                message.append(" of ");
                push_decimal(&mut message, TICK_SIZE as u64);
                message.append(" bytes");
            },
            RecordError::BadDiscriminant { field, value } => {
                message.append("corrupt capture record: ");
                message.append(field.as_str());
                message.append(" discriminant ");
                push_decimal(&mut message, value as u64);
                message.append(" is out of range");
            },
        }
        assert(message@ =~= self.text());
        message
    }
}

/// What is wrong with a full record, the first field ahead of the later ones.
pub open spec fn bad_field(record: Seq<u8>) -> Option<RecordError> {
    if record[56] > 2 {
        Some(RecordError::BadDiscriminant { field: RecordField::Exchange, value: record[56] })
    } else if record[57] > 1 {
        Some(RecordError::BadDiscriminant { field: RecordField::Side, value: record[57] })
    } else if record[58] > 1 {
        Some(RecordError::BadDiscriminant { field: RecordField::IsSnapshot, value: record[58] })
    } else {
        None
    }
}

/// What is wrong with the bytes of one record.
pub open spec fn record_problem(bytes: Seq<u8>) -> Option<RecordError> {
    if bytes.len() != TICK_SIZE {
        Some(RecordError::Truncated { got: bytes.len() as usize })
    } else {
        bad_field(bytes)
    }
}

/// `parsed` is what reading one record gives when `bytes` is all there is of
/// it: the tick whose record they are, or what is wrong with them.
pub open spec fn parses_as(
    bytes: Seq<u8>,
    order: ByteOrder,
    parsed: Result<NormalizedTick, RecordError>,
) -> bool {
    match parsed {
        Ok(tick) => record_problem(bytes) is None && record_bytes(tick, order) == bytes,
        Err(error) => record_problem(bytes) == Some(error),
    }
}

proof fn lemma_le_bytes_len(value: nat, n: nat)
    ensures
        le_bytes(value, n).len() == n,
    decreases n,
{
    if n > 0 {
        lemma_le_bytes_len(value / 256, (n - 1) as nat);
    }
}

/// `256^n`.
spec fn span(n: nat) -> nat
    decreases n,
{
    if n == 0 {
        1
    } else {
        256 * span((n - 1) as nat)
    }
}

proof fn lemma_spans()
    ensures
        span(4) == 0x1_0000_0000,
        span(8) == 0x1_0000_0000_0000_0000,
        forall|n: nat| n <= 8 ==> #[trigger] span(n) <= 0x1_0000_0000_0000_0000,
{
    reveal_with_fuel(span, 9);
    assert forall|n: nat| n <= 8 implies #[trigger] span(n) <= 0x1_0000_0000_0000_0000 by {
        assert(n == 0 || n == 1 || n == 2 || n == 3 || n == 4 || n == 5 || n == 6 || n == 7 || n
            == 8);
    }
}

proof fn lemma_le_value_bound(bytes: Seq<u8>)
    ensures
        le_value(bytes) < span(bytes.len()),
    decreases bytes.len(),
{
    if bytes.len() > 0 {
        lemma_le_value_bound(bytes.drop_first());
    }
}

proof fn lemma_value_of_bytes(value: nat, n: nat)
    requires
        value < span(n),
    ensures
        le_value(le_bytes(value, n)) == value,
    decreases n,
{
    if n > 0 {
        lemma_value_of_bytes(value / 256, (n - 1) as nat);
        assert(le_bytes(value, n).drop_first() =~= le_bytes(value / 256, (n - 1) as nat));
    }
}

proof fn lemma_bytes_of_value(bytes: Seq<u8>)
    ensures
        le_bytes(le_value(bytes), bytes.len()) == bytes,
    decreases bytes.len(),
{
    if bytes.len() > 0 {
        let rest = bytes.drop_first();
        lemma_bytes_of_value(rest);
        assert(le_value(bytes) / 256 == le_value(rest));
        assert(le_value(bytes) % 256 == bytes[0]);
        assert(le_bytes(le_value(bytes), bytes.len()) =~= bytes);
    } else {
        assert(le_bytes(le_value(bytes), bytes.len()) =~= bytes);
    }
}

proof fn lemma_int_len(value: nat, n: nat, order: ByteOrder)
    ensures
        int_bytes(value, n, order).len() == n,
{
    lemma_le_bytes_len(value, n);
}

proof fn lemma_int_round_trip(value: nat, n: nat, order: ByteOrder)
    requires
        value < span(n),
    ensures
        int_value(int_bytes(value, n, order), order) == value,
{
    let bytes = le_bytes(value, n);
    lemma_value_of_bytes(value, n);
    assert(bytes.reverse().reverse() =~= bytes);
}

proof fn lemma_int_reads_back(bytes: Seq<u8>, order: ByteOrder)
    ensures
        int_bytes(int_value(bytes, order), bytes.len(), order) == bytes,
{
    lemma_bytes_of_value(in_order(bytes, order));
    assert(bytes.reverse().reverse() =~= bytes);
}

/// `bytes` with `part` written over it from `at` on.
spec fn overwritten(bytes: Seq<u8>, at: int, part: Seq<u8>) -> Seq<u8> {
    Seq::new(
        bytes.len(),
        |i: int|
            if at <= i < at + part.len() {
                part[i - at]
            } else {
                bytes[i]
            },
    )
}

fn put_int(out: &mut [u8; TICK_SIZE], at: usize, value: u64, n: usize, order: ByteOrder)
    requires
        at + n <= TICK_SIZE,
    ensures
        final(out)@ == overwritten(old(out)@, at as int, int_bytes(value as nat, n as nat, order)),
{
    let ghost part = le_bytes(value as nat, n as nat);
    let mut rest: u64 = value;
    let mut k: usize = 0;
    proof {
        lemma_le_bytes_len(value as nat, n as nat);
        assert(part.take(0) =~= Seq::empty());
    }
    while k < n
        invariant
            k <= n == part.len(),
            at + n <= TICK_SIZE,
            order == ByteOrder::Little ==> out@ =~= overwritten(
                old(out)@,
                at as int,
                part.take(k as int),
            ),
            order == ByteOrder::Big ==> out@ =~= overwritten(
                old(out)@,
                at + n - k,
                part.take(k as int).reverse(),
            ),
            part.skip(k as int) == le_bytes(rest as nat, (n - k) as nat),
        decreases n - k,
    {
        proof {
            let tail = part.skip(k as int);
            assert(tail[0] == (rest % 256) as u8);
            assert(part.skip(k + 1) =~= tail.drop_first());
            assert(tail.drop_first() =~= le_bytes((rest / 256) as nat, (n - k - 1) as nat));
        }
        let place: usize = match order {
            ByteOrder::Little => at + k,
            ByteOrder::Big => at + (n - 1 - k),
        };
        out[place] = (rest % 256) as u8;
        rest = rest / 256;
        k += 1;
    }
    assert(part.take(n as int) =~= part);
}

fn put_symbol(out: &mut [u8; TICK_SIZE], at: usize, symbol: &[u8; 16])
    requires
        at + 16 <= TICK_SIZE,
    ensures
        final(out)@ == overwritten(old(out)@, at as int, symbol@),
{
    let mut k: usize = 0;
    while k < 16
        invariant
            k <= 16,
            at + 16 <= TICK_SIZE,
            out@ =~= overwritten(old(out)@, at as int, symbol@.take(k as int)),
        decreases 16 - k,
    {
        out[at + k] = symbol[k];
        k += 1;
    }
    assert(symbol@.take(16) =~= symbol@);
}

fn get_int(record: &[u8; TICK_SIZE], at: usize, n: usize, order: ByteOrder) -> (value: u64)
    requires
        at + n <= TICK_SIZE,
        n <= 8,
    ensures
        value == int_value(record@.subrange(at as int, at + n), order),
        n == 4 ==> value <= u32::MAX,
{
    let ghost digits = in_order(record@.subrange(at as int, at + n), order);
    let mut value: u64 = 0;
    let mut k: usize = n;
    while k > 0
        invariant
            k <= n <= 8,
            at + n <= TICK_SIZE,
            digits == in_order(record@.subrange(at as int, at + n), order),
            value == le_value(digits.subrange(k as int, n as int)),
        decreases k,
    {
        proof {
            let tail = digits.subrange(k - 1, n as int);
            assert(tail.drop_first() =~= digits.subrange(k as int, n as int));
            lemma_le_value_bound(tail);
            lemma_spans();
        }
        let place: usize = match order {
            ByteOrder::Little => at + (k - 1),
            ByteOrder::Big => at + (n - k),
        };
        assert(record@[place as int] == digits[k - 1]);
        value = value * 256 + record[place] as u64;
        k -= 1;
    }
    proof {
        assert(digits.subrange(0, n as int) =~= digits);
        lemma_le_value_bound(digits);
        lemma_spans();
    }
    value
}

/// The record of a tick, with its integers in this byte order.
pub fn encode_record(tick: &NormalizedTick, order: ByteOrder) -> (record: [u8; TICK_SIZE])
    ensures
        record@ == record_bytes(*tick, order),
{
    let mut record: [u8; TICK_SIZE] = [0u8; TICK_SIZE];
    put_int(&mut record, 0, tick.price.0, 8, order);
    put_int(&mut record, 8, tick.qty.0, 8, order);
    put_int(&mut record, 16, tick.sequence, 8, order);
    put_int(&mut record, 24, tick.ts_exchange_ns, 8, order);
    put_int(&mut record, 32, tick.ts_recv_ns, 8, order);
    put_int(&mut record, SNAPSHOT_ID_OFFSET, tick.snapshot_id as u64, 4, order);
    put_symbol(&mut record, SYMBOL_OFFSET, tick.symbol.as_bytes());
    record[EXCHANGE_OFFSET] = match tick.exchange {
        Exchange::Binance => 0,
        Exchange::Bybit => 1,
        Exchange::Hyperliquid => 2,
    };
    record[SIDE_OFFSET] = match tick.side {
        Side::Bid => 0,
        Side::Ask => 1,
    };
    record[IS_SNAPSHOT_OFFSET] = if tick.is_snapshot {
        1
    } else {
        0
    };
    record[PAD_OFFSET] = tick._align_pad;
    proof {
        lemma_int_len(tick.price.0 as nat, 8, order);
        lemma_int_len(tick.qty.0 as nat, 8, order);
        lemma_int_len(tick.sequence as nat, 8, order);
        lemma_int_len(tick.ts_exchange_ns as nat, 8, order);
        lemma_int_len(tick.ts_recv_ns as nat, 8, order);
        lemma_int_len(tick.snapshot_id as nat, 4, order);
        crate::types::law_symbol_is_its_bytes(tick.symbol, tick.symbol);
        assert(record@ =~= record_bytes(*tick, order));
    }
    record
}

/// Checks the three fields that not every byte is valid for.
pub fn validate_record(record: &[u8; TICK_SIZE]) -> (valid: Result<(), RecordError>)
    ensures
        valid == (match bad_field(record@) {
            None => Ok(()),
            Some(error) => Err(error),
        }),
        valid is Ok <==> record@[56] <= 2 && record@[57] <= 1 && record@[58] <= 1,
        valid matches Err(error) ==> error == if record@[56] > 2 {
            RecordError::BadDiscriminant { field: RecordField::Exchange, value: record@[56] }
        } else if record@[57] > 1 {
            RecordError::BadDiscriminant { field: RecordField::Side, value: record@[57] }
        } else {
            RecordError::BadDiscriminant { field: RecordField::IsSnapshot, value: record@[58] }
        },
{
    let exchange: u8 = record[EXCHANGE_OFFSET];
    if exchange > 2 {
        return Err(RecordError::BadDiscriminant { field: RecordField::Exchange, value: exchange });
    }
    let side: u8 = record[SIDE_OFFSET];
    if side > 1 {
        return Err(RecordError::BadDiscriminant { field: RecordField::Side, value: side });
    }
    let is_snapshot: u8 = record[IS_SNAPSHOT_OFFSET];
    if is_snapshot > 1 {
        return Err(
            RecordError::BadDiscriminant { field: RecordField::IsSnapshot, value: is_snapshot },
        );
    }
    Ok(())
}

/// The tick that a full record holds, unless a field is out of range.
pub fn decode_record(record: &[u8; TICK_SIZE], order: ByteOrder) -> (parsed: Result<
    NormalizedTick,
    RecordError,
>)
    ensures
        parses_as(record@, order, parsed),
{
    if let Err(error) = validate_record(record) {
        return Err(error);
    }
    let symbol: &[u8] = vstd::slice::slice_subrange(
        record.as_slice(),
        SYMBOL_OFFSET,
        EXCHANGE_OFFSET,
    );
    let tick = NormalizedTick {
        price: Price(get_int(record, 0, 8, order)),
        qty: Qty(get_int(record, 8, 8, order)),
        sequence: get_int(record, 16, 8, order),
        ts_exchange_ns: get_int(record, 24, 8, order),
        ts_recv_ns: get_int(record, 32, 8, order),
        symbol: Symbol::from_bytes(symbol),
        exchange: match record[EXCHANGE_OFFSET] {
            0 => Exchange::Binance,
            1 => Exchange::Bybit,
            _ => Exchange::Hyperliquid,
        },
        side: if record[SIDE_OFFSET] == 0 {
            Side::Bid
        } else {
            Side::Ask
        },
        is_snapshot: record[IS_SNAPSHOT_OFFSET] == 1,
        _align_pad: record[PAD_OFFSET],
        snapshot_id: get_int(record, SNAPSHOT_ID_OFFSET, 4, order) as u32,
    };
    proof {
        lemma_int_reads_back(record@.subrange(0, 8), order);
        lemma_int_reads_back(record@.subrange(8, 16), order);
        lemma_int_reads_back(record@.subrange(16, 24), order);
        lemma_int_reads_back(record@.subrange(24, 32), order);
        lemma_int_reads_back(record@.subrange(32, 40), order);
        lemma_int_reads_back(record@.subrange(60, 64), order);
        assert(tick.symbol@ =~= record@.subrange(40, 56));
        assert(record_bytes(tick, order) =~= record@);
    }
    Ok(tick)
}

/// `item` is what reading on gives when `bytes` is all that was found of the
/// next record: nothing at the end of the capture, else a tick or an error.
pub open spec fn item_of(
    bytes: Seq<u8>,
    order: ByteOrder,
    item: Option<Result<NormalizedTick, RecordError>>,
) -> bool {
    match item {
        None => bytes.len() == 0,
        Some(parsed) => bytes.len() > 0 && parses_as(bytes, order, parsed),
    }
}

/// What came of asking the input for more bytes.
pub enum ReadEvent<'a> {
    /// These bytes came. None at all means that the input has ended.
    Data(&'a [u8]),
    /// The call was interrupted and may be made again.
    Interrupted,
    /// The call failed for good.
    Failed,
}

/// What to do next.
pub enum ReadAction {
    /// Ask for more bytes, at most as many as there is room for.
    ReadMore,
    /// The record is read: hand this on.
    Done(Option<Result<NormalizedTick, RecordError>>),
    /// Hand the input's own error on.
    PassError,
}

/// Collects the bytes of one record, in whatever pieces they come.
///
/// Its view is the bytes collected so far.
pub struct RecordBuffer {
    bytes: [u8; TICK_SIZE],
    got: usize,
    order: ByteOrder,
}

impl View for RecordBuffer {
    type V = Seq<u8>;

    closed spec fn view(&self) -> Seq<u8> {
        self.bytes@.take(self.got as int)
    }
}

impl RecordBuffer {
    pub closed spec fn wf(&self) -> bool {
        self.got <= TICK_SIZE
    }

    /// The byte order of the record.
    pub closed spec fn byte_order(&self) -> ByteOrder {
        self.order
    }

    pub fn new(order: ByteOrder) -> (buffer: Self)
        ensures
            buffer.wf(),
            buffer@ == Seq::<u8>::empty(),
            buffer.byte_order() == order,
    {
        let buffer = RecordBuffer { bytes: [0u8; TICK_SIZE], got: 0, order };
        assert(buffer@ =~= Seq::empty());
        buffer
    }

    /// How many bytes are missing.
    pub fn room(&self) -> (room: usize)
        requires
            self.wf(),
        ensures
            room == TICK_SIZE - self@.len(),
    {
        TICK_SIZE - self.got
    }

    /// Takes note of one event and says what to do next.
    pub fn step(&mut self, event: ReadEvent<'_>) -> (action: ReadAction)
        requires
            old(self).wf(),
            old(self)@.len() < TICK_SIZE,
            event matches ReadEvent::Data(chunk) ==> chunk@.len() <= TICK_SIZE - old(self)@.len(),
        ensures
            final(self).wf(),
            final(self).byte_order() == old(self).byte_order(),
            match event {
                ReadEvent::Data(chunk) => {
                    &&& final(self)@ == old(self)@ + chunk@
                    &&& if chunk@.len() > 0 && final(self)@.len() < TICK_SIZE {
                        action == ReadAction::ReadMore
                    } else {
                        action matches ReadAction::Done(item) && item_of(
                            final(self)@,
                            old(self).byte_order(),
                            item,
                        )
                    }
                },
                ReadEvent::Interrupted => *final(self) == *old(self) && action
                    == ReadAction::ReadMore,
                ReadEvent::Failed => *final(self) == *old(self) && action == ReadAction::PassError,
            },
    {
        match event {
            ReadEvent::Interrupted => ReadAction::ReadMore,
            ReadEvent::Failed => ReadAction::PassError,
            ReadEvent::Data(chunk) => {
                self.collect(chunk);
                if chunk.len() > 0 && self.got < TICK_SIZE {
                    ReadAction::ReadMore
                } else {
                    ReadAction::Done(self.finish())
                }
            },
        }
    }

    fn collect(&mut self, chunk: &[u8])
        requires
            old(self).wf(),
            chunk@.len() <= TICK_SIZE - old(self)@.len(),
        ensures
            final(self).wf(),
            final(self).byte_order() == old(self).byte_order(),
            final(self)@ == old(self)@ + chunk@,
    {
        let start: usize = self.got;
        let mut k: usize = 0;
        while k < chunk.len()
            invariant
                k <= chunk@.len() <= TICK_SIZE - start,
                start == old(self).got,
                self.got == start,
                self.order == old(self).order,
                forall|i: int| 0 <= i < start ==> self.bytes@[i] == old(self).bytes@[i],
                forall|i: int| start <= i < start + k ==> self.bytes@[i] == chunk@[i - start],
            decreases chunk@.len() - k,
        {
            self.bytes[start + k] = chunk[k];
            k += 1;
        }
        self.got = start + k;
        assert(self@ =~= old(self)@ + chunk@);
    }

    /// What the bytes collected so far amount to when no more come.
    fn finish(&self) -> (item: Option<Result<NormalizedTick, RecordError>>)
        requires
            self.wf(),
        ensures
            item_of(self@, self.byte_order(), item),
    {
        if self.got == 0 {
            return None;
        }
        if self.got != TICK_SIZE {
            return Some(Err(RecordError::Truncated { got: self.got }));
        }
        assert(self@ =~= self.bytes@);
        Some(decode_record(&self.bytes, self.order))
    }
}

/// The end of the record that starts at `at`, or of the capture if that comes
/// first.
pub open spec fn record_end(len: nat, at: int) -> int {
    if len - at < TICK_SIZE {
        len as int
    } else {
        at + TICK_SIZE
    }
}

/// Reads the record that starts at `at` of a capture held in memory, and says
/// where the next one starts.
pub fn next_record(capture: &[u8], at: usize, order: ByteOrder) -> (read: (
    Option<Result<NormalizedTick, RecordError>>,
    usize,
))
    requires
        at <= capture@.len(),
    ensures
        read.1 == record_end(capture@.len(), at as int),
        read.1 == at + 64 || read.1 == capture@.len(),
        at <= read.1 <= at + 64,
        read.1 <= capture@.len(),
        item_of(capture@.subrange(at as int, read.1 as int), order, read.0),
{
    let mut buffer = RecordBuffer::new(order);
    let mut end: usize = at;
    assert(capture@.subrange(at as int, at as int) =~= Seq::empty());
    loop
        invariant
            buffer.wf(),
            buffer.byte_order() == order,
            at <= end <= capture@.len(),
            buffer@ == capture@.subrange(at as int, end as int),
            buffer@.len() < TICK_SIZE,
        decreases capture@.len() - end, TICK_SIZE - buffer@.len(),
    {
        let left: usize = capture.len() - end;
        let room: usize = buffer.room();
        let next: usize = end + if room < left {
            room
        } else {
            left
        };
        let chunk: &[u8] = vstd::slice::slice_subrange(capture, end, next);
        assert(capture@.subrange(at as int, end as int) + chunk@ =~= capture@.subrange(
            at as int,
            next as int,
        ));
        end = next;
        match buffer.step(ReadEvent::Data(chunk)) {
            ReadAction::Done(item) => {
                return (item, end);
            },
            _ => {},
        }
    }
}

/// `items` is what a whole capture reads as: its records in order, 64 bytes
/// each, the last one shorter if the capture ends within it.
pub open spec fn reads_as(
    capture: Seq<u8>,
    order: ByteOrder,
    items: Seq<Result<NormalizedTick, RecordError>>,
) -> bool
    decreases capture.len(),
{
    if capture.len() == 0 {
        items.len() == 0
    } else {
        let end = record_end(capture.len(), 0);
        &&& items.len() > 0
        &&& parses_as(capture.take(end), order, items[0])
        &&& reads_as(capture.skip(end), order, items.drop_first())
    }
}

/// Reads a whole capture held in memory.
pub fn read_capture(capture: &[u8], order: ByteOrder) -> (items: Vec<
    Result<NormalizedTick, RecordError>,
>)
    ensures
        reads_as(capture@, order, items@),
{
    let mut items: Vec<Result<NormalizedTick, RecordError>> = Vec::new();
    let mut at: usize = 0;
    proof {
        assert(capture@.skip(0) =~= capture@);
        assert forall|rest: Seq<Result<NormalizedTick, RecordError>>| #[trigger]
            reads_as(capture@.skip(0), order, rest) implies reads_as(capture@, order, items@ + rest) by {
            assert(items@ + rest =~= rest);
        }
    }
    while at < capture.len()
        invariant
            at <= capture@.len(),
            forall|rest: Seq<Result<NormalizedTick, RecordError>>| #[trigger]
                reads_as(capture@.skip(at as int), order, rest) ==> reads_as(capture@, order, items@ + rest),
        decreases capture@.len() - at,
    {
        let (item, next) = next_record(capture, at, order);
        let ghost before = items@;
        if let Some(parsed) = item {
            items.push(parsed);
            proof {
                let left = capture@.skip(at as int);
                let end = record_end(left.len(), 0);
                assert(next == at + end);
                assert(left.take(end) =~= capture@.subrange(at as int, next as int));
                assert(left.skip(end) =~= capture@.skip(next as int));
                assert forall|rest: Seq<Result<NormalizedTick, RecordError>>| #[trigger]
                    reads_as(capture@.skip(next as int), order, rest) implies reads_as(
                    capture@,
                    order,
                    items@ + rest,
                ) by {
                    let longer = seq![parsed] + rest;
                    assert(longer.drop_first() =~= rest);
                    assert(reads_as(left, order, longer));
                    assert(before + longer =~= items@ + rest);
                }
            }
        }
        at = next;
    }
    proof {
        let none = Seq::<Result<NormalizedTick, RecordError>>::empty();
        assert(capture@.skip(at as int) =~= Seq::empty());
        assert(reads_as(capture@.skip(at as int), order, none));
        assert(items@ + none =~= items@);
    }
    items
}

/// Where each field of a tick is in its record.
pub proof fn lemma_record_layout(tick: NormalizedTick, order: ByteOrder)
    ensures
        ({
            let record = record_bytes(tick, order);
            &&& record.len() == TICK_SIZE
            &&& int_value(record.subrange(0, 8), order) == tick.price.0
            &&& int_value(record.subrange(8, 16), order) == tick.qty.0
            &&& int_value(record.subrange(16, 24), order) == tick.sequence
            &&& int_value(record.subrange(24, 32), order) == tick.ts_exchange_ns
            &&& int_value(record.subrange(32, 40), order) == tick.ts_recv_ns
            &&& record.subrange(40, 56) == tick.symbol@
            &&& record[56] == exchange_code(tick.exchange)
            &&& record[57] == side_code(tick.side)
            &&& record[58] == flag_code(tick.is_snapshot)
            &&& record[59] == tick._align_pad
            &&& int_value(record.subrange(60, 64), order) == tick.snapshot_id
        }),
{
    let record = record_bytes(tick, order);
    lemma_spans();
    crate::types::law_symbol_is_its_bytes(tick.symbol, tick.symbol);
    lemma_int_len(tick.price.0 as nat, 8, order);
    lemma_int_len(tick.qty.0 as nat, 8, order);
    lemma_int_len(tick.sequence as nat, 8, order);
    lemma_int_len(tick.ts_exchange_ns as nat, 8, order);
    lemma_int_len(tick.ts_recv_ns as nat, 8, order);
    lemma_int_len(tick.snapshot_id as nat, 4, order);
    lemma_int_round_trip(tick.price.0 as nat, 8, order);
    lemma_int_round_trip(tick.qty.0 as nat, 8, order);
    lemma_int_round_trip(tick.sequence as nat, 8, order);
    lemma_int_round_trip(tick.ts_exchange_ns as nat, 8, order);
    lemma_int_round_trip(tick.ts_recv_ns as nat, 8, order);
    lemma_int_round_trip(tick.snapshot_id as nat, 4, order);
    assert(record.subrange(0, 8) =~= int_bytes(tick.price.0 as nat, 8, order));
    assert(record.subrange(8, 16) =~= int_bytes(tick.qty.0 as nat, 8, order));
    assert(record.subrange(16, 24) =~= int_bytes(tick.sequence as nat, 8, order));
    assert(record.subrange(24, 32) =~= int_bytes(tick.ts_exchange_ns as nat, 8, order));
    assert(record.subrange(32, 40) =~= int_bytes(tick.ts_recv_ns as nat, 8, order));
    assert(record.subrange(40, 56) =~= tick.symbol@);
    assert(record.subrange(60, 64) =~= int_bytes(tick.snapshot_id as nat, 4, order));
}

/// A record holds the whole tick: two ticks with the same record are the same.
pub proof fn law_records_stay_apart(a: NormalizedTick, b: NormalizedTick, order: ByteOrder)
    ensures
        record_bytes(a, order) == record_bytes(b, order) <==> a == b,
{
    if record_bytes(a, order) == record_bytes(b, order) {
        lemma_record_layout(a, order);
        lemma_record_layout(b, order);
        crate::types::law_symbol_is_its_bytes(a.symbol, b.symbol);
        assert(exchange_code(a.exchange) == exchange_code(b.exchange));
        assert(side_code(a.side) == side_code(b.side));
        assert(a.price == b.price && a.qty == b.qty);
        assert(a == b);
    }
}

/// A tick that is written and read back comes out as it went in, bit for bit.
pub proof fn law_record_round_trip(
    tick: NormalizedTick,
    order: ByteOrder,
    parsed: Result<NormalizedTick, RecordError>,
)
    ensures
        parses_as(record_bytes(tick, order), order, parsed) <==> parsed == Ok::<
            NormalizedTick,
            RecordError,
        >(tick),
{
    lemma_record_layout(tick, order);
    match parsed {
        Ok(other) => {
            law_records_stay_apart(other, tick, order);
        },
        Err(_) => {},
    }
}

/// A byte that stands for no exchange, no side or no flag is never taken for
/// one: the record is refused, whatever the rest of it holds.
pub proof fn law_corrupt_record_is_refused(
    record: Seq<u8>,
    order: ByteOrder,
    parsed: Result<NormalizedTick, RecordError>,
)
    requires
        record.len() == TICK_SIZE,
        record[56] > 2 || record[57] > 1 || record[58] > 1,
        parses_as(record, order, parsed),
    ensures
        parsed matches Err(RecordError::BadDiscriminant { field, value }) && value
            == record[match field {
            RecordField::Exchange => 56,
            RecordField::Side => 57,
            RecordField::IsSnapshot => 58,
        }],
{
}

/// The bytes decide what is read, not the pieces in which they came.
pub proof fn law_bytes_decide_the_item(
    bytes: Seq<u8>,
    order: ByteOrder,
    a: Option<Result<NormalizedTick, RecordError>>,
    b: Option<Result<NormalizedTick, RecordError>>,
)
    requires
        item_of(bytes, order, a),
        item_of(bytes, order, b),
    ensures
        a == b,
{
    if let (Some(Ok(x)), Some(Ok(y))) = (a, b) {
        law_records_stay_apart(x, y, order);
    }
}

/// Where a record has the bytes of its integers, of weight `256^k`: in place
/// `k` of the integer if the lowest byte comes first, counted from the other end
/// if the highest does. The symbol is there as it is, and each of the exchange,
/// the side and the flag as its number.
pub proof fn law_record_has_every_byte_in_its_place(
    tick: NormalizedTick,
    order: ByteOrder,
    k: int,
)
    requires
        0 <= k < 8,
    ensures
        ({
            let record = record_bytes(tick, order);
            let place = if order == ByteOrder::Little {
                k
            } else {
                7 - k
            };
            let weight = pow2((8 * k) as nat) as int;
            &&& record.len() == 64
            &&& record[place] == (tick.price.0 as int / weight) % 256
            &&& record[8 + place] == (tick.qty.0 as int / weight) % 256
            &&& record[16 + place] == (tick.sequence as int / weight) % 256
            &&& record[24 + place] == (tick.ts_exchange_ns as int / weight) % 256
            &&& record[32 + place] == (tick.ts_recv_ns as int / weight) % 256
            &&& k < 4 ==> record[60 + if order == ByteOrder::Little {
                k
            } else {
                3 - k
            }] == (tick.snapshot_id as int / weight) % 256
            &&& forall|i: int| 0 <= i < 16 ==> record[40 + i] == #[trigger] tick.symbol@[i]
            &&& record[56] == match tick.exchange {
                Exchange::Binance => 0u8,
                Exchange::Bybit => 1u8,
                Exchange::Hyperliquid => 2u8,
            }
            &&& record[57] == match tick.side {
                Side::Bid => 0u8,
                Side::Ask => 1u8,
            }
            &&& record[58] == if tick.is_snapshot {
                1u8
            } else {
                0u8
            }
            &&& record[59] == tick._align_pad
        }),
{
    let record = record_bytes(tick, order);
    lemma_record_layout(tick, order);
    lemma_int_byte(tick.price.0 as nat, 8, order, k as nat);
    lemma_int_byte(tick.qty.0 as nat, 8, order, k as nat);
    lemma_int_byte(tick.sequence as nat, 8, order, k as nat);
    lemma_int_byte(tick.ts_exchange_ns as nat, 8, order, k as nat);
    lemma_int_byte(tick.ts_recv_ns as nat, 8, order, k as nat);
    lemma_int_len(tick.price.0 as nat, 8, order);
    lemma_int_len(tick.qty.0 as nat, 8, order);
    lemma_int_len(tick.sequence as nat, 8, order);
    lemma_int_len(tick.ts_exchange_ns as nat, 8, order);
    lemma_int_len(tick.ts_recv_ns as nat, 8, order);
    lemma_int_len(tick.snapshot_id as nat, 4, order);
    crate::types::law_symbol_is_its_bytes(tick.symbol, tick.symbol);
    if k < 4 {
        lemma_int_byte(tick.snapshot_id as nat, 4, order, k as nat);
    }
    assert forall|i: int| 0 <= i < 16 implies record[40 + i] == #[trigger] tick.symbol@[i] by {
        assert(record.subrange(40, 56)[i] == record[40 + i]);
    }
}

proof fn lemma_le_byte(value: nat, n: nat, k: nat)
    requires
        k < n,
    ensures
        le_bytes(value, n).len() == n,
        le_bytes(value, n)[k as int] == (value as int / pow2(8 * k) as int) % 256,
    decreases n,
{
    lemma_le_bytes_len(value, n);
    vstd::arithmetic::power2::lemma2_to64();
    if k > 0 {
        let rest = (k - 1) as nat;
        lemma_le_byte(value / 256, (n - 1) as nat, rest);
        vstd::arithmetic::power2::lemma_pow2_adds(8, 8 * rest);
        vstd::arithmetic::power2::lemma_pow2_pos(8 * rest);
        vstd::arithmetic::div_mod::lemma_div_denominator(
            value as int,
            256,
            pow2(8 * rest) as int,
        );
        assert(le_bytes(value, n)[k as int] == le_bytes(value / 256, (n - 1) as nat)[rest as int]);
    } else {
        assert(value as int / 1 == value);
    }
}

proof fn lemma_int_byte(value: nat, n: nat, order: ByteOrder, k: nat)
    requires
        k < n,
    ensures
        int_bytes(value, n, order)[if order == ByteOrder::Little {
            k as int
        } else {
            n - 1 - k
        }] == (value as int / pow2(8 * k) as int) % 256,
{
    lemma_le_byte(value, n, k);
}

/// A record that is read through the buffer is the tick that was written, and
/// nothing else is.
pub proof fn law_item_of_a_record_is_its_tick(
    tick: NormalizedTick,
    order: ByteOrder,
    item: Option<Result<NormalizedTick, RecordError>>,
)
    ensures
        item_of(record_bytes(tick, order), order, item) <==> item == Some(
            Ok::<NormalizedTick, RecordError>(tick),
        ),
{
    lemma_record_layout(tick, order);
    if let Some(parsed) = item {
        law_record_round_trip(tick, order, parsed);
    }
}

/// What is read is what the bytes say. Nothing is read exactly when there are
/// none. A tick is read only from the 64 bytes of its record. Fewer bytes, or
/// more, are reported with their number; a full record is refused exactly when
/// its exchange, side or flag is out of range, and the first such field, in this
/// order, is reported with its byte.
pub proof fn law_items_say_what_the_bytes_are(
    bytes: Seq<u8>,
    order: ByteOrder,
    item: Option<Result<NormalizedTick, RecordError>>,
)
    requires
        bytes.len() <= usize::MAX,
        item_of(bytes, order, item),
    ensures
        item is None <==> bytes.len() == 0,
        item matches Some(Ok(tick)) ==> bytes.len() == 64 && bytes == record_bytes(tick, order),
        item is Some && item->0 is Ok <==> bytes.len() == 64 && bytes[56] <= 2 && bytes[57] <= 1
            && bytes[58] <= 1,
        item matches Some(Err(error)) ==> error == if bytes.len() != 64 {
            RecordError::Truncated { got: bytes.len() as usize }
        } else if bytes[56] > 2 {
            RecordError::BadDiscriminant { field: RecordField::Exchange, value: bytes[56] }
        } else if bytes[57] > 1 {
            RecordError::BadDiscriminant { field: RecordField::Side, value: bytes[57] }
        } else {
            RecordError::BadDiscriminant { field: RecordField::IsSnapshot, value: bytes[58] }
        },
{
}

/// The same of a record that is decoded on its own.
pub proof fn law_parsing_says_what_the_bytes_are(
    bytes: Seq<u8>,
    order: ByteOrder,
    parsed: Result<NormalizedTick, RecordError>,
)
    ensures
        bytes.len() > 0 ==> (parses_as(bytes, order, parsed) <==> item_of(
            bytes,
            order,
            Some(parsed),
        )),
        parses_as(bytes, order, parsed) && parsed is Ok ==> bytes == record_bytes(
            parsed->Ok_0,
            order,
        ),
        parses_as(bytes, order, parsed) ==> (parsed is Ok <==> bytes.len() == 64 && bytes[56] <= 2
            && bytes[57] <= 1 && bytes[58] <= 1),
{
}

/// What an error says: how many bytes there were of how many, or which field
/// holds which number.
pub proof fn law_errors_say_what_is_wrong(error: RecordError)
    ensures
        error.text() == match error {
            RecordError::Truncated { got } => "capture file truncated mid-record: got "@ + decimal(
                got as nat,
            ) + " of "@ + decimal(64) + " bytes"@,
            RecordError::BadDiscriminant { field, value } => "corrupt capture record: "@ + (
            match field {
                RecordField::Exchange => "exchange"@,
                RecordField::Side => "side"@,
                RecordField::IsSnapshot => "is_snapshot"@,
            }) + " discriminant "@ + decimal(value as nat) + " is out of range"@,
        },
{
}

} // verus!
