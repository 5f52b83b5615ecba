//! Plain values that flow through the pipeline: fixed-point prices and
//! quantities, symbols, exchanges, sides, ticks and price levels.

use vstd::prelude::*;
use vstd::std_specs::cmp::PartialEqSpecImpl;
use vstd::string::*;
use vstd::utf8::*;

pub use crate::book_side::{BookSide, MAX_LEVELS};
pub use crate::order_book::OrderBook;

verus! {

/// A fixed-point price, 1e-8 scale.
#[derive(Debug, Clone, Copy, PartialEq, Eq, Structural, PartialOrd, Ord, Hash)]
pub struct Price(pub u64);

impl Price {
    pub fn new(raw: u64) -> (price: Self)
        ensures
            price == Price(raw),
    {
        Price(raw)
    }

    pub fn raw(self) -> (raw: u64)
        ensures
            raw == self.0,
    {
        self.0
    }

    pub fn is_zero(self) -> (zero: bool)
        ensures
            zero == (self.0 == 0),
    {
        self.0 == 0
    }
}

impl Default for Price {
    fn default() -> (price: Self)
        ensures
            price == Price(0),
    {
        Price(0)
    }
}

/// A fixed-point quantity, 1e-8 scale. Zero means "remove this level".
#[derive(Debug, Clone, Copy, PartialEq, Eq, Structural, PartialOrd, Ord, Hash)]
pub struct Qty(pub u64);

impl Qty {
    pub fn new(raw: u64) -> (qty: Self)
        ensures
            qty == Qty(raw),
    {
        Qty(raw)
    }

    pub fn raw(self) -> (raw: u64)
        ensures
            raw == self.0,
    {
        self.0
    }

    pub fn is_zero(self) -> (zero: bool)
        ensures
            zero == (self.0 == 0),
    {
        self.0 == 0
    }
}

impl Default for Qty {
    fn default() -> (qty: Self)
        ensures
            qty == Qty(0),
    {
        Qty(0)
    }
}

/// An instrument name in sixteen bytes, padded with NULs.
///
/// Longer names are cut at sixteen bytes.
#[derive(Debug, Clone, Copy, Hash)]
pub struct Symbol([u8; 16]);

impl View for Symbol {
    type V = Seq<u8>;

    /// The sixteen bytes.
    closed spec fn view(&self) -> Seq<u8> {
        self.0@
    }
}

/// `bytes` cut at sixteen bytes and padded with NULs to sixteen.
pub open spec fn padded(bytes: Seq<u8>) -> Seq<u8> {
    Seq::new(
        16,
        |i: int|
            if i < bytes.len() {
                bytes[i]
            } else {
                0u8
            },
    )
}

/// The bytes without the NULs at their end.
pub open spec fn without_padding(bytes: Seq<u8>) -> Seq<u8>
    decreases bytes.len(),
{
    if bytes.len() == 0 || bytes.last() != 0 {
        bytes
    } else {
        without_padding(bytes.drop_last())
    }
}

/// What a symbol with these bytes is called in labels: its text without
/// the NULs at the end, or a fixed marker when that is no UTF-8.
pub open spec fn label_text(bytes: Seq<u8>) -> Seq<char> {
    if valid_utf8(without_padding(bytes)) {
        decode_utf8(without_padding(bytes))
    } else {
        "<invalid-symbol>"@
    }
}

proof fn lemma_without_padding(bytes: Seq<u8>, end: int)
    requires
        0 <= end <= bytes.len(),
        forall|i: int| end <= i < bytes.len() ==> bytes[i] == 0,
        end > 0 ==> bytes[end - 1] != 0,
    ensures
        without_padding(bytes) == bytes.take(end),
    decreases bytes.len(),
{
    if end == bytes.len() {
        assert(bytes.take(end) =~= bytes);
    } else {
        lemma_without_padding(bytes.drop_last(), end);
        assert(bytes.drop_last().take(end) =~= bytes.take(end));
    }
}

/// Calls `std::str::from_utf8`, which accepts a byte slice exactly when it is
/// valid UTF-8 and then gives a string slice over those same bytes.
#[verifier::external_body]
fn utf8_text(bytes: &[u8]) -> (text: Option<&str>)
    ensures
        text is Some <==> valid_utf8(bytes@),
        text matches Some(s) ==> s.spec_bytes() == bytes@,
{
    std::str::from_utf8(bytes).ok()
}

impl Symbol {
    pub fn from_bytes(b: &[u8]) -> (symbol: Self)
        ensures
            symbol@ == padded(b@),
            symbol@.len() == 16,
            forall|i: int|
                0 <= i < 16 ==> (#[trigger] symbol@[i]) == if i < b@.len() {
                    b@[i]
                } else {
                    0
                },
    {
        let mut bytes: [u8; 16] = [0u8; 16];
        let n: usize = if b.len() < 16 {
            b.len()
        } else {
            16
        };
        let mut i: usize = 0;
        while i < n
            invariant
                i <= n <= 16,
                n <= b@.len(),
                forall|j: int| 0 <= j < i ==> bytes@[j] == b@[j],
                forall|j: int| i <= j < 16 ==> bytes@[j] == 0,
            decreases n - i,
        {
            bytes[i] = b[i];
            i += 1;
        }
        assert(bytes@ =~= padded(b@));
        Symbol(bytes)
    }

    pub fn as_bytes(&self) -> (bytes: &[u8; 16])
        ensures
            bytes@ == self@,
    {
        &self.0
    }

    /// The text without the NULs at the end, or a marker when that is not
    /// valid UTF-8. For labels and logging only.
    pub fn as_str(&self) -> (text: &str)
        ensures
            text@ == label_text(self@),
    {
        let mut end: usize = 16;
        while end > 0 && self.0[end - 1] == 0
            invariant
                end <= 16,
                forall|i: int| end <= i < 16 ==> self.0@[i] == 0,
            decreases end,
        {
            end -= 1;
        }
        proof {
            lemma_without_padding(self.0@, end as int);
        }
        let bytes: &[u8] = vstd::slice::slice_subrange(self.0.as_slice(), 0, end);
        assert(bytes@ =~= self.0@.take(end as int));
        match utf8_text(bytes) {
            Some(text) => {
                proof {
                    encode_utf8_decode_utf8(text@);
                }
                text
            },
            None => "<invalid-symbol>",
        }
    }
}

impl PartialEq for Symbol {
    fn eq(&self, other: &Self) -> (same: bool) {
        let mut i: usize = 0;
        while i < 16
            invariant
                i <= 16,
                forall|j: int| 0 <= j < i ==> self.0@[j] == other.0@[j],
            decreases 16 - i,
        {
            if self.0[i] != other.0[i] {
                return false;
            }
            i += 1;
        }
        assert(self.0 =~= other.0);
        true
    }
}

impl PartialEqSpecImpl for Symbol {
    open spec fn obeys_eq_spec() -> bool {
        true
    }

    open spec fn eq_spec(&self, other: &Self) -> bool {
        *self == *other
    }
}

impl Eq for Symbol {

}

impl Default for Symbol {
    fn default() -> (symbol: Self)
        ensures
            symbol@ == padded(Seq::empty()),
    {
        let symbol = Symbol([0u8; 16]);
        assert(symbol.0@ =~= padded(Seq::empty()));
        symbol
    }
}

/// A symbol is sixteen bytes and nothing else: two symbols are equal exactly
/// when their bytes are.
pub proof fn law_symbol_is_its_bytes(a: Symbol, b: Symbol)
    ensures
        a@.len() == 16,
        a == b <==> a@ == b@,
{
    if a@ == b@ {
        assert(a.0 =~= b.0);
    }
}

/// `==` on symbols compares the bytes.
pub proof fn law_symbol_equality_is_of_bytes(a: Symbol, b: Symbol)
    ensures
        vstd::std_specs::cmp::PartialEqSpec::eq_spec(&a, &b) <==> a@ == b@,
{
    law_symbol_is_its_bytes(a, b);
}

/// A label is the text of the bytes ahead of the NULs at the end, and a fixed
/// marker if those are no UTF-8.
pub proof fn law_label_is_the_text_ahead_of_the_padding(bytes: Seq<u8>, end: int)
    requires
        0 <= end <= bytes.len(),
        forall|i: int| end <= i < bytes.len() ==> bytes[i] == 0,
        end > 0 ==> bytes[end - 1] != 0,
    ensures
        label_text(bytes) == if valid_utf8(bytes.take(end)) {
            decode_utf8(bytes.take(end))
        } else {
            "<invalid-symbol>"@
        },
{
    lemma_without_padding(bytes, end);
}

/// A text that fits a symbol and does not end in a NUL is its own label.
pub proof fn law_label_reads_back(text: Seq<char>)
    requires
        encode_utf8(text).len() <= 16,
        encode_utf8(text).len() > 0 ==> encode_utf8(text).last() != 0,
    ensures
        label_text(padded(encode_utf8(text))) == text,
{
    let bytes = encode_utf8(text);
    law_short_names_stay_apart(bytes, bytes);
    encode_utf8_valid_utf8(text);
    encode_utf8_decode_utf8(text);
}

/// Padding keeps the first sixteen bytes and fills up with NULs.
pub proof fn law_padding_keeps_the_bytes(bytes: Seq<u8>)
    ensures
        padded(bytes).len() == 16,
        forall|i: int| 0 <= i < 16 && i < bytes.len() ==> (#[trigger] padded(bytes)[i]) == bytes[i],
        forall|i: int| 0 <= i < 16 && i >= bytes.len() ==> (#[trigger] padded(bytes)[i]) == 0,
{
}

/// Names of at most sixteen bytes that do not end in a NUL stay apart: they
/// give equal symbols only when they are the same name, and the name is read
/// back whole.
pub proof fn law_short_names_stay_apart(a: Seq<u8>, b: Seq<u8>)
    requires
        a.len() <= 16,
        b.len() <= 16,
        a.len() > 0 ==> a.last() != 0,
        b.len() > 0 ==> b.last() != 0,
    ensures
        without_padding(padded(a)) == a,
        padded(a) == padded(b) <==> a == b,
{
    lemma_without_padding(padded(a), a.len() as int);
    lemma_without_padding(padded(b), b.len() as int);
    assert(padded(a).take(a.len() as int) =~= a);
    assert(padded(b).take(b.len() as int) =~= b);
}

/// Where a tick came from.
#[derive(Debug, Clone, Copy, PartialEq, Eq, Structural)]
pub enum Exchange {
    Binance,
    Bybit,
    Hyperliquid,
}

impl Exchange {
    pub open spec fn name(self) -> Seq<char> {
        match self {
            Exchange::Binance => "binance"@,
            Exchange::Bybit => "bybit"@,
            Exchange::Hyperliquid => "hyperliquid"@,
        }
    }

    pub fn as_str(self) -> (name: &'static str)
        ensures
            name@ == self.name(),
            self == Exchange::Binance ==> name@ == "binance"@,
            self == Exchange::Bybit ==> name@ == "bybit"@,
            self == Exchange::Hyperliquid ==> name@ == "hyperliquid"@,
    {
        match self {
            Exchange::Binance => "binance",
            Exchange::Bybit => "bybit",
            Exchange::Hyperliquid => "hyperliquid",
        }
    }
}

/// No two exchanges have the same name.
pub proof fn law_exchange_names_stay_apart(a: Exchange, b: Exchange)
    ensures
        a.name() == b.name() <==> a == b,
        a.name() == match a {
            Exchange::Binance => "binance"@,
            Exchange::Bybit => "bybit"@,
            Exchange::Hyperliquid => "hyperliquid"@,
        },
{
    reveal_strlit("binance");
    reveal_strlit("bybit");
    reveal_strlit("hyperliquid");
    assert("binance"@.len() == 7);
    assert("bybit"@.len() == 5);
    assert("hyperliquid"@.len() == 11);
    if a != b {
        assert(a.name().len() != b.name().len());
    }
}

impl Default for Exchange {
    fn default() -> (exchange: Self)
        ensures
            exchange == Exchange::Binance,
    {
        Exchange::Binance
    }
}

/// Which side of the book a level belongs to.
#[derive(Debug, Clone, Copy, PartialEq, Eq, Structural)]
pub enum Side {
    Bid,
    Ask,
}

impl Default for Side {
    fn default() -> (side: Self)
        ensures
            side == Side::Bid,
    {
        Side::Bid
    }
}

/// One normalized update, for one price level of one side.
///
/// A snapshot is a batch of ticks that all carry `is_snapshot` and the same
/// `snapshot_id`.
#[derive(Debug, Clone, Copy, PartialEq, Eq)]
pub struct NormalizedTick {
    pub price: Price,
    pub qty: Qty,
    pub sequence: u64,
    pub ts_exchange_ns: u64,
    pub ts_recv_ns: u64,
    pub symbol: Symbol,
    pub exchange: Exchange,
    pub side: Side,
    pub is_snapshot: bool,
    /// The spare byte ahead of `snapshot_id`. It means nothing, but a captured
    /// record keeps it.
    pub _align_pad: u8,
    pub snapshot_id: u32,
}

impl NormalizedTick {
    #[allow(clippy::too_many_arguments)]
    pub fn new(
        price: Price,
        qty: Qty,
        sequence: u64,
        ts_exchange_ns: u64,
        ts_recv_ns: u64,
        symbol: Symbol,
        exchange: Exchange,
        side: Side,
        is_snapshot: bool,
        snapshot_id: u32,
    ) -> (tick: Self)
        ensures
            tick.price == price,
            tick.qty == qty,
            tick.sequence == sequence,
            tick.ts_exchange_ns == ts_exchange_ns,
            tick.ts_recv_ns == ts_recv_ns,
            tick.symbol == symbol,
            tick.exchange == exchange,
            tick.side == side,
            tick.is_snapshot == is_snapshot,
            tick.snapshot_id == snapshot_id,
            tick._align_pad == 0,
    {
        NormalizedTick {
            price,
            qty,
            sequence,
            ts_exchange_ns,
            ts_recv_ns,
            symbol,
            exchange,
            side,
            is_snapshot,
            _align_pad: 0,
            snapshot_id,
        }
    }
}

impl Default for NormalizedTick {
    fn default() -> (tick: Self)
        ensures
            tick.price == Price(0),
            tick.qty == Qty(0),
            tick.sequence == 0,
            tick.ts_exchange_ns == 0,
            tick.ts_recv_ns == 0,
            tick.symbol@ == padded(Seq::empty()),
            tick.exchange == Exchange::Binance,
            tick.side == Side::Bid,
            !tick.is_snapshot,
            tick.snapshot_id == 0,
            tick._align_pad == 0,
    {
        NormalizedTick::new(
            Price(0),
            Qty(0),
            0,
            0,
            0,
            Symbol::default(),
            Exchange::Binance,
            Side::Bid,
            false,
            0,
        )
    }
}

/// One price level: a price and the quantity resting there.
#[derive(Debug, Clone, Copy, PartialEq, Eq, Structural)]
pub struct Level {
    pub price: Price,
    pub qty: Qty,
}

impl Level {
    pub fn empty() -> (level: Self)
        ensures
            level == (Level { price: Price(0), qty: Qty(0) }),
    {
        Level { price: Price(0), qty: Qty(0) }
    }
}

impl Default for Level {
    fn default() -> (level: Self)
        ensures
            level == (Level { price: Price(0), qty: Qty(0) }),
    {
        Level::empty()
    }
}

/// What a delta did to a side.
#[derive(Debug, Clone, Copy, PartialEq, Eq, Structural)]
pub enum DeltaResult {
    /// The price was tracked; its quantity was replaced.
    Updated,
    /// The price was not tracked and there was room for it.
    Inserted,
    /// The price was tracked and its level was taken out.
    Removed,
    /// The side was full; the new level pushed the worst one out.
    InsertedEvicted,
    /// A removal for a price that is not tracked.
    NoOp,
    /// The side was full of better prices, or the tick was for another book.
    Discarded,
}

impl Default for DeltaResult {
    fn default() -> (result: Self)
        ensures
            result == DeltaResult::NoOp,
    {
        DeltaResult::NoOp
    }
}

} // verus!
