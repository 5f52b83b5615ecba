//! Health counters in the Prometheus text format.
//!
//! Write the header once, then the samples of as many books and rings as
//! there are.

use crate::order_book::OrderBook;
use crate::ring_buffer::SpscDisruptor;
use crate::text::{decimal, push_decimal};
use crate::types::{label_text, Exchange, Symbol};
use vstd::prelude::*;
use vstd::string::*;

verus! {

/// What the header says of one metric.
pub struct MetricView {
    pub name: Seq<char>,
    pub kind: Seq<char>,
    pub help: Seq<char>,
}

/// The metrics there are, in the order in which the header declares them.
pub open spec fn declared_metrics() -> Seq<MetricView> {
    seq![
        MetricView {
            name: "feedhandler_symbol_mismatches_total"@,
            kind: "counter"@,
            help: "Ticks discarded for carrying the wrong Symbol"@,
        },
        MetricView {
            name: "feedhandler_sequence_gaps_total"@,
            kind: "counter"@,
            help: "Sequence numbers that jumped by more than one"@,
        },
        MetricView {
            name: "feedhandler_sequence_reorders_total"@,
            kind: "counter"@,
            help: "Sequence numbers that went backward or repeated"@,
        },
        MetricView {
            name: "feedhandler_checksum_failures_total"@,
            kind: "counter"@,
            help: "Adapter-reported checksum mismatches"@,
        },
        MetricView {
            name: "feedhandler_book_last_update_ns"@,
            kind: "gauge"@,
            help: "ts_recv_ns of the last tick actually applied"@,
        },
        MetricView {
            name: "feedhandler_book_crossed"@,
            kind: "gauge"@,
            help: "1 if best bid trades through best ask, else 0"@,
        },
        MetricView {
            name: "feedhandler_ring_dropped_total"@,
            kind: "counter"@,
            help: "Ticks lost because the ring was full on publish"@,
        },
        MetricView {
            name: "feedhandler_ring_pending"@,
            kind: "gauge"@,
            help: "Approximate ticks currently queued in the ring"@,
        },
    ]
}

/// The two header lines of a metric.
pub open spec fn declaration(metric: MetricView) -> Seq<char> {
    "# HELP "@ + metric.name + " "@ + metric.help + ".\n"@ + "# TYPE "@ + metric.name + " "@
        + metric.kind + "\n"@
}

/// The header lines of these metrics, one after the other.
pub open spec fn declarations(metrics: Seq<MetricView>) -> Seq<char>
    decreases metrics.len(),
{
    if metrics.len() == 0 {
        Seq::empty()
    } else {
        declarations(metrics.drop_last()) + declaration(metrics.last())
    }
}

/// One sample line: a name, its labels in braces, and a value.
pub open spec fn sample_line(name: Seq<char>, labels: Seq<char>, value: u64) -> Seq<char> {
    name + "{"@ + labels + "} "@ + decimal(value as nat) + "\n"@
}

/// The labels of a book's samples.
pub open spec fn book_labels(symbol: Symbol, exchange: Exchange) -> Seq<char> {
    "symbol=\""@ + label_text(symbol@) + "\",exchange=\""@ + exchange.name() + "\""@
}

/// The labels of a ring's samples.
pub open spec fn ring_labels(ring_name: Seq<char>) -> Seq<char> {
    "ring=\""@ + ring_name + "\""@
}

/// The samples of a book, one line each.
pub open spec fn book_samples(book: OrderBook) -> Seq<char> {
    let labels = book_labels(book.symbol, book.exchange);
    let crossed: u64 = if book.crosses() {
        1
    } else {
        0
    };
    sample_line("feedhandler_symbol_mismatches_total"@, labels, book.symbol_mismatches)
        + sample_line("feedhandler_sequence_gaps_total"@, labels, book.sequence_gaps)
        + sample_line("feedhandler_sequence_reorders_total"@, labels, book.sequence_reorders)
        + sample_line("feedhandler_checksum_failures_total"@, labels, book.checksum_failures)
        + sample_line("feedhandler_book_last_update_ns"@, labels, book.last_update_ns)
        + sample_line("feedhandler_book_crossed"@, labels, crossed)
}

/// The samples of a ring, one line each.
pub open spec fn ring_samples(dropped: u64, pending: u64, ring_name: Seq<char>) -> Seq<char> {
    sample_line("feedhandler_ring_dropped_total"@, ring_labels(ring_name), dropped) + sample_line(
        "feedhandler_ring_pending"@,
        ring_labels(ring_name),
        pending,
    )
}

/// Declares every metric. Call this once, however many books and rings there
/// are.
pub fn write_metrics_header(out: &mut String)
    ensures
        final(out)@ == old(out)@ + declarations(declared_metrics()),
{
    let metrics: [(&str, &str, &str); 8] = [
        (
            "feedhandler_symbol_mismatches_total",
            "counter",
            "Ticks discarded for carrying the wrong Symbol",
        ),
        (
            "feedhandler_sequence_gaps_total",
            "counter",
            "Sequence numbers that jumped by more than one",
        ),
        (
            "feedhandler_sequence_reorders_total",
            "counter",
            "Sequence numbers that went backward or repeated",
        ),
        ("feedhandler_checksum_failures_total", "counter", "Adapter-reported checksum mismatches"),
        (
            "feedhandler_book_last_update_ns",
            "gauge",
            "ts_recv_ns of the last tick actually applied",
        ),
        ("feedhandler_book_crossed", "gauge", "1 if best bid trades through best ask, else 0"),
        (
            "feedhandler_ring_dropped_total",
            "counter",
            "Ticks lost because the ring was full on publish",
        ),
        ("feedhandler_ring_pending", "gauge", "Approximate ticks currently queued in the ring"),
    ];
    let ghost all = declared_metrics();
    let mut i: usize = 0;
    assert(all.take(0) =~= Seq::empty());
    assert(out@ =~= old(out)@ + declarations(all.take(0)));
    while i < 8
        invariant
            i <= 8,
            all == declared_metrics(),
            forall|k: int|
                0 <= k < 8 ==> {
                    &&& (#[trigger] metrics@[k]).0@ == all[k].name
                    &&& metrics@[k].1@ == all[k].kind
                    &&& metrics@[k].2@ == all[k].help
                },
            out@ == old(out)@ + declarations(all.take(i as int)),
        decreases 8 - i,
    {
        let (name, kind, help) = metrics[i];
        write_declaration(out, name, kind, help);
        proof {
            assert(metrics@[i as int].0@ == name@);
            assert(all.take(i + 1).drop_last() =~= all.take(i as int));
            assert(out@ =~= old(out)@ + declarations(all.take(i + 1)));
        }
        i += 1;
    }
    assert(all.take(8) =~= all);
}

fn write_declaration(out: &mut String, name: &str, kind: &str, help: &str)
    ensures
        final(out)@ == old(out)@ + declaration(
            MetricView { name: name@, kind: kind@, help: help@ },
        ),
{
    out.append("# HELP ");
    out.append(name);
    out.append(" ");
    out.append(help);
    out.append(".\n");
    out.append("# TYPE ");
    out.append(name);
    out.append(" ");
    out.append(kind);
    out.append("\n");
    assert(out@ =~= old(out)@ + declaration(MetricView { name: name@, kind: kind@, help: help@ }));
}

fn write_sample(out: &mut String, name: &str, labels: &str, value: u64)
    ensures
        final(out)@ == old(out)@ + sample_line(name@, labels@, value),
{
    out.append(name);
    out.append("{");
    out.append(labels);
    out.append("} ");
    push_decimal(out, value);
    out.append("\n");
    assert(out@ =~= old(out)@ + sample_line(name@, labels@, value));
}

impl OrderBook {
    /// Appends this book's health counters, without the header.
    pub fn write_metrics(&self, out: &mut String)
        ensures
            final(out)@ == old(out)@ + book_samples(*self),
    {
        let mut labels: String = String::new();
        labels.append("symbol=\"");
        labels.append(self.symbol.as_str());
        labels.append("\",exchange=\"");
        labels.append(self.exchange.as_str());
        labels.append("\"");
        assert(labels@ =~= book_labels(self.symbol, self.exchange));
        let labels: &str = labels.as_str();
        let crossed: u64 = if self.is_crossed() {
            1
        } else {
            0
        };
        write_sample(out, "feedhandler_symbol_mismatches_total", labels, self.symbol_mismatches);
        write_sample(out, "feedhandler_sequence_gaps_total", labels, self.sequence_gaps);
        write_sample(out, "feedhandler_sequence_reorders_total", labels, self.sequence_reorders);
        write_sample(out, "feedhandler_checksum_failures_total", labels, self.checksum_failures);
        write_sample(out, "feedhandler_book_last_update_ns", labels, self.last_update_ns);
        write_sample(out, "feedhandler_book_crossed", labels, crossed);
        assert(out@ =~= old(out)@ + book_samples(*self));
    }
}

/// Appends the counters of a ring, without the header, under the given label.
pub fn write_ring_metrics(out: &mut String, dropped: u64, pending: u64, ring_name: &str)
    ensures
        final(out)@ == old(out)@ + ring_samples(dropped, pending, ring_name@),
{
    let mut labels: String = String::new();
    labels.append("ring=\"");
    labels.append(ring_name);
    labels.append("\"");
    assert(labels@ =~= ring_labels(ring_name@));
    let labels: &str = labels.as_str();
    write_sample(out, "feedhandler_ring_dropped_total", labels, dropped);
    write_sample(out, "feedhandler_ring_pending", labels, pending);
    assert(out@ =~= old(out)@ + ring_samples(dropped, pending, ring_name@));
}

impl SpscDisruptor {
    /// Appends this ring's counters, without the header, under the given
    /// label.
    pub fn write_metrics(&self, out: &mut String, ring_name: &str)
        ensures
            final(out)@ == old(out)@ + ring_samples(
                self.dropped(),
                self@.len() as u64,
                ring_name@,
            ),
    {
        write_ring_metrics(out, self.dropped_count(), self.pending(), ring_name);
    }
}

/// The header declares no metric twice.
pub proof fn law_metrics_are_declared_once(i: int, j: int)
    requires
        0 <= i < j < declared_metrics().len(),
    ensures
        declared_metrics()[i].name != declared_metrics()[j].name,
{
    reveal_strlit("feedhandler_symbol_mismatches_total");
    reveal_strlit("feedhandler_sequence_gaps_total");
    reveal_strlit("feedhandler_sequence_reorders_total");
    reveal_strlit("feedhandler_checksum_failures_total");
    reveal_strlit("feedhandler_book_last_update_ns");
    reveal_strlit("feedhandler_book_crossed");
    reveal_strlit("feedhandler_ring_dropped_total");
    reveal_strlit("feedhandler_ring_pending");
    let a = declared_metrics()[i].name;
    let b = declared_metrics()[j].name;
    assert(a.len() != b.len() || a[13] != b[13] || a[21] != b[21]);
}

/// Every sample is of a metric that the header declares: a book's of the
/// first six, a ring's of the last two.
pub proof fn law_samples_are_of_declared_metrics(
    book: OrderBook,
    dropped: u64,
    pending: u64,
    ring_name: Seq<char>,
)
    ensures
        ({
            let metrics = declared_metrics();
            let labels = book_labels(book.symbol, book.exchange);
            book_samples(book) == sample_line(metrics[0].name, labels, book.symbol_mismatches)
                + sample_line(metrics[1].name, labels, book.sequence_gaps) + sample_line(
                metrics[2].name,
                labels,
                book.sequence_reorders,
            ) + sample_line(metrics[3].name, labels, book.checksum_failures) + sample_line(
                metrics[4].name,
                labels,
                book.last_update_ns,
            ) + sample_line(
                metrics[5].name,
                labels,
                if book.crosses() {
                    1
                } else {
                    0
                },
            )
        }),
        ({
            let metrics = declared_metrics();
            let labels = ring_labels(ring_name);
            ring_samples(dropped, pending, ring_name) == sample_line(
                metrics[6].name,
                labels,
                dropped,
            ) + sample_line(metrics[7].name, labels, pending)
        }),
{
}

/// The header in full: for each metric its help and its kind.
pub proof fn law_header_in_full()
    ensures
        declarations(declared_metrics()) == ("# HELP "@ + "feedhandler_symbol_mismatches_total"@
            + " "@ + "Ticks discarded for carrying the wrong Symbol"@ + ".\n"@
            + "# TYPE "@ + "feedhandler_symbol_mismatches_total"@ + " "@ + "counter"@ + "\n"@)
            + ("# HELP "@ + "feedhandler_sequence_gaps_total"@
            + " "@ + "Sequence numbers that jumped by more than one"@ + ".\n"@
            + "# TYPE "@ + "feedhandler_sequence_gaps_total"@ + " "@ + "counter"@ + "\n"@)
            + ("# HELP "@ + "feedhandler_sequence_reorders_total"@
            + " "@ + "Sequence numbers that went backward or repeated"@ + ".\n"@
            + "# TYPE "@ + "feedhandler_sequence_reorders_total"@ + " "@ + "counter"@ + "\n"@)
            + ("# HELP "@ + "feedhandler_checksum_failures_total"@
            + " "@ + "Adapter-reported checksum mismatches"@ + ".\n"@
            + "# TYPE "@ + "feedhandler_checksum_failures_total"@ + " "@ + "counter"@ + "\n"@)
            + ("# HELP "@ + "feedhandler_book_last_update_ns"@
            + " "@ + "ts_recv_ns of the last tick actually applied"@ + ".\n"@
            + "# TYPE "@ + "feedhandler_book_last_update_ns"@ + " "@ + "gauge"@ + "\n"@)
            + ("# HELP "@ + "feedhandler_book_crossed"@
            + " "@ + "1 if best bid trades through best ask, else 0"@ + ".\n"@
            + "# TYPE "@ + "feedhandler_book_crossed"@ + " "@ + "gauge"@ + "\n"@)
            + ("# HELP "@ + "feedhandler_ring_dropped_total"@
            + " "@ + "Ticks lost because the ring was full on publish"@ + ".\n"@
            + "# TYPE "@ + "feedhandler_ring_dropped_total"@ + " "@ + "counter"@ + "\n"@)
            + ("# HELP "@ + "feedhandler_ring_pending"@
            + " "@ + "Approximate ticks currently queued in the ring"@ + ".\n"@
            + "# TYPE "@ + "feedhandler_ring_pending"@ + " "@ + "gauge"@ + "\n"@),
{
    let all = declared_metrics();
    assert(all.take(8) =~= all);
    assert(all.take(0) =~= Seq::empty());
    assert(declarations(all.take(0)) == Seq::<char>::empty());
    lemma_one_more_declaration(all, 0);
    assert(declarations(all.take(1)) =~= declaration(all[0]));
    lemma_one_more_declaration(all, 1);
    lemma_one_more_declaration(all, 2);
    lemma_one_more_declaration(all, 3);
    lemma_one_more_declaration(all, 4);
    lemma_one_more_declaration(all, 5);
    lemma_one_more_declaration(all, 6);
    lemma_one_more_declaration(all, 7);
}

proof fn lemma_one_more_declaration(metrics: Seq<MetricView>, i: int)
    requires
        0 <= i < metrics.len(),
    ensures
        declarations(metrics.take(i + 1)) == declarations(metrics.take(i)) + declaration(
            metrics[i],
        ),
{
    assert(metrics.take(i + 1).drop_last() =~= metrics.take(i));
}

/// A book's samples in full: each of its counters, its last update and whether
/// its best bid is above its best ask, on a line of its own under the book's
/// symbol and exchange.
pub proof fn law_book_samples_in_full(book: OrderBook)
    ensures
        ({
            let labels = "{"@ + ("symbol=\""@ + label_text(book.symbol@) + "\",exchange=\""@ + (
            match book.exchange {
                Exchange::Binance => "binance"@,
                Exchange::Bybit => "bybit"@,
                Exchange::Hyperliquid => "hyperliquid"@,
            }) + "\""@) + "} "@;
            let crossed: nat = if book.bids.count > 0 && book.asks.count > 0
                && book.bids.levels@[0].price.0 > book.asks.levels@[0].price.0 {
                1
            } else {
                0
            };
            book_samples(book) =~= ("feedhandler_symbol_mismatches_total"@ + labels + decimal(
                book.symbol_mismatches as nat,
            ) + "\n"@) + ("feedhandler_sequence_gaps_total"@ + labels + decimal(
                book.sequence_gaps as nat,
            ) + "\n"@) + ("feedhandler_sequence_reorders_total"@ + labels + decimal(
                book.sequence_reorders as nat,
            ) + "\n"@) + ("feedhandler_checksum_failures_total"@ + labels + decimal(
                book.checksum_failures as nat,
            ) + "\n"@) + ("feedhandler_book_last_update_ns"@ + labels + decimal(
                book.last_update_ns as nat,
            ) + "\n"@) + ("feedhandler_book_crossed"@ + labels + decimal(crossed) + "\n"@)
        }),
{
    let labels = book_labels(book.symbol, book.exchange);
    let crossed: u64 = if book.crosses() {
        1
    } else {
        0
    };
    lemma_sample_line("feedhandler_symbol_mismatches_total"@, labels, book.symbol_mismatches);
    lemma_sample_line("feedhandler_sequence_gaps_total"@, labels, book.sequence_gaps);
    lemma_sample_line("feedhandler_sequence_reorders_total"@, labels, book.sequence_reorders);
    lemma_sample_line("feedhandler_checksum_failures_total"@, labels, book.checksum_failures);
    lemma_sample_line("feedhandler_book_last_update_ns"@, labels, book.last_update_ns);
    lemma_sample_line("feedhandler_book_crossed"@, labels, crossed);
}

proof fn lemma_sample_line(name: Seq<char>, labels: Seq<char>, value: u64)
    ensures
        sample_line(name, labels, value) == name + ("{"@ + labels + "} "@) + decimal(value as nat)
            + "\n"@,
{
    assert(sample_line(name, labels, value) =~= name + ("{"@ + labels + "} "@) + decimal(
        value as nat,
    ) + "\n"@);
}

/// A ring's samples in full: how many ticks it lost and how many wait in it, on
/// a line each under the ring's name.
pub proof fn law_ring_samples_in_full(dropped: u64, pending: u64, ring_name: Seq<char>)
    ensures
        ({
            let labels = "{"@ + ("ring=\""@ + ring_name + "\""@) + "} "@;
            ring_samples(dropped, pending, ring_name) == ("feedhandler_ring_dropped_total"@ + labels
                + decimal(dropped as nat) + "\n"@) + ("feedhandler_ring_pending"@ + labels + decimal(
                pending as nat,
            ) + "\n"@)
        }),
{
    lemma_sample_line("feedhandler_ring_dropped_total"@, ring_labels(ring_name), dropped);
    lemma_sample_line("feedhandler_ring_pending"@, ring_labels(ring_name), pending);
}

} // verus!
