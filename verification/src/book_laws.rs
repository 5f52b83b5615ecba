//! What holds of the book as a whole, over any run of ticks.

use crate::book_side::{
    delta_levels, delta_result, holds_price, law_delta_keeps_order, law_delta_leaves_other_prices,
    law_delta_leaves_what_it_says, law_delta_reports_what_it_met, law_delta_sets_quantity,
    law_no_duplicate_prices, law_no_level_is_empty, law_side_is_in_price_order,
    law_sorted_means_price_order, no_empty_levels, sorted, BookSide, MAX_LEVELS,
};
use crate::order_book::{changes_book, is_descending, one_more, top_levels, BookView, OrderBook};
use crate::types::{DeltaResult, Exchange, Level, NormalizedTick, Price, Qty, Side, Symbol};
use vstd::prelude::*;

verus! {

/// Every tick leaves both sides in order, without duplicate prices, and
/// within their bound.
pub proof fn law_tick_keeps_book_in_order(book: BookView, tick: NormalizedTick)
    requires
        book.wf(),
    ensures
        book.apply(tick).wf(),
{
    let ready = book.prepared(tick);
    law_delta_keeps_order(
        ready.levels(tick.side),
        tick.price,
        tick.qty,
        is_descending(tick.side),
    );
}

/// So does every run of ticks.
pub proof fn law_run_keeps_book_in_order(book: BookView, ticks: Seq<NormalizedTick>)
    requires
        book.wf(),
    ensures
        book.apply_all(ticks).wf(),
    decreases ticks.len(),
{
    if ticks.len() > 0 {
        law_run_keeps_book_in_order(book, ticks.drop_last());
        law_tick_keeps_book_in_order(book.apply_all(ticks.drop_last()), ticks.last());
    }
}

/// No run of ticks leaves an empty level in the book.
pub proof fn law_run_leaves_no_empty_level(book: BookView, ticks: Seq<NormalizedTick>)
    requires
        book.wf(),
        no_empty_levels(book.bids),
        no_empty_levels(book.asks),
    ensures
        no_empty_levels(book.apply_all(ticks).bids),
        no_empty_levels(book.apply_all(ticks).asks),
    decreases ticks.len(),
{
    if ticks.len() > 0 {
        law_run_leaves_no_empty_level(book, ticks.drop_last());
        law_run_keeps_book_in_order(book, ticks.drop_last());
        let before = book.apply_all(ticks.drop_last());
        let tick = ticks.last();
        law_no_level_is_empty(
            before.prepared(tick).levels(tick.side),
            tick.price,
            tick.qty,
            is_descending(tick.side),
        );
    }
}

/// Applying one run after another is applying them joined.
pub proof fn law_runs_join(book: BookView, first: Seq<NormalizedTick>, second: Seq<NormalizedTick>)
    ensures
        book.apply_all(first + second) == book.apply_all(first).apply_all(second),
    decreases second.len(),
{
    if second.len() == 0 {
        assert(first + second =~= first);
    } else {
        law_runs_join(book, first, second.drop_last());
        assert((first + second).drop_last() =~= first + second.drop_last());
        assert((first + second).last() == second.last());
    }
}

/// A tick for another symbol is counted and touches nothing else.
pub proof fn law_wrong_symbol_is_only_counted(book: BookView, tick: NormalizedTick)
    requires
        tick.symbol != book.symbol,
    ensures
        book.outcome(tick) == DeltaResult::Discarded,
        book.apply(tick) == (BookView {
            symbol_mismatches: one_more(book.symbol_mismatches),
            ..book
        }),
{
}

/// A tick of the book's own symbol never counts as a mismatch, and a book
/// never changes its symbol or exchange.
pub proof fn law_identity_is_kept(book: BookView, tick: NormalizedTick)
    ensures
        book.apply(tick).symbol == book.symbol,
        book.apply(tick).exchange == book.exchange,
        book.apply(tick).checksum_failures == book.checksum_failures,
        tick.symbol == book.symbol ==> book.apply(tick).symbol_mismatches
            == book.symbol_mismatches,
{
}

/// A tick for one side leaves the other side alone.
pub proof fn law_tick_touches_one_side(book: BookView, tick: NormalizedTick, other: Side)
    requires
        other != tick.side,
    ensures
        book.apply(tick).levels(other) == book.levels(other),
        book.apply(tick).snapshot_id(other) == book.snapshot_id(other),
{
}

/// Two books agree in all that ticks act upon, whatever their counters,
/// sequence numbers and update times.
pub open spec fn same_market(a: BookView, b: BookView) -> bool {
    &&& a.bids == b.bids
    &&& a.asks == b.asks
    &&& a.bids_snapshot_id == b.bids_snapshot_id
    &&& a.asks_snapshot_id == b.asks_snapshot_id
    &&& a.symbol == b.symbol
}

/// Two ticks carry the same update, whatever their sequence numbers, times
/// and exchange.
pub open spec fn same_update(s: NormalizedTick, t: NormalizedTick) -> bool {
    &&& s.price == t.price
    &&& s.qty == t.qty
    &&& s.symbol == t.symbol
    &&& s.side == t.side
    &&& s.is_snapshot == t.is_snapshot
    &&& s.snapshot_id == t.snapshot_id
}

/// Counted, not rejected: neither the counters nor the sequence numbers have
/// a say in what a tick does to the levels or what it reports.
pub proof fn law_counters_gate_nothing(
    a: BookView,
    b: BookView,
    s: NormalizedTick,
    t: NormalizedTick,
)
    requires
        same_market(a, b),
        same_update(s, t),
    ensures
        a.outcome(s) == b.outcome(t),
        same_market(a.apply(s), b.apply(t)),
{
}

/// The same over whole runs: a stream with gaps, repeats and replays builds
/// the same levels as one with perfect numbering.
pub proof fn law_numbering_does_not_matter(
    a: BookView,
    b: BookView,
    ss: Seq<NormalizedTick>,
    ts: Seq<NormalizedTick>,
)
    requires
        same_market(a, b),
        ss.len() == ts.len(),
        forall|i: int| 0 <= i < ss.len() ==> same_update(#[trigger] ss[i], ts[i]),
    ensures
        same_market(a.apply_all(ss), b.apply_all(ts)),
    decreases ss.len(),
{
    if ss.len() > 0 {
        assert forall|i: int| 0 <= i < ss.drop_last().len() implies same_update(
            #[trigger] ss.drop_last()[i],
            ts.drop_last()[i],
        ) by {
            assert(same_update(ss[i], ts[i]));
        }
        law_numbering_does_not_matter(a, b, ss.drop_last(), ts.drop_last());
        assert(same_update(ss[ss.len() - 1], ts[ss.len() - 1]));
        law_counters_gate_nothing(
            a.apply_all(ss.drop_last()),
            b.apply_all(ts.drop_last()),
            ss.last(),
            ts.last(),
        );
    }
}

/// A tick of the book's symbol, whatever it does to the levels, counts as a
/// gap exactly when its number jumps by more than one, as a reorder exactly
/// when it repeats or goes back, never as both, and the first one ever as
/// neither.
pub proof fn law_sequence_anomalies(book: BookView, tick: NormalizedTick)
    requires
        tick.symbol == book.symbol,
    ensures
        ({
            let after = book.apply(tick);
            &&& after.sequence == tick.sequence
            &&& after.sequence_initialized
            &&& after.sequence_gaps == (if book.sequence_initialized && tick.sequence
                > book.sequence + 1 {
                one_more(book.sequence_gaps)
            } else {
                book.sequence_gaps
            })
            &&& after.sequence_reorders == (if book.sequence_initialized && tick.sequence
                <= book.sequence {
                one_more(book.sequence_reorders)
            } else {
                book.sequence_reorders
            })
            &&& !book.sequence_initialized ==> after.sequence_gaps == book.sequence_gaps
                && after.sequence_reorders == book.sequence_reorders
            &&& after.sequence_gaps == book.sequence_gaps || after.sequence_reorders
                == book.sequence_reorders
        }),
{
}

/// A tick that changes no level does not count as an update: the time of the
/// last one stays.
pub proof fn law_idle_tick_is_no_update(book: BookView, tick: NormalizedTick)
    requires
        !changes_book(book.outcome(tick)),
    ensures
        book.apply(tick).last_update_ns == book.last_update_ns,
{
}

/// A run numbered without holes, starting anywhere in a fresh book or right
/// behind the last number of a used one, counts neither gap nor reorder,
/// whatever its ticks do to the levels.
pub proof fn law_contiguous_run_counts_nothing(book: BookView, ticks: Seq<NormalizedTick>)
    requires
        forall|i: int| 0 <= i < ticks.len() ==> (#[trigger] ticks[i]).symbol == book.symbol,
        forall|i: int|
            0 <= i < ticks.len() ==> (#[trigger] ticks[i]).sequence == ticks[0].sequence + i,
        book.sequence_initialized && ticks.len() > 0 ==> ticks[0].sequence == book.sequence + 1,
    ensures
        book.apply_all(ticks).sequence_gaps == book.sequence_gaps,
        book.apply_all(ticks).sequence_reorders == book.sequence_reorders,
        ticks.len() > 0 ==> book.apply_all(ticks).sequence_initialized && book.apply_all(
            ticks,
        ).sequence == ticks.last().sequence,
        book.apply_all(ticks).symbol == book.symbol,
    decreases ticks.len(),
{
    if ticks.len() > 0 {
        let front = ticks.drop_last();
        let n = ticks.len() - 1;
        assert forall|i: int| 0 <= i < front.len() implies (#[trigger] front[i]).symbol
            == book.symbol && front[i].sequence == front[0].sequence + i by {
            assert(ticks[i] == front[i]);
        }
        law_contiguous_run_counts_nothing(book, front);
        assert(ticks[n].symbol == book.symbol);
        law_sequence_anomalies(book.apply_all(front), ticks.last());
    }
}

/// The levels of one side after a run of deltas.
pub open spec fn delta_all(
    levels: Seq<Level>,
    ticks: Seq<NormalizedTick>,
    descending: bool,
) -> Seq<Level>
    decreases ticks.len(),
{
    if ticks.len() == 0 {
        levels
    } else {
        delta_levels(
            delta_all(levels, ticks.drop_last(), descending),
            ticks.last().price,
            ticks.last().qty,
            descending,
        )
    }
}

/// The tick belongs to this snapshot of this side of the symbol's book.
pub open spec fn in_snapshot(tick: NormalizedTick, symbol: Symbol, side: Side, id: u32) -> bool {
    &&& tick.symbol == symbol
    &&& tick.side == side
    &&& tick.is_snapshot
    &&& tick.snapshot_id == id
}

/// The tick does not concern this side of the symbol's book.
pub open spec fn elsewhere(tick: NormalizedTick, symbol: Symbol, side: Side) -> bool {
    tick.symbol != symbol || tick.side != side
}

/// All ticks belong to one snapshot of one side of this symbol's book.
pub open spec fn snapshot_batch(
    ticks: Seq<NormalizedTick>,
    symbol: Symbol,
    side: Side,
    id: u32,
) -> bool {
    forall|i: int| 0 <= i < ticks.len() ==> in_snapshot(#[trigger] ticks[i], symbol, side, id)
}

/// How many of the ticks belong to the snapshot.
pub open spec fn snapshot_size(
    ticks: Seq<NormalizedTick>,
    symbol: Symbol,
    side: Side,
    id: u32,
) -> nat
    decreases ticks.len(),
{
    if ticks.len() == 0 {
        0
    } else {
        snapshot_size(ticks.drop_last(), symbol, side, id) + if in_snapshot(
            ticks.last(),
            symbol,
            side,
            id,
        ) {
            1nat
        } else {
            0nat
        }
    }
}

/// A snapshot the book has not seen replaces the side: the levels are built
/// from the batch alone, cleared once and not again, whatever was there
/// before. The other side is left alone.
pub proof fn law_snapshot_replaces_side(
    book: BookView,
    ticks: Seq<NormalizedTick>,
    side: Side,
    id: u32,
)
    requires
        snapshot_batch(ticks, book.symbol, side, id),
        ticks.len() > 0,
        id != book.snapshot_id(side),
    ensures
        book.apply_all(ticks).levels(side) == delta_all(Seq::empty(), ticks, is_descending(side)),
        book.apply_all(ticks).snapshot_id(side) == id,
        book.apply_all(ticks).symbol == book.symbol,
        forall|other: Side|
            other != side ==> #[trigger] book.apply_all(ticks).levels(other) == book.levels(other),
    decreases ticks.len(),
{
    let front = ticks.drop_last();
    let tick = ticks.last();
    assert(tick == ticks[ticks.len() - 1]);
    if front.len() > 0 {
        assert forall|i: int| 0 <= i < front.len() implies in_snapshot(
            #[trigger] front[i],
            book.symbol,
            side,
            id,
        ) by {
            assert(front[i] == ticks[i]);
        }
        law_snapshot_replaces_side(book, front, side, id);
    } else {
        assert(book.apply_all(front) == book);
        assert(delta_all(Seq::empty(), front, is_descending(side)) == Seq::<Level>::empty());
    }
    let before = book.apply_all(front);
    assert(before.prepared(tick).levels(side) == delta_all(
        Seq::empty(),
        front,
        is_descending(side),
    ));
    assert forall|other: Side| other != side implies #[trigger] book.apply_all(ticks).levels(other)
        == book.levels(other) by {
        law_tick_touches_one_side(before, tick, other);
        assert(before.levels(other) == book.levels(other));
    }
}

/// A tick of the snapshot already under way clears nothing: it acts as a
/// plain delta.
pub proof fn law_known_snapshot_does_not_clear(book: BookView, tick: NormalizedTick)
    requires
        tick.is_snapshot,
        tick.snapshot_id == book.snapshot_id(tick.side),
    ensures
        book.prepared(tick) == book,
        book.apply(tick) == book.apply(NormalizedTick { is_snapshot: false, ..tick }),
{
}

/// What beginning a snapshot does: a side with another id is cleared and takes
/// the id, a side that has it stays as it is, and nothing else changes either
/// way.
pub proof fn law_begin_snapshot_clears_one_side(book: BookView, side: Side, id: u32)
    ensures
        ({
            let begun = book.begin_snapshot(side, id);
            &&& id != book.snapshot_id(side) ==> begun.levels(side) == Seq::<Level>::empty()
            &&& begun.snapshot_id(side) == id
            &&& id == book.snapshot_id(side) ==> begun == book
            &&& begun == book.with_levels(side, begun.levels(side)).with_snapshot_id(side, id)
        }),
{
    assert(book.begin_snapshot(side, id) =~= book.with_levels(
        side,
        book.begin_snapshot(side, id).levels(side),
    ).with_snapshot_id(side, id));
}

/// A snapshot clears its side once: beginning it a second time removes no
/// level and changes nothing, whatever levels were put there in between, and
/// whatever ticks came, as long as none of them began another snapshot of
/// this side.
pub proof fn law_snapshot_clears_once(
    book: BookView,
    side: Side,
    id: u32,
    levels: Seq<Level>,
    ticks: Seq<NormalizedTick>,
)
    requires
        forall|i: int|
            0 <= i < ticks.len() ==> {
                ||| !(#[trigger] ticks[i]).is_snapshot
                ||| ticks[i].snapshot_id == id
                ||| elsewhere(ticks[i], book.symbol, side)
            },
    ensures
        ({
            let filled = book.begin_snapshot(side, id).with_levels(side, levels);
            filled.begin_snapshot(side, id) == filled
        }),
        ({
            let later = book.begin_snapshot(side, id).apply_all(ticks);
            later.begin_snapshot(side, id) == later
        }),
{
    lemma_snapshot_goes_on(book.begin_snapshot(side, id), side, id, ticks);
}

proof fn lemma_snapshot_goes_on(
    book: BookView,
    side: Side,
    id: u32,
    ticks: Seq<NormalizedTick>,
)
    requires
        book.snapshot_id(side) == id,
        forall|i: int|
            0 <= i < ticks.len() ==> {
                ||| !(#[trigger] ticks[i]).is_snapshot
                ||| ticks[i].snapshot_id == id
                ||| elsewhere(ticks[i], book.symbol, side)
            },
    ensures
        book.apply_all(ticks).snapshot_id(side) == id,
        book.apply_all(ticks).symbol == book.symbol,
    decreases ticks.len(),
{
    if ticks.len() > 0 {
        let front = ticks.drop_last();
        assert forall|i: int| 0 <= i < front.len() implies {
            ||| !(#[trigger] front[i]).is_snapshot
            ||| front[i].snapshot_id == id
            ||| elsewhere(front[i], book.symbol, side)
        } by {
            assert(front[i] == ticks[i]);
        }
        lemma_snapshot_goes_on(book, side, id, front);
        assert(ticks.last() == ticks[ticks.len() - 1]);
    }
}

/// A stream that holds a snapshot of distinct prices, none of them empty,
/// and besides it only ticks for the other side or for other symbols.
pub open spec fn carries_snapshot(
    ticks: Seq<NormalizedTick>,
    symbol: Symbol,
    side: Side,
    id: u32,
) -> bool {
    &&& forall|i: int|
        0 <= i < ticks.len() ==> in_snapshot(#[trigger] ticks[i], symbol, side, id) || elsewhere(
            ticks[i],
            symbol,
            side,
        )
    &&& forall|i: int|
        0 <= i < ticks.len() && in_snapshot(#[trigger] ticks[i], symbol, side, id)
            ==> ticks[i].qty.0 != 0
    &&& forall|i: int, j: int|
        0 <= i < j < ticks.len() && in_snapshot(#[trigger] ticks[i], symbol, side, id)
            && in_snapshot(#[trigger] ticks[j], symbol, side, id) ==> ticks[i].price
            != ticks[j].price
}

/// A snapshot of distinct prices that fits its side lands whole, also when
/// ticks for the other side or for other symbols come in between: each of its
/// ticks reports an insertion, and in the end each of its levels is there, and
/// nothing else, and the side has the snapshot's id.
pub proof fn law_snapshot_batch_lands_whole(
    book: BookView,
    ticks: Seq<NormalizedTick>,
    side: Side,
    id: u32,
)
    requires
        carries_snapshot(ticks, book.symbol, side, id),
        0 < snapshot_size(ticks, book.symbol, side, id) <= MAX_LEVELS,
        id != book.snapshot_id(side),
    ensures
        forall|i: int|
            0 <= i < ticks.len() && in_snapshot(#[trigger] ticks[i], book.symbol, side, id)
                ==> book.apply_all(ticks.take(i)).outcome(ticks[i]) == DeltaResult::Inserted,
        book.apply_all(ticks).levels(side).len() == snapshot_size(ticks, book.symbol, side, id),
        forall|i: int|
            0 <= i < ticks.len() && in_snapshot(#[trigger] ticks[i], book.symbol, side, id)
                ==> book.apply_all(ticks).levels(side).contains(
                Level { price: ticks[i].price, qty: ticks[i].qty },
            ),
        forall|k: int|
            0 <= k < book.apply_all(ticks).levels(side).len() ==> {
                let level = #[trigger] book.apply_all(ticks).levels(side)[k];
                exists|i: int|
                    0 <= i < ticks.len() && in_snapshot(#[trigger] ticks[i], book.symbol, side, id)
                        && level == (Level { price: ticks[i].price, qty: ticks[i].qty })
            },
        book.apply_all(ticks).snapshot_id(side) == id,
{
    lemma_snapshot_lands(book, ticks, side, id);
    assert forall|i: int|
        0 <= i < ticks.len() && in_snapshot(
            #[trigger] ticks[i],
            book.symbol,
            side,
            id,
        ) implies book.apply_all(ticks.take(i)).outcome(ticks[i]) == DeltaResult::Inserted by {
        let upto = ticks.take(i + 1);
        lemma_part_carries_snapshot(ticks, book.symbol, side, id, i + 1);
        assert(upto.drop_last() =~= ticks.take(i));
        lemma_snapshot_tick_lands(book, upto, side, id);
    }
    let levels = book.apply_all(ticks).levels(side);
    assert forall|k: int| 0 <= k < levels.len() implies {
        let level = #[trigger] levels[k];
        exists|i: int|
            0 <= i < ticks.len() && in_snapshot(#[trigger] ticks[i], book.symbol, side, id)
                && level == (Level { price: ticks[i].price, qty: ticks[i].qty })
    } by {
        let price = levels[k].price;
        assert(holds_price(levels, price));
        let i = choose|i: int|
            0 <= i < ticks.len() && in_snapshot(#[trigger] ticks[i], book.symbol, side, id)
                && ticks[i].price == price;
        let placed = Level { price, qty: ticks[i].qty };
        assert(levels.contains(placed));
        let m = choose|m: int| 0 <= m < levels.len() && levels[m] == placed;
        if m != k {
            law_no_duplicate_prices(levels, is_descending(side), m, k);
        }
    }
}

/// These are the levels of the stream's snapshot and no others.
spec fn landed(
    levels: Seq<Level>,
    ticks: Seq<NormalizedTick>,
    symbol: Symbol,
    side: Side,
    id: u32,
) -> bool {
    &&& sorted(levels, is_descending(side))
    &&& levels.len() == snapshot_size(ticks, symbol, side, id)
    &&& forall|i: int|
        0 <= i < ticks.len() && in_snapshot(#[trigger] ticks[i], symbol, side, id)
            ==> levels.contains(Level { price: ticks[i].price, qty: ticks[i].qty })
    &&& forall|p: Price|
        holds_price(levels, p) ==> exists|i: int|
            0 <= i < ticks.len() && in_snapshot(#[trigger] ticks[i], symbol, side, id)
                && ticks[i].price == p
}

/// The start of the stream carries a snapshot too, and not a larger one.
proof fn lemma_part_carries_snapshot(
    ticks: Seq<NormalizedTick>,
    symbol: Symbol,
    side: Side,
    id: u32,
    n: int,
)
    requires
        carries_snapshot(ticks, symbol, side, id),
        0 <= n <= ticks.len(),
    ensures
        carries_snapshot(ticks.take(n), symbol, side, id),
        snapshot_size(ticks.take(n), symbol, side, id) <= snapshot_size(ticks, symbol, side, id),
    decreases ticks.len() - n,
{
    let part = ticks.take(n);
    assert(forall|i: int| 0 <= i < n ==> #[trigger] part[i] == ticks[i]);
    if n < ticks.len() {
        lemma_part_carries_snapshot(ticks, symbol, side, id, n + 1);
        assert(ticks.take(n + 1).drop_last() =~= part);
    } else {
        assert(part =~= ticks);
    }
}

/// A stream with a tick of the snapshot has a size to show for it.
proof fn lemma_snapshot_size(
    ticks: Seq<NormalizedTick>,
    symbol: Symbol,
    side: Side,
    id: u32,
    i: int,
)
    requires
        0 <= i < ticks.len(),
        in_snapshot(ticks[i], symbol, side, id),
    ensures
        snapshot_size(ticks, symbol, side, id) > 0,
    decreases ticks.len(),
{
    if i < ticks.len() - 1 {
        lemma_snapshot_size(ticks.drop_last(), symbol, side, id, i);
    }
}

/// One more tick of the snapshot adds its level.
proof fn lemma_level_lands(
    base: Seq<Level>,
    ticks: Seq<NormalizedTick>,
    symbol: Symbol,
    side: Side,
    id: u32,
)
    requires
        ticks.len() > 0,
        carries_snapshot(ticks, symbol, side, id),
        snapshot_size(ticks, symbol, side, id) <= MAX_LEVELS,
        in_snapshot(ticks.last(), symbol, side, id),
        landed(base, ticks.drop_last(), symbol, side, id),
    ensures
        delta_result(base, ticks.last().price, ticks.last().qty, is_descending(side))
            == DeltaResult::Inserted,
        landed(
            delta_levels(base, ticks.last().price, ticks.last().qty, is_descending(side)),
            ticks,
            symbol,
            side,
            id,
        ),
{
    let front = ticks.drop_last();
    let n = ticks.len() - 1;
    let tick = ticks[n];
    let descending = is_descending(side);
    let levels = delta_levels(base, tick.price, tick.qty, descending);
    assert(in_snapshot(ticks[n], symbol, side, id));
    if holds_price(base, tick.price) {
        let i = choose|i: int|
            0 <= i < front.len() && in_snapshot(#[trigger] front[i], symbol, side, id)
                && front[i].price == tick.price;
        assert(in_snapshot(ticks[i], symbol, side, id));
    }
    law_delta_keeps_order(base, tick.price, tick.qty, descending);
    law_delta_sets_quantity(base, tick.price, tick.qty, descending);
    crate::book_side::lemma_rank_splits(base, tick.price, descending);
    assert forall|i: int|
        0 <= i < ticks.len() && in_snapshot(
            #[trigger] ticks[i],
            symbol,
            side,
            id,
        ) implies levels.contains(Level { price: ticks[i].price, qty: ticks[i].qty }) by {
        if i < n {
            assert(in_snapshot(front[i], symbol, side, id));
            law_delta_leaves_other_prices(
                base,
                tick.price,
                tick.qty,
                descending,
                Level { price: ticks[i].price, qty: ticks[i].qty },
            );
        }
    }
    assert forall|p: Price| holds_price(levels, p) implies exists|i: int|
        0 <= i < ticks.len() && in_snapshot(#[trigger] ticks[i], symbol, side, id)
            && ticks[i].price == p by {
        let k = choose|k: int| 0 <= k < levels.len() && (#[trigger] levels[k]).price == p;
        if p != tick.price {
            assert(levels.contains(levels[k]));
            law_delta_leaves_other_prices(base, tick.price, tick.qty, descending, levels[k]);
            let m = choose|m: int| 0 <= m < base.len() && base[m] == levels[k];
            assert(base[m].price == p);
            assert(holds_price(base, p));
            let i = choose|i: int|
                0 <= i < front.len() && in_snapshot(#[trigger] front[i], symbol, side, id)
                    && front[i].price == p;
            assert(in_snapshot(ticks[i], symbol, side, id));
        }
    }
}

/// A tick from elsewhere adds nothing to what has to land.
proof fn lemma_other_tick_lands_nothing(
    levels: Seq<Level>,
    ticks: Seq<NormalizedTick>,
    symbol: Symbol,
    side: Side,
    id: u32,
)
    requires
        ticks.len() > 0,
        !in_snapshot(ticks.last(), symbol, side, id),
        landed(levels, ticks.drop_last(), symbol, side, id),
    ensures
        landed(levels, ticks, symbol, side, id),
{
    let front = ticks.drop_last();
    assert forall|i: int|
        0 <= i < ticks.len() && in_snapshot(
            #[trigger] ticks[i],
            symbol,
            side,
            id,
        ) implies levels.contains(Level { price: ticks[i].price, qty: ticks[i].qty }) by {
        assert(in_snapshot(front[i], symbol, side, id));
    }
    assert forall|p: Price| holds_price(levels, p) implies exists|i: int|
        0 <= i < ticks.len() && in_snapshot(#[trigger] ticks[i], symbol, side, id)
            && ticks[i].price == p by {
        let i = choose|i: int|
            0 <= i < front.len() && in_snapshot(#[trigger] front[i], symbol, side, id)
                && front[i].price == p;
        assert(in_snapshot(ticks[i], symbol, side, id));
    }
}

proof fn lemma_snapshot_lands(book: BookView, ticks: Seq<NormalizedTick>, side: Side, id: u32)
    requires
        carries_snapshot(ticks, book.symbol, side, id),
        snapshot_size(ticks, book.symbol, side, id) <= MAX_LEVELS,
        id != book.snapshot_id(side),
    ensures
        ({
            let after = book.apply_all(ticks);
            let size = snapshot_size(ticks, book.symbol, side, id);
            &&& after.symbol == book.symbol
            &&& size == 0 ==> after.snapshot_id(side) == book.snapshot_id(side)
            &&& size > 0 ==> after.snapshot_id(side) == id
            &&& size > 0 ==> landed(after.levels(side), ticks, book.symbol, side, id)
        }),
    decreases ticks.len(), 1int,
{
    if ticks.len() > 0 {
        let front = ticks.drop_last();
        let tick = ticks.last();
        assert(tick == ticks[ticks.len() - 1]);
        if in_snapshot(tick, book.symbol, side, id) {
            lemma_snapshot_tick_lands(book, ticks, side, id);
        } else {
            assert(front =~= ticks.take(ticks.len() - 1));
            lemma_part_carries_snapshot(ticks, book.symbol, side, id, ticks.len() - 1);
            lemma_snapshot_lands(book, front, side, id);
            let before = book.apply_all(front);
            assert(elsewhere(tick, book.symbol, side));
            assert(before.apply(tick).levels(side) == before.levels(side));
            assert(before.apply(tick).snapshot_id(side) == before.snapshot_id(side));
            if snapshot_size(ticks, book.symbol, side, id) > 0 {
                lemma_other_tick_lands_nothing(
                    before.levels(side),
                    ticks,
                    book.symbol,
                    side,
                    id,
                );
            }
        }
    }
}

proof fn lemma_snapshot_tick_lands(
    book: BookView,
    ticks: Seq<NormalizedTick>,
    side: Side,
    id: u32,
)
    requires
        ticks.len() > 0,
        carries_snapshot(ticks, book.symbol, side, id),
        snapshot_size(ticks, book.symbol, side, id) <= MAX_LEVELS,
        in_snapshot(ticks.last(), book.symbol, side, id),
        id != book.snapshot_id(side),
    ensures
        book.apply_all(ticks.drop_last()).outcome(ticks.last()) == DeltaResult::Inserted,
        book.apply_all(ticks).symbol == book.symbol,
        book.apply_all(ticks).snapshot_id(side) == id,
        landed(book.apply_all(ticks).levels(side), ticks, book.symbol, side, id),
    decreases ticks.len(), 0int,
{
    let front = ticks.drop_last();
    let tick = ticks.last();
    assert(front =~= ticks.take(ticks.len() - 1));
    lemma_part_carries_snapshot(ticks, book.symbol, side, id, ticks.len() - 1);
    lemma_snapshot_lands(book, front, side, id);
    let before = book.apply_all(front);
    let base = before.prepared(tick).levels(side);
    if snapshot_size(front, book.symbol, side, id) == 0 {
        assert(base == Seq::<Level>::empty());
        assert forall|i: int| 0 <= i < front.len() implies !in_snapshot(
            #[trigger] front[i],
            book.symbol,
            side,
            id,
        ) by {
            if in_snapshot(front[i], book.symbol, side, id) {
                lemma_snapshot_size(front, book.symbol, side, id, i);
            }
        }
        assert(landed(base, front, book.symbol, side, id));
    }
    lemma_level_lands(base, ticks, book.symbol, side, id);
}

/// Until a side has seen a snapshot, any snapshot id but the sentinel
/// `u32::MAX` clears it, zero included: what plain deltas left there before
/// is gone.
pub proof fn law_first_snapshot_clears(
    symbol: Symbol,
    exchange: Exchange,
    deltas: Seq<NormalizedTick>,
    tick: NormalizedTick,
)
    requires
        forall|i: int| 0 <= i < deltas.len() ==> !(#[trigger] deltas[i]).is_snapshot,
        tick.symbol == symbol,
        tick.is_snapshot,
        tick.snapshot_id != u32::MAX,
    ensures
        BookView::fresh(symbol, exchange).apply_all(deltas).apply(tick).levels(tick.side)
            == delta_levels(Seq::empty(), tick.price, tick.qty, is_descending(tick.side)),
{
    lemma_plain_deltas_keep_snapshot_ids(BookView::fresh(symbol, exchange), deltas);
}

proof fn lemma_plain_deltas_keep_snapshot_ids(book: BookView, deltas: Seq<NormalizedTick>)
    requires
        forall|i: int| 0 <= i < deltas.len() ==> !(#[trigger] deltas[i]).is_snapshot,
    ensures
        book.apply_all(deltas).bids_snapshot_id == book.bids_snapshot_id,
        book.apply_all(deltas).asks_snapshot_id == book.asks_snapshot_id,
        book.apply_all(deltas).symbol == book.symbol,
    decreases deltas.len(),
{
    if deltas.len() > 0 {
        let front = deltas.drop_last();
        assert forall|i: int| 0 <= i < front.len() implies !(#[trigger] front[i]).is_snapshot by {
            assert(front[i] == deltas[i]);
        }
        lemma_plain_deltas_keep_snapshot_ids(book, front);
        assert(!deltas[deltas.len() - 1].is_snapshot);
    }
}

/// The spread is given exactly when both sides have a level. A crossed book
/// shows a spread of zero; a positive spread is the distance between the
/// best prices of a book that is not crossed. A zero spread alone does not
/// tell a crossed book from one whose best prices meet.
pub proof fn law_spread_and_crossing(book: BookView)
    ensures
        book.spread() is Some <==> book.bids.len() > 0 && book.asks.len() > 0,
        book.crossed() ==> book.spread() == Some(0u64),
        book.spread() matches Some(s) ==> s > 0 ==> !book.crossed() && book.asks[0].price.0
            == book.bids[0].price.0 + s,
        book.spread() == Some(0u64) ==> book.crossed() || book.bids[0].price == book.asks[0].price,
{
}

/// A book that never took an update is stale as soon as the clock is past
/// the threshold.
pub proof fn law_untouched_book_is_stale(
    symbol: Symbol,
    exchange: Exchange,
    now_ns: u64,
    threshold_ns: u64,
)
    requires
        now_ns > threshold_ns,
    ensures
        BookView::fresh(symbol, exchange).stale(now_ns, threshold_ns),
{
}

/// Right after a tick has changed it, a book is stale exactly when more than
/// the threshold has passed since that tick was received.
pub proof fn law_update_resets_staleness(
    book: BookView,
    tick: NormalizedTick,
    now_ns: u64,
    threshold_ns: u64,
)
    requires
        tick.symbol == book.symbol,
        changes_book(book.outcome(tick)),
    ensures
        book.apply(tick).stale(now_ns, threshold_ns) <==> now_ns > tick.ts_recv_ns + threshold_ns,
{
}

/// The levels fed to a checksum are the best ones of each side, best first:
/// as many as asked for or as there are, each ahead of the next and of every
/// level left out.
pub proof fn law_checksum_feeds_best_first(side: Side, levels: BookSide, n: usize)
    requires
        levels.wf(is_descending(side)),
    ensures
        ({
            let fed = top_levels(side, levels, n);
            &&& fed.len() == if n < levels@.len() {
                n as nat
            } else {
                levels@.len()
            }
            &&& forall|i: int|
                0 <= i < fed.len() ==> (#[trigger] fed[i]) == (
                    side,
                    levels@[i].price,
                    levels@[i].qty,
                )
            &&& forall|i: int, j: int|
                #![trigger fed[i], levels@[j]]
                0 <= i < fed.len() && i < j < levels@.len() ==> crate::book_side::ahead(
                    fed[i].1,
                    levels@[j].price,
                    is_descending(side),
                )
        }),
{
    let fed = top_levels(side, levels, n);
    let descending = is_descending(side);
    assert forall|i: int, j: int|
        #![trigger fed[i], levels@[j]]
        0 <= i < fed.len() && i < j < levels@.len() implies crate::book_side::ahead(
        fed[i].1,
        levels@[j].price,
        descending,
    ) by {
        assert(crate::book_side::ahead(levels@[i].price, levels@[j].price, descending));
    }
}

/// A well-formed book is well formed in what it holds.
pub proof fn law_book_view_is_in_order(book: OrderBook)
    requires
        book.wf(),
    ensures
        book@.wf(),
{
}

/// What a tick of the book's symbol reports says what it met on its side: the
/// levels there, or none if it opens a snapshot. A quantity of zero reports
/// `Removed` exactly when its price had a level, `NoOp` when it had none. Any
/// other reports `Updated` exactly when its price had a level; else `Inserted`
/// while there are fewer than 64, and on a full side `InsertedEvicted` if the
/// price beats the last one, `Discarded` if not.
pub proof fn law_tick_reports_what_it_met(
    book: BookView,
    tick: NormalizedTick,
    met: Seq<Level>,
)
    requires
        tick.symbol == book.symbol,
        met == if tick.is_snapshot && tick.snapshot_id != (match tick.side {
            Side::Bid => book.bids_snapshot_id,
            Side::Ask => book.asks_snapshot_id,
        }) {
            Seq::empty()
        } else {
            match tick.side {
                Side::Bid => book.bids,
                Side::Ask => book.asks,
            }
        },
        met.len() <= 64,
        forall|i: int, j: int|
            #![trigger met[i], met[j]]
            0 <= i < j < met.len() ==> match tick.side {
                Side::Bid => met[i].price.0 > met[j].price.0,
                Side::Ask => met[i].price.0 < met[j].price.0,
            },
    ensures
        ({
            let result = book.outcome(tick);
            let there = exists|i: int|
                0 <= i < met.len() && (#[trigger] met[i]).price == tick.price;
            let beats_last = match tick.side {
                Side::Bid => tick.price.0 > met.last().price.0,
                Side::Ask => tick.price.0 < met.last().price.0,
            };
            &&& result == DeltaResult::Removed <==> tick.qty.0 == 0 && there
            &&& result == DeltaResult::NoOp <==> tick.qty.0 == 0 && !there
            &&& result == DeltaResult::Updated <==> tick.qty.0 != 0 && there
            &&& result == DeltaResult::Inserted <==> tick.qty.0 != 0 && !there && met.len() < 64
            &&& result == DeltaResult::InsertedEvicted <==> tick.qty.0 != 0 && !there && met.len()
                == 64 && beats_last
            &&& result == DeltaResult::Discarded <==> tick.qty.0 != 0 && !there && met.len() == 64
                && !beats_last
        }),
{
    assert(met == book.prepared(tick).levels(tick.side));
    law_sorted_means_price_order(met, is_descending(tick.side));
    law_delta_reports_what_it_met(met, tick.price, tick.qty, is_descending(tick.side));
}

/// What a tick of the book's symbol leaves on its side, snapshot or not and
/// whatever its snapshot id: at most 64 levels in price order. At its price
/// there is one level with its quantity, or none if that is zero or the tick
/// found no room. Every other level is there exactly when the tick met it, but
/// for the last one of a full side that a better price displaced.
pub proof fn law_tick_leaves_what_it_says(
    book: BookView,
    tick: NormalizedTick,
    met: Seq<Level>,
    after: Seq<Level>,
)
    requires
        tick.symbol == book.symbol,
        met == if tick.is_snapshot && tick.snapshot_id != (match tick.side {
            Side::Bid => book.bids_snapshot_id,
            Side::Ask => book.asks_snapshot_id,
        }) {
            Seq::empty()
        } else {
            match tick.side {
                Side::Bid => book.bids,
                Side::Ask => book.asks,
            }
        },
        met.len() <= 64,
        forall|i: int, j: int|
            #![trigger met[i], met[j]]
            0 <= i < j < met.len() ==> match tick.side {
                Side::Bid => met[i].price.0 > met[j].price.0,
                Side::Ask => met[i].price.0 < met[j].price.0,
            },
        after == (match tick.side {
            Side::Bid => book.apply(tick).bids,
            Side::Ask => book.apply(tick).asks,
        }),
    ensures
        ({
            let there = exists|i: int|
                0 <= i < met.len() && (#[trigger] met[i]).price == tick.price;
            let full = met.len() == 64;
            let beats_last = match tick.side {
                Side::Bid => tick.price.0 > met.last().price.0,
                Side::Ask => tick.price.0 < met.last().price.0,
            };
            &&& after.len() <= 64
            &&& forall|i: int, j: int|
                #![trigger after[i], after[j]]
                0 <= i < j < after.len() ==> match tick.side {
                    Side::Bid => after[i].price.0 > after[j].price.0,
                    Side::Ask => after[i].price.0 < after[j].price.0,
                }
            &&& forall|q: Qty|
                #![trigger after.contains(Level { price: tick.price, qty: q })]
                after.contains(Level { price: tick.price, qty: q }) <==> q == tick.qty
                    && tick.qty.0 != 0 && (there || !full || beats_last)
            &&& forall|other: Level|
                other.price != tick.price ==> (#[trigger] after.contains(other) <==> met.contains(
                    other,
                ) && !(tick.qty.0 != 0 && !there && full && beats_last && other == met.last()))
        }),
{
    assert(met == book.prepared(tick).levels(tick.side));
    law_sorted_means_price_order(met, is_descending(tick.side));
    law_delta_leaves_what_it_says(met, tick.price, tick.qty, is_descending(tick.side));
}

/// A tick that reports `NoOp` or `Discarded` leaves the levels it met as they
/// are, and one that reports anything else does not leave its price as it was:
/// an update shows the new quantity, an insertion a level where none was, a
/// removal none where one was.
pub proof fn law_report_and_levels_agree(
    book: BookView,
    tick: NormalizedTick,
    met: Seq<Level>,
    after: Seq<Level>,
)
    requires
        tick.symbol == book.symbol,
        met == if tick.is_snapshot && tick.snapshot_id != (match tick.side {
            Side::Bid => book.bids_snapshot_id,
            Side::Ask => book.asks_snapshot_id,
        }) {
            Seq::empty()
        } else {
            match tick.side {
                Side::Bid => book.bids,
                Side::Ask => book.asks,
            }
        },
        met.len() <= 64,
        forall|i: int, j: int|
            #![trigger met[i], met[j]]
            0 <= i < j < met.len() ==> match tick.side {
                Side::Bid => met[i].price.0 > met[j].price.0,
                Side::Ask => met[i].price.0 < met[j].price.0,
            },
        after == (match tick.side {
            Side::Bid => book.apply(tick).bids,
            Side::Ask => book.apply(tick).asks,
        }),
    ensures
        ({
            let result = book.outcome(tick);
            let was_there = exists|i: int|
                0 <= i < met.len() && (#[trigger] met[i]).price == tick.price;
            let is_there = exists|i: int|
                0 <= i < after.len() && (#[trigger] after[i]).price == tick.price;
            match result {
                DeltaResult::NoOp => after == met && !was_there,
                DeltaResult::Discarded => after == met && !was_there,
                DeltaResult::Removed => was_there && !is_there && after.len() == met.len() - 1,
                DeltaResult::Updated => was_there && after.len() == met.len() && after.contains(
                    Level { price: tick.price, qty: tick.qty },
                ),
                DeltaResult::Inserted => !was_there && after.len() == met.len() + 1
                    && after.contains(Level { price: tick.price, qty: tick.qty }),
                DeltaResult::InsertedEvicted => !was_there && after.len() == 64 && met.len() == 64
                    && after.contains(Level { price: tick.price, qty: tick.qty }),
            }
        }),
{
    let descending = is_descending(tick.side);
    assert(met == book.prepared(tick).levels(tick.side));
    law_sorted_means_price_order(met, descending);
    crate::book_side::lemma_rank_splits(met, tick.price, descending);
    law_delta_sets_quantity(met, tick.price, tick.qty, descending);
    assert(holds_price(met, tick.price) <==> exists|i: int|
        0 <= i < met.len() && (#[trigger] met[i]).price == tick.price);
}

/// What a tick of the book's symbol does beside its own side: nothing to the
/// other side and its snapshot id; a snapshot tick leaves its id on its own
/// side; its number becomes the book's, and counts as a gap if it jumps by more
/// than one, as a reorder if it does not go up, neither for the first one; and
/// its receive time is noted unless it reports `NoOp` or `Discarded`. Counters
/// go around the end of their range. All else stays.
pub proof fn law_tick_touches_nothing_else(book: BookView, tick: NormalizedTick)
    requires
        tick.symbol == book.symbol,
    ensures
        ({
            let after = book.apply(tick);
            let result = book.outcome(tick);
            let compared = book.sequence_initialized;
            &&& tick.side == Side::Bid ==> after.asks == book.asks && after.asks_snapshot_id
                == book.asks_snapshot_id
            &&& tick.side == Side::Ask ==> after.bids == book.bids && after.bids_snapshot_id
                == book.bids_snapshot_id
            &&& tick.side == Side::Bid ==> after.bids_snapshot_id == if tick.is_snapshot {
                tick.snapshot_id
            } else {
                book.bids_snapshot_id
            }
            &&& tick.side == Side::Ask ==> after.asks_snapshot_id == if tick.is_snapshot {
                tick.snapshot_id
            } else {
                book.asks_snapshot_id
            }
            &&& after.sequence == tick.sequence
            &&& after.sequence_initialized
            &&& after.sequence_gaps == if compared && tick.sequence > book.sequence + 1 {
                (book.sequence_gaps + 1) % 0x1_0000_0000_0000_0000
            } else {
                book.sequence_gaps as int
            }
            &&& after.sequence_reorders == if compared && tick.sequence <= book.sequence {
                (book.sequence_reorders + 1) % 0x1_0000_0000_0000_0000
            } else {
                book.sequence_reorders as int
            }
            &&& after.last_update_ns == if result == DeltaResult::NoOp || result
                == DeltaResult::Discarded {
                book.last_update_ns
            } else {
                tick.ts_recv_ns
            }
            &&& after.symbol_mismatches == book.symbol_mismatches
            &&& after.checksum_failures == book.checksum_failures
            &&& after.symbol == book.symbol
            &&& after.exchange == book.exchange
        }),
{
}

/// A tick for another symbol is reported as discarded and counted, around the
/// end of the counter's range, and nothing else changes.
pub proof fn law_stray_tick_changes_one_counter(book: BookView, tick: NormalizedTick)
    requires
        tick.symbol != book.symbol,
    ensures
        book.outcome(tick) == DeltaResult::Discarded,
        ({
            let after = book.apply(tick);
            &&& after.symbol_mismatches == (book.symbol_mismatches + 1) % 0x1_0000_0000_0000_0000
            &&& after == BookView { symbol_mismatches: after.symbol_mismatches, ..book }
        }),
{
}

/// A run of ticks is its ticks one after another.
pub proof fn law_run_goes_tick_by_tick(
    book: BookView,
    ticks: Seq<NormalizedTick>,
    tick: NormalizedTick,
)
    ensures
        book.apply_all(Seq::empty()) == book,
        book.apply_all(ticks.push(tick)) == book.apply_all(ticks).apply(tick),
{
    assert(ticks.push(tick).drop_last() =~= ticks);
}

/// The entries of a side after a run: the levels the book then shows come
/// first, and each entry past them is what it was before the last tick.
pub proof fn law_entries_past_the_levels_stay(
    book: BookView,
    side: Side,
    entries: Seq<Level>,
    ticks: Seq<NormalizedTick>,
    tick: NormalizedTick,
)
    requires
        book.apply_all(ticks.push(tick)).levels(side).len() <= entries.len(),
        book.entries_after(side, entries, ticks).len() == entries.len(),
    ensures
        book.entries_after(side, entries, Seq::empty()) == entries,
        ({
            let shown = match side {
                Side::Bid => book.apply_all(ticks.push(tick)).bids,
                Side::Ask => book.apply_all(ticks.push(tick)).asks,
            };
            let before = book.entries_after(side, entries, ticks);
            let after = book.entries_after(side, entries, ticks.push(tick));
            &&& after.len() == entries.len()
            &&& forall|i: int| 0 <= i < shown.len() ==> (#[trigger] after[i]) == shown[i]
            &&& forall|i: int|
                shown.len() <= i < entries.len() ==> (#[trigger] after[i]) == before[i]
        }),
{
    assert(ticks.push(tick).drop_last() =~= ticks);
}

/// The book is crossed exactly when its best bid is above its best ask, and a
/// book with both sides has as its spread the best ask less the best bid, or
/// zero if that is negative.
pub proof fn law_crossing_and_spread_compare_the_best(book: BookView)
    ensures
        book.crossed() <==> book.bids.len() > 0 && book.asks.len() > 0 && book.bids[0].price.0
            > book.asks[0].price.0,
        book.bids.len() == 0 || book.asks.len() == 0 ==> book.spread() is None,
        book.bids.len() > 0 && book.asks.len() > 0 ==> ({
            let distance = book.asks[0].price.0 - book.bids[0].price.0;
            &&& book.spread() is Some
            &&& distance >= 0 ==> book.spread()->0 == distance
            &&& distance < 0 ==> book.spread()->0 == 0
        }),
{
}

/// A book is stale exactly when the clock is past its last update by more than
/// the threshold.
pub proof fn law_stale_means_past_the_threshold(book: BookView, now_ns: u64, threshold_ns: u64)
    ensures
        book.stale(now_ns, threshold_ns) <==> now_ns > book.last_update_ns + threshold_ns,
{
}

/// The levels fed to a checksum are the first entries of a side, in order, with
/// their side, price and quantity: as many as asked for, but no more than there
/// are.
pub proof fn law_checksum_feeds_the_first_levels(side: Side, levels: BookSide, n: usize)
    ensures
        ({
            let fed = top_levels(side, levels, n);
            &&& fed.len() <= n && fed.len() <= levels.count && fed.len() <= 64
            &&& fed.len() == n || fed.len() == levels.count || fed.len() == 64
            &&& forall|i: int|
                0 <= i < fed.len() ==> {
                    &&& (#[trigger] fed[i]).0 == side
                    &&& fed[i].1 == levels.levels@[i].price
                    &&& fed[i].2 == levels.levels@[i].qty
                }
        }),
{
}

/// A book's view is what its fields hold, each side as its first `count`
/// entries.
pub proof fn law_book_view_reads_the_fields(book: OrderBook)
    ensures
        book@.bids == book.bids.levels@.take(book.bids.count as int),
        book@.asks == book.asks.levels@.take(book.asks.count as int),
        book@.sequence == book.sequence,
        book@.last_update_ns == book.last_update_ns,
        book@.symbol_mismatches == book.symbol_mismatches,
        book@.sequence_gaps == book.sequence_gaps,
        book@.sequence_reorders == book.sequence_reorders,
        book@.checksum_failures == book.checksum_failures,
        book@.bids_snapshot_id == book.bids_snapshot_id,
        book@.asks_snapshot_id == book.asks_snapshot_id,
        book@.symbol == book.symbol,
        book@.exchange == book.exchange,
        book@.sequence_initialized == book.sequence_initialized,
{
}

/// A book whose sides are in order and within their bound takes every tick.
pub proof fn law_book_in_order_takes_every_tick(book: OrderBook, tick: NormalizedTick)
    requires
        book.bids.count <= 64,
        book.asks.count <= 64,
        forall|i: int, j: int|
            #![trigger book.bids.levels@[i], book.bids.levels@[j]]
            0 <= i < j < book.bids.count ==> book.bids.levels@[i].price.0
                > book.bids.levels@[j].price.0,
        forall|i: int, j: int|
            #![trigger book.asks.levels@[i], book.asks.levels@[j]]
            0 <= i < j < book.asks.count ==> book.asks.levels@[i].price.0
                < book.asks.levels@[j].price.0,
    ensures
        book.wf(),
        book.ready_for(tick),
{
    law_side_is_in_price_order(book.bids, true);
    law_side_is_in_price_order(book.asks, false);
}

/// Counters go up by one, and from the end of their range to zero.
pub proof fn law_counters_go_up_by_one(count: u64)
    ensures
        one_more(count) == (count + 1) % 0x1_0000_0000_0000_0000,
{
}

} // verus!
