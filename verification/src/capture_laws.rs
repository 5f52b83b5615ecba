//! What holds of whole captures.

use crate::capture::{
    law_record_round_trip, lemma_record_layout, parses_as, reads_as, record_bytes, record_end,
    ByteOrder, RecordError, TICK_SIZE,
};
use crate::order_book::BookView;
use crate::types::NormalizedTick;
use vstd::prelude::*;

verus! {

/// The capture of a session: the records of its ticks, one after the other.
pub open spec fn session_bytes(ticks: Seq<NormalizedTick>, order: ByteOrder) -> Seq<u8>
    decreases ticks.len(),
{
    if ticks.len() == 0 {
        Seq::empty()
    } else {
        record_bytes(ticks[0], order) + session_bytes(ticks.drop_first(), order)
    }
}

/// The items of a capture in which every tick is read.
pub open spec fn all_read(ticks: Seq<NormalizedTick>) -> Seq<Result<NormalizedTick, RecordError>> {
    ticks.map_values(|tick: NormalizedTick| Ok::<NormalizedTick, RecordError>(tick))
}

/// Captures can be joined: if the first one ends with a full record, the two
/// read after one another as they read apart.
pub proof fn law_captures_join(
    first: Seq<u8>,
    second: Seq<u8>,
    order: ByteOrder,
    first_items: Seq<Result<NormalizedTick, RecordError>>,
    second_items: Seq<Result<NormalizedTick, RecordError>>,
)
    requires
        first.len() % TICK_SIZE as nat == 0,
        reads_as(first, order, first_items),
        reads_as(second, order, second_items),
    ensures
        reads_as(first + second, order, first_items + second_items),
    decreases first.len(),
{
    if first.len() == 0 {
        assert(first + second =~= second);
        assert(first_items + second_items =~= second_items);
    } else {
        let both = first + second;
        let items = first_items + second_items;
        assert(first.skip(64).len() % TICK_SIZE as nat == 0);
        law_captures_join(first.skip(64), second, order, first_items.drop_first(), second_items);
        assert(both.take(64) =~= first.take(64));
        assert(both.skip(64) =~= first.skip(64) + second);
        assert(items.drop_first() =~= first_items.drop_first() + second_items);
    }
}

/// A capture reads in one way only.
pub proof fn law_capture_decides_the_items(
    capture: Seq<u8>,
    order: ByteOrder,
    a: Seq<Result<NormalizedTick, RecordError>>,
    b: Seq<Result<NormalizedTick, RecordError>>,
)
    requires
        reads_as(capture, order, a),
        reads_as(capture, order, b),
    ensures
        a == b,
    decreases capture.len(),
{
    if capture.len() == 0 {
        assert(a =~= b);
    } else {
        let end = record_end(capture.len(), 0);
        crate::capture::law_bytes_decide_the_item(capture.take(end), order, Some(a[0]), Some(b[0]));
        law_capture_decides_the_items(capture.skip(end), order, a.drop_first(), b.drop_first());
        assert(a =~= seq![a[0]] + a.drop_first());
        assert(b =~= seq![b[0]] + b.drop_first());
    }
}

proof fn lemma_session_reads(ticks: Seq<NormalizedTick>, order: ByteOrder)
    ensures
        reads_as(session_bytes(ticks, order), order, all_read(ticks)),
        session_bytes(ticks, order).len() == TICK_SIZE * ticks.len(),
    decreases ticks.len(),
{
    if ticks.len() > 0 {
        let rest = ticks.drop_first();
        let capture = session_bytes(ticks, order);
        let read = Ok::<NormalizedTick, RecordError>(ticks[0]);
        lemma_session_reads(rest, order);
        lemma_record_layout(ticks[0], order);
        law_record_round_trip(ticks[0], order, read);
        assert(capture.take(64) =~= record_bytes(ticks[0], order));
        assert(capture.skip(64) =~= session_bytes(rest, order));
        assert(all_read(ticks)[0] == read);
        assert(all_read(ticks).drop_first() =~= all_read(rest));
    }
}

/// A session that is captured and read back comes out tick for tick, bit for
/// bit, and in no other way.
pub proof fn law_session_round_trip(
    ticks: Seq<NormalizedTick>,
    order: ByteOrder,
    items: Seq<Result<NormalizedTick, RecordError>>,
)
    ensures
        reads_as(session_bytes(ticks, order), order, items) <==> items == all_read(ticks),
{
    lemma_session_reads(ticks, order);
    if reads_as(session_bytes(ticks, order), order, items) {
        law_capture_decides_the_items(session_bytes(ticks, order), order, items, all_read(ticks));
    }
}

/// A capture that is cut off within a record reads up to there and then says
/// so: the cut is an error, never a silent end.
pub proof fn law_truncation_is_reported(
    ticks: Seq<NormalizedTick>,
    tail: Seq<u8>,
    order: ByteOrder,
    items: Seq<Result<NormalizedTick, RecordError>>,
)
    requires
        0 < tail.len() < TICK_SIZE,
    ensures
        reads_as(session_bytes(ticks, order) + tail, order, items) <==> items == all_read(ticks).push(
            Err::<NormalizedTick, RecordError>(RecordError::Truncated { got: tail.len() as usize }),
        ),
{
    let error = Err::<NormalizedTick, RecordError>(
        RecordError::Truncated { got: tail.len() as usize },
    );
    let capture = session_bytes(ticks, order) + tail;
    let expected = all_read(ticks).push(error);
    lemma_session_reads(ticks, order);
    let end = record_end(tail.len(), 0);
    assert(tail.take(end) =~= tail);
    assert(tail.skip(end) =~= Seq::empty());
    assert(seq![error].drop_first() =~= Seq::empty());
    assert(parses_as(tail.take(end), order, seq![error][0]));
    assert(reads_as(tail.skip(end), order, seq![error].drop_first()));
    assert(reads_as(tail, order, seq![error]));
    law_captures_join(session_bytes(ticks, order), tail, order, all_read(ticks), seq![error]);
    assert(all_read(ticks) + seq![error] =~= expected);
    if reads_as(capture, order, items) {
        law_capture_decides_the_items(capture, order, items, expected);
    }
}

/// A capture may be continued later: appending the records of more ticks
/// gives the capture of the longer session.
pub proof fn law_capture_can_be_continued(
    first: Seq<NormalizedTick>,
    second: Seq<NormalizedTick>,
    order: ByteOrder,
)
    ensures
        session_bytes(first + second, order) == session_bytes(first, order) + session_bytes(
            second,
            order,
        ),
    decreases first.len(),
{
    if first.len() == 0 {
        assert(first + second =~= second);
        assert(session_bytes(first, order) + session_bytes(second, order) =~= session_bytes(
            second,
            order,
        ));
    } else {
        law_capture_can_be_continued(first.drop_first(), second, order);
        assert((first + second).drop_first() =~= first.drop_first() + second);
        assert(session_bytes(first + second, order) =~= session_bytes(first, order)
            + session_bytes(second, order));
    }
}

/// Replaying a capture reproduces the session: whatever book the ticks were
/// applied to, the ticks that are read back lead to the same one.
pub proof fn law_replay_reproduces_the_book(
    book: BookView,
    ticks: Seq<NormalizedTick>,
    order: ByteOrder,
    items: Seq<Result<NormalizedTick, RecordError>>,
    replayed: Seq<NormalizedTick>,
)
    requires
        reads_as(session_bytes(ticks, order), order, items),
        items == all_read(replayed),
    ensures
        book.apply_all(replayed) == book.apply_all(ticks),
{
    law_session_round_trip(ticks, order, items);
    assert forall|i: int| 0 <= i < ticks.len() implies replayed[i] == ticks[i] by {
        assert(all_read(replayed)[i] == all_read(ticks)[i]);
    }
    assert(all_read(replayed).len() == all_read(ticks).len());
    assert(replayed =~= ticks);
}

/// A capture is read 64 bytes at a time: it has as many items as it has such
/// pieces, the last one possibly shorter, and each item is read from its own
/// piece.
pub proof fn law_capture_is_read_piece_by_piece(
    capture: Seq<u8>,
    order: ByteOrder,
    items: Seq<Result<NormalizedTick, RecordError>>,
)
    requires
        reads_as(capture, order, items),
    ensures
        items.len() == (capture.len() + 63) / 64,
        forall|k: int|
            0 <= k < items.len() ==> parses_as(
                capture.subrange(
                    64 * k,
                    if 64 * k + 64 <= capture.len() {
                        64 * k + 64
                    } else {
                        capture.len() as int
                    },
                ),
                order,
                #[trigger] items[k],
            ),
    decreases capture.len(),
{
    if capture.len() > 0 {
        let end = record_end(capture.len(), 0);
        let rest = capture.skip(end);
        let later = items.drop_first();
        law_capture_is_read_piece_by_piece(rest, order, later);
        assert forall|k: int| 0 <= k < items.len() implies parses_as(
            capture.subrange(
                64 * k,
                if 64 * k + 64 <= capture.len() {
                    64 * k + 64
                } else {
                    capture.len() as int
                },
            ),
            order,
            #[trigger] items[k],
        ) by {
            let stop = if 64 * k + 64 <= capture.len() {
                64 * k + 64
            } else {
                capture.len() as int
            };
            if k == 0 {
                assert(capture.subrange(0, stop) =~= capture.take(end));
            } else {
                assert(later[k - 1] == items[k]);
                assert(capture.subrange(64 * k, stop) =~= rest.subrange(64 * k - 64, stop - 64));
            }
        }
    }
}

/// The capture of a session has 64 bytes for each tick, and the bytes of a tick
/// are those of its record.
pub proof fn law_session_has_its_records_in_order(ticks: Seq<NormalizedTick>, order: ByteOrder)
    ensures
        session_bytes(ticks, order).len() == 64 * ticks.len(),
        forall|k: int|
            0 <= k < ticks.len() ==> session_bytes(ticks, order).subrange(64 * k, 64 * k + 64)
                == record_bytes(#[trigger] ticks[k], order),
    decreases ticks.len(),
{
    if ticks.len() > 0 {
        let rest = ticks.drop_first();
        let capture = session_bytes(ticks, order);
        lemma_record_layout(ticks[0], order);
        law_session_has_its_records_in_order(rest, order);
        assert forall|k: int| 0 <= k < ticks.len() implies capture.subrange(64 * k, 64 * k + 64)
            == record_bytes(#[trigger] ticks[k], order) by {
            if k == 0 {
                assert(capture.subrange(0, 64) =~= record_bytes(ticks[0], order));
            } else {
                assert(rest[k - 1] == ticks[k]);
                assert(capture.subrange(64 * k, 64 * k + 64) =~= session_bytes(
                    rest,
                    order,
                ).subrange(64 * (k - 1), 64 * (k - 1) + 64));
            }
        }
    }
}

/// A session that is captured and read back gives as many items as it had
/// ticks, and each is the tick in its place.
pub proof fn law_session_gives_back_its_ticks(
    ticks: Seq<NormalizedTick>,
    order: ByteOrder,
    items: Seq<Result<NormalizedTick, RecordError>>,
)
    requires
        reads_as(session_bytes(ticks, order), order, items),
    ensures
        items.len() == ticks.len(),
        forall|k: int|
            0 <= k < ticks.len() ==> (#[trigger] items[k]) == Ok::<NormalizedTick, RecordError>(
                ticks[k],
            ),
{
    law_session_round_trip(ticks, order, items);
}

/// A record ends 64 bytes on, or where the capture does if that comes first.
pub proof fn law_record_ends_after_its_bytes(len: nat, at: int)
    requires
        0 <= at <= len,
    ensures
        at <= record_end(len, at) <= len,
        at + 64 <= len ==> record_end(len, at) == at + 64,
        at + 64 > len ==> record_end(len, at) == len,
{
}

} // verus!
