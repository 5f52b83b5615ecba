//! The tick ring between one producer and one consumer.
//!
//! Each slot carries a sequence counter. A slot is writable for cursor `c`
//! while its counter is `c`, readable while it is `c + 1`, and writable for
//! the next lap once the consumer has set it to `c + RING_SIZE`. Counters and
//! cursors wrap around at the end of their range.

use crate::order_book::one_more;
use crate::types::NormalizedTick;
use vstd::prelude::*;

verus! {

pub const RING_SIZE: usize = 4096;

const RING_MASK: u64 = 4095;

/// `cursor` moved on by `k`, wrapping around at the end of the range.
pub open spec fn ahead_by(cursor: u64, k: int) -> u64 {
    if cursor + k > u64::MAX {
        (cursor + k - 0x1_0000_0000_0000_0000) as u64
    } else {
        (cursor + k) as u64
    }
}

/// The slot a cursor points at.
pub open spec fn slot(cursor: u64) -> int {
    cursor as int % RING_SIZE as int
}

/// What the producer at cursor `prod` does about a slot whose counter reads
/// `seen`: the counter to publish with, or nothing when the slot is taken.
pub open spec fn publish_counter(prod: u64, seen: u64) -> Option<u64> {
    if seen == prod {
        Some(ahead_by(prod, 1))
    } else {
        None
    }
}

/// What the consumer at cursor `cons` does about a slot whose counter reads
/// `seen`: the counter to hand it back with, or nothing when it holds no
/// tick yet.
pub open spec fn release_counter(cons: u64, seen: u64) -> Option<u64> {
    if seen == ahead_by(cons, 1) {
        Some(ahead_by(cons, RING_SIZE as int))
    } else {
        None
    }
}

/// The waiting ticks after one more is offered.
pub open spec fn after_publish(
    waiting: Seq<NormalizedTick>,
    tick: NormalizedTick,
) -> Seq<NormalizedTick> {
    if waiting.len() < RING_SIZE {
        waiting.push(tick)
    } else {
        waiting
    }
}

/// The waiting ticks after one is taken.
pub open spec fn after_consume(waiting: Seq<NormalizedTick>) -> Seq<NormalizedTick> {
    if waiting.len() > 0 {
        waiting.drop_first()
    } else {
        waiting
    }
}

/// The slot a cursor points at.
pub fn slot_index(cursor: u64) -> (index: usize)
    ensures
        index == slot(cursor),
        index == cursor % 4096,
        index < RING_SIZE,
{
    assert(cursor & 4095 == cursor % 4096) by (bit_vector);
    (cursor & RING_MASK) as usize
}

/// The next cursor.
pub fn next_cursor(cursor: u64) -> (next: u64)
    ensures
        next == ahead_by(cursor, 1),
        next == (cursor + 1) % 0x1_0000_0000_0000_0000,
{
    cursor.wrapping_add(1)
}

/// The producer's half of the handshake; see [`publish_counter`].
pub fn claim_publish(prod: u64, seen: u64) -> (counter: Option<u64>)
    ensures
        counter == publish_counter(prod, seen),
        counter is Some <==> seen == prod,
        counter matches Some(set) ==> set == (prod + 1) % 0x1_0000_0000_0000_0000,
{
    if seen == prod {
        Some(next_cursor(prod))
    } else {
        None
    }
}

/// The consumer's half of the handshake; see [`release_counter`].
pub fn claim_consume(cons: u64, seen: u64) -> (counter: Option<u64>)
    ensures
        counter == release_counter(cons, seen),
        counter is Some <==> seen == (cons + 1) % 0x1_0000_0000_0000_0000,
        counter matches Some(set) ==> set == (cons + 4096) % 0x1_0000_0000_0000_0000,
{
    if seen == next_cursor(cons) {
        Some(cons.wrapping_add(RING_SIZE as u64))
    } else {
        None
    }
}

/// One slot: its counter and the tick it holds.
pub struct RingBufferNode {
    sequence: u64,
    tick: NormalizedTick,
}

struct Cursor {
    seq: u64,
}

impl Cursor {
    fn new(v: u64) -> (cursor: Self)
        ensures
            cursor.seq == v,
    {
        Cursor { seq: v }
    }
}

/// A ring of `RING_SIZE` slots, used from one place at a time.
///
/// Its view is the ticks that wait in it, oldest first.
pub struct SpscDisruptor {
    buffer: Vec<RingBufferNode>,
    producer: Cursor,
    consumer: Cursor,
    dropped: u64,
}

impl View for SpscDisruptor {
    type V = Seq<NormalizedTick>;

    closed spec fn view(&self) -> Seq<NormalizedTick> {
        Seq::new(
            self.waiting(),
            |k: int| self.buffer@[slot(ahead_by(self.consumer.seq, k))].tick,
        )
    }
}

impl SpscDisruptor {
    /// How far the producer is ahead of the consumer.
    closed spec fn waiting(&self) -> nat {
        let (prod, cons) = (self.producer.seq, self.consumer.seq);
        if prod >= cons {
            (prod - cons) as nat
        } else {
            (prod - cons + 0x1_0000_0000_0000_0000) as nat
        }
    }

    /// The counters agree with the cursors: the slots from the consumer to
    /// the producer are readable, the rest writable.
    pub closed spec fn wf(&self) -> bool {
        &&& self.buffer@.len() == RING_SIZE
        &&& self.waiting() <= RING_SIZE
        &&& forall|k: int|
            0 <= k < RING_SIZE ==> self.buffer@[#[trigger] slot(
                ahead_by(self.consumer.seq, k),
            )].sequence == if k < self.waiting() {
                ahead_by(self.consumer.seq, k + 1)
            } else {
                ahead_by(self.consumer.seq, k)
            }
    }

    /// How many ticks were lost to a full ring.
    pub closed spec fn dropped(&self) -> u64 {
        self.dropped
    }

    pub fn new() -> (ring: Self)
        ensures
            ring.wf(),
            ring@ == Seq::<NormalizedTick>::empty(),
            ring.dropped() == 0,
    {
        let mut buffer: Vec<RingBufferNode> = Vec::with_capacity(RING_SIZE);
        let mut i: usize = 0;
        while i < RING_SIZE
            invariant
                i <= RING_SIZE,
                buffer@.len() == i,
                forall|j: int| 0 <= j < i ==> (#[trigger] buffer@[j]).sequence == j,
            decreases RING_SIZE - i,
        {
            buffer.push(RingBufferNode { sequence: i as u64, tick: NormalizedTick::default() });
            i += 1;
        }
        let ring = SpscDisruptor {
            buffer,
            producer: Cursor::new(0),
            consumer: Cursor::new(0),
            dropped: 0,
        };
        assert(ring@ =~= Seq::<NormalizedTick>::empty());
        ring
    }

    /// Puts a tick at the end of the ring. A full ring refuses it, and counts
    /// it as dropped.
    pub fn try_publish(&mut self, tick: NormalizedTick) -> (published: bool)
        requires
            old(self).wf(),
        ensures
            final(self).wf(),
            published == (old(self)@.len() < RING_SIZE),
            final(self)@ == after_publish(old(self)@, tick),
            published ==> final(self)@ == old(self)@.push(tick),
            !published ==> final(self)@ == old(self)@,
            final(self).dropped() == (if published {
                old(self).dropped()
            } else {
                one_more(old(self).dropped())
            }),
    {
        let prod: u64 = self.producer.seq;
        let index: usize = slot_index(prod);
        let ghost cons = self.consumer.seq;
        let ghost n = self.waiting();
        proof {
            lemma_slot_moves(cons, n as int);
            assert(prod == ahead_by(cons, n as int));
            if n == RING_SIZE {
                lemma_slot_moves(cons, 0);
                assert(slot(ahead_by(cons, 0)) == index);
            }
        }
        match claim_publish(prod, self.buffer[index].sequence) {
            None => {
                self.dropped = self.dropped.wrapping_add(1);
                assert(self@ =~= old(self)@);
                false
            },
            Some(counter) => {
                self.buffer[index] = RingBufferNode { sequence: counter, tick };
                self.producer = Cursor::new(next_cursor(prod));
                proof {
                    assert(self.waiting() == n + 1);
                    assert forall|k: int| 0 <= k < RING_SIZE implies self.buffer@[#[trigger] slot(
                        ahead_by(cons, k),
                    )].sequence == if k < n + 1 {
                        ahead_by(cons, k + 1)
                    } else {
                        ahead_by(cons, k)
                    } by {
                        lemma_slots_differ(cons, k, n as int);
                    }
                    assert forall|k: int| 0 <= k < n + 1 implies self@[k] == old(self)@.push(
                        tick,
                    )[k] by {
                        lemma_slots_differ(cons, k, n as int);
                    }
                    assert(self@ =~= old(self)@.push(tick));
                }
                true
            },
        }
    }

    /// Takes the oldest tick, if there is one.
    pub fn try_consume(&mut self) -> (tick: Option<NormalizedTick>)
        requires
            old(self).wf(),
        ensures
            final(self).wf(),
            final(self).dropped() == old(self).dropped(),
            final(self)@ == after_consume(old(self)@),
            old(self)@.len() > 0 ==> final(self)@ == old(self)@.drop_first(),
            old(self)@.len() == 0 ==> final(self)@ == old(self)@,
            tick == (if old(self)@.len() > 0 {
                Some(old(self)@[0])
            } else {
                None
            }),
    {
        let cons: u64 = self.consumer.seq;
        let index: usize = slot_index(cons);
        let ghost n = self.waiting();
        proof {
            lemma_slot_moves(cons, 0);
            assert(slot(ahead_by(cons, 0)) == index);
        }
        match claim_consume(cons, self.buffer[index].sequence) {
            None => None,
            Some(counter) => {
                let tick: NormalizedTick = self.buffer[index].tick;
                self.buffer[index] = RingBufferNode { sequence: counter, tick };
                self.consumer = Cursor::new(next_cursor(cons));
                proof {
                    let next = ahead_by(cons, 1);
                    assert(self.waiting() == n - 1);
                    assert forall|k: int| 0 <= k < RING_SIZE implies self.buffer@[#[trigger] slot(
                        ahead_by(next, k),
                    )].sequence == if k < n - 1 {
                        ahead_by(next, k + 1)
                    } else {
                        ahead_by(next, k)
                    } by {
                        assert(ahead_by(next, k) == ahead_by(cons, k + 1));
                        if k + 1 < RING_SIZE {
                            lemma_slots_differ(cons, k + 1, 0);
                        } else {
                            lemma_slot_moves(cons, RING_SIZE as int);
                        }
                    }
                    assert forall|k: int| 0 <= k < n - 1 implies self@[k] == old(
                        self,
                    )@.drop_first()[k] by {
                        assert(ahead_by(next, k) == ahead_by(cons, k + 1));
                        lemma_slots_differ(cons, k + 1, 0);
                    }
                    assert(self@ =~= old(self)@.drop_first());
                }
                Some(tick)
            },
        }
    }

    /// How many ticks wait in the ring.
    pub fn pending(&self) -> (pending: u64)
        ensures
            pending == self@.len(),
            self.wf() ==> pending <= RING_SIZE,
    {
        self.producer.seq.wrapping_sub(self.consumer.seq)
    }

    /// How many ticks were lost because the ring was full.
    pub fn dropped_count(&self) -> (count: u64)
        ensures
            count == self.dropped(),
    {
        self.dropped
    }

    /// How many ticks the ring can hold.
    pub fn capacity() -> (capacity: usize)
        ensures
            capacity == RING_SIZE,
            capacity == 4096,
    {
        RING_SIZE
    }
}

impl Default for SpscDisruptor {
    fn default() -> (ring: Self)
        ensures
            ring.wf(),
            ring@ == Seq::<NormalizedTick>::empty(),
            ring.dropped() == 0,
    {
        Self::new()
    }
}

/// Offering a tick puts it behind those that wait, if there are fewer than
/// 4096, and changes nothing else; taking one takes the oldest.
pub proof fn law_ring_calls_move_one_tick(waiting: Seq<NormalizedTick>, tick: NormalizedTick)
    ensures
        waiting.len() < 4096 ==> after_publish(waiting, tick) == waiting.push(tick),
        waiting.len() >= 4096 ==> after_publish(waiting, tick) == waiting,
        waiting.len() > 0 ==> after_consume(waiting) == waiting.subrange(
            1,
            waiting.len() as int,
        ),
        waiting.len() == 0 ==> after_consume(waiting) == waiting,
{
    if waiting.len() > 0 {
        assert(after_consume(waiting) =~= waiting.subrange(1, waiting.len() as int));
    }
}

/// Cursors move on around the end of their range, and around the slots.
pub proof fn law_cursors_go_round(cursor: u64, k: int)
    requires
        0 <= k <= u64::MAX,
    ensures
        ahead_by(cursor, k) == (cursor + k) % 0x1_0000_0000_0000_0000,
        slot(cursor) == cursor as int % 4096,
        slot(ahead_by(cursor, k)) == (cursor + k) % 4096,
{
}

/// The two halves of the handshake fit: what the producer sets for its cursor
/// is what the consumer waits for at the same one, and what the consumer then
/// sets is what the producer waits for one lap later. Any other counter is left
/// alone by either.
pub proof fn law_handshake_halves_fit(cursor: u64, seen: u64)
    ensures
        publish_counter(cursor, seen) is Some <==> seen == cursor,
        release_counter(cursor, seen) is Some <==> publish_counter(cursor, cursor) == Some(seen),
        publish_counter(cursor, cursor) matches Some(set) && release_counter(cursor, set) matches
            Some(back) && publish_counter(ahead_by(cursor, 4096), back) is Some,
        publish_counter(cursor, cursor)->0 == (cursor + 1) % 0x1_0000_0000_0000_0000,
        release_counter(cursor, publish_counter(cursor, cursor)->0)->0 == (cursor + 4096)
            % 0x1_0000_0000_0000_0000,
{
}

/// A ring never holds more than it has slots.
pub proof fn law_ring_is_bounded(ring: SpscDisruptor)
    requires
        ring.wf(),
    ensures
        ring@.len() <= RING_SIZE,
{
}

/// Moving a cursor moves its slot by as much, around the ring.
proof fn lemma_slot_moves(cursor: u64, k: int)
    requires
        0 <= k <= RING_SIZE,
    ensures
        slot(ahead_by(cursor, k)) == (cursor + k) % (RING_SIZE as int),
        0 <= slot(ahead_by(cursor, k)) < RING_SIZE,
{
}

/// Within one lap every step has a slot of its own.
proof fn lemma_slots_differ(cursor: u64, j: int, k: int)
    requires
        0 <= j < RING_SIZE,
        0 <= k < RING_SIZE,
    ensures
        slot(ahead_by(cursor, j)) == slot(ahead_by(cursor, k)) <==> j == k,
        0 <= slot(ahead_by(cursor, j)) < RING_SIZE,
        0 <= slot(ahead_by(cursor, k)) < RING_SIZE,
{
    lemma_slot_moves(cursor, j);
    lemma_slot_moves(cursor, k);
}

} // verus!
