//! What holds of the ring over any run of calls, and of its handshake under
//! any interleaving of the two threads.

use crate::ring_buffer::{
    after_consume, after_publish, ahead_by, publish_counter, release_counter, slot, RING_SIZE,
};
use crate::types::NormalizedTick;
use vstd::prelude::*;

verus! {

/// A call on the ring.
pub enum RingCall {
    Publish(NormalizedTick),
    Consume,
}

/// The course of a run of calls: what waits, what was accepted, what was
/// handed out, and how many ticks were refused.
#[verifier::ext_equal]
pub struct RingRun {
    pub waiting: Seq<NormalizedTick>,
    pub accepted: Seq<NormalizedTick>,
    pub taken: Seq<NormalizedTick>,
    pub refused: nat,
}

impl RingRun {
    /// A run that starts with these ticks in the ring.
    pub open spec fn start(waiting: Seq<NormalizedTick>) -> RingRun {
        RingRun { waiting, accepted: Seq::empty(), taken: Seq::empty(), refused: 0 }
    }

    pub open spec fn call(self, call: RingCall) -> RingRun {
        match call {
            RingCall::Publish(tick) => {
                if self.waiting.len() < RING_SIZE {
                    RingRun {
                        waiting: after_publish(self.waiting, tick),
                        accepted: self.accepted.push(tick),
                        ..self
                    }
                } else {
                    RingRun {
                        waiting: after_publish(self.waiting, tick),
                        refused: self.refused + 1,
                        ..self
                    }
                }
            },
            RingCall::Consume => {
                if self.waiting.len() > 0 {
                    RingRun {
                        waiting: after_consume(self.waiting),
                        taken: self.taken.push(self.waiting[0]),
                        ..self
                    }
                } else {
                    RingRun { waiting: after_consume(self.waiting), ..self }
                }
            },
        }
    }

    pub open spec fn calls(self, calls: Seq<RingCall>) -> RingRun
        decreases calls.len(),
    {
        if calls.len() == 0 {
            self
        } else {
            self.calls(calls.drop_last()).call(calls.last())
        }
    }
}

/// How many of the calls offer a tick.
pub open spec fn offers(calls: Seq<RingCall>) -> nat
    decreases calls.len(),
{
    if calls.len() == 0 {
        0
    } else {
        offers(calls.drop_last()) + if calls.last() is Publish {
            1nat
        } else {
            0nat
        }
    }
}

/// Nothing is lost, repeated or reordered: whatever the calls, what was in
/// the ring followed by what it accepted is what it handed out followed by
/// what it still holds. Every tick offered was either accepted or counted as
/// refused, and the ring never outgrows its slots.
pub proof fn law_ring_is_first_in_first_out(waiting: Seq<NormalizedTick>, calls: Seq<RingCall>)
    requires
        waiting.len() <= RING_SIZE,
    ensures
        ({
            let run = RingRun::start(waiting).calls(calls);
            &&& waiting + run.accepted == run.taken + run.waiting
            &&& run.accepted.len() + run.refused == offers(calls)
            &&& run.waiting.len() <= RING_SIZE
        }),
    decreases calls.len(),
{
    if calls.len() == 0 {
        assert(waiting + Seq::<NormalizedTick>::empty() =~= Seq::<NormalizedTick>::empty()
            + waiting);
    } else {
        law_ring_is_first_in_first_out(waiting, calls.drop_last());
        let before = RingRun::start(waiting).calls(calls.drop_last());
        let after = RingRun::start(waiting).calls(calls);
        match calls.last() {
            RingCall::Publish(tick) => {
                if before.waiting.len() < RING_SIZE {
                    assert(waiting + after.accepted =~= (waiting + before.accepted).push(tick));
                    assert(after.taken + after.waiting =~= (before.taken + before.waiting).push(
                        tick,
                    ));
                }
            },
            RingCall::Consume => {
                if before.waiting.len() > 0 {
                    assert(after.taken + after.waiting =~= before.taken + before.waiting);
                }
            },
        }
    }
}

/// A tick published into an empty ring is the next one taken.
pub proof fn law_publish_then_consume(tick: NormalizedTick)
    ensures
        after_publish(Seq::empty(), tick)[0] == tick,
        after_consume(after_publish(Seq::empty(), tick)) == Seq::<NormalizedTick>::empty(),
{
    assert(after_consume(after_publish(Seq::empty(), tick)) =~= Seq::<NormalizedTick>::empty());
}

/// Where the producer stands in handing over a tick.
pub enum ProducerPhase {
    Idle,
    /// It has seen the slot writable and is about to fill it.
    Claimed(NormalizedTick),
    /// It has filled the slot and is about to set its counter.
    Written(NormalizedTick),
    /// It has set the counter and is about to move its cursor.
    Announced,
}

/// Where the consumer stands in taking over a tick.
pub enum ConsumerPhase {
    Idle,
    /// It has seen the slot readable and is about to read it.
    Ready,
    /// It has read the slot and is about to hand it back.
    Holding(NormalizedTick),
    /// It has handed the slot back and is about to move its cursor.
    Released,
}

/// One access to the shared memory of the ring.
pub enum Access {
    /// The producer, with a tick to hand over, reads its slot's counter.
    CheckSlot(NormalizedTick),
    /// The producer writes the tick into the slot.
    WriteTick,
    /// The producer sets the slot's counter.
    Announce,
    /// The producer moves its cursor.
    AdvanceProducer,
    /// The consumer reads its slot's counter.
    LookAtSlot,
    /// The consumer reads the tick out of the slot.
    ReadTick,
    /// The consumer sets the slot's counter.
    Release,
    /// The consumer moves its cursor.
    AdvanceConsumer,
}

/// The ring as two threads share it, seen between two accesses. Accesses
/// take effect one after another, in any order the threads allow.
#[verifier::ext_equal]
pub struct SharedRing {
    pub counters: Seq<u64>,
    pub ticks: Seq<NormalizedTick>,
    pub prod: u64,
    pub cons: u64,
    pub producer: ProducerPhase,
    pub consumer: ConsumerPhase,
    /// The ticks announced so far.
    pub sent: Seq<NormalizedTick>,
    /// The ticks taken over so far.
    pub received: Seq<NormalizedTick>,
}

impl SharedRing {
    /// A ring nobody has touched: each slot's counter is its own index.
    pub open spec fn fresh(ticks: Seq<NormalizedTick>) -> SharedRing {
        SharedRing {
            counters: Seq::new(RING_SIZE as nat, |i: int| i as u64),
            ticks,
            prod: 0,
            cons: 0,
            producer: ProducerPhase::Idle,
            consumer: ConsumerPhase::Idle,
            sent: Seq::empty(),
            received: Seq::empty(),
        }
    }

    /// The ring after one access. An access that its thread is not up to
    /// leaves it as it is.
    pub open spec fn step(self, access: Access) -> SharedRing {
        match (access, self.producer, self.consumer) {
            (Access::CheckSlot(tick), ProducerPhase::Idle, _) => {
                if publish_counter(self.prod, self.counters[slot(self.prod)]) is Some {
                    SharedRing { producer: ProducerPhase::Claimed(tick), ..self }
                } else {
                    self
                }
            },
            (Access::WriteTick, ProducerPhase::Claimed(tick), _) => SharedRing {
                ticks: self.ticks.update(slot(self.prod), tick),
                producer: ProducerPhase::Written(tick),
                ..self
            },
            (Access::Announce, ProducerPhase::Written(tick), _) => SharedRing {
                counters: self.counters.update(slot(self.prod), ahead_by(self.prod, 1)),
                producer: ProducerPhase::Announced,
                sent: self.sent.push(tick),
                ..self
            },
            (Access::AdvanceProducer, ProducerPhase::Announced, _) => SharedRing {
                prod: ahead_by(self.prod, 1),
                producer: ProducerPhase::Idle,
                ..self
            },
            (Access::LookAtSlot, _, ConsumerPhase::Idle) => {
                if release_counter(self.cons, self.counters[slot(self.cons)]) is Some {
                    SharedRing { consumer: ConsumerPhase::Ready, ..self }
                } else {
                    self
                }
            },
            (Access::ReadTick, _, ConsumerPhase::Ready) => SharedRing {
                consumer: ConsumerPhase::Holding(self.ticks[slot(self.cons)]),
                ..self
            },
            (Access::Release, _, ConsumerPhase::Holding(tick)) => SharedRing {
                counters: self.counters.update(
                    slot(self.cons),
                    ahead_by(self.cons, RING_SIZE as int),
                ),
                consumer: ConsumerPhase::Released,
                received: self.received.push(tick),
                ..self
            },
            (Access::AdvanceConsumer, _, ConsumerPhase::Released) => SharedRing {
                cons: ahead_by(self.cons, 1),
                consumer: ConsumerPhase::Idle,
                ..self
            },
            _ => self,
        }
    }

    pub open spec fn run(self, accesses: Seq<Access>) -> SharedRing
        decreases accesses.len(),
    {
        if accesses.len() == 0 {
            self
        } else {
            self.run(accesses.drop_last()).step(accesses.last())
        }
    }

    /// The ticks sent and not yet received, oldest first.
    pub open spec fn under_way(self) -> Seq<NormalizedTick> {
        self.sent.skip(self.received.len() as int)
    }

    /// The slot the producer is about to write, or has written but not yet
    /// announced.
    pub open spec fn being_written(self) -> Option<int> {
        match self.producer {
            ProducerPhase::Claimed(_) => Some(slot(self.prod)),
            ProducerPhase::Written(_) => Some(slot(self.prod)),
            _ => None,
        }
    }

    /// The slot the consumer is about to read, or has read but not yet
    /// handed back.
    pub open spec fn being_read(self) -> Option<int> {
        match self.consumer {
            ConsumerPhase::Ready => Some(slot(self.cons)),
            ConsumerPhase::Holding(_) => Some(slot(self.cons)),
            _ => None,
        }
    }

    /// What every interleaving keeps.
    pub open spec fn inv(self) -> bool {
        let s = self.sent.len() as int;
        let r = self.received.len() as int;
        &&& self.counters.len() == RING_SIZE
        &&& self.ticks.len() == RING_SIZE
        &&& r <= s <= r + RING_SIZE
        &&& self.received == self.sent.take(r)
        &&& forall|i: int|
            r <= i < r + RING_SIZE ==> #[trigger] self.counters[ring_slot(i)] == if i < s {
                counter_of(i + 1)
            } else {
                counter_of(i)
            }
        &&& forall|i: int| r <= i < s ==> #[trigger] self.ticks[ring_slot(i)] == self.sent[i]
        &&& match self.producer {
            ProducerPhase::Idle => self.prod == counter_of(s),
            ProducerPhase::Claimed(tick) => self.prod == counter_of(s) && s < r + RING_SIZE,
            ProducerPhase::Written(tick) => {
                &&& self.prod == counter_of(s)
                &&& s < r + RING_SIZE
                &&& self.ticks[ring_slot(s)] == tick
            },
            ProducerPhase::Announced => s >= 1 && self.prod == counter_of(s - 1),
        }
        &&& match self.consumer {
            ConsumerPhase::Idle => self.cons == counter_of(r),
            ConsumerPhase::Ready => self.cons == counter_of(r) && r < s,
            ConsumerPhase::Holding(tick) => {
                &&& self.cons == counter_of(r)
                &&& r < s
                &&& tick == self.sent[r]
            },
            ConsumerPhase::Released => r >= 1 && self.cons == counter_of(r - 1),
        }
    }
}

/// The cursor after `n` steps from zero.
pub open spec fn counter_of(n: int) -> u64 {
    (n % 0x1_0000_0000_0000_0000) as u64
}

/// The slot of the `n`-th tick.
pub open spec fn ring_slot(n: int) -> int {
    n % (RING_SIZE as int)
}

proof fn lemma_counters(n: int, m: int)
    requires
        0 <= n,
        0 <= m,
        n - RING_SIZE <= m <= n + RING_SIZE,
    ensures
        slot(counter_of(n)) == ring_slot(n),
        0 <= ring_slot(n) < RING_SIZE,
        ahead_by(counter_of(n), 1) == counter_of(n + 1),
        ahead_by(counter_of(n), RING_SIZE as int) == counter_of(n + RING_SIZE),
        counter_of(n) == counter_of(m) <==> n == m,
        n - RING_SIZE < m < n + RING_SIZE ==> (ring_slot(n) == ring_slot(m) <==> n == m),
        ring_slot(n + RING_SIZE) == ring_slot(n),
{
}

/// A fresh ring satisfies what every interleaving keeps.
pub proof fn lemma_fresh_ring_is_sound(ticks: Seq<NormalizedTick>)
    requires
        ticks.len() == RING_SIZE,
    ensures
        SharedRing::fresh(ticks).inv(),
{
    let ring = SharedRing::fresh(ticks);
    assert(ring.sent.take(0) =~= Seq::<NormalizedTick>::empty());
}

/// Every access keeps it.
pub proof fn lemma_access_keeps_ring_sound(ring: SharedRing, access: Access)
    requires
        ring.inv(),
    ensures
        ring.step(access).inv(),
{
    let s = ring.sent.len() as int;
    let r = ring.received.len() as int;
    let after = ring.step(access);
    lemma_counters(s, r);
    lemma_counters(r, s);
    match (access, ring.producer, ring.consumer) {
        (Access::CheckSlot(tick), ProducerPhase::Idle, _) => {
            if s == r + RING_SIZE {
                assert(ring.counters[ring_slot(r)] == counter_of(r + 1));
                lemma_counters(s, r + 1);
            }
        },
        (Access::WriteTick, ProducerPhase::Claimed(tick), _) => {
            assert forall|i: int| r <= i < s implies #[trigger] after.ticks[ring_slot(i)]
                == after.sent[i] by {
                lemma_counters(i, s);
                assert(ring.ticks[ring_slot(i)] == ring.sent[i]);
            }
        },
        (Access::Announce, ProducerPhase::Written(tick), _) => {
            assert(after.received =~= after.sent.take(r));
            assert forall|i: int| r <= i < r + RING_SIZE implies #[trigger] after.counters[ring_slot(
                i,
            )] == if i < s + 1 {
                counter_of(i + 1)
            } else {
                counter_of(i)
            } by {
                lemma_counters(i, s);
                assert(ring.counters[ring_slot(i)] == if i < s {
                    counter_of(i + 1)
                } else {
                    counter_of(i)
                });
            }
            assert forall|i: int| r <= i < s + 1 implies #[trigger] after.ticks[ring_slot(i)]
                == after.sent[i] by {
                if i < s {
                    assert(ring.ticks[ring_slot(i)] == ring.sent[i]);
                }
            }
        },
        (Access::AdvanceProducer, ProducerPhase::Announced, _) => {
            lemma_counters(s - 1, s);
        },
        (Access::LookAtSlot, _, ConsumerPhase::Idle) => {
            assert(ring.counters[ring_slot(r)] == if r < s {
                counter_of(r + 1)
            } else {
                counter_of(r)
            });
            lemma_counters(r, r + 1);
        },
        (Access::ReadTick, _, ConsumerPhase::Ready) => {
            assert(ring.ticks[ring_slot(r)] == ring.sent[r]);
        },
        (Access::Release, _, ConsumerPhase::Holding(tick)) => {
            assert(after.received =~= after.sent.take(r + 1));
            assert forall|i: int| r + 1 <= i < r + 1 + RING_SIZE implies
                #[trigger] after.counters[ring_slot(i)] == if i < s {
                counter_of(i + 1)
            } else {
                counter_of(i)
            } by {
                lemma_counters(r, i);
                if i < r + RING_SIZE {
                    assert(ring.counters[ring_slot(i)] == if i < s {
                        counter_of(i + 1)
                    } else {
                        counter_of(i)
                    });
                }
            }
            assert forall|i: int| r + 1 <= i < s implies #[trigger] after.ticks[ring_slot(i)]
                == after.sent[i] by {
                assert(ring.ticks[ring_slot(i)] == ring.sent[i]);
            }
        },
        (Access::AdvanceConsumer, _, ConsumerPhase::Released) => {
            lemma_counters(r - 1, r);
        },
        _ => {},
    }
}

/// Under every interleaving of the two threads' accesses the consumer
/// receives exactly what the producer sent, in order and without a hole; at
/// most a ring's worth is under way; and no slot is ever read by one thread
/// while the other writes it.
pub proof fn law_every_interleaving_preserves_order(
    ticks: Seq<NormalizedTick>,
    accesses: Seq<Access>,
)
    requires
        ticks.len() == RING_SIZE,
    ensures
        ({
            let ring = SharedRing::fresh(ticks).run(accesses);
            &&& ring.inv()
            &&& ring.received.len() <= ring.sent.len() <= ring.received.len() + RING_SIZE
            &&& ring.received == ring.sent.take(ring.received.len() as int)
            &&& ring.being_written() is Some && ring.being_read() is Some
                ==> ring.being_written() != ring.being_read()
        }),
    decreases accesses.len(),
{
    let ring = SharedRing::fresh(ticks).run(accesses);
    if accesses.len() == 0 {
        lemma_fresh_ring_is_sound(ticks);
    } else {
        law_every_interleaving_preserves_order(ticks, accesses.drop_last());
        lemma_access_keeps_ring_sound(
            SharedRing::fresh(ticks).run(accesses.drop_last()),
            accesses.last(),
        );
    }
    lemma_counters(ring.sent.len() as int, ring.received.len() as int);
    lemma_counters(ring.received.len() as int, ring.sent.len() as int);
}

/// Neither thread is turned away without cause: an idle producer is refused
/// exactly when a full ring is waiting to be received, an idle consumer
/// exactly when everything sent has been received.
pub proof fn law_refused_only_when_full_or_empty(ring: SharedRing)
    requires
        ring.inv(),
    ensures
        ring.producer is Idle ==> (publish_counter(ring.prod, ring.counters[slot(ring.prod)])
            is None <==> ring.sent.len() == ring.received.len() + RING_SIZE),
        ring.consumer is Idle ==> (release_counter(ring.cons, ring.counters[slot(ring.cons)])
            is None <==> ring.sent.len() == ring.received.len()),
{
    let s = ring.sent.len() as int;
    let r = ring.received.len() as int;
    lemma_counters(s, r);
    lemma_counters(r, s);
    lemma_counters(r, r + 1);
    assert(ring.counters[ring_slot(r)] == if r < s {
        counter_of(r + 1)
    } else {
        counter_of(r)
    });
    if s == r + RING_SIZE {
        lemma_counters(s, r + 1);
    } else {
        assert(ring.counters[ring_slot(s)] == counter_of(s));
    }
}

/// A publish or a consume that runs through without interruption does to the
/// ticks under way what the single-threaded ring does to its waiting ticks.
pub proof fn law_uninterrupted_handshake_is_a_ring_call(ring: SharedRing, tick: NormalizedTick)
    requires
        ring.inv(),
        ring.producer is Idle,
        ring.consumer is Idle,
    ensures
        ({
            let after = ring.step(Access::CheckSlot(tick)).step(Access::WriteTick).step(
                Access::Announce,
            ).step(Access::AdvanceProducer);
            &&& after.producer is Idle
            &&& after.under_way() == after_publish(ring.under_way(), tick)
        }),
        ({
            let after = ring.step(Access::LookAtSlot).step(Access::ReadTick).step(
                Access::Release,
            ).step(Access::AdvanceConsumer);
            &&& after.consumer is Idle
            &&& after.under_way() == after_consume(ring.under_way())
            &&& ring.under_way().len() > 0 ==> after.received == ring.received.push(
                ring.under_way()[0],
            )
        }),
{
    law_refused_only_when_full_or_empty(ring);
    let s = ring.sent.len() as int;
    let r = ring.received.len() as int;
    lemma_counters(s, r);
    lemma_counters(r, s);
    let published = ring.step(Access::CheckSlot(tick)).step(Access::WriteTick).step(
        Access::Announce,
    ).step(Access::AdvanceProducer);
    assert(published.under_way() =~= after_publish(ring.under_way(), tick));
    let consumed = ring.step(Access::LookAtSlot).step(Access::ReadTick).step(Access::Release).step(
        Access::AdvanceConsumer,
    );
    if r < s {
        assert(ring.ticks[ring_slot(r)] == ring.sent[r]);
    }
    assert(consumed.under_way() =~= after_consume(ring.under_way()));
}

} // verus!
