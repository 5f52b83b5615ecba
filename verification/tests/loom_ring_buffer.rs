//! Runs a producer and a consumer under every interleaving that loom finds.

use feedhandler::ring_buffer::{
    claim_consume, claim_publish, next_cursor, slot_index, SpscDisruptor, RING_SIZE,
};
use feedhandler::{Exchange, NormalizedTick, Price, Qty, Side, Symbol};
use loom::sync::atomic::{AtomicU64, Ordering};
use loom::sync::{Arc, Mutex};
use loom::thread;

fn tick(seq: u64) -> NormalizedTick {
    NormalizedTick::new(
        Price::new(seq),
        Qty::new(1),
        seq,
        0,
        0,
        Symbol::from_bytes(b"BTCUSDT"),
        Exchange::Binance,
        Side::Bid,
        false,
        0,
    )
}

// Producer and consumer race for the ring, both spin until they succeed.
#[test]
fn concurrent_publish_consume_preserves_order() {
    loom::model(|| {
        let ring = Arc::new(Mutex::new(SpscDisruptor::new()));
        const N: u64 = 3;

        let producer = {
            let ring = Arc::clone(&ring);
            thread::spawn(move || {
                for i in 0..N {
                    while !ring.lock().unwrap().try_publish(tick(i)) {
                        thread::yield_now();
                    }
                }
            })
        };

        let consumer = thread::spawn(move || {
            let mut seen = Vec::new();
            while seen.len() < 3 {
                let taken = ring.lock().unwrap().try_consume();
                match taken {
                    Some(t) => seen.push(t.sequence),
                    None => thread::yield_now(),
                }
            }
            seen
        });

        producer.join().unwrap();
        assert_eq!(consumer.join().unwrap(), (0..N).collect::<Vec<_>>());
    });
}

// One item more than the ring has slots, so the producer has to wait for the
// consumer and the slots are used for a second lap. All but one of the slots
// are filled ahead of the race.
#[test]
fn wraps_around_without_dropping_or_reordering() {
    loom::model(|| {
        let n = u64::try_from(RING_SIZE).unwrap() + 1;
        let mut filled = SpscDisruptor::new();
        for i in 0..n - 2 {
            assert!(filled.try_publish(tick(i)));
        }
        let ring = Arc::new(Mutex::new(filled));

        let producer = {
            let ring = Arc::clone(&ring);
            thread::spawn(move || {
                for i in n - 2..n {
                    while !ring.lock().unwrap().try_publish(tick(i)) {
                        thread::yield_now();
                    }
                }
            })
        };

        let consumer = {
            let ring = Arc::clone(&ring);
            thread::spawn(move || {
                let first = ring.lock().unwrap().try_consume();
                let second = ring.lock().unwrap().try_consume();
                [first.unwrap().sequence, second.unwrap().sequence]
            })
        };

        producer.join().unwrap();
        let mut seen = consumer.join().unwrap().to_vec();
        let mut ring = ring.lock().unwrap();
        while let Some(t) = ring.try_consume() {
            seen.push(t.sequence);
        }
        let mut last = None;
        for sequence in seen {
            if let Some(prev) = last {
                assert_eq!(sequence, prev + 1, "gap or reorder across the wrap");
            }
            last = Some(sequence);
        }
        assert_eq!(last, Some(n - 1));
    });
}

struct Slots {
    counters: Vec<AtomicU64>,
    payloads: Vec<AtomicU64>,
}

// The handshake alone orders the payload: it is written and read without any
// ordering of its own.
#[test]
fn the_handshake_makes_the_payload_visible() {
    loom::model(|| {
        let slots = Arc::new(Slots {
            counters: (0..3u64).map(AtomicU64::new).collect(),
            payloads: (0..3u64).map(|_| AtomicU64::new(0)).collect(),
        });

        let producer = {
            let slots = Arc::clone(&slots);
            thread::spawn(move || {
                let mut prod = 0u64;
                for payload in [70u64, 71, 72] {
                    let at = slot_index(prod);
                    let seen = slots.counters[at].load(Ordering::Acquire);
                    let counter = claim_publish(prod, seen).unwrap();
                    slots.payloads[at].store(payload, Ordering::Relaxed);
                    slots.counters[at].store(counter, Ordering::Release);
                    prod = next_cursor(prod);
                }
            })
        };

        let mut cons = 0u64;
        let mut taken = Vec::new();
        while taken.len() < 3 {
            let at = slot_index(cons);
            let seen = slots.counters[at].load(Ordering::Acquire);
            match claim_consume(cons, seen) {
                Some(counter) => {
                    taken.push(slots.payloads[at].load(Ordering::Relaxed));
                    slots.counters[at].store(counter, Ordering::Release);
                    cons = next_cursor(cons);
                }
                None => thread::yield_now(),
            }
        }
        producer.join().unwrap();
        assert_eq!(taken, vec![70, 71, 72]);
        let counters: Vec<u64> =
            slots.counters.iter().map(|c| c.load(Ordering::Relaxed)).collect();
        assert_eq!(counters, vec![4096, 4097, 4098]);
    });
}

// The three slots around the end of the array, the last one first.
struct Seam {
    counters: [AtomicU64; 3],
    payloads: [AtomicU64; 3],
}

impl Seam {
    fn with_counters(counters: [u64; 3], payloads: [u64; 3]) -> Arc<Seam> {
        Arc::new(Seam {
            counters: counters.map(AtomicU64::new),
            payloads: payloads.map(AtomicU64::new),
        })
    }

    fn place(cursor: u64) -> usize {
        match slot_index(cursor) {
            4095 => 0,
            0 => 1,
            1 => 2,
            other => panic!("slot {other} is not at the seam"),
        }
    }

    fn try_publish(&self, prod: u64, payload: u64) -> bool {
        let at = Seam::place(prod);
        let seen = self.counters[at].load(Ordering::Acquire);
        match claim_publish(prod, seen) {
            Some(counter) => {
                self.payloads[at].store(payload, Ordering::Relaxed);
                self.counters[at].store(counter, Ordering::Release);
                true
            }
            None => false,
        }
    }

    fn try_consume(&self, cons: u64) -> Option<u64> {
        let at = Seam::place(cons);
        let seen = self.counters[at].load(Ordering::Acquire);
        let counter = claim_consume(cons, seen)?;
        let payload = self.payloads[at].load(Ordering::Relaxed);
        self.counters[at].store(counter, Ordering::Release);
        Some(payload)
    }
}

// All slots but the last hold a tick. The second publish finds the ring full
// until the consumer has handed the first slot back, and then uses it for its
// second lap.
#[test]
fn the_handshake_waits_on_a_full_ring_and_wraps() {
    loom::model(|| {
        let seam = Seam::with_counters([4095, 1, 2], [0, 500, 501]);

        let producer = {
            let seam = Arc::clone(&seam);
            thread::spawn(move || {
                let mut prod = 4095u64;
                for payload in [4595u64, 4596] {
                    while !seam.try_publish(prod, payload) {
                        thread::yield_now();
                    }
                    prod = next_cursor(prod);
                }
            })
        };

        let mut taken = Vec::new();
        for cons in [0u64, 1] {
            taken.push(seam.try_consume(cons).expect("the slot holds a tick"));
        }
        producer.join().unwrap();
        assert_eq!(taken, vec![500, 501]);
        assert_eq!(seam.try_consume(4095), Some(4595));
        assert_eq!(seam.try_consume(4096), Some(4596));
        assert_eq!(seam.try_consume(4097), None);
    });
}

// An empty ring whose cursors stand at the last slot: both threads go round
// the end of the array.
#[test]
fn the_handshake_races_round_the_end_of_the_array() {
    loom::model(|| {
        let seam = Seam::with_counters([4095, 4096, 4097], [0, 0, 0]);

        let producer = {
            let seam = Arc::clone(&seam);
            thread::spawn(move || {
                let mut prod = 4095u64;
                for payload in [70u64, 71, 72] {
                    assert!(seam.try_publish(prod, payload));
                    prod = next_cursor(prod);
                }
            })
        };

        let mut cons = 4095u64;
        let mut taken = Vec::new();
        while taken.len() < 3 {
            match seam.try_consume(cons) {
                Some(payload) => {
                    taken.push(payload);
                    cons = next_cursor(cons);
                }
                None => thread::yield_now(),
            }
        }
        producer.join().unwrap();
        assert_eq!(taken, vec![70, 71, 72]);
    });
}
