use feedhandler::ring_buffer::{
    claim_consume, claim_publish, next_cursor, slot_index, SpscDisruptor, RING_SIZE,
};
use feedhandler::NormalizedTick;

fn tick(sequence: u64) -> NormalizedTick {
    NormalizedTick { sequence, ..NormalizedTick::default() }
}

#[test]
fn ticks_come_out_in_the_order_they_went_in() {
    let mut ring = SpscDisruptor::default();
    assert_eq!(ring.try_consume(), None);
    for i in 0..10 {
        assert!(ring.try_publish(tick(i)));
    }
    assert_eq!(ring.pending(), 10);
    for i in 0..10 {
        assert_eq!(ring.try_consume(), Some(tick(i)));
    }
    assert_eq!(ring.try_consume(), None);
    assert_eq!(ring.pending(), 0);
}

#[test]
fn a_full_ring_refuses_and_counts() {
    let mut ring = SpscDisruptor::new();
    for i in 0..4096 {
        assert!(ring.try_publish(tick(i)));
    }
    assert_eq!(ring.dropped_count(), 0);
    assert!(!ring.try_publish(tick(9_999)));
    assert!(!ring.try_publish(tick(9_999)));
    assert_eq!(ring.dropped_count(), 2);
    assert_eq!(ring.pending(), 4096);
    assert_eq!(ring.try_consume(), Some(tick(0)));
    assert!(ring.try_publish(tick(4096)));
    assert_eq!(ring.dropped_count(), 2);
    for i in 1..=4096 {
        assert_eq!(ring.try_consume(), Some(tick(i)));
    }
    assert_eq!(ring.try_consume(), None);
}

#[test]
fn the_slots_serve_many_laps() {
    let mut ring = SpscDisruptor::new();
    for i in 0..20_000 {
        assert!(ring.try_publish(tick(2 * i)));
        assert!(ring.try_publish(tick(2 * i + 1)));
        assert_eq!(ring.try_consume(), Some(tick(2 * i)));
        assert_eq!(ring.try_consume(), Some(tick(2 * i + 1)));
    }
    assert_eq!(ring.dropped_count(), 0);
}

#[test]
fn the_ring_has_as_many_slots_as_it_says() {
    assert_eq!(SpscDisruptor::capacity(), 4096);
    assert_eq!(RING_SIZE, 4096);
    assert_eq!(slot_index(4095), 4095);
    assert_eq!(slot_index(4096), 0);
    assert_eq!(slot_index(u64::MAX), 4095);
}

#[test]
fn the_handshake_goes_round_the_end_of_the_range() {
    assert_eq!(next_cursor(u64::MAX), 0);
    assert_eq!(claim_publish(u64::MAX, u64::MAX), Some(0));
    assert_eq!(claim_publish(5, 6), None);
    assert_eq!(claim_consume(u64::MAX, 0), Some(4095));
    assert_eq!(claim_consume(5, 6), Some(4101));
    assert_eq!(claim_consume(5, 5), None);
}
