use tick_timers::wheel::TimingWheel;

/// After exactly 64 advances the cursor is back at its initial position.
#[test]
fn cursor_returns_after_full_revolution() {
    let mut w: TimingWheel<u32> = TimingWheel::new();
    assert_eq!(w.position(), 0);
    for i in 0..64usize {
        assert_eq!(w.position(), i);
        w.tick();
    }
    assert_eq!(w.position(), 0);
}

/// A slot holds its items, with residuals, until the cursor reaches it.
#[test]
fn slot_drained_when_cursor_arrives() {
    let mut w: TimingWheel<&'static str> = TimingWheel::new();
    w.schedule(3, 17, "payload");
    assert!(w.tick().is_empty());
    assert!(w.tick().is_empty());
    assert!(w.tick().is_empty());
    assert_eq!(w.tick(), vec![(17, "payload")]);
    assert!(w.tick().is_empty());
}

/// Scheduling wraps around the ring relative to the cursor.
#[test]
fn schedule_wraps_around_ring() {
    let mut w: TimingWheel<u8> = TimingWheel::new();
    for _ in 0..60 {
        w.tick();
    }
    w.schedule(10, 0, 1);
    for _ in 0..10 {
        assert!(w.tick().is_empty());
    }
    assert_eq!(w.tick(), vec![(0, 1)]);
}

/// Insertion order within one slot is preserved by the drain.
#[test]
fn slot_preserves_insertion_order() {
    let mut w: TimingWheel<&'static str> = TimingWheel::new();
    w.schedule(0, 0, "a");
    w.schedule(0, 1, "b");
    w.schedule(0, 2, "c");
    assert_eq!(w.tick(), vec![(0, "a"), (1, "b"), (2, "c")]);
}
