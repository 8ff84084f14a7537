use tick_timers::scheduler::ScheduleError;
use tick_timers::scheduler::Timers;

/// Delay `d` delivers on the `(d + 1)`-th advance and on no other, for every
/// delay served by level 0.
#[test]
fn single_tick_delivery_level_zero() {
    for d in 0..64usize {
        let mut t: Timers<u32> = Timers::new();
        assert!(t.after(d, 42).is_ok());
        for i in 0..d {
            assert!(t.tick().is_empty(), "early delivery at advance {} for delay {}", i, d);
        }
        assert_eq!(t.tick(), vec![42]);
        for i in 0..200 {
            assert!(t.tick().is_empty(), "late delivery at advance {} for delay {}", i, d);
        }
    }
}

/// Delay 100 lands in level 1, cascades into level 0 at the revolution
/// boundary, and is delivered on advance 101 exactly.
#[test]
fn cross_level_cascade_delay_100() {
    let mut t: Timers<&'static str> = Timers::new();
    assert!(t.after(100, "cascaded").is_ok());
    for _ in 0..100 {
        assert!(t.tick().is_empty());
    }
    assert_eq!(t.tick(), vec!["cascaded"]);
    for _ in 0..500 {
        assert!(t.tick().is_empty());
    }
}

/// Three items with the same delay come back in scheduling order.
#[test]
fn fifo_within_tick() {
    let mut t: Timers<&'static str> = Timers::new();
    assert!(t.after(5, "A").is_ok());
    assert!(t.after(5, "B").is_ok());
    assert!(t.after(5, "C").is_ok());
    for _ in 0..5 {
        assert!(t.tick().is_empty());
    }
    assert_eq!(t.tick(), vec!["A", "B", "C"]);
}

/// Items scheduled for different ticks are delivered in tick order, each
/// alone, never reordered.
#[test]
fn no_cross_tick_reordering() {
    let mut t: Timers<&'static str> = Timers::new();
    assert!(t.after(3, "X").is_ok());
    assert!(t.after(1, "Y").is_ok());
    assert!(t.tick().is_empty());
    assert_eq!(t.tick(), vec!["Y"]);
    assert!(t.tick().is_empty());
    assert_eq!(t.tick(), vec!["X"]);
}

/// Items scheduled at different times for the same absolute tick are
/// delivered together, in scheduling order, even across a cascade.
#[test]
fn fifo_across_levels_same_tick() {
    let mut t: Timers<&'static str> = Timers::new();
    assert!(t.after(100, "first").is_ok());
    for _ in 0..50 {
        assert!(t.tick().is_empty());
    }
    assert!(t.after(50, "second").is_ok());
    for _ in 0..50 {
        assert!(t.tick().is_empty());
    }
    assert_eq!(t.tick(), vec!["first", "second"]);
}

/// A drain with nothing scheduled returns an empty sequence and leaves the
/// neighbouring slots untouched.
#[test]
fn idempotent_drain() {
    let mut t: Timers<u8> = Timers::new();
    for _ in 0..10 {
        assert!(t.tick().is_empty());
    }
    assert!(t.after(5, 1).is_ok());
    for _ in 0..5 {
        assert!(t.tick().is_empty());
    }
    assert_eq!(t.tick(), vec![1]);
    assert!(t.tick().is_empty());
}

/// The maximum representable delay is accepted; one beyond it is rejected
/// with `CapacityExceeded` and the scheduler keeps working as before.
#[test]
fn capacity_boundary() {
    let mut t: Timers<u8> = Timers::new();
    assert!(t.after(16777215, 1).is_ok());
    assert_eq!(t.after(16777216, 2), Err(ScheduleError::CapacityExceeded));
    assert_eq!(t.after(usize::MAX, 3), Err(ScheduleError::CapacityExceeded));
    assert!(t.after(0, 4).is_ok());
    assert_eq!(t.tick(), vec![4]);
}

/// `now` is the same as a delay of zero: delivery on the very next advance.
#[test]
fn now_fires_on_next_advance() {
    let mut t: Timers<&'static str> = Timers::new();
    t.now("immediate");
    assert_eq!(t.tick(), vec!["immediate"]);
    assert!(t.tick().is_empty());
}

/// With an empty level 1, a full revolution of level 0 delivers nothing; a
/// level-1 item is delivered by the one cascade inside the next span.
#[test]
fn wraparound_cascade_once_iff_nonempty() {
    let mut t: Timers<&'static str> = Timers::new();
    for _ in 0..64 {
        assert!(t.tick().is_empty());
    }
    assert!(t.after(64, "one-cascade").is_ok());
    for _ in 0..64 {
        assert!(t.tick().is_empty());
    }
    assert_eq!(t.tick(), vec!["one-cascade"]);
}

/// A level-2 delay is delivered on the exact advance after two cascades.
#[test]
fn deep_delay_level_two() {
    let mut t: Timers<u32> = Timers::new();
    assert!(t.after(5000, 9).is_ok());
    for _ in 0..5000 {
        assert!(t.tick().is_empty());
    }
    assert_eq!(t.tick(), vec![9]);
}

/// A level-3 delay is delivered on the exact advance after three cascades.
#[test]
fn deep_delay_level_three() {
    let mut t: Timers<u32> = Timers::new();
    assert!(t.after(262200, 11).is_ok());
    for _ in 0..262200 {
        assert!(t.tick().is_empty());
    }
    assert_eq!(t.tick(), vec![11]);
}

/// Scheduling mid-stream respects the current clock: the delay counts from
/// the moment of the call, not from start-up.
#[test]
fn delay_counts_from_current_clock() {
    let mut t: Timers<u32> = Timers::new();
    for _ in 0..70 {
        assert!(t.tick().is_empty());
    }
    assert!(t.after(130, 5).is_ok());
    for _ in 0..130 {
        assert!(t.tick().is_empty());
    }
    assert_eq!(t.tick(), vec![5]);
}
