use local_mcp::clock::{cutoff_before, from_epoch, to_epoch, Span, Timestamp};

#[test]
fn moments_are_written_down_to_the_second() {
    let t = Timestamp { secs: 1234, nanos: 999_999_999 };
    assert_eq!(to_epoch(t), 1234);
    assert_eq!(from_epoch(to_epoch(t)), Timestamp { secs: 1234, nanos: 0 });
    assert_eq!(to_epoch(Timestamp { secs: -1, nanos: 5 }), 0);
    assert_eq!(from_epoch(-7), Timestamp { secs: 0, nanos: 0 });
}

#[test]
fn moments_are_ordered() {
    let a = Timestamp { secs: 5, nanos: 1 };
    assert!(a.is_before(&Timestamp { secs: 6, nanos: 0 }));
    assert!(a.is_before(&Timestamp { secs: 5, nanos: 2 }));
    assert!(!a.is_before(&a));
    assert!(!a.is_before(&Timestamp { secs: 5, nanos: 0 }));
    assert_eq!(a.plus_secs(600), Timestamp { secs: 605, nanos: 1 });
}

#[test]
fn a_cutoff_borrows_and_saturates() {
    let now = Timestamp { secs: 100, nanos: 5 };
    assert_eq!(cutoff_before(now, Span { secs: 30, nanos: 5 }), 70);
    assert_eq!(cutoff_before(now, Span { secs: 30, nanos: 6 }), 69);
    assert_eq!(cutoff_before(now, Span { secs: 101, nanos: 0 }), 0);
    assert_eq!(cutoff_before(now, Span { secs: u64::MAX, nanos: 0 }), 0);
    assert_eq!(Span { secs: 2, nanos: 3 }.total_nanos(), 2_000_000_003);
}
