use observe::GuestSpan;
use observe::SpanError;
use observe::SpanParent;
use observe::SpanTable;

#[test]
fn table_insert_get_remove() {
    let mut table = SpanTable::new(4);
    let span = GuestSpan::new("root".to_string(), SpanParent::Host);
    let handle = table.insert(span).unwrap();
    assert_eq!(handle, 0);
    assert_eq!(table.get(handle).unwrap().name, "root");
    let removed = table.remove(handle).unwrap();
    assert_eq!(removed.name, "root");
    // absence after removal is a legitimate outcome, not an error
    assert!(table.get(handle).is_none());
    assert!(table.remove(handle).is_none());
}

#[test]
fn table_capacity_bounds_insertion() {
    let mut table = SpanTable::new(1);
    table.insert(GuestSpan::new("a".to_string(), SpanParent::Host)).unwrap();
    assert_eq!(
        table.insert(GuestSpan::new("b".to_string(), SpanParent::Host)),
        Err(SpanError::ResourceExhausted)
    );
}

#[test]
fn table_handles_are_never_reused() {
    let mut table = SpanTable::new(2);
    let a = table.insert(GuestSpan::new("a".to_string(), SpanParent::Host)).unwrap();
    table.remove(a).unwrap();
    let b = table.insert(GuestSpan::new("b".to_string(), SpanParent::Host)).unwrap();
    assert_ne!(a, b);
    assert_eq!(b, 1);
}

#[test]
fn guest_span_enter_and_exit_toggle_ambience() {
    let mut span = GuestSpan::new("s".to_string(), SpanParent::Span(3));
    assert!(!span.entered);
    span.enter();
    assert!(span.entered);
    span.exit();
    assert!(!span.entered);
    assert_eq!(span.name, "s");
    assert!(matches!(span.parent, SpanParent::Span(3)));
}
