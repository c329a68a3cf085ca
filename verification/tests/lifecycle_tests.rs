use observe::ObserveHostComponent;
use observe::SpanEffect;
use observe::SpanError;
use observe::SpanLifecycle;
use observe::SpanParent;

#[test]
fn enter_allocates_fresh_handles_in_order() {
    let component = ObserveHostComponent::new();
    let mut state = component.build_data();
    let a = state.enter("A".to_string()).unwrap();
    let b = state.enter("B".to_string()).unwrap();
    assert_eq!(a, 0);
    assert_eq!(b, 1);
    assert_eq!(state.active_count(), 2);
    assert_eq!(state.active_handles(), vec![a, b]);
}

#[test]
fn enter_parents_to_innermost_or_host() {
    let component = ObserveHostComponent::new();
    let mut state = component.build_data();
    let a = state.enter("A".to_string()).unwrap();
    let b = state.enter("B".to_string()).unwrap();
    let span_a = state.get_span(a).unwrap();
    assert_eq!(span_a.name, "A");
    assert!(matches!(span_a.parent, SpanParent::Host));
    assert!(span_a.entered);
    let span_b = state.get_span(b).unwrap();
    assert_eq!(span_b.name, "B");
    assert!(matches!(span_b.parent, SpanParent::Span(h) if h == a));
}

#[test]
fn closing_outer_cascades_innermost_first() {
    // enter("A") -> a; enter("B") -> b, nested under a; close(a): b exits,
    // then a exits, the stack is empty, and a later close(b) reports that
    // the span is no longer active.
    let component = ObserveHostComponent::new();
    let mut state = component.build_data();
    let a = state.enter("A".to_string()).unwrap();
    let b = state.enter("B".to_string()).unwrap();
    let closed = state.close(a).unwrap();
    assert_eq!(
        closed,
        vec![
            SpanEffect { handle: b, perform: true },
            SpanEffect { handle: a, perform: true },
        ]
    );
    assert_eq!(state.active_count(), 0);
    assert_eq!(state.close(b), Err(SpanError::NotActive));
}

#[test]
fn well_nested_closes_leave_stack_empty() {
    // A well-nested guest: every close targets the innermost open span.
    // After the outermost close returns, no span is open.
    let component = ObserveHostComponent::new();
    let mut state = component.build_data();
    let a = state.enter("A".to_string()).unwrap();
    let b = state.enter("B".to_string()).unwrap();
    let closed_b = state.close(b).unwrap();
    assert_eq!(closed_b, vec![SpanEffect { handle: b, perform: true }]);
    assert_eq!(state.active_handles(), vec![a]);
    let closed_a = state.close(a).unwrap();
    assert_eq!(closed_a, vec![SpanEffect { handle: a, perform: true }]);
    assert_eq!(state.active_count(), 0);
}

#[test]
fn close_of_unknown_handle_is_not_fatal() {
    let component = ObserveHostComponent::new();
    let mut state = component.build_data();
    assert_eq!(state.close(7), Err(SpanError::NotActive));
    // the condition is recoverable: the state still works
    let a = state.enter("A".to_string()).unwrap();
    assert_eq!(state.active_handles(), vec![a]);
}

#[test]
fn drop_cascades_like_close() {
    let component = ObserveHostComponent::new();
    let mut state = component.build_data();
    let a = state.enter("A".to_string()).unwrap();
    let b = state.enter("B".to_string()).unwrap();
    let c = state.enter("C".to_string()).unwrap();
    let closed = state.drop_handle(b);
    assert_eq!(
        closed,
        vec![
            SpanEffect { handle: c, perform: true },
            SpanEffect { handle: b, perform: true },
        ]
    );
    assert_eq!(state.active_handles(), vec![a]);
}

#[test]
fn drop_is_idempotent_with_close() {
    let component = ObserveHostComponent::new();
    let mut state = component.build_data();
    let a = state.enter("A".to_string()).unwrap();
    let closed = state.close(a).unwrap();
    assert_eq!(closed.len(), 1);
    // dropping the handle after it was closed changes nothing
    assert_eq!(state.drop_handle(a), vec![]);
    assert_eq!(state.drop_handle(a), vec![]);
    assert_eq!(state.active_count(), 0);
}

#[test]
fn table_capacity_is_a_recoverable_error() {
    let mut state = SpanLifecycle::new(2);
    let _a = state.enter("A".to_string()).unwrap();
    let b = state.enter("B".to_string()).unwrap();
    assert_eq!(state.enter("C".to_string()), Err(SpanError::ResourceExhausted));
    // closing a span frees room again, and handles are never reused
    state.close(b).unwrap();
    let c = state.enter("C".to_string()).unwrap();
    assert_eq!(c, 2);
}

#[test]
fn default_capacity_fills_to_the_limit() {
    let component = ObserveHostComponent::new();
    let mut state = component.build_data();
    for i in 0..1024u32 {
        assert_eq!(state.enter(format!("span-{}", i)).unwrap(), i);
    }
    assert_eq!(state.enter("overflow".to_string()), Err(SpanError::ResourceExhausted));
    assert_eq!(state.active_count(), 1024);
    let closed = state.cancel();
    assert_eq!(closed.len(), 1024);
    assert_eq!(closed[0].handle, 1023);
    assert_eq!(closed[1023].handle, 0);
    assert_eq!(state.active_count(), 0);
}

#[test]
fn removed_handles_read_as_absent() {
    let component = ObserveHostComponent::new();
    let mut state = component.build_data();
    let a = state.enter("A".to_string()).unwrap();
    assert!(state.is_active(a));
    state.close(a).unwrap();
    assert!(!state.is_active(a));
    assert!(state.get_span(a).is_none());
}
