use observe::CrossBoundaryPropagator;
use observe::ReparentAction;
use observe::SpanContext;
use observe::SpanData;
use observe::SpanError;
use observe::SpanStatus;

fn host_context() -> SpanContext {
    SpanContext { trace_id: 0xABCD, span_id: 77, trace_flags: 1 }
}

fn guest_context(span_id: u64) -> SpanContext {
    SpanContext { trace_id: 0xABCD, span_id, trace_flags: 1 }
}

fn span_data(span_id: u64, name: &str) -> SpanData {
    SpanData {
        name: name.to_string(),
        span_context: guest_context(span_id),
        parent_span_id: 77,
        start_time_unix_nano: 1_000,
        end_time_unix_nano: 2_000,
        status: SpanStatus::Okay,
        attributes: Vec::new(),
    }
}

#[test]
fn start_then_end_removes_the_mapping() {
    let mut propagator = CrossBoundaryPropagator::new(host_context());
    propagator.on_start(guest_context(5), host_context());
    assert_eq!(propagator.tracked_count(), 1);
    let finished = propagator.on_end(span_data(5, "G")).unwrap();
    assert_eq!(finished.name, "G");
    assert_eq!(propagator.tracked_count(), 0);
    // ending the same id again is a protocol violation, not a crash
    assert!(matches!(propagator.on_end(span_data(5, "G")), Err(SpanError::SpanNotFound)));
}

#[test]
fn end_of_unseen_id_changes_nothing() {
    let mut propagator = CrossBoundaryPropagator::new(host_context());
    propagator.on_start(guest_context(5), host_context());
    assert!(matches!(propagator.on_end(span_data(9, "X")), Err(SpanError::SpanNotFound)));
    assert_eq!(propagator.tracked_count(), 1);
    assert!(propagator.on_end(span_data(5, "G")).is_ok());
}

#[test]
fn original_host_span_id_is_captured_once() {
    let mut propagator = CrossBoundaryPropagator::new(host_context());
    assert_eq!(propagator.original_host_span_id(), None);
    propagator.on_start(guest_context(5), host_context());
    assert_eq!(propagator.original_host_span_id(), Some(77));
    // later activity never overwrites the record
    propagator.on_start(guest_context(6), guest_context(5));
    propagator.on_end(span_data(5, "G")).unwrap();
    assert_eq!(propagator.original_host_span_id(), Some(77));
}

#[test]
fn reparent_keeps_current_with_no_active_span() {
    let propagator = CrossBoundaryPropagator::new(host_context());
    assert_eq!(propagator.reparent_decision(123), ReparentAction::KeepCurrent);
}

#[test]
fn reparent_targets_last_active_guest_span() {
    let mut propagator = CrossBoundaryPropagator::new(host_context());
    propagator.on_start(guest_context(5), host_context());
    propagator.on_start(guest_context(6), guest_context(5));
    assert_eq!(
        propagator.reparent_decision(123),
        ReparentAction::Reparent(guest_context(6))
    );
    // ending the later span makes the earlier one the active one again
    propagator.on_end(span_data(6, "B")).unwrap();
    assert_eq!(
        propagator.reparent_decision(123),
        ReparentAction::Reparent(guest_context(5))
    );
}

#[test]
fn reparenting_the_original_host_span_is_flagged() {
    let mut propagator = CrossBoundaryPropagator::new(host_context());
    propagator.on_start(guest_context(5), host_context());
    assert_eq!(propagator.reparent_decision(77), ReparentAction::OriginalHostSpan);
}

#[test]
fn ambient_contexts_report_the_pre_guest_host_span() {
    let propagator = CrossBoundaryPropagator::new(host_context());
    assert_eq!(propagator.current_span_context(), host_context());
    assert_eq!(propagator.outer_span_context(), host_context());
}

#[test]
fn restarting_a_tracked_id_keeps_its_place() {
    let mut propagator = CrossBoundaryPropagator::new(host_context());
    propagator.on_start(guest_context(5), host_context());
    propagator.on_start(guest_context(6), guest_context(5));
    // a second start of id 5 updates its context but not its position,
    // so id 6 stays the active span
    let refreshed = SpanContext { trace_id: 0xABCD, span_id: 5, trace_flags: 0 };
    propagator.on_start(refreshed, host_context());
    assert_eq!(propagator.tracked_count(), 2);
    assert_eq!(
        propagator.reparent_decision(123),
        ReparentAction::Reparent(guest_context(6))
    );
    // the stored context of id 5 was replaced
    propagator.on_end(span_data(6, "B")).unwrap();
    assert_eq!(
        propagator.reparent_decision(123),
        ReparentAction::Reparent(refreshed)
    );
}
