use observe::ObserveHostComponent;
use observe::SpanEffect;

#[test]
fn poll_brackets_enter_and_exit_every_open_span() {
    let component = ObserveHostComponent::new();
    let mut state = component.build_data();
    let a = state.enter("A".to_string()).unwrap();
    let b = state.enter("B".to_string()).unwrap();
    // both spans are ambient since their creation; the poll's exit bracket
    // exits them inner to outer
    let exits = state.poll_end();
    assert_eq!(
        exits,
        vec![
            SpanEffect { handle: b, perform: true },
            SpanEffect { handle: a, perform: true },
        ]
    );
    // resuming re-enters them outer to inner
    let enters = state.poll_begin();
    assert_eq!(
        enters,
        vec![
            SpanEffect { handle: a, perform: true },
            SpanEffect { handle: b, perform: true },
        ]
    );
    // a second begin without an exit in between owes nothing
    let enters_again = state.poll_begin();
    assert_eq!(
        enters_again,
        vec![
            SpanEffect { handle: a, perform: false },
            SpanEffect { handle: b, perform: false },
        ]
    );
}

#[test]
fn cancellation_exits_all_open_spans_in_reverse() {
    // Dropping the driving future mid-flight: every span open at the moment
    // of cancellation is exited exactly once, innermost first, and the
    // stack is empty afterwards.
    let component = ObserveHostComponent::new();
    let mut state = component.build_data();
    let a = state.enter("A".to_string()).unwrap();
    let b = state.enter("B".to_string()).unwrap();
    let c = state.enter("C".to_string()).unwrap();
    let closed = state.cancel();
    assert_eq!(
        closed,
        vec![
            SpanEffect { handle: c, perform: true },
            SpanEffect { handle: b, perform: true },
            SpanEffect { handle: a, perform: true },
        ]
    );
    assert_eq!(state.active_count(), 0);
    assert!(state.get_span(a).is_none());
    // a second cancellation owes nothing
    assert_eq!(state.cancel(), vec![]);
}

#[test]
fn poll_once_then_cancel_exits_once() {
    // enter("A") happens during the only poll; the poll's exit bracket
    // exits A; dropping the future before a second poll owes no second
    // exit: exactly one exit of the span is recorded overall.
    let component = ObserveHostComponent::new();
    let mut state = component.build_data();
    let enters = state.poll_begin();
    assert_eq!(enters, vec![]);
    let a = state.enter("A".to_string()).unwrap();
    let exits = state.poll_end();
    assert_eq!(exits, vec![SpanEffect { handle: a, perform: true }]);
    let closed = state.cancel();
    assert_eq!(closed, vec![SpanEffect { handle: a, perform: false }]);
    let exits_of_a = exits
        .iter()
        .chain(closed.iter())
        .filter(|effect| effect.handle == a && effect.perform)
        .count();
    assert_eq!(exits_of_a, 1);
    assert_eq!(state.active_count(), 0);
}

#[test]
fn close_during_a_poll_exits_only_once() {
    // A span closed inside a poll is exited by the close itself; the poll's
    // exit bracket afterwards only exits the spans still open.
    let component = ObserveHostComponent::new();
    let mut state = component.build_data();
    let a = state.enter("A".to_string()).unwrap();
    let b = state.enter("B".to_string()).unwrap();
    let closed = state.close(b).unwrap();
    assert_eq!(closed, vec![SpanEffect { handle: b, perform: true }]);
    let exits = state.poll_end();
    assert_eq!(exits, vec![SpanEffect { handle: a, perform: true }]);
}
