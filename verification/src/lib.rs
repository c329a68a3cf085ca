//! Span propagation core for a host that runs untrusted guest modules.
//!
//! Guests open observability spans through a capability interface. Those spans
//! must nest correctly inside the trace the host is building for the
//! surrounding request, across an asynchronous execution that can suspend and
//! resume the guest arbitrarily often, and despite guests that misbehave
//! (never closing a span, being cancelled mid-flight, or holding handles past
//! their scope).
//!
//! The crate provides:
//! - a span resource table mapping opaque integer handles to span records,
//! - an active-span stack with a cascading-close algorithm,
//! - the decision functions that bracket every poll of the future driving
//!   guest execution (re-entering the open spans before a poll, exiting them
//!   after, and closing everything on cancellation), and
//! - a cross-boundary propagator for guests that pass serialized span
//!   contexts instead of holding stateful handles.
//!
//! The caller performs the ambient (thread-of-control) effects that each
//! operation reports; the state, the ordering of those effects and the
//! lifecycle invariants are decided and proved here.

use vstd::prelude::*;

mod cbmap;
mod lifecycle;
mod nesting;
mod propagate;
mod span_table;

pub use lifecycle::ObserveHostComponent;
pub use lifecycle::SpanEffect;
pub use lifecycle::SpanLifecycle;
pub use lifecycle::DEFAULT_SPAN_CAPACITY;
pub use nesting::NestOp;
pub use propagate::CrossBoundaryPropagator;
pub use propagate::ReparentAction;
pub use span_table::GuestSpan;
pub use span_table::SpanParent;
pub use span_table::SpanTable;

verus! {

/// Identifying triple of a span: everything needed to parent a new span.
///
/// Identifiers are supplied externally; the core never assigns them.
#[derive(Clone, Copy, Debug, PartialEq, Eq, Structural)]
pub struct SpanContext {
    /// Identifier of the trace this span belongs to.
    pub trace_id: u128,
    /// Identifier of the span itself.
    pub span_id: u64,
    /// Trace flags (sampling and similar), carried through unchanged.
    pub trace_flags: u8,
}

/// Outcome of a finished span, carried through to the exporter unchanged.
#[derive(Clone, Copy, Debug, PartialEq, Eq, Structural)]
pub enum SpanStatus {
    /// No status was recorded.
    Unset,
    /// The span finished successfully.
    Okay,
    /// The span finished with an error.
    Failed,
}

/// One key/value attribute of a finished span.
#[derive(Clone, Debug)]
pub struct SpanAttribute {
    /// Attribute key.
    pub key: String,
    /// Attribute value.
    pub value: String,
}

/// A finished span record, as handed to the injected exporter.
///
/// The wire encoding is the exporter's responsibility; the core only moves
/// the record through.
#[derive(Clone, Debug)]
pub struct SpanData {
    /// Name of the span.
    pub name: String,
    /// The span's own identifying triple.
    pub span_context: SpanContext,
    /// Identifier of the parent span.
    pub parent_span_id: u64,
    /// Start timestamp, in nanoseconds since the Unix epoch.
    pub start_time_unix_nano: u64,
    /// End timestamp, in nanoseconds since the Unix epoch.
    pub end_time_unix_nano: u64,
    /// Recorded status.
    pub status: SpanStatus,
    /// Recorded attributes.
    pub attributes: Vec<SpanAttribute>,
}

/// Recoverable, guest-caused error conditions.
///
/// None of these aborts the host or affects other guest instances.
#[derive(Clone, Copy, Debug, PartialEq, Eq, Structural)]
pub enum SpanError {
    /// The span table is at capacity; no further span can be opened.
    ResourceExhausted,
    /// The handle given to `close` is not on the active-span stack.
    NotActive,
    /// The span id given to `on_end` was never started.
    SpanNotFound,
}

} // verus!
