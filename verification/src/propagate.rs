//! Cross-boundary span propagation: the protocol for guests that pass
//! serialized span contexts instead of holding stateful handles, and the
//! protection of the host's own original span against reparenting.

use vstd::prelude::*;

use indexmap::IndexMap;

use crate::cbmap::cb_map_insert;
use crate::cbmap::cb_map_last;
use crate::cbmap::cb_map_len;
use crate::cbmap::cb_map_new;
use crate::cbmap::cb_map_shift_remove;
use crate::cbmap::ordered_entries;
use crate::SpanContext;
use crate::SpanData;
use crate::SpanError;

verus! {

/// What a reparenting lookup decided.
#[derive(Clone, Copy, Debug, PartialEq, Eq, Structural)]
pub enum ReparentAction {
    /// No guest span is active: the current span keeps its parent.
    KeepCurrent,
    /// The current span becomes a child of this guest span context.
    Reparent(SpanContext),
    /// The current span is the instance's recorded original host span;
    /// reparenting it would corrupt the trace tree shared with unrelated
    /// requests. This marks a host-side call-ordering defect, and the caller
    /// must fail fast rather than continue.
    OriginalHostSpan,
}

/// Position of a span id among ordered entries (meaningful when present).
pub open spec fn entry_index(s: Seq<(u64, (u128, u8))>, id: u64) -> int {
    choose|i: int| 0 <= i < s.len() && (#[trigger] s[i]).0 == id
}

/// The captured original host span id after one `on_start`: the first call
/// records the ambient host span's id, every later call keeps the record.
pub open spec fn original_after_start(original: Option<u64>, host_span_id: u64) -> Option<u64> {
    if original is None {
        Some(host_span_id)
    } else {
        original
    }
}

/// Per-instance state of the context-passing protocol: an insertion-ordered
/// map from span id to span context, the set-once original host span id,
/// and the ambient host span context from before the guest ran.
///
/// Independent of the handle-based lifecycle state; scoped, like it, to
/// exactly one guest instance and locked by the host around every call.
pub struct CrossBoundaryPropagator {
    contexts: IndexMap<u64, (u128, u8)>,
    original_host_span_id: Option<u64>,
    outer: SpanContext,
}

impl CrossBoundaryPropagator {
    /// The tracked contexts: span id, then trace id and trace flags, in
    /// insertion order. The last entry is the active guest span.
    pub closed spec fn entries(&self) -> Seq<(u64, (u128, u8))> {
        ordered_entries(self.contexts)
    }

    /// The span id recorded on the first `on_start`, never overwritten.
    pub closed spec fn original(&self) -> Option<u64> {
        self.original_host_span_id
    }

    /// The ambient (pre-guest) host span context of this instance.
    pub closed spec fn outer_context(&self) -> SpanContext {
        self.outer
    }

    /// Whether `id` is a tracked span id.
    pub open spec fn tracks(&self, id: u64) -> bool {
        exists|i: int| 0 <= i < self.entries().len() && (#[trigger] self.entries()[i]).0 == id
    }

    /// Well-formed: no span id is tracked twice.
    pub open spec fn wf(&self) -> bool {
        forall|i: int, j: int|
            0 <= i < j < self.entries().len()
                ==> (#[trigger] self.entries()[i]).0 != (#[trigger] self.entries()[j]).0
    }

    /// Makes the propagator of one guest instance; `outer` is the ambient
    /// host span context from before the guest ran.
    pub fn new(outer: SpanContext) -> (p: Self)
        ensures
            p.wf(),
            p.entries() == Seq::<(u64, (u128, u8))>::empty(),
            p.original() is None,
            p.outer_context() == outer,
    {
        CrossBoundaryPropagator {
            contexts: cb_map_new(),
            original_host_span_id: None,
            outer,
        }
    }

    /// Starts tracking a guest span context, making it the active one.
    ///
    /// On the first invocation for the instance, the ambient host span's id
    /// is recorded as the original host span id — set once, never
    /// overwritten. A fresh span id is appended to the insertion order; a
    /// second start of a tracked id keeps the id's place and updates the
    /// stored context.
    pub fn on_start(&mut self, context: SpanContext, _parent: SpanContext)
        requires
            old(self).wf(),
        ensures
            final(self).wf(),
            final(self).outer_context() == old(self).outer_context(),
            final(self).original() == original_after_start(
                old(self).original(),
                old(self).outer_context().span_id,
            ),
            !old(self).tracks(context.span_id) ==> final(self).entries() == old(
                self,
            ).entries().push((context.span_id, (context.trace_id, context.trace_flags))),
            old(self).tracks(context.span_id) ==> ({
                let i = entry_index(old(self).entries(), context.span_id);
                &&& 0 <= i < old(self).entries().len()
                &&& (old(self).entries()[i]).0 == context.span_id
                &&& final(self).entries() == old(self).entries().update(
                    i,
                    (context.span_id, (context.trace_id, context.trace_flags)),
                )
            }),
    {
        if self.original_host_span_id.is_none() {
            self.original_host_span_id = Some(self.outer.span_id);
        }
        let ghost e0 = ordered_entries(self.contexts);
        let _prev = cb_map_insert(
            &mut self.contexts,
            context.span_id,
            (context.trace_id, context.trace_flags),
        );
        proof {
            let e1 = ordered_entries(self.contexts);
            let id = context.span_id;
            if exists|i: int| 0 <= i < e0.len() && (#[trigger] e0[i]).0 == id {
                let j = choose|i: int|
                    {
                        &&& 0 <= i < e0.len()
                        &&& (#[trigger] e0[i]).0 == id
                        &&& e1 == e0.update(i, (id, (context.trace_id, context.trace_flags)))
                        &&& _prev == Some(e0[i].1)
                    };
                let k = entry_index(e0, id);
                assert(0 <= k < e0.len() && (e0[k]).0 == id);
                assert(k == j);
                assert forall|i1: int, i2: int| 0 <= i1 < i2 < e1.len()
                    implies (#[trigger] e1[i1]).0 != (#[trigger] e1[i2]).0 by {
                    assert((e1[i1]).0 == (e0[i1]).0);
                    assert((e1[i2]).0 == (e0[i2]).0);
                }
            } else {
                assert(e1 == e0.push((id, (context.trace_id, context.trace_flags))));
                assert forall|i1: int, i2: int| 0 <= i1 < i2 < e1.len()
                    implies (#[trigger] e1[i1]).0 != (#[trigger] e1[i2]).0 by {
                    if i2 < e0.len() {
                        assert((e1[i1]).0 == (e0[i1]).0);
                        assert((e1[i2]).0 == (e0[i2]).0);
                    } else {
                        assert((e1[i1]).0 == (e0[i1]).0);
                        assert((e1[i2]).0 == id);
                    }
                }
            }
        }
    }

    /// Stops tracking a span id and hands the finished record back, to be
    /// given to the injected exporter.
    ///
    /// The entry is removed from the insertion order; the entries after it
    /// shift down, keeping their relative order. An id that was never
    /// started — a guest protocol violation — is reported as `SpanNotFound`,
    /// and the state is left unchanged.
    pub fn on_end(&mut self, span_data: SpanData) -> (r: Result<SpanData, SpanError>)
        requires
            old(self).wf(),
        ensures
            final(self).wf(),
            final(self).outer_context() == old(self).outer_context(),
            final(self).original() == old(self).original(),
            r is Ok <==> old(self).tracks(span_data.span_context.span_id),
            r matches Ok(data) ==> ({
                let i = entry_index(old(self).entries(), span_data.span_context.span_id);
                &&& data == span_data
                &&& 0 <= i < old(self).entries().len()
                &&& (old(self).entries()[i]).0 == span_data.span_context.span_id
                &&& final(self).entries() == old(self).entries().remove(i)
            }),
            r matches Err(e) ==> e == SpanError::SpanNotFound && final(self).entries() == old(
                self,
            ).entries(),
    {
        let ghost e0 = ordered_entries(self.contexts);
        let span_id = span_data.span_context.span_id;
        let removed = cb_map_shift_remove(&mut self.contexts, span_id);
        proof {
            let e1 = ordered_entries(self.contexts);
            if exists|i: int| 0 <= i < e0.len() && (#[trigger] e0[i]).0 == span_id {
                let j = choose|i: int|
                    {
                        &&& 0 <= i < e0.len()
                        &&& (#[trigger] e0[i]).0 == span_id
                        &&& e1 == e0.remove(i)
                        &&& removed == Some(e0[i].1)
                    };
                let k = entry_index(e0, span_id);
                assert(0 <= k < e0.len() && (e0[k]).0 == span_id);
                assert(k == j);
                assert forall|i1: int, i2: int| 0 <= i1 < i2 < e1.len()
                    implies (#[trigger] e1[i1]).0 != (#[trigger] e1[i2]).0 by {
                    if i1 < j {
                        assert(e1[i1] == e0[i1]);
                    } else {
                        assert(e1[i1] == e0[i1 + 1]);
                    }
                    if i2 < j {
                        assert(e1[i2] == e0[i2]);
                    } else {
                        assert(e1[i2] == e0[i2 + 1]);
                    }
                }
            }
        }
        match removed {
            Some(_) => Ok(span_data),
            None => Err(SpanError::SpanNotFound),
        }
    }

    /// The ambient host span context from before the guest ran, so that
    /// guest-side instrumentation parents its root spans correctly.
    pub fn current_span_context(&self) -> (c: SpanContext)
        ensures
            c == self.outer_context(),
    {
        self.outer
    }

    /// The same ambient pre-guest host span context, under the name the
    /// context-passing protocol exposes to guests.
    pub fn outer_span_context(&self) -> (c: SpanContext)
        ensures
            c == self.outer_context(),
    {
        self.outer
    }

    /// Decides how a host-side span created during guest execution is
    /// parented.
    ///
    /// With no guest span active there is nothing to do. If the current span
    /// is the recorded original host span, reparenting it would corrupt the
    /// trace tree shared with unrelated requests: that is a host-side
    /// call-ordering defect, and the caller must fail fast on it. Otherwise
    /// the current span becomes a child of the last active guest span.
    pub fn reparent_decision(&self, current_span_id: u64) -> (action: ReparentAction)
        requires
            self.wf(),
        ensures
            self.entries().len() == 0 ==> action == ReparentAction::KeepCurrent,
            self.entries().len() > 0 && self.original() == Some(current_span_id)
                ==> action == ReparentAction::OriginalHostSpan,
            self.entries().len() > 0 && self.original() != Some(current_span_id)
                ==> action == ReparentAction::Reparent(SpanContext {
                    trace_id: self.entries().last().1.0,
                    span_id: self.entries().last().0,
                    trace_flags: self.entries().last().1.1,
                }),
    {
        match cb_map_last(&self.contexts) {
            None => ReparentAction::KeepCurrent,
            Some(entry) => {
                let is_original = match self.original_host_span_id {
                    Some(original) => original == current_span_id,
                    None => false,
                };
                if is_original {
                    ReparentAction::OriginalHostSpan
                } else {
                    ReparentAction::Reparent(SpanContext {
                        trace_id: entry.1.0,
                        span_id: entry.0,
                        trace_flags: entry.1.1,
                    })
                }
            },
        }
    }

    /// How many span ids are tracked right now.
    pub fn tracked_count(&self) -> (n: usize)
        ensures
            n == self.entries().len(),
    {
        cb_map_len(&self.contexts)
    }

    /// The recorded original host span id, if any `on_start` ran yet.
    pub fn original_host_span_id(&self) -> (r: Option<u64>)
        ensures
            r == self.original(),
    {
        self.original_host_span_id
    }
}

/// Starting a fresh span id and ending the same id removes the tracking
/// cleanly: the entries return to exactly what they were before the start.
pub proof fn lemma_start_end_round_trip(entries: Seq<(u64, (u128, u8))>, id: u64, v: (u128, u8))
    requires
        forall|i: int| 0 <= i < entries.len() ==> (#[trigger] entries[i]).0 != id,
    ensures
        ({
            let started = entries.push((id, v));
            started.remove(entry_index(started, id)) == entries
        }),
{
    let started = entries.push((id, v));
    assert((started[entries.len() as int]).0 == id);
    let i = entry_index(started, id);
    assert(0 <= i < started.len() && (started[i]).0 == id);
    assert(i == entries.len());
    assert(started.remove(i) =~= entries);
}

/// The original host span id is captured exactly once per instance: the
/// first `on_start` records the ambient host span id, and no later start —
/// whatever ambient id it sees — overwrites the record.
pub proof fn lemma_original_captured_once(first_host_id: u64, later_host_id: u64)
    ensures
        original_after_start(original_after_start(None, first_host_id), later_host_id) == Some(
            first_host_id,
        ),
        forall|recorded: u64|
            original_after_start(Some(recorded), later_host_id) == Some(recorded),
{
}

} // verus!
