//! Guest-facing span lifecycle of one instance: the active-span stack, the
//! cascading-close algorithm, and the poll bracketing that re-establishes
//! ambient spans around every suspension point.
//!
//! Every operation reports, as a list of [`SpanEffect`] values, the ambient
//! enter/exit effects its caller owes to the real tracing backend, in the
//! exact order they must be performed.

use vstd::prelude::*;

use crate::span_table::GuestSpan;
use crate::span_table::SpanParent;
use crate::span_table::SpanTable;
use crate::span_table::lemma_table_map_dom;
use crate::SpanError;

verus! {

/// Default capacity of one guest instance's span table.
pub const DEFAULT_SPAN_CAPACITY: usize = 1024;

/// One ambient effect owed by the caller after a lifecycle operation.
///
/// The handles appear in the order the effects must be performed. `perform`
/// says whether the ambient transition (enter or exit, depending on the
/// operation) is actually owed; it is false when the span already was in the
/// demanded state, so that no span is ever entered or exited twice.
#[derive(Clone, Copy, Debug, PartialEq, Eq, Structural)]
pub struct SpanEffect {
    /// Handle of the span the effect concerns.
    pub handle: u32,
    /// Whether the ambient transition is owed.
    pub perform: bool,
}

/// Per-instance shared state of the span capability: the span table and the
/// active-span stack, with the guest-facing operations on them.
///
/// The state is scoped to exactly one guest instance; the host wraps it in a
/// reference-counted lock and takes exclusive access around every mutating
/// operation. Execution of one instance is single-threaded cooperative
/// suspension, so the operations themselves need no concurrency control.
pub struct SpanLifecycle {
    table: SpanTable,
    active: Vec<u32>,
}

impl SpanLifecycle {
    /// The open spans, by handle.
    pub closed spec fn spans(&self) -> Map<u32, GuestSpan> {
        self.table@
    }

    /// Handles of the open spans in opening order; the last is the innermost,
    /// currently-ambient span.
    pub closed spec fn stack(&self) -> Seq<u32> {
        self.active@
    }

    /// The handle the next `enter` will allocate.
    pub closed spec fn next_handle(&self) -> u32 {
        self.table.spec_next()
    }

    /// Capacity bound of the span table.
    pub closed spec fn capacity(&self) -> nat {
        self.table.spec_capacity()
    }

    /// Number of currently open spans.
    pub open spec fn open_count(&self) -> nat {
        self.stack().len()
    }

    /// Well-formed: the table is well-formed, no handle sits on the stack
    /// twice, every stacked handle is in the table, and table and stack have
    /// the same size (the table holds exactly the stacked spans).
    pub closed spec fn wf(&self) -> bool {
        &&& self.table.wf()
        &&& self.active@.no_duplicates()
        &&& forall|i: int|
            0 <= i < self.active@.len() ==> self.table@.dom().contains(#[trigger] self.active@[i])
        &&& self.table.spec_len() == self.active@.len()
    }

    /// The active-span stack never holds a handle twice: handles are
    /// allocated fresh and pushed at most once.
    pub proof fn lemma_stack_distinct(&self)
        requires
            self.wf(),
        ensures
            self.stack().no_duplicates(),
    {
    }

    /// Makes the empty state of a fresh guest instance, with room for
    /// `capacity` spans.
    pub fn new(capacity: usize) -> (d: Self)
        ensures
            d.wf(),
            d.stack() == Seq::<u32>::empty(),
            d.spans() == Map::<u32, GuestSpan>::empty(),
            d.next_handle() == 0,
            d.capacity() == capacity,
    {
        SpanLifecycle { table: SpanTable::new(capacity), active: Vec::new() }
    }

    /// Opens a span named `name` for the guest and hands back its handle.
    ///
    /// The new span is parented to the innermost open span, or to the
    /// instance's ambient host span if no span is open, and becomes ambient
    /// immediately (it is created entered), so that any host call the guest
    /// makes synchronously right after is attributed to it. Fails exactly
    /// when the table is full, and changes nothing then.
    pub fn enter(&mut self, name: String) -> (r: Result<u32, SpanError>)
        requires
            old(self).wf(),
        ensures
            final(self).wf(),
            final(self).capacity() == old(self).capacity(),
            r is Ok
                <==> (old(self).open_count() < old(self).capacity()
                    && old(self).next_handle() < u32::MAX),
            r matches Ok(handle) ==> {
                &&& handle == old(self).next_handle()
                &&& !old(self).spans().dom().contains(handle)
                &&& !old(self).stack().contains(handle)
                &&& final(self).stack() == old(self).stack().push(handle)
                &&& final(self).spans() == old(self).spans().insert(handle, (GuestSpan {
                    name: name,
                    parent: if old(self).stack().len() == 0 {
                        SpanParent::Host
                    } else {
                        SpanParent::Span(old(self).stack().last())
                    },
                    entered: true,
                }))
                &&& final(self).next_handle() == handle + 1
            },
            r matches Err(e) ==> e == SpanError::ResourceExhausted && *final(self) == *old(self),
    {
        let parent = if self.active.len() == 0 {
            SpanParent::Host
        } else {
            SpanParent::Span(self.active[self.active.len() - 1])
        };
        let mut span = GuestSpan::new(name, parent);
        span.enter();
        match self.table.insert(span) {
            Ok(handle) => {
                proof {
                    lemma_table_map_dom(old(self).table.spec_entries());
                    assert forall|i: int| 0 <= i < old(self).active@.len()
                        implies (#[trigger] old(self).active@[i]) != handle by {
                        let k = old(self).active@[i];
                        let j = choose|j: int|
                            0 <= j < old(self).table.spec_entries().len()
                                && (#[trigger] old(self).table.spec_entries()[j]).0 == k;
                        assert((old(self).table.spec_entries()[j]).0 < old(self).table.spec_next());
                    }
                }
                self.active.push(handle);
                Ok(handle)
            },
            Err(e) => Err(e),
        }
    }
}

/// Removing one more handle from the back of a stack grows the set of
/// removed handles by exactly that handle.
proof fn lemma_skip_to_set_step(s: Seq<u32>, j: int)
    requires
        0 <= j < s.len(),
    ensures
        s.skip(j).to_set() == s.skip(j + 1).to_set().insert(s[j]),
{
    assert forall|x: u32| #[trigger] s.skip(j).to_set().contains(x)
        implies s.skip(j + 1).to_set().insert(s[j]).contains(x) by {
        let i = choose|i: int| 0 <= i < s.skip(j).len() && #[trigger] s.skip(j)[i] == x;
        if i > 0 {
            assert(s.skip(j + 1)[i - 1] == x);
        }
    }
    assert forall|x: u32| s.skip(j + 1).to_set().insert(s[j]).contains(x)
        implies #[trigger] s.skip(j).to_set().contains(x) by {
        if x == s[j] {
            assert(s.skip(j)[0] == x);
        } else {
            let i = choose|i: int| 0 <= i < s.skip(j + 1).len() && #[trigger] s.skip(j + 1)[i] == x;
            assert(s.skip(j)[i + 1] == x);
        }
    }
    assert(s.skip(j).to_set() =~= s.skip(j + 1).to_set().insert(s[j]));
}

impl SpanLifecycle {
    /// Splits the stack at `index`, keeping `[0, index)`, and closes the
    /// removed tail in reverse order: innermost first, each span exited (if
    /// it was entered) and removed from the table.
    ///
    /// This one primitive is the cascading close: closing an outer span that
    /// still has open descendants forces every descendant closed first, in
    /// strict reverse of its opening order, even when the guest itself
    /// misbehaved. An `index` beyond the stack is a no-op, never a crash.
    pub fn close_back_to(&mut self, index: usize) -> (closed: Vec<SpanEffect>)
        requires
            old(self).wf(),
        ensures
            final(self).wf(),
            final(self).capacity() == old(self).capacity(),
            final(self).next_handle() == old(self).next_handle(),
            index >= old(self).stack().len()
                ==> *final(self) == *old(self) && closed@ == Seq::<SpanEffect>::empty(),
            index < old(self).stack().len() ==> {
                &&& final(self).stack() == old(self).stack().take(index as int)
                &&& closed@.len() == old(self).stack().len() - index
                &&& forall|i: int|
                    0 <= i < closed@.len()
                        ==> (#[trigger] closed@[i]).handle
                            == old(self).stack()[old(self).stack().len() - 1 - i]
                &&& forall|i: int|
                    0 <= i < closed@.len()
                        ==> ((#[trigger] closed@[i]).perform <==> old(
                            self,
                        ).spans()[old(self).stack()[old(self).stack().len() - 1 - i]].entered)
                &&& final(self).spans() == old(self).spans().remove_keys(
                    old(self).stack().skip(index as int).to_set(),
                )
            },
    {
        let mut closed: Vec<SpanEffect> = Vec::new();
        if index >= self.active.len() {
            return closed;
        }
        let ghost s0 = self.active@;
        let ghost m0 = self.table@;
        let ghost next0 = self.table.spec_next();
        let ghost cap0 = self.table.spec_capacity();
        proof {
            assert(s0.take(s0.len() as int) =~= s0);
            assert(m0.remove_keys(s0.skip(s0.len() as int).to_set()) =~= m0);
        }
        while self.active.len() > index
            invariant
                self.wf(),
                index < s0.len(),
                index <= self.active@.len() <= s0.len(),
                s0.no_duplicates(),
                self.active@ == s0.take(self.active@.len() as int),
                closed@.len() + self.active@.len() == s0.len(),
                forall|i: int|
                    0 <= i < closed@.len()
                        ==> (#[trigger] closed@[i]).handle == s0[s0.len() - 1 - i],
                forall|i: int|
                    0 <= i < closed@.len()
                        ==> ((#[trigger] closed@[i]).perform <==> m0[s0[s0.len() - 1 - i]].entered),
                self.table@ == m0.remove_keys(s0.skip(self.active@.len() as int).to_set()),
                self.table.spec_next() == next0,
                self.table.spec_capacity() == cap0,
            decreases self.active@.len() - index,
        {
            let ghost n_before = self.active@.len() as int;
            proof {
                assert(self.active@[n_before - 1] == s0[n_before - 1]);
                assert forall|i: int| 0 <= i < s0.skip(n_before).len()
                    implies s0.skip(n_before)[i] != s0[n_before - 1] by {
                    assert(s0.skip(n_before)[i] == s0[n_before + i]);
                }
                assert(!s0.skip(n_before).to_set().contains(s0[n_before - 1]));
            }
            let handle = self.active.pop().unwrap();
            let mut span = self.table.remove(handle).unwrap();
            let was_entered = span.entered;
            if was_entered {
                span.exit();
            }
            closed.push(SpanEffect { handle, perform: was_entered });
            proof {
                lemma_skip_to_set_step(s0, n_before - 1);
                assert(m0.remove_keys(s0.skip(n_before).to_set()).remove(handle)
                    =~= m0.remove_keys(s0.skip(n_before - 1).to_set()));
                assert(s0.take(n_before).take(n_before - 1) =~= s0.take(n_before - 1));
                assert(self.active@ == s0.take(n_before - 1));
                assert forall|i: int| 0 <= i < self.active@.len()
                    implies self.table@.dom().contains(#[trigger] self.active@[i]) by {
                    assert(self.active@[i] == s0[i]);
                    assert(s0[i] != handle);
                }
            }
        }
        proof {
            assert(self.active@ == s0.take(index as int));
        }
        closed
    }

    /// Closes the span behind `handle`, cascading over every span opened
    /// after it (innermost first), and reports the exits owed.
    ///
    /// The handle's position is searched from the back, though duplicates are
    /// impossible by construction. A handle that is not on the stack — never
    /// opened, already closed, or swept away by an earlier cascade — is a
    /// non-fatal condition reported to the guest, never a crash.
    pub fn close(&mut self, handle: u32) -> (r: Result<Vec<SpanEffect>, SpanError>)
        requires
            old(self).wf(),
        ensures
            final(self).wf(),
            final(self).capacity() == old(self).capacity(),
            final(self).next_handle() == old(self).next_handle(),
            r is Ok <==> old(self).stack().contains(handle),
            r matches Err(e) ==> e == SpanError::NotActive && *final(self) == *old(self),
            r matches Ok(closed) ==> ({
                let pos = old(self).stack().index_of(handle);
                &&& 0 <= pos < old(self).stack().len()
                &&& old(self).stack()[pos] == handle
                &&& final(self).stack() == old(self).stack().take(pos)
                &&& closed@.len() == old(self).stack().len() - pos
                &&& forall|i: int|
                    0 <= i < closed@.len()
                        ==> (#[trigger] closed@[i]).handle
                            == old(self).stack()[old(self).stack().len() - 1 - i]
                &&& forall|i: int|
                    0 <= i < closed@.len()
                        ==> ((#[trigger] closed@[i]).perform <==> old(
                            self,
                        ).spans()[old(self).stack()[old(self).stack().len() - 1 - i]].entered)
                &&& final(self).spans() == old(self).spans().remove_keys(
                    old(self).stack().skip(pos).to_set(),
                )
            }),
    {
        let mut idx = self.active.len();
        while idx > 0
            invariant
                *self == *old(self),
                idx <= self.active@.len(),
                self.wf(),
                forall|i: int| idx <= i < self.active@.len() ==> self.active@[i] != handle,
            decreases idx,
        {
            idx = idx - 1;
            if self.active[idx] == handle {
                proof {
                    assert(old(self).stack()[idx as int] == handle);
                    assert(old(self).stack().contains(handle));
                    let pos = old(self).stack().index_of(handle);
                    assert(0 <= pos < old(self).stack().len()
                        && old(self).stack()[pos] == handle);
                    assert(pos == idx);
                }
                let closed = self.close_back_to(idx);
                return Ok(closed);
            }
        }
        Err(SpanError::NotActive)
    }

    /// Releases a handle implicitly — guest-side handle garbage collection —
    /// with the same cascading close as an explicit `close`.
    ///
    /// Idempotent with a prior `close` of the same handle: releasing a handle
    /// that is no longer active changes nothing and owes no effect.
    pub fn drop_handle(&mut self, handle: u32) -> (closed: Vec<SpanEffect>)
        requires
            old(self).wf(),
        ensures
            final(self).wf(),
            final(self).capacity() == old(self).capacity(),
            final(self).next_handle() == old(self).next_handle(),
            !old(self).stack().contains(handle)
                ==> *final(self) == *old(self) && closed@ == Seq::<SpanEffect>::empty(),
            old(self).stack().contains(handle) ==> ({
                let pos = old(self).stack().index_of(handle);
                &&& final(self).stack() == old(self).stack().take(pos)
                &&& closed@.len() == old(self).stack().len() - pos
                &&& forall|i: int|
                    0 <= i < closed@.len()
                        ==> (#[trigger] closed@[i]).handle
                            == old(self).stack()[old(self).stack().len() - 1 - i]
                &&& forall|i: int|
                    0 <= i < closed@.len()
                        ==> ((#[trigger] closed@[i]).perform <==> old(
                            self,
                        ).spans()[old(self).stack()[old(self).stack().len() - 1 - i]].entered)
                &&& final(self).spans() == old(self).spans().remove_keys(
                    old(self).stack().skip(pos).to_set(),
                )
            }),
    {
        match self.close(handle) {
            Ok(closed) => closed,
            Err(_) => Vec::new(),
        }
    }

    /// Decides the enter bracket of one poll: immediately before the inner
    /// future is polled, every open span must be re-established as ambient,
    /// outer to inner, because a worker may have run unrelated instances
    /// since this guest last ran.
    ///
    /// The effects list every open span in stack order; `perform` is true
    /// exactly for the spans an ambient enter is owed for (those not already
    /// entered), so no span is ever entered twice.
    pub fn poll_begin(&mut self) -> (acts: Vec<SpanEffect>)
        requires
            old(self).wf(),
        ensures
            final(self).wf(),
            final(self).stack() == old(self).stack(),
            final(self).capacity() == old(self).capacity(),
            final(self).next_handle() == old(self).next_handle(),
            final(self).spans().dom() == old(self).spans().dom(),
            acts@.len() == old(self).stack().len(),
            forall|i: int|
                0 <= i < acts@.len() ==> (#[trigger] acts@[i]).handle == old(self).stack()[i],
            forall|i: int|
                0 <= i < acts@.len()
                    ==> ((#[trigger] acts@[i]).perform
                        <==> !old(self).spans()[old(self).stack()[i]].entered),
            forall|i: int|
                0 <= i < old(self).stack().len() ==> {
                    let h = #[trigger] old(self).stack()[i];
                    &&& final(self).spans()[h].entered
                    &&& final(self).spans()[h].name == old(self).spans()[h].name
                    &&& final(self).spans()[h].parent == old(self).spans()[h].parent
                },
            forall|k: u32|
                old(self).spans().dom().contains(k) && !old(self).stack().contains(k)
                    ==> final(self).spans()[k] == old(self).spans()[k],
    {
        let ghost s0 = self.active@;
        let ghost m0 = self.table@;
        let ghost next0 = self.table.spec_next();
        let ghost cap0 = self.table.spec_capacity();
        let mut acts: Vec<SpanEffect> = Vec::new();
        let n = self.active.len();
        let mut idx: usize = 0;
        while idx < n
            invariant
                self.wf(),
                n == self.active@.len(),
                idx <= n,
                self.active@ == s0,
                self.table@.dom() == m0.dom(),
                self.table.spec_next() == next0,
                self.table.spec_capacity() == cap0,
                acts@.len() == idx,
                forall|i: int| 0 <= i < idx ==> (#[trigger] acts@[i]).handle == s0[i],
                forall|i: int|
                    0 <= i < idx ==> ((#[trigger] acts@[i]).perform <==> !m0[s0[i]].entered),
                forall|i: int|
                    0 <= i < idx ==> {
                        let h = #[trigger] s0[i];
                        &&& self.table@[h].entered
                        &&& self.table@[h].name == m0[h].name
                        &&& self.table@[h].parent == m0[h].parent
                    },
                forall|k: u32|
                    m0.dom().contains(k) && !s0.take(idx as int).contains(k)
                        ==> self.table@[k] == m0[k],
            decreases n - idx,
        {
            let ghost mprev = self.table@;
            let h = self.active[idx];
            proof {
                if s0.take(idx as int).contains(s0[idx as int]) {
                    let i = choose|i: int|
                        0 <= i < s0.take(idx as int).len()
                            && #[trigger] s0.take(idx as int)[i] == s0[idx as int];
                    assert(s0[i] == s0[idx as int]);
                    assert(false);
                }
            }
            let was = self.table.set_entered(h, true);
            acts.push(SpanEffect { handle: h, perform: !was });
            idx = idx + 1;
            proof {
                assert(self.table@.dom() =~= m0.dom());
                assert forall|k: u32|
                    m0.dom().contains(k) && !s0.take(idx as int).contains(k)
                    implies self.table@[k] == m0[k] by {
                    if s0.take(idx as int - 1).contains(k) {
                        let i = choose|i: int|
                            0 <= i < s0.take(idx as int - 1).len()
                                && #[trigger] s0.take(idx as int - 1)[i] == k;
                        assert(s0.take(idx as int)[i] == k);
                        assert(false);
                    }
                    if k == s0[idx as int - 1] {
                        assert(s0.take(idx as int)[idx as int - 1] == k);
                        assert(false);
                    }
                    assert(mprev[k] == m0[k]);
                }
            }
        }
        proof {
            assert(s0.take(n as int) =~= s0);
        }
        acts
    }

    /// Decides the exit bracket of one poll: immediately after the inner
    /// future returned — ready or pending alike — every open span must stop
    /// being ambient, inner to outer, because the worker may run unrelated
    /// instances next.
    ///
    /// The effects list every open span in reverse stack order; `perform` is
    /// true exactly for the spans an ambient exit is owed for (those still
    /// entered), so no span is ever exited twice.
    pub fn poll_end(&mut self) -> (acts: Vec<SpanEffect>)
        requires
            old(self).wf(),
        ensures
            final(self).wf(),
            final(self).stack() == old(self).stack(),
            final(self).capacity() == old(self).capacity(),
            final(self).next_handle() == old(self).next_handle(),
            final(self).spans().dom() == old(self).spans().dom(),
            acts@.len() == old(self).stack().len(),
            forall|i: int|
                0 <= i < acts@.len()
                    ==> (#[trigger] acts@[i]).handle
                        == old(self).stack()[old(self).stack().len() - 1 - i],
            forall|i: int|
                0 <= i < acts@.len()
                    ==> ((#[trigger] acts@[i]).perform
                        <==> old(self).spans()[old(self).stack()[old(self).stack().len() - 1
                            - i]].entered),
            forall|i: int|
                0 <= i < old(self).stack().len() ==> {
                    let h = #[trigger] old(self).stack()[i];
                    &&& !final(self).spans()[h].entered
                    &&& final(self).spans()[h].name == old(self).spans()[h].name
                    &&& final(self).spans()[h].parent == old(self).spans()[h].parent
                },
            forall|k: u32|
                old(self).spans().dom().contains(k) && !old(self).stack().contains(k)
                    ==> final(self).spans()[k] == old(self).spans()[k],
    {
        let ghost s0 = self.active@;
        let ghost m0 = self.table@;
        let ghost next0 = self.table.spec_next();
        let ghost cap0 = self.table.spec_capacity();
        let mut acts: Vec<SpanEffect> = Vec::new();
        let n = self.active.len();
        let mut remaining = n;
        while remaining > 0
            invariant
                self.wf(),
                n == self.active@.len(),
                remaining <= n,
                self.active@ == s0,
                self.table@.dom() == m0.dom(),
                self.table.spec_next() == next0,
                self.table.spec_capacity() == cap0,
                acts@.len() + remaining == n,
                forall|i: int|
                    0 <= i < acts@.len()
                        ==> (#[trigger] acts@[i]).handle == s0[s0.len() - 1 - i],
                forall|i: int|
                    0 <= i < acts@.len()
                        ==> ((#[trigger] acts@[i]).perform <==> m0[s0[s0.len() - 1 - i]].entered),
                forall|i: int|
                    remaining <= i < n ==> {
                        let h = #[trigger] s0[i];
                        &&& !self.table@[h].entered
                        &&& self.table@[h].name == m0[h].name
                        &&& self.table@[h].parent == m0[h].parent
                    },
                forall|k: u32|
                    m0.dom().contains(k) && !s0.skip(remaining as int).contains(k)
                        ==> self.table@[k] == m0[k],
            decreases remaining,
        {
            let ghost mprev = self.table@;
            let h = self.active[remaining - 1];
            proof {
                if s0.skip(remaining as int).contains(s0[remaining as int - 1]) {
                    let i = choose|i: int|
                        0 <= i < s0.skip(remaining as int).len()
                            && #[trigger] s0.skip(remaining as int)[i] == s0[remaining as int - 1];
                    assert(s0[remaining + i] == s0[remaining as int - 1]);
                    assert(false);
                }
            }
            let was = self.table.set_entered(h, false);
            acts.push(SpanEffect { handle: h, perform: was });
            remaining = remaining - 1;
            proof {
                assert(self.table@.dom() =~= m0.dom());
                assert forall|k: u32|
                    m0.dom().contains(k) && !s0.skip(remaining as int).contains(k)
                    implies self.table@[k] == m0[k] by {
                    if s0.skip(remaining as int + 1).contains(k) {
                        let i = choose|i: int|
                            0 <= i < s0.skip(remaining as int + 1).len()
                                && #[trigger] s0.skip(remaining as int + 1)[i] == k;
                        assert(s0.skip(remaining as int)[i + 1] == k);
                        assert(false);
                    }
                    if k == s0[remaining as int] {
                        assert(s0.skip(remaining as int)[0] == k);
                        assert(false);
                    }
                    assert(mprev[k] == m0[k]);
                }
            }
        }
        proof {
            assert(s0.skip(0) =~= s0);
        }
        acts
    }

    /// Cleans up after cancellation: the driving future was discarded before
    /// the guest completed. Closes every span still on the stack, innermost
    /// to outermost, exiting exactly those still entered; afterwards no span
    /// of this instance is open, so none can outlive the instance or leak
    /// into an unrelated trace.
    pub fn cancel(&mut self) -> (closed: Vec<SpanEffect>)
        requires
            old(self).wf(),
        ensures
            final(self).wf(),
            final(self).capacity() == old(self).capacity(),
            final(self).next_handle() == old(self).next_handle(),
            final(self).stack() == Seq::<u32>::empty(),
            final(self).spans() == Map::<u32, GuestSpan>::empty(),
            closed@.len() == old(self).stack().len(),
            forall|i: int|
                0 <= i < closed@.len()
                    ==> (#[trigger] closed@[i]).handle
                        == old(self).stack()[old(self).stack().len() - 1 - i],
            forall|i: int|
                0 <= i < closed@.len()
                    ==> ((#[trigger] closed@[i]).perform <==> old(
                        self,
                    ).spans()[old(self).stack()[old(self).stack().len() - 1 - i]].entered),
    {
        let closed = self.close_back_to(0);
        proof {
            if old(self).stack().len() > 0 {
                assert(old(self).stack().take(0) =~= Seq::<u32>::empty());
            }
            assert(self.table.spec_entries() =~= Seq::<(u32, GuestSpan)>::empty());
            assert(self.active@ =~= Seq::<u32>::empty());
        }
        closed
    }

    /// Number of currently open spans.
    pub fn active_count(&self) -> (n: usize)
        ensures
            n == self.open_count(),
    {
        self.active.len()
    }

    /// The handles of the open spans, outermost first.
    pub fn active_handles(&self) -> (handles: Vec<u32>)
        ensures
            handles@ == self.stack(),
    {
        let mut handles: Vec<u32> = Vec::new();
        let n = self.active.len();
        let mut idx: usize = 0;
        while idx < n
            invariant
                n == self.active@.len(),
                idx <= n,
                handles@ == self.active@.take(idx as int),
            decreases n - idx,
        {
            handles.push(self.active[idx]);
            proof {
                assert(self.active@.take(idx as int).push(self.active@[idx as int])
                    =~= self.active@.take(idx as int + 1));
            }
            idx = idx + 1;
        }
        proof {
            assert(self.active@.take(n as int) =~= self.active@);
        }
        handles
    }

    /// Whether `handle` is on the active-span stack.
    pub fn is_active(&self, handle: u32) -> (b: bool)
        requires
            self.wf(),
        ensures
            b == self.stack().contains(handle),
    {
        let n = self.active.len();
        let mut idx: usize = 0;
        while idx < n
            invariant
                n == self.active@.len(),
                idx <= n,
                forall|i: int| 0 <= i < idx ==> self.active@[i] != handle,
            decreases n - idx,
        {
            if self.active[idx] == handle {
                proof {
                    assert(self.stack()[idx as int] == handle);
                }
                return true;
            }
            idx = idx + 1;
        }
        false
    }

    /// Looks an open span's record up; a handle that is absent — never
    /// opened or already closed — is reported as such, never an error.
    pub fn get_span(&self, handle: u32) -> (r: Option<&GuestSpan>)
        requires
            self.wf(),
        ensures
            match r {
                Some(span) => self.spans().dom().contains(handle)
                    && *span == self.spans()[handle],
                None => !self.spans().dom().contains(handle),
            },
    {
        self.table.get(handle)
    }
}

/// Host-side factory of the span capability: builds the per-instance state
/// that the lifecycle operations and the poll bracketing share.
pub struct ObserveHostComponent {}

impl ObserveHostComponent {
    /// Makes the component.
    pub fn new() -> (c: Self) {
        ObserveHostComponent {}
    }

    /// Builds the fresh state of one guest instance: an empty span table at
    /// the default capacity and an empty active-span stack.
    pub fn build_data(&self) -> (d: SpanLifecycle)
        ensures
            d.wf(),
            d.stack() == Seq::<u32>::empty(),
            d.spans() == Map::<u32, GuestSpan>::empty(),
            d.next_handle() == 0,
            d.capacity() == DEFAULT_SPAN_CAPACITY,
    {
        SpanLifecycle::new(DEFAULT_SPAN_CAPACITY)
    }
}

} // verus!
