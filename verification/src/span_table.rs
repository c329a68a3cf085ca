//! Arena of guest span records, addressed by opaque integer handles.

use vstd::prelude::*;

use crate::SpanError;

verus! {

/// What a guest span is parented to.
#[derive(Clone, Copy, Debug, PartialEq, Eq, Structural)]
pub enum SpanParent {
    /// The instance's ambient host span: the stack was empty at creation.
    Host,
    /// The guest span that was innermost on the stack at creation.
    Span(u32),
}

/// A guest-opened span record, exclusively owned by a [`SpanTable`].
///
/// `entered` says whether the span is currently established as the ambient
/// span of the executing thread-of-control; the caller mirrors the flag with
/// the real enter/exit effects it performs on its side of the boundary.
#[derive(Clone, Debug)]
pub struct GuestSpan {
    /// Name the guest gave the span.
    pub name: String,
    /// What the span is parented to.
    pub parent: SpanParent,
    /// Whether the span is currently entered (ambient).
    pub entered: bool,
}

impl GuestSpan {
    /// Makes a fresh, not-yet-entered span record.
    pub fn new(name: String, parent: SpanParent) -> (s: Self)
        ensures
            s.name == name,
            s.parent == parent,
            !s.entered,
    {
        GuestSpan { name, parent, entered: false }
    }

    /// Marks the span as entered (ambient).
    pub fn enter(&mut self)
        requires
            !old(self).entered,
        ensures
            final(self).entered,
            final(self).name == old(self).name,
            final(self).parent == old(self).parent,
    {
        self.entered = true;
    }

    /// Marks the span as exited (no longer ambient).
    pub fn exit(&mut self)
        requires
            old(self).entered,
        ensures
            !final(self).entered,
            final(self).name == old(self).name,
            final(self).parent == old(self).parent,
    {
        self.entered = false;
    }
}

/// The mapping that a sequence of handle/record pairs stands for.
pub open spec fn table_map(s: Seq<(u32, GuestSpan)>) -> Map<u32, GuestSpan>
    decreases s.len(),
{
    if s.len() == 0 {
        Map::empty()
    } else {
        table_map(s.drop_last()).insert(s.last().0, s.last().1)
    }
}

/// No two pairs carry the same handle.
pub open spec fn distinct_handles(s: Seq<(u32, GuestSpan)>) -> bool {
    forall|i: int, j: int|
        0 <= i < j < s.len() ==> (#[trigger] s[i]).0 != (#[trigger] s[j]).0
}

/// A handle is in the domain of `table_map(s)` exactly when some pair of `s`
/// carries it.
pub(crate) proof fn lemma_table_map_dom(s: Seq<(u32, GuestSpan)>)
    ensures
        forall|k: u32|
            #[trigger] table_map(s).dom().contains(k)
                <==> (exists|i: int| 0 <= i < s.len() && (#[trigger] s[i]).0 == k),
    decreases s.len(),
{
    if s.len() > 0 {
        lemma_table_map_dom(s.drop_last());
        assert forall|k: u32| #[trigger] table_map(s).dom().contains(k)
            implies (exists|i: int| 0 <= i < s.len() && (#[trigger] s[i]).0 == k) by {
            if k == s.last().0 {
                assert((s[s.len() - 1]).0 == k);
            } else {
                assert(table_map(s) == table_map(s.drop_last()).insert(s.last().0, s.last().1));
                assert(table_map(s.drop_last()).dom().contains(k));
                let i = choose|i: int|
                    0 <= i < s.drop_last().len() && (#[trigger] s.drop_last()[i]).0 == k;
                assert(s.drop_last()[i] == s[i]);
                assert((s[i]).0 == k);
            }
        }
        assert forall|k: u32| (exists|i: int| 0 <= i < s.len() && (#[trigger] s[i]).0 == k)
            implies #[trigger] table_map(s).dom().contains(k) by {
            let i = choose|i: int| 0 <= i < s.len() && (#[trigger] s[i]).0 == k;
            assert(table_map(s) == table_map(s.drop_last()).insert(s.last().0, s.last().1));
            if i < s.len() - 1 {
                assert((s.drop_last()[i]).0 == k);
                assert(table_map(s.drop_last()).dom().contains(k));
            } else {
                assert(k == s.last().0);
            }
        }
    }
}

/// With distinct handles, `table_map(s)` maps each pair's handle to its record.
pub(crate) proof fn lemma_table_map_index(s: Seq<(u32, GuestSpan)>, i: int)
    requires
        distinct_handles(s),
        0 <= i < s.len(),
    ensures
        table_map(s).dom().contains(s[i].0),
        table_map(s)[s[i].0] == s[i].1,
    decreases s.len(),
{
    if i < s.len() - 1 {
        assert(distinct_handles(s.drop_last()));
        assert(s.drop_last()[i] == s[i]);
        lemma_table_map_index(s.drop_last(), i);
        assert((s[s.len() - 1]).0 != (s[i]).0);
    }
}

/// Appending a pair with a fresh handle inserts it into the mapping.
pub(crate) proof fn lemma_table_map_push(s: Seq<(u32, GuestSpan)>, k: u32, v: GuestSpan)
    ensures
        table_map(s.push((k, v))) == table_map(s).insert(k, v),
{
    assert(s.push((k, v)).drop_last() =~= s);
    assert(s.push((k, v)).last() == (k, v));
}

/// Removing the pair at position `i` removes its handle from the mapping.
pub(crate) proof fn lemma_table_map_remove(s: Seq<(u32, GuestSpan)>, i: int)
    requires
        distinct_handles(s),
        0 <= i < s.len(),
    ensures
        table_map(s.remove(i)) == table_map(s).remove(s[i].0),
    decreases s.len(),
{
    let k = s[i].0;
    if i == s.len() - 1 {
        assert(s.remove(i) =~= s.drop_last());
        lemma_table_map_dom(s.drop_last());
        assert forall|q: u32| #[trigger] table_map(s.drop_last()).dom().contains(q)
            implies q != k by {
            let j = choose|j: int|
                0 <= j < s.drop_last().len() && (#[trigger] s.drop_last()[j]).0 == q;
            assert((s[j]).0 == q);
        }
        assert(table_map(s.remove(i)) =~= table_map(s).remove(k));
    } else {
        let t = s.drop_last();
        assert(distinct_handles(t));
        assert(t[i] == s[i]);
        lemma_table_map_remove(t, i);
        assert(s.remove(i).drop_last() =~= t.remove(i));
        assert(s.remove(i).last() == s.last());
        assert(s.remove(i).len() == s.len() - 1 > 0);
        assert(table_map(s.remove(i)) == table_map(t.remove(i)).insert(s.last().0, s.last().1));
        assert((s[s.len() - 1]).0 != k);
        assert(table_map(t).remove(k).insert(s.last().0, s.last().1)
            =~= table_map(t).insert(s.last().0, s.last().1).remove(k));
        assert(table_map(s.remove(i)) =~= table_map(s).remove(k));
    }
}

/// Overwriting the record at position `i`, keeping its handle, updates the
/// mapping at that handle.
pub(crate) proof fn lemma_table_map_update(s: Seq<(u32, GuestSpan)>, i: int, v: GuestSpan)
    requires
        distinct_handles(s),
        0 <= i < s.len(),
    ensures
        table_map(s.update(i, (s[i].0, v))) == table_map(s).insert(s[i].0, v),
    decreases s.len(),
{
    let k = s[i].0;
    let u = s.update(i, (k, v));
    if i == s.len() - 1 {
        assert(u.drop_last() =~= s.drop_last());
        assert(u.last() == (k, v));
        assert(table_map(s.drop_last()).insert(k, s.last().1).insert(k, v)
            =~= table_map(s.drop_last()).insert(k, v));
    } else {
        let t = s.drop_last();
        assert(distinct_handles(t));
        assert(t[i] == s[i]);
        lemma_table_map_update(t, i, v);
        assert(u.drop_last() =~= t.update(i, (k, v)));
        assert(u.last() == s.last());
        assert(u.len() == s.len());
        assert(table_map(u) == table_map(t.update(i, (k, v))).insert(s.last().0, s.last().1));
        assert((s[s.len() - 1]).0 != k);
        assert(table_map(t).insert(k, v).insert(s.last().0, s.last().1)
            =~= table_map(t).insert(s.last().0, s.last().1).insert(k, v));
    }
}

/// Arena mapping opaque integer handles to span records.
///
/// Insertion allocates a fresh handle from a monotone counter, so a handle is
/// never reused within one table's lifetime. The table is capacity-bounded:
/// insertion past capacity is a recoverable error, never a crash. Lookup and
/// removal of an unknown handle report absence, which is a legitimate
/// outcome, not a fault. The table has no concurrency control of its own;
/// single-writer access is its caller's business.
pub struct SpanTable {
    entries: Vec<(u32, GuestSpan)>,
    next: u32,
    capacity: usize,
}

impl View for SpanTable {
    type V = Map<u32, GuestSpan>;

    open spec fn view(&self) -> Map<u32, GuestSpan> {
        table_map(self.spec_entries())
    }
}

impl SpanTable {
    /// The handle/record pairs, in insertion order.
    pub closed spec fn spec_entries(&self) -> Seq<(u32, GuestSpan)> {
        self.entries@
    }

    /// The handle the next insertion will allocate.
    pub closed spec fn spec_next(&self) -> u32 {
        self.next
    }

    /// Number of records currently stored.
    pub open spec fn spec_len(&self) -> nat {
        self.spec_entries().len()
    }

    /// Capacity bound fixed at construction.
    pub closed spec fn spec_capacity(&self) -> nat {
        self.capacity as nat
    }

    /// Well-formed: handles strictly increase with insertion order, all stay
    /// below the allocation counter, and the size respects the capacity.
    pub open spec fn wf(&self) -> bool {
        &&& forall|i: int, j: int|
            0 <= i < j < self.spec_entries().len()
                ==> (#[trigger] self.spec_entries()[i]).0 < (#[trigger] self.spec_entries()[j]).0
        &&& forall|i: int|
            0 <= i < self.spec_entries().len()
                ==> (#[trigger] self.spec_entries()[i]).0 < self.spec_next()
        &&& self.spec_len() <= self.spec_capacity()
    }

    /// Strictly increasing handles are in particular distinct.
    pub(crate) proof fn lemma_wf_distinct(&self)
        requires
            self.wf(),
        ensures
            distinct_handles(self.spec_entries()),
    {
    }

    /// Makes an empty table that will hold at most `capacity` records.
    pub fn new(capacity: usize) -> (t: Self)
        ensures
            t.wf(),
            t@ == Map::<u32, GuestSpan>::empty(),
            t.spec_len() == 0,
            t.spec_next() == 0,
            t.spec_capacity() == capacity,
    {
        SpanTable { entries: Vec::new(), next: 0, capacity }
    }

    /// Stores `span` under a freshly allocated handle.
    ///
    /// Fails exactly when the table is full — at capacity, or with the
    /// handle counter spent — and leaves the table unchanged then.
    pub fn insert(&mut self, span: GuestSpan) -> (r: Result<u32, SpanError>)
        requires
            old(self).wf(),
        ensures
            final(self).wf(),
            final(self).spec_capacity() == old(self).spec_capacity(),
            r is Ok
                <==> (old(self).spec_len() < old(self).spec_capacity()
                    && old(self).spec_next() < u32::MAX),
            r matches Ok(h) ==> {
                &&& h == old(self).spec_next()
                &&& !old(self)@.dom().contains(h)
                &&& final(self)@ == old(self)@.insert(h, span)
                &&& final(self).spec_entries() == old(self).spec_entries().push((h, span))
                &&& final(self).spec_next() == h + 1
                &&& final(self).spec_len() == old(self).spec_len() + 1
            },
            r matches Err(e) ==> e == SpanError::ResourceExhausted && *final(self) == *old(self),
    {
        if self.entries.len() >= self.capacity || self.next == u32::MAX {
            return Err(SpanError::ResourceExhausted);
        }
        let handle = self.next;
        let ghost old_entries = self.entries@;
        let ghost inserted = span;
        self.next = self.next + 1;
        self.entries.push((handle, span));
        proof {
            lemma_table_map_push(old_entries, handle, inserted);
            lemma_table_map_dom(old_entries);
        }
        Ok(handle)
    }

    /// Looks a handle up; absence (for example after removal) is reported,
    /// never an error.
    pub fn get(&self, handle: u32) -> (r: Option<&GuestSpan>)
        requires
            self.wf(),
        ensures
            match r {
                Some(span) => self@.dom().contains(handle) && *span == self@[handle],
                None => !self@.dom().contains(handle),
            },
    {
        let n = self.entries.len();
        let mut idx: usize = 0;
        while idx < n
            invariant
                n == self.spec_entries().len(),
                idx <= n,
                self.wf(),
                forall|i: int| 0 <= i < idx ==> (#[trigger] self.spec_entries()[i]).0 != handle,
            decreases n - idx,
        {
            if self.entries[idx].0 == handle {
                proof {
                    self.lemma_wf_distinct();
                    lemma_table_map_index(self.spec_entries(), idx as int);
                }
                return Some(&self.entries[idx].1);
            }
            idx += 1;
        }
        proof {
            lemma_table_map_dom(self.spec_entries());
        }
        None
    }

    /// Removes a handle's record and hands it back; an unknown handle is
    /// reported as absent and changes nothing.
    pub fn remove(&mut self, handle: u32) -> (r: Option<GuestSpan>)
        requires
            old(self).wf(),
        ensures
            final(self).wf(),
            final(self).spec_next() == old(self).spec_next(),
            final(self).spec_capacity() == old(self).spec_capacity(),
            match r {
                Some(span) => {
                    &&& old(self)@.dom().contains(handle)
                    &&& span == old(self)@[handle]
                    &&& final(self)@ == old(self)@.remove(handle)
                    &&& final(self).spec_len() + 1 == old(self).spec_len()
                },
                None => !old(self)@.dom().contains(handle) && *final(self) == *old(self),
            },
    {
        let n = self.entries.len();
        let mut idx: usize = 0;
        while idx < n
            invariant
                *self == *old(self),
                n == self.spec_entries().len(),
                idx <= n,
                self.wf(),
                forall|i: int| 0 <= i < idx ==> (#[trigger] self.spec_entries()[i]).0 != handle,
            decreases n - idx,
        {
            if self.entries[idx].0 == handle {
                proof {
                    self.lemma_wf_distinct();
                    lemma_table_map_index(self.spec_entries(), idx as int);
                    lemma_table_map_remove(self.spec_entries(), idx as int);
                }
                let pair = self.entries.remove(idx);
                return Some(pair.1);
            }
            idx += 1;
        }
        proof {
            lemma_table_map_dom(self.spec_entries());
        }
        None
    }

    /// Flips the entered flag of a known handle's record, reporting the
    /// flag's previous value.
    pub(crate) fn set_entered(&mut self, handle: u32, entered: bool) -> (was: bool)
        requires
            old(self).wf(),
            old(self)@.dom().contains(handle),
        ensures
            final(self).wf(),
            final(self).spec_next() == old(self).spec_next(),
            final(self).spec_capacity() == old(self).spec_capacity(),
            final(self).spec_len() == old(self).spec_len(),
            was == old(self)@[handle].entered,
            final(self)@ == old(self)@.insert(handle, (GuestSpan {
                name: old(self)@[handle].name,
                parent: old(self)@[handle].parent,
                entered: entered,
            })),
    {
        proof {
            lemma_table_map_dom(old(self).spec_entries());
        }
        let n = self.entries.len();
        let mut idx: usize = 0;
        while idx < n
            invariant
                *self == *old(self),
                n == self.spec_entries().len(),
                idx <= n,
                self.wf(),
                old(self)@.dom().contains(handle),
                forall|i: int| 0 <= i < idx ==> (#[trigger] self.spec_entries()[i]).0 != handle,
            decreases n - idx,
        {
            if self.entries[idx].0 == handle {
                proof {
                    self.lemma_wf_distinct();
                    lemma_table_map_index(self.spec_entries(), idx as int);
                    lemma_table_map_update(self.spec_entries(), idx as int, (GuestSpan {
                        name: self.spec_entries()[idx as int].1.name,
                        parent: self.spec_entries()[idx as int].1.parent,
                        entered: entered,
                    }));
                }
                let was = self.entries[idx].1.entered;
                self.entries[idx].1.entered = entered;
                proof {
                    assert forall|i: int, j: int|
                        0 <= i < j < self.spec_entries().len()
                        implies (#[trigger] self.spec_entries()[i]).0
                            < (#[trigger] self.spec_entries()[j]).0 by {
                        assert((old(self).spec_entries()[i]).0 < (old(self).spec_entries()[j]).0);
                    }
                }
                return was;
            }
            idx += 1;
        }
        proof {
            lemma_table_map_dom(self.spec_entries());
            assert(false);
        }
        false
    }
}

} // verus!
