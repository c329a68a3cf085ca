//! Nesting laws of the active-span stack, stated and proved over the same
//! spec-level terms that the lifecycle operations' contracts use: `enter`
//! pushes the fresh handle, and a close of the span at stack position `pos`
//! keeps exactly the stack prefix `[0, pos)`.

use vstd::prelude::*;

use crate::lifecycle::SpanEffect;

verus! {

/// One step of a well-nested guest.
pub enum NestOp {
    /// `enter`: pushes the handle the table allocates.
    Open(u32),
    /// `close` of the innermost open span: pops one handle.
    CloseInnermost,
}

/// The stack after one well-nested step, exactly as the lifecycle contracts
/// state it: `enter` pushes the fresh handle; a close of the innermost span
/// — stack position `len - 1` — keeps the prefix `[0, len - 1)`.
pub open spec fn nest_step(stack: Seq<u32>, op: NestOp) -> Seq<u32> {
    match op {
        NestOp::Open(handle) => stack.push(handle),
        NestOp::CloseInnermost => stack.take(stack.len() - 1),
    }
}

/// The stack after running `ops` left to right.
pub open spec fn nest_run(stack: Seq<u32>, ops: Seq<NestOp>) -> Seq<u32>
    decreases ops.len(),
{
    if ops.len() == 0 {
        stack
    } else {
        nest_run(nest_step(stack, ops[0]), ops.skip(1))
    }
}

/// How much one step changes the nesting depth.
pub open spec fn nest_delta(op: NestOp) -> int {
    match op {
        NestOp::Open(_) => 1,
        NestOp::CloseInnermost => -1,
    }
}

/// Net change of nesting depth over a whole sequence of steps.
pub open spec fn nest_depth(ops: Seq<NestOp>) -> int
    decreases ops.len(),
{
    if ops.len() == 0 {
        0
    } else {
        nest_delta(ops[0]) + nest_depth(ops.skip(1))
    }
}

/// Well-nested: no prefix closes more spans than it opened, and overall
/// every opened span is closed again.
pub open spec fn well_nested(ops: Seq<NestOp>) -> bool {
    &&& forall|n: int| 0 <= n <= ops.len() ==> nest_depth(#[trigger] ops.take(n)) >= 0
    &&& nest_depth(ops) == 0
}

/// Running steps changes the stack length by exactly the net depth, as long
/// as no prefix would close below the stack the run began with.
proof fn lemma_nest_run_len(stack: Seq<u32>, ops: Seq<NestOp>)
    requires
        forall|n: int|
            0 <= n <= ops.len() ==> nest_depth(#[trigger] ops.take(n)) + stack.len() >= 0,
    ensures
        nest_run(stack, ops).len() == stack.len() + nest_depth(ops),
    decreases ops.len(),
{
    if ops.len() > 0 {
        let d0 = nest_delta(ops[0]);
        let s1 = nest_step(stack, ops[0]);
        assert(nest_depth(ops.take(1)) == d0) by {
            assert(ops.take(1).len() == 1);
            assert(ops.take(1)[0] == ops[0]);
            assert(ops.take(1).skip(1) =~= Seq::<NestOp>::empty());
            assert(nest_depth(Seq::<NestOp>::empty()) == 0);
        }
        assert(s1.len() == stack.len() + d0) by {
            assert(nest_depth(ops.take(1)) + stack.len() >= 0);
        }
        assert forall|n: int| 0 <= n <= ops.skip(1).len()
            implies nest_depth(#[trigger] ops.skip(1).take(n)) + s1.len() >= 0 by {
            assert(ops.take(n + 1)[0] == ops[0]);
            assert(ops.take(n + 1).skip(1) =~= ops.skip(1).take(n));
            assert(nest_depth(ops.take(n + 1)) == d0 + nest_depth(ops.skip(1).take(n)));
            assert(nest_depth(ops.take(n + 1)) + stack.len() >= 0);
        }
        lemma_nest_run_len(s1, ops.skip(1));
        assert(nest_depth(ops) == d0 + nest_depth(ops.skip(1)));
    }
}

/// For any well-nested sequence of `enter`/`close` steps, the active-span
/// stack is empty again immediately after the outermost close returns: a
/// balanced run that starts from an empty stack ends with an empty stack.
pub proof fn lemma_well_nested_leaves_stack_empty(ops: Seq<NestOp>)
    requires
        well_nested(ops),
    ensures
        nest_run(Seq::<u32>::empty(), ops) == Seq::<u32>::empty(),
{
    lemma_nest_run_len(Seq::<u32>::empty(), ops);
    assert(nest_run(Seq::<u32>::empty(), ops) =~= Seq::<u32>::empty());
}

/// Closing the innermost open span — `close` called on the last stack
/// element — keeps exactly the stack prefix before it. This ties the
/// `nest_step` model to `close`'s own contract, which keeps the prefix
/// before the closed handle's stack position.
pub proof fn lemma_close_innermost_is_nest_step(stack: Seq<u32>, handle: u32)
    requires
        stack.no_duplicates(),
        stack.len() > 0,
        handle == stack.last(),
    ensures
        stack.contains(handle),
        stack.index_of(handle) == stack.len() - 1,
        stack.take(stack.index_of(handle)) == nest_step(stack, NestOp::CloseInnermost),
{
    assert(stack[stack.len() - 1] == handle);
    let pos = stack.index_of(handle);
    assert(0 <= pos < stack.len() && stack[pos] == handle);
}

/// Closing an outer span cascades over the spans opened after it: any
/// handle that sat deeper on the stack is gone from the stack afterwards,
/// so a subsequent `close` or `drop` of that handle reports "not active"
/// rather than exiting anything a second time.
pub proof fn lemma_cascade_removes_inner(stack: Seq<u32>, outer: int, inner: int)
    requires
        stack.no_duplicates(),
        0 <= outer < inner < stack.len(),
    ensures
        !stack.take(outer).contains(stack[inner]),
{
    if stack.take(outer).contains(stack[inner]) {
        let i = choose|i: int|
            0 <= i < stack.take(outer).len() && #[trigger] stack.take(outer)[i] == stack[inner];
        assert(stack[i] == stack[inner]);
        assert(false);
    }
}

/// Cancellation exits every span that was open exactly once: the effects of
/// `cancel` walk the old stack in reverse, the reverse of a duplicate-free
/// stack is duplicate-free, and it holds exactly the handles the stack held.
pub proof fn lemma_cancel_exits_each_once(stack: Seq<u32>, closed: Seq<SpanEffect>)
    requires
        stack.no_duplicates(),
        closed.len() == stack.len(),
        forall|i: int|
            0 <= i < closed.len() ==> (#[trigger] closed[i]).handle == stack[stack.len() - 1 - i],
    ensures
        forall|i: int, j: int|
            0 <= i < closed.len() && 0 <= j < closed.len() && i != j
                ==> (#[trigger] closed[i]).handle != (#[trigger] closed[j]).handle,
        forall|h: u32|
            #[trigger] stack.contains(h)
                <==> exists|i: int| 0 <= i < closed.len() && (#[trigger] closed[i]).handle == h,
{
    assert forall|h: u32| #[trigger] stack.contains(h)
        implies exists|i: int| 0 <= i < closed.len() && (#[trigger] closed[i]).handle == h by {
        let i = choose|i: int| 0 <= i < stack.len() && #[trigger] stack[i] == h;
        assert(closed[stack.len() - 1 - i].handle == h);
    }
    assert forall|h: u32|
        (exists|i: int| 0 <= i < closed.len() && (#[trigger] closed[i]).handle == h)
        implies #[trigger] stack.contains(h) by {
        let i = choose|i: int| 0 <= i < closed.len() && (#[trigger] closed[i]).handle == h;
        assert(stack[stack.len() - 1 - i] == h);
    }
}

} // verus!
