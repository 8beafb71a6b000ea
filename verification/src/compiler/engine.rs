//! The two passes behind the parser: settling the symbols, and writing the
//! image.

use super::compiler_context::{
    apply, attempt, place_of, symbol_of, CompilerContext, Context, Resolution, ResolutionOp, Write,
    WriteOp,
};
use super::cursor_after;
use crate::errors::Diagnostic;
use crate::Span;
use vstd::prelude::*;

verus! {

impl Clone for ResolutionOp {
    fn clone(&self) -> (r: ResolutionOp)
        ensures
            r.deep_view() == self.deep_view(),
    {
        match self {
            ResolutionOp::Define { name, value, span } => ResolutionOp::Define {
                name: name.clone(),
                value: *value,
                span: span.clone(),
            },
            ResolutionOp::Require { name, span } => ResolutionOp::Require {
                name: name.clone(),
                span: span.clone(),
            },
        }
    }
}

/// One sweep over the queue from `i` on: each resolution is tried once, in
/// its place; those that do not hold are kept, in their order.
pub open spec fn sweep_from(
    queue: Seq<Resolution>,
    i: int,
    kept: Seq<Resolution>,
    table: Map<Seq<char>, u16>,
) -> (Seq<Resolution>, Map<Seq<char>, u16>)
    decreases queue.len() - i,
{
    if 0 <= i < queue.len() {
        let (done, next) = attempt(queue[i], table);
        sweep_from(
            queue,
            i + 1,
            if done {
                kept
            } else {
                kept.push(queue[i])
            },
            next,
        )
    } else {
        (kept, table)
    }
}

/// One sweep over the whole queue.
pub open spec fn sweep(queue: Seq<Resolution>, table: Map<Seq<char>, u16>) -> (
    Seq<Resolution>,
    Map<Seq<char>, u16>,
) {
    sweep_from(queue, 0, Seq::empty(), table)
}

/// Sweeps for as long as a sweep settles something. What comes back is what
/// never held, and the table.
pub open spec fn resolve(queue: Seq<Resolution>, table: Map<Seq<char>, u16>) -> (
    Seq<Resolution>,
    Map<Seq<char>, u16>,
)
    decreases queue.len(),
{
    if queue.len() == 0 {
        (queue, table)
    } else {
        let (kept, next) = sweep(queue, table);
        if kept.len() < queue.len() {
            resolve(kept, next)
        } else {
            (kept, next)
        }
    }
}

/// The writes from `i` on, run in their order.
pub open spec fn emit_from(writes: Seq<Write>, i: int, ctx: Context) -> Context
    decreases writes.len() - i,
{
    if 0 <= i < writes.len() {
        emit_from(writes, i + 1, apply(writes[i], ctx))
    } else {
        ctx
    }
}

pub open spec fn unresolved_text() -> Seq<char> {
    "Could not resolve a declaration"@
}

/// The diagnostic for a resolution that never held: at the place where
/// the program declares the name, or refers to it.
pub open spec fn unresolved(r: Resolution) -> Diagnostic {
    Diagnostic { message: unresolved_text(), span: place_of(r) }
}

/// The diagnostics for the resolutions that never held, in their order.
pub open spec fn all_unresolved(stalled: Seq<Resolution>) -> Seq<Diagnostic> {
    Seq::new(stalled.len(), |i: int| unresolved(stalled[i]))
}

/// A sweep only adds names to the table, keeps what it had kept, and either
/// keeps a demand or finds its name in the table.
pub proof fn lemma_sweep(
    queue: Seq<Resolution>,
    i: int,
    kept: Seq<Resolution>,
    table: Map<Seq<char>, u16>,
)
    requires
        0 <= i <= queue.len(),
    ensures
        ({
            let (after, next) = sweep_from(queue, i, kept, table);
            &&& forall|name: Seq<char>| table.dom().contains(name) ==> next.dom().contains(name)
            &&& forall|r: Resolution| kept.contains(r) ==> after.contains(r)
            &&& forall|j: int|
                i <= j < queue.len() ==> (#[trigger] queue[j] matches Resolution::Require {
                    name,
                    ..
                } ==> next.dom().contains(name) || after.contains(queue[j]))
            &&& forall|name: Seq<char>|
                next.dom().contains(name) ==> table.dom().contains(name) || exists|j: int|
                    i <= j < queue.len() && (#[trigger] queue[j] matches Resolution::Define {
                        name: defined,
                        ..
                    } && defined == name)
        }),
    decreases queue.len() - i,
{
    if i < queue.len() {
        let (done, next) = attempt(queue[i], table);
        let kept2 = if done {
            kept
        } else {
            kept.push(queue[i])
        };
        lemma_sweep(queue, i + 1, kept2, next);
        let (after, last) = sweep_from(queue, i, kept, table);
        assert forall|r: Resolution| kept.contains(r) implies after.contains(r) by {
            if !done {
                let k = choose|k: int| 0 <= k < kept.len() && kept[k] == r;
                assert(kept2[k] == r);
            }
        }
        if !done {
            assert(kept2[kept2.len() - 1] == queue[i]);
            assert(kept2.contains(queue[i]));
            assert(after.contains(queue[i]));
        }
        assert forall|name: Seq<char>| table.dom().contains(name) implies last.dom().contains(
            name,
        ) by {
            assert(next.dom().contains(name));
        }
        assert forall|j: int| i <= j < queue.len() implies (#[trigger] queue[j] matches Resolution::Require {
            name,
            ..
        } ==> last.dom().contains(name) || after.contains(queue[j])) by {
            if j == i {
                if let Resolution::Require { name, .. } = queue[i] {
                    if done {
                        assert(next.dom().contains(name));
                    }
                }
            }
        }
        assert forall|name: Seq<char>| last.dom().contains(name) implies table.dom().contains(
            name,
        ) || exists|j: int|
            i <= j < queue.len() && (#[trigger] queue[j] matches Resolution::Define {
                name: defined,
                ..
            } && defined == name) by {
            if !table.dom().contains(name) {
                if next.dom().contains(name) {
                    assert(queue[i] matches Resolution::Define { name: defined, .. } && defined
                        == name);
                } else {
                    let j = choose|j: int|
                        i + 1 <= j < queue.len() && (#[trigger] queue[j] matches Resolution::Define {
                            name: defined,
                            ..
                        } && defined == name);
                    assert(i <= j < queue.len());
                }
            }
        }
    }
}

/// What is kept by a sweep was in the queue.
pub proof fn lemma_sweep_keeps_from_queue(
    queue: Seq<Resolution>,
    i: int,
    kept: Seq<Resolution>,
    table: Map<Seq<char>, u16>,
)
    requires
        0 <= i <= queue.len(),
    ensures
        forall|r: Resolution| #[trigger]
            sweep_from(queue, i, kept, table).0.contains(r) ==> kept.contains(r) || queue.contains(
                r,
            ),
        sweep_from(queue, i, kept, table).0.len() <= kept.len() + queue.len() - i,
    decreases queue.len() - i,
{
    if i < queue.len() {
        let (done, next) = attempt(queue[i], table);
        let kept2 = if done {
            kept
        } else {
            kept.push(queue[i])
        };
        lemma_sweep_keeps_from_queue(queue, i + 1, kept2, next);
        assert forall|r: Resolution| #[trigger]
            sweep_from(queue, i, kept, table).0.contains(r) implies kept.contains(r)
            || queue.contains(r) by {
            if kept2.contains(r) && !kept.contains(r) {
                let k = choose|k: int| 0 <= k < kept2.len() && kept2[k] == r;
                if k < kept.len() {
                    assert(kept[k] == r);
                }
                assert(queue[i] == r);
            }
        }
    }
}

/// Once resolving has ended, a demand of the queue has its name in the
/// table, or is among what never held; and the table has no name but those
/// that it had and those that the queue defines.
pub proof fn lemma_resolve(queue: Seq<Resolution>, table: Map<Seq<char>, u16>)
    ensures
        ({
            let (stalled, last) = resolve(queue, table);
            &&& forall|name: Seq<char>| table.dom().contains(name) ==> last.dom().contains(name)
            &&& forall|name: Seq<char>, span: Span| #[trigger]
                queue.contains(Resolution::Require { name, span }) ==> last.dom().contains(name)
                    || stalled.contains(Resolution::Require { name, span })
            &&& forall|name: Seq<char>|
                last.dom().contains(name) ==> table.dom().contains(name) || exists|j: int|
                    0 <= j < queue.len() && (#[trigger] queue[j] matches Resolution::Define {
                        name: defined,
                        ..
                    } && defined == name)
        }),
    decreases queue.len(),
{
    if queue.len() > 0 {
        let (kept, next) = sweep(queue, table);
        lemma_sweep(queue, 0, Seq::empty(), table);
        lemma_sweep_keeps_from_queue(queue, 0, Seq::empty(), table);
        let (stalled, last) = resolve(queue, table);
        if kept.len() < queue.len() {
            lemma_resolve(kept, next);
            assert forall|name: Seq<char>, span: Span| #[trigger]
                queue.contains(Resolution::Require { name, span }) implies last.dom().contains(
                name,
            ) || stalled.contains(Resolution::Require { name, span }) by {
                let r = Resolution::Require { name, span };
                let j = choose|j: int| 0 <= j < queue.len() && queue[j] == r;
                assert(queue[j] matches Resolution::Require { name: n, .. } && n == name);
                if !next.dom().contains(name) {
                    assert(kept.contains(queue[j]));
                }
            }
            assert forall|name: Seq<char>| last.dom().contains(name) implies table.dom().contains(
                name,
            ) || exists|j: int|
                0 <= j < queue.len() && (#[trigger] queue[j] matches Resolution::Define {
                    name: defined,
                    ..
                } && defined == name) by {
                if !table.dom().contains(name) && !next.dom().contains(name) {
                    let k = choose|k: int|
                        0 <= k < kept.len() && (#[trigger] kept[k] matches Resolution::Define {
                            name: defined,
                            ..
                        } && defined == name);
                    assert(kept.contains(kept[k]));
                    let j = choose|j: int| 0 <= j < queue.len() && queue[j] == kept[k];
                    assert(queue[j] matches Resolution::Define { name: defined, .. } && defined
                        == name);
                }
            }
        } else {
            assert forall|name: Seq<char>, span: Span| #[trigger]
                queue.contains(Resolution::Require { name, span }) implies last.dom().contains(
                name,
            ) || stalled.contains(Resolution::Require { name, span }) by {
                let r = Resolution::Require { name, span };
                let j = choose|j: int| 0 <= j < queue.len() && queue[j] == r;
                assert(queue[j] matches Resolution::Require { name: n, .. } && n == name);
            }
        }
    }
}

/// Running the writes leaves the table as it is and brings the cursor to
/// where the writes say it stands.
pub proof fn lemma_emit_step(writes: Seq<Write>, i: int, ctx: Context)
    requires
        0 <= i < writes.len(),
        ctx.address == cursor_after(writes.take(i)),
    ensures
        apply(writes[i], ctx).table == ctx.table,
        apply(writes[i], ctx).address == cursor_after(writes.take(i + 1)),
{
    assert(writes.take(i + 1).drop_last() =~= writes.take(i));
    assert(writes.take(i + 1).last() == writes[i]);
}

/// One sweep: tries each resolution of the queue on the table, and returns
/// those that did not hold.
pub fn sweep_queue(queue: &Vec<ResolutionOp>, ctx: &mut CompilerContext) -> (kept: Vec<
    ResolutionOp,
>)
    ensures
        (kept.deep_view(), final(ctx)@.table) == sweep(queue.deep_view(), old(ctx)@.table),
        final(ctx)@.address == old(ctx)@.address,
        final(ctx)@.binary == old(ctx)@.binary,
{
    let mut kept: Vec<ResolutionOp> = Vec::new();
    let mut i: usize = 0;
    assert(kept.deep_view() =~= Seq::<Resolution>::empty());
    while i < queue.len()
        invariant
            i <= queue@.len(),
            ctx@.address == old(ctx)@.address,
            ctx@.binary == old(ctx)@.binary,
            sweep_from(queue.deep_view(), i as int, kept.deep_view(), ctx@.table) == sweep(
                queue.deep_view(),
                old(ctx)@.table,
            ),
        decreases queue@.len() - i,
    {
        let ghost before = kept.deep_view();
        assert(queue.deep_view()[i as int] == queue@[i as int].deep_view());
        if !queue[i].run(ctx) {
            let op = queue[i].clone();
            kept.push(op);
            assert(kept.deep_view() =~= before.push(queue.deep_view()[i as int]));
        }
        i = i + 1;
    }
    kept
}

/// Settles the symbols: sweeps the queue for as long as a sweep settles
/// something, and returns what never held.
pub fn resolve_queue(queue: Vec<ResolutionOp>, ctx: &mut CompilerContext) -> (stalled: Vec<
    ResolutionOp,
>)
    ensures
        (stalled.deep_view(), final(ctx)@.table) == resolve(queue.deep_view(), old(ctx)@.table),
        final(ctx)@.address == old(ctx)@.address,
        final(ctx)@.binary == old(ctx)@.binary,
{
    let ghost whole = queue.deep_view();
    let mut left = queue;
    while left.len() > 0
        invariant
            ctx@.address == old(ctx)@.address,
            ctx@.binary == old(ctx)@.binary,
            whole == queue.deep_view(),
            resolve(left.deep_view(), ctx@.table) == resolve(whole, old(ctx)@.table),
        decreases left@.len(),
    {
        let ghost pending = left.deep_view();
        let ghost table = ctx@.table;
        let kept = sweep_queue(&left, ctx);
        assert(kept.deep_view().len() == kept@.len());
        assert(pending.len() == left@.len());
        if !(kept.len() < left.len()) {
            return kept;
        }
        left = kept;
    }
    assert(left.deep_view().len() == left@.len());
    left
}

/// Writes the image: runs the writes in their order.
pub fn emit_queue(writes: &Vec<WriteOp>, ctx: &mut CompilerContext)
    requires
        old(ctx)@.address == 0,
        forall|k: int|
            0 <= k <= writes.deep_view().len() ==> 0 <= #[trigger] cursor_after(
                writes.deep_view().take(k),
            ) <= 0xFFFF,
        forall|i: int|
            0 <= i < writes.deep_view().len() ==> (symbol_of(
                #[trigger] writes.deep_view()[i],
            ) matches Some(name) ==> old(ctx)@.table.dom().contains(name)),
    ensures
        final(ctx)@ == emit_from(writes.deep_view(), 0, old(ctx)@),
{
    let mut i: usize = 0;
    assert(writes.deep_view().take(0) =~= Seq::<Write>::empty());
    while i < writes.len()
        invariant
            i <= writes@.len(),
            writes@.len() == writes.deep_view().len(),
            ctx@.table == old(ctx)@.table,
            ctx@.address == cursor_after(writes.deep_view().take(i as int)),
            forall|k: int|
                0 <= k <= writes.deep_view().len() ==> 0 <= #[trigger] cursor_after(
                    writes.deep_view().take(k),
                ) <= 0xFFFF,
            forall|i: int|
                0 <= i < writes.deep_view().len() ==> (symbol_of(
                    #[trigger] writes.deep_view()[i],
                ) matches Some(name) ==> old(ctx)@.table.dom().contains(name)),
            emit_from(writes.deep_view(), i as int, ctx@) == emit_from(
                writes.deep_view(),
                0,
                old(ctx)@,
            ),
        decreases writes@.len() - i,
    {
        proof {
            lemma_emit_step(writes.deep_view(), i as int, ctx@);
            assert(writes.deep_view()[i as int] == writes@[i as int].deep_view());
        }
        writes[i].run(ctx);
        i = i + 1;
    }
}

} // verus!
