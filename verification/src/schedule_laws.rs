//! What holds of every schedule: the register file stays tidy, the
//! reference counts end at zero, and the slot count is the high-water mark.

use vstd::prelude::*;
use crate::registers::{lemma_first_index_of, live, Registers, ScheduleErrorView};
use crate::scheduler::{
    initial_registers, ref_count, schedule, stack_refs, statement_refs, statements_refs, swapped,
    value_refs, values_refs, OpView, Schedule,
};
use crate::ssa_block::{Block, BlockView, NameView, StatementView, ValueView};

verus! {

/// A register file is tidy where no name is held by two slots and every
/// name that a slot holds is still to be read.
pub open spec fn tidy(r: Registers) -> bool {
    &&& forall|i: int, j: int|
        0 <= i < j < r.slots.len() && r.slots[i] is Some ==> r.slots[i] != r.slots[j]
    &&& forall|i: int| 0 <= i < r.slots.len() && r.slots[i] is Some ==> r.remaining[r.slots[i]->0] > 0
}

/// What `get_or_assign_loc` does to a tidy register file: the name is in
/// the slot returned, every other slot and every count is as before, and
/// a slot is added only behind the others and only for the name.
pub proof fn lemma_assign(r: Registers, name: NameView)
    requires
        tidy(r),
        r.remaining[name] > 0,
    ensures
        ({
            let (after, loc) = r.get_or_assign_loc(name);
            &&& tidy(after)
            &&& after.remaining == r.remaining
            &&& loc < after.slots.len()
            &&& after.slots[loc as int] == Some(name)
            &&& r.slots.len() <= after.slots.len() <= r.slots.len() + 1
            &&& after.slots.len() > r.slots.len() ==> loc == r.slots.len()
            &&& forall|j: int| 0 <= j < r.slots.len() && j != loc ==> after.slots[j] == r.slots[j]
            &&& loc < r.slots.len() ==> r.slots[loc as int] == Some(name) || r.slots[loc as int] is None
            &&& r.peak == r.slots.len() ==> after.peak == after.slots.len()
        }),
{
    lemma_first_index_of(r.slots, Some(name), 0);
    lemma_first_index_of(r.slots, None, 0);
    let (after, loc) = r.get_or_assign_loc(name);
    lemma_live_bound(after.slots, 0);
    if after.slots.len() > r.slots.len() {
        lemma_live_full(after.slots, 0);
    }
}

/// No more slots hold a name than there are slots.
pub proof fn lemma_live_bound(slots: Seq<Option<NameView>>, k: int)
    requires
        0 <= k <= slots.len(),
    ensures
        live(slots, k) <= slots.len() - k,
    decreases slots.len() - k,
{
    if k < slots.len() {
        lemma_live_bound(slots, k + 1);
    }
}

/// Where every slot holds a name, as many hold one as there are slots.
pub proof fn lemma_live_full(slots: Seq<Option<NameView>>, k: int)
    requires
        0 <= k <= slots.len(),
        forall|j: int| k <= j < slots.len() ==> slots[j] is Some,
    ensures
        live(slots, k) == slots.len() - k,
    decreases slots.len() - k,
{
    if k < slots.len() {
        lemma_live_full(slots, k + 1);
    }
}

/// Two files of slots that agree from `k` on hold as many names from `k`
/// on.
pub proof fn lemma_live_same_tail(a: Seq<Option<NameView>>, b: Seq<Option<NameView>>, k: int)
    requires
        a.len() == b.len(),
        0 <= k,
        forall|j: int| k <= j < a.len() ==> a[j] == b[j],
    ensures
        live(a, k) == live(b, k),
    decreases a.len() - k,
{
    if k < a.len() {
        lemma_live_same_tail(a, b, k + 1);
    }
}

/// Releasing a slot that holds a name leaves one name fewer held.
pub proof fn lemma_live_release(slots: Seq<Option<NameView>>, p: int, k: int)
    requires
        0 <= k <= p < slots.len(),
        slots[p] is Some,
    ensures
        live(slots.update(p, None), k) + 1 == live(slots, k),
    decreases p - k,
{
    if k < p {
        lemma_live_release(slots, p, k + 1);
    } else {
        lemma_live_same_tail(slots, slots.update(p, None), p + 1);
    }
}

/// Whether a slot holds `name`.
pub open spec fn held(slots: Seq<Option<NameView>>, name: NameView) -> bool {
    exists|p: int| 0 <= p < slots.len() && slots[p] == Some(name)
}

/// Names that differ from one another and are all held take as many
/// slots as there are names.
pub proof fn lemma_held_names(slots: Seq<Option<NameView>>, names: Seq<NameView>)
    requires
        forall|i: int, j: int| 0 <= i < j < names.len() ==> names[i] != names[j],
        forall|j: int| 0 <= j < names.len() ==> held(slots, #[trigger] names[j]),
    ensures
        names.len() <= live(slots, 0) <= slots.len(),
    decreases names.len(),
{
    lemma_live_bound(slots, 0);
    if names.len() > 0 {
        let last = names.last();
        let p = choose|p: int| 0 <= p < slots.len() && slots[p] == Some(last);
        let fewer = slots.update(p, None);
        let rest = names.drop_last();
        assert(held(slots, names[names.len() - 1]));
        assert forall|j: int| 0 <= j < rest.len() implies held(fewer, #[trigger] rest[j]) by {
            assert(held(slots, names[j]));
            let q = choose|q: int| 0 <= q < slots.len() && slots[q] == Some(names[j]);
            assert(names[j] != names[names.len() - 1]);
            assert(fewer[q] == Some(rest[j]));
        }
        lemma_held_names(fewer, rest);
        lemma_live_release(slots, p, 0);
    }
}

/// What `use_reference` does to a tidy register file: the name was in the
/// slot returned and had a read to come; its count is one less, and its
/// slot is empty where the count is zero; all else is as before.
pub proof fn lemma_use(r: Registers, name: NameView)
    requires
        tidy(r),
        r.use_reference(name) is Ok,
    ensures
        ({
            let (after, loc) = r.use_reference(name)->Ok_0;
            &&& tidy(after)
            &&& loc < r.slots.len()
            &&& r.slots[loc as int] == Some(name)
            &&& r.remaining[name] > 0
            &&& after.remaining == r.remaining.insert(name, (r.remaining[name] - 1) as nat)
            &&& after.slots.len() == r.slots.len()
            &&& forall|j: int| 0 <= j < r.slots.len() && j != loc ==> after.slots[j] == r.slots[j]
            &&& after.slots[loc as int] == if r.remaining[name] == 1 {
                None
            } else {
                Some(name)
            }
        }),
{
    lemma_first_index_of(r.slots, Some(name), 0);
}

/// The counts of a schedule that has scheduled something are those before
/// it, less the reads that it has scheduled.
pub open spec fn counts_less(before: Schedule, after: Schedule, reads: spec_fn(NameView) -> nat) -> bool {
    forall|n: NameView| #[trigger] after.regs.remaining[n] + reads(n) == before.regs.remaining[n]
}

/// `store` keeps the register file tidy and the counts as they are.
pub proof fn lemma_store(s: Schedule, name: NameView)
    requires
        tidy(s.regs),
    ensures
        tidy(s.store(name).regs),
        s.store(name).regs.remaining == s.regs.remaining,
{
    if s.regs.remaining[name] > 0 {
        lemma_assign(s.regs, name);
    }
}

/// `ingest` keeps the register file tidy and the counts as they are.
pub proof fn lemma_ingest(s: Schedule, names: Seq<Seq<char>>, k: int)
    requires
        tidy(s.regs),
    ensures
        tidy(s.ingest(names, k).regs),
        s.ingest(names, k).regs.remaining == s.regs.remaining,
    decreases k,
{
    if 0 < k <= names.len() {
        lemma_store(s, NameView::Ident(names[k - 1]));
        lemma_ingest(s.store(NameView::Ident(names[k - 1])), names, k - 1);
    }
}

/// `store_results` keeps the register file tidy and the counts as they
/// are.
pub proof fn lemma_store_results(s: Schedule, assigns: Seq<NameView>, k: int)
    requires
        tidy(s.regs),
    ensures
        tidy(s.store_results(assigns, k).regs),
        s.store_results(assigns, k).regs.remaining == s.regs.remaining,
    decreases assigns.len() - k,
{
    if 0 <= k < assigns.len() {
        lemma_store(s, assigns[k]);
        lemma_store_results(s.store(assigns[k]), assigns, k + 1);
    }
}

/// `load` keeps the register file tidy and takes one read off the count
/// of the name that the operand reads.
pub proof fn lemma_load(s: Schedule, v: ValueView)
    requires
        tidy(s.regs),
        s.load(v) is Ok,
    ensures
        tidy(s.load(v)->Ok_0.regs),
        counts_less(s, s.load(v)->Ok_0, |n: NameView| value_refs(v, n)),
{
    match v {
        ValueView::Literal(_) => {},
        ValueView::RefName(name) => {
            lemma_use(s.regs, name);
        },
    }
}

/// `load_operands` keeps the register file tidy and takes the reads of
/// the operands that it loads off the counts.
pub proof fn lemma_load_operands(s: Schedule, takes: Seq<ValueView>, k: int)
    requires
        tidy(s.regs),
        0 <= k <= takes.len(),
        s.load_operands(takes, k) is Ok,
    ensures
        tidy(s.load_operands(takes, k)->Ok_0.regs),
        counts_less(
            s,
            s.load_operands(takes, k)->Ok_0,
            |n: NameView| (values_refs(takes, n, 0) - values_refs(takes, n, k)) as nat,
        ),
        forall|n: NameView| values_refs(takes, n, k) <= values_refs(takes, n, 0),
    decreases k,
{
    if k > 0 {
        lemma_load(s, takes[k - 1]);
        let next = s.load(takes[k - 1])->Ok_0;
        lemma_load_operands(next, takes, k - 1);
        let done = next.load_operands(takes, k - 1)->Ok_0;
        assert forall|n: NameView|
            values_refs(takes, n, k) <= values_refs(takes, n, 0) && #[trigger] done.regs.remaining[n]
                + (values_refs(takes, n, 0) - values_refs(takes, n, k)) as nat
                == s.regs.remaining[n] by {
            assert(values_refs(takes, n, k - 1) == value_refs(takes[k - 1], n) + values_refs(
                takes,
                n,
                k,
            ));
            assert(next.regs.remaining[n] + value_refs(takes[k - 1], n) == s.regs.remaining[n]);
            assert(values_refs(takes, n, k - 1) <= values_refs(takes, n, 0));
        }
    } else {
        assert forall|n: NameView| values_refs(takes, n, k) <= values_refs(takes, n, 0) by {}
    }
}

/// `statement` keeps the register file tidy and takes the reads of the
/// statement off the counts.
pub proof fn lemma_statement(s: Schedule, stmt: StatementView)
    requires
        tidy(s.regs),
        s.statement(stmt) is Ok,
    ensures
        tidy(s.statement(stmt)->Ok_0.regs),
        counts_less(s, s.statement(stmt)->Ok_0, |n: NameView| statement_refs(stmt, n)),
{
    match stmt {
        StatementView::ValueAssign { to, value: ValueView::Literal(l) } => {
            if s.regs.remaining[to] > 0 {
                lemma_assign(s.regs, to);
            }
        },
        StatementView::ValueAssign { to, value: ValueView::RefName(src) } => {
            lemma_use(s.regs, src);
            let (used, from) = s.regs.use_reference(src)->Ok_0;
            if used.remaining[to] > 0 {
                lemma_assign(used, to);
            }
        },
        StatementView::CallAssign { assigns, calls, takes } => {
            lemma_load_operands(s, takes, takes.len() as int);
            let loaded = s.load_operands(takes, takes.len() as int)->Ok_0;
            lemma_store_results(loaded.emit(OpView::CallFn(calls)), assigns, 0);
            let done = s.statement(stmt)->Ok_0;
            assert forall|n: NameView| #[trigger]
                done.regs.remaining[n] + statement_refs(stmt, n) == s.regs.remaining[n] by {
                assert(loaded.regs.remaining[n] + (values_refs(takes, n, 0) - values_refs(
                    takes,
                    n,
                    takes.len() as int,
                )) as nat == s.regs.remaining[n]);
            }
        },
    }
}

/// `statements` keeps the register file tidy and takes the reads of the
/// statements that it schedules off the counts.
pub proof fn lemma_statements(s: Schedule, stmts: Seq<StatementView>, k: int)
    requires
        tidy(s.regs),
        0 <= k,
        s.statements(stmts, k) is Ok,
    ensures
        tidy(s.statements(stmts, k)->Ok_0.regs),
        counts_less(s, s.statements(stmts, k)->Ok_0, |n: NameView| statements_refs(stmts, n, k)),
    decreases stmts.len() - k,
{
    if k < stmts.len() {
        lemma_statement(s, stmts[k]);
        let next = s.statement(stmts[k])->Ok_0;
        lemma_statements(next, stmts, k + 1);
        let done = next.statements(stmts, k + 1)->Ok_0;
        assert forall|n: NameView| #[trigger]
            done.regs.remaining[n] + statements_refs(stmts, n, k) == s.regs.remaining[n] by {
            assert(next.regs.remaining[n] + statement_refs(stmts[k], n) == s.regs.remaining[n]);
        }
    }
}

/// Exchanging two slots keeps a register file tidy.
pub proof fn lemma_swapped_tidy(r: Registers, i: nat, j: nat)
    requires
        tidy(r),
    ensures
        tidy(Registers { slots: swapped(r.slots, i, j), ..r }),
{
    let after = swapped(r.slots, i, j);
    assert forall|a: int, b: int| 0 <= a < b < after.len() && after[a] is Some implies after[a]
        != after[b] by {
        let pa = if a == i {
            j as int
        } else if a == j {
            i as int
        } else {
            a
        };
        let pb = if b == i {
            j as int
        } else if b == j {
            i as int
        } else {
            b
        };
        if pa < r.slots.len() && pb < r.slots.len() {
            if pa < pb {
                assert(r.slots[pa] != r.slots[pb]);
            } else {
                assert(r.slots[pb] != r.slots[pa] || r.slots[pb] is None);
            }
        }
    }
}

/// `marshal_one` keeps the register file tidy and takes one read off the
/// count of the name.
pub proof fn lemma_marshal_one(s: Schedule, name: NameView, i: nat)
    requires
        tidy(s.regs),
        s.marshal_one(name, i) is Ok,
    ensures
        tidy(s.marshal_one(name, i)->Ok_0.regs),
        counts_less(
            s,
            s.marshal_one(name, i)->Ok_0,
            |n: NameView|
                if n == name {
                    1nat
                } else {
                    0nat
                },
        ),
{
    lemma_use(s.regs, name);
    let (used, from) = s.regs.use_reference(name)->Ok_0;
    if from != i {
        lemma_swapped_tidy(used, i, from);
    }
}

/// `marshal` keeps the register file tidy and takes one read for each
/// place of the end stack that it marshals off the counts.
pub proof fn lemma_marshal(s: Schedule, names: Seq<Seq<char>>, k: int)
    requires
        tidy(s.regs),
        0 <= k,
        s.marshal(names, k) is Ok,
    ensures
        tidy(s.marshal(names, k)->Ok_0.regs),
        counts_less(s, s.marshal(names, k)->Ok_0, |n: NameView| stack_refs(names, n, k)),
    decreases names.len() - k,
{
    if k < names.len() {
        lemma_marshal_one(s, NameView::Ident(names[k]), k as nat);
        let next = s.marshal_one(NameView::Ident(names[k]), k as nat)->Ok_0;
        lemma_marshal(next, names, k + 1);
        let done = next.marshal(names, k + 1)->Ok_0;
        assert forall|n: NameView| #[trigger]
            done.regs.remaining[n] + stack_refs(names, n, k) == s.regs.remaining[n] by {
            assert(next.regs.remaining[n] + (if n == NameView::Ident(names[k]) {
                1nat
            } else {
                0nat
            }) == s.regs.remaining[n]);
        }
    }
}

/// At the end of a schedule every reference count is zero, and every slot
/// is released.
pub proof fn lemma_counts_reach_zero(block: BlockView)
    requires
        schedule(block) is Ok,
    ensures
        forall|n: NameView| (#[trigger] schedule(block)->Ok_0.regs.remaining[n]) == 0,
        forall|i: int|
            0 <= i < schedule(block)->Ok_0.regs.slots.len() ==> (
            #[trigger] schedule(block)->Ok_0.regs.slots[i]) is None,
{
    let start = Schedule { regs: initial_registers(block), ops: Seq::empty() };
    lemma_ingest(start, block.start_stack, block.start_stack.len() as int);
    let ingested = start.ingest(block.start_stack, block.start_stack.len() as int);
    lemma_statements(ingested, block.statements, 0);
    let done = ingested.statements(block.statements, 0)->Ok_0;
    lemma_marshal(done, block.end_stack, 0);
    let last = done.marshal(block.end_stack, 0)->Ok_0;
    assert forall|n: NameView| (#[trigger] last.regs.remaining[n]) == 0 by {
        assert(done.regs.remaining[n] + statements_refs(block.statements, n, 0)
            == ingested.regs.remaining[n]);
        assert(last.regs.remaining[n] + stack_refs(block.end_stack, n, 0) == done.regs.remaining[n]);
        assert(start.regs.remaining[n] == ref_count(block, n));
    }
}

/// Whether the operation reads or writes slot `i`.
pub open spec fn touches(op: OpView, i: nat) -> bool {
    match op {
        OpView::MemVarStore(j) => j == i,
        OpView::MemVarLoad(j) => j == i,
        OpView::MemCopy { from, to } => from == i || to == i,
        OpView::MemSwap(a, b) => a == i || b == i,
        _ => false,
    }
}

/// Whether the operation writes slot `i`.
pub open spec fn writes(op: OpView, i: nat) -> bool {
    match op {
        OpView::MemVarStore(j) => j == i,
        OpView::MemCopy { from, to } => to == i,
        OpView::MemSwap(a, b) => a == i || b == i,
        _ => false,
    }
}

/// The number of slots is the high-water mark of the operations: no
/// operation touches a slot at or above it, and the slot just below it,
/// where there is one, is written.
pub open spec fn marked(s: Schedule) -> bool {
    &&& forall|k: int, i: nat|
        0 <= k < s.ops.len() && #[trigger] touches(s.ops[k], i) ==> i < s.regs.slots.len()
    &&& s.regs.slots.len() > 0 ==> exists|k: int|
        0 <= k < s.ops.len() && #[trigger] writes(s.ops[k], (s.regs.slots.len() - 1) as nat)
}

/// The schedule `after` has the operations of `before` and perhaps more
/// behind them.
pub open spec fn extends(before: Schedule, after: Schedule) -> bool {
    &&& before.ops.len() <= after.ops.len()
    &&& forall|k: int| 0 <= k < before.ops.len() ==> after.ops[k] == before.ops[k]
}

/// The number of slots is the greatest number of slots that have held a
/// name at one time.
pub open spec fn peaked(s: Schedule) -> bool {
    s.regs.peak == s.regs.slots.len()
}

/// `store` keeps the high-water mark.
pub proof fn lemma_store_marked(s: Schedule, name: NameView)
    requires
        tidy(s.regs),
        marked(s),
        peaked(s),
    ensures
        marked(s.store(name)),
        peaked(s.store(name)),
        extends(s, s.store(name)),
{
    let after = s.store(name);
    if s.regs.remaining[name] > 0 {
        lemma_assign(s.regs, name);
        let (regs, loc) = s.regs.get_or_assign_loc(name);
        if s.regs.slots.len() < after.regs.slots.len() {
            assert(writes(after.ops[s.ops.len() as int], (after.regs.slots.len() - 1) as nat));
        }
    }
    lemma_marked_extended(s, after);
}

/// A schedule that extends a marked one is marked where its new
/// operations touch no slot at or above the number of slots and, if there
/// are more slots than before, one of them writes the topmost.
pub proof fn lemma_marked_extended(s: Schedule, after: Schedule)
    requires
        marked(s),
        extends(s, after),
        s.regs.slots.len() <= after.regs.slots.len(),
        forall|k: int, i: nat|
            s.ops.len() <= k < after.ops.len() && #[trigger] touches(after.ops[k], i) ==> i
                < after.regs.slots.len(),
        s.regs.slots.len() < after.regs.slots.len() ==> exists|k: int|
            s.ops.len() <= k < after.ops.len() && #[trigger] writes(
                after.ops[k],
                (after.regs.slots.len() - 1) as nat,
            ),
    ensures
        marked(after),
{
    assert forall|k: int, i: nat|
        0 <= k < after.ops.len() && #[trigger] touches(after.ops[k], i) implies i
        < after.regs.slots.len() by {
        if k < s.ops.len() {
            assert(touches(s.ops[k], i));
        }
    }
    if s.regs.slots.len() == after.regs.slots.len() && s.regs.slots.len() > 0 {
        let k = choose|k: int|
            0 <= k < s.ops.len() && #[trigger] writes(s.ops[k], (s.regs.slots.len() - 1) as nat);
        assert(writes(after.ops[k], (after.regs.slots.len() - 1) as nat));
    }
}

/// `ingest` keeps the high-water mark.
pub proof fn lemma_ingest_marked(s: Schedule, names: Seq<Seq<char>>, k: int)
    requires
        tidy(s.regs),
        marked(s),
        peaked(s),
    ensures
        marked(s.ingest(names, k)),
        peaked(s.ingest(names, k)),
    decreases k,
{
    if 0 < k <= names.len() {
        lemma_store(s, NameView::Ident(names[k - 1]));
        lemma_store_marked(s, NameView::Ident(names[k - 1]));
        lemma_ingest_marked(s.store(NameView::Ident(names[k - 1])), names, k - 1);
    }
}

/// `store_results` keeps the high-water mark.
pub proof fn lemma_store_results_marked(s: Schedule, assigns: Seq<NameView>, k: int)
    requires
        tidy(s.regs),
        marked(s),
        peaked(s),
    ensures
        marked(s.store_results(assigns, k)),
        peaked(s.store_results(assigns, k)),
    decreases assigns.len() - k,
{
    if 0 <= k < assigns.len() {
        lemma_store(s, assigns[k]);
        lemma_store_marked(s, assigns[k]);
        lemma_store_results_marked(s.store(assigns[k]), assigns, k + 1);
    }
}

/// `load` keeps the high-water mark.
pub proof fn lemma_load_marked(s: Schedule, v: ValueView)
    requires
        tidy(s.regs),
        marked(s),
        peaked(s),
        s.load(v) is Ok,
    ensures
        marked(s.load(v)->Ok_0),
        peaked(s.load(v)->Ok_0),
{
    match v {
        ValueView::Literal(_) => {},
        ValueView::RefName(name) => {
            lemma_use(s.regs, name);
        },
    }
    lemma_marked_extended(s, s.load(v)->Ok_0);
}

/// `load_operands` keeps the high-water mark.
pub proof fn lemma_load_operands_marked(s: Schedule, takes: Seq<ValueView>, k: int)
    requires
        tidy(s.regs),
        marked(s),
        peaked(s),
        0 <= k <= takes.len(),
        s.load_operands(takes, k) is Ok,
    ensures
        marked(s.load_operands(takes, k)->Ok_0),
        peaked(s.load_operands(takes, k)->Ok_0),
    decreases k,
{
    if k > 0 {
        lemma_load(s, takes[k - 1]);
        lemma_load_marked(s, takes[k - 1]);
        lemma_load_operands_marked(s.load(takes[k - 1])->Ok_0, takes, k - 1);
    }
}

/// `statement` keeps the high-water mark.
pub proof fn lemma_statement_marked(s: Schedule, stmt: StatementView)
    requires
        tidy(s.regs),
        marked(s),
        peaked(s),
        s.statement(stmt) is Ok,
    ensures
        marked(s.statement(stmt)->Ok_0),
        peaked(s.statement(stmt)->Ok_0),
{
    let after = s.statement(stmt)->Ok_0;
    match stmt {
        StatementView::ValueAssign { to, value: ValueView::Literal(l) } => {
            if s.regs.remaining[to] > 0 {
                let pushed = s.emit(OpView::Push(l));
                lemma_marked_extended(s, pushed);
                lemma_store_marked(pushed, to);
                assert(pushed.store(to) == after);
            }
        },
        StatementView::ValueAssign { to, value: ValueView::RefName(src) } => {
            lemma_use(s.regs, src);
            let (used, from) = s.regs.use_reference(src)->Ok_0;
            let mid = Schedule { regs: used, ops: s.ops };
            lemma_marked_extended(s, mid);
            if used.remaining[to] > 0 {
                lemma_assign(used, to);
                let (regs, to_loc) = used.get_or_assign_loc(to);
                if s.regs.slots.len() < after.regs.slots.len() {
                    assert(writes(
                        after.ops[s.ops.len() as int],
                        (after.regs.slots.len() - 1) as nat,
                    ));
                }
                lemma_marked_extended(s, after);
            }
        },
        StatementView::CallAssign { assigns, calls, takes } => {
            lemma_load_operands(s, takes, takes.len() as int);
            lemma_load_operands_marked(s, takes, takes.len() as int);
            let loaded = s.load_operands(takes, takes.len() as int)->Ok_0;
            let called = loaded.emit(OpView::CallFn(calls));
            lemma_marked_extended(loaded, called);
            lemma_store_results_marked(called, assigns, 0);
        },
    }
}

/// `statements` keeps the high-water mark.
pub proof fn lemma_statements_marked(s: Schedule, stmts: Seq<StatementView>, k: int)
    requires
        tidy(s.regs),
        marked(s),
        peaked(s),
        0 <= k,
        s.statements(stmts, k) is Ok,
    ensures
        marked(s.statements(stmts, k)->Ok_0),
        peaked(s.statements(stmts, k)->Ok_0),
    decreases stmts.len() - k,
{
    if k < stmts.len() {
        lemma_statement(s, stmts[k]);
        lemma_statement_marked(s, stmts[k]);
        lemma_statements_marked(s.statement(stmts[k])->Ok_0, stmts, k + 1);
    }
}

/// `marshal_one` keeps the high-water mark; it adds no slot where the
/// position lies below the number of slots.
pub proof fn lemma_marshal_one_marked(s: Schedule, name: NameView, i: nat)
    requires
        tidy(s.regs),
        marked(s),
        s.marshal_one(name, i) is Ok,
    ensures
        marked(s.marshal_one(name, i)->Ok_0),
        s.regs.slots.len() <= s.marshal_one(name, i)->Ok_0.regs.slots.len(),
        i < s.regs.slots.len() ==> s.marshal_one(name, i)->Ok_0.regs.slots.len()
            == s.regs.slots.len(),
        s.marshal_one(name, i)->Ok_0.regs.peak == s.regs.peak,
{
    lemma_use(s.regs, name);
    let (used, from) = s.regs.use_reference(name)->Ok_0;
    let after = s.marshal_one(name, i)->Ok_0;
    if s.regs.slots.len() < after.regs.slots.len() {
        assert(writes(after.ops[s.ops.len() as int], (after.regs.slots.len() - 1) as nat));
    }
    lemma_marked_extended(s, after);
}

/// `marshal` keeps the high-water mark; it adds no slot where there are
/// as many slots as places in the end stack.
pub proof fn lemma_marshal_marked(s: Schedule, names: Seq<Seq<char>>, k: int)
    requires
        tidy(s.regs),
        marked(s),
        0 <= k,
        s.marshal(names, k) is Ok,
    ensures
        marked(s.marshal(names, k)->Ok_0),
        s.marshal(names, k)->Ok_0.regs.peak == s.regs.peak,
        names.len() <= s.regs.slots.len() ==> s.marshal(names, k)->Ok_0.regs.slots.len()
            == s.regs.slots.len(),
    decreases names.len() - k,
{
    if k < names.len() {
        lemma_marshal_one(s, NameView::Ident(names[k]), k as nat);
        lemma_marshal_one_marked(s, NameView::Ident(names[k]), k as nat);
        lemma_marshal_marked(
            s.marshal_one(NameView::Ident(names[k]), k as nat)->Ok_0,
            names,
            k + 1,
        );
    }
}

/// A marshalling that succeeds finds every name that it has yet to place
/// in a slot.
pub proof fn lemma_marshal_needs(s: Schedule, names: Seq<Seq<char>>, k: int)
    requires
        tidy(s.regs),
        0 <= k,
        s.marshal(names, k) is Ok,
    ensures
        forall|j: int|
            k <= j < names.len() ==> held(s.regs.slots, NameView::Ident(#[trigger] names[j])),
    decreases names.len() - k,
{
    if k < names.len() {
        let name = NameView::Ident(names[k]);
        lemma_use(s.regs, name);
        lemma_marshal_one(s, name, k as nat);
        let (used, from) = s.regs.use_reference(name)->Ok_0;
        let next = s.marshal_one(name, k as nat)->Ok_0;
        lemma_marshal_needs(next, names, k + 1);
        assert forall|j: int| k <= j < names.len() implies held(
            s.regs.slots,
            NameView::Ident(#[trigger] names[j]),
        ) by {
            if j == k {
                assert(s.regs.slots[from as int] == Some(name));
            } else {
                assert(held(next.regs.slots, NameView::Ident(names[j])));
                let p = choose|p: int|
                    0 <= p < next.regs.slots.len() && next.regs.slots[p] == Some(
                        NameView::Ident(names[j]),
                    );
                let q = if from != k && p == k {
                    from as int
                } else if from != k && p == from {
                    k
                } else {
                    p
                };
                assert(used.slots[q] == Some(NameView::Ident(names[j])));
                assert(s.regs.slots[q] == Some(NameView::Ident(names[j])));
            }
        }
    }
}

/// Whether no name stands twice in a stack layout.
pub open spec fn distinct(names: Seq<Seq<char>>) -> bool {
    forall|i: int, j: int| 0 <= i < j < names.len() ==> names[i] != names[j]
}

/// A marshalling of an end stack without repetition that succeeds starts
/// with at least as many slots as the end stack has places.
pub proof fn lemma_marshal_has_room(s: Schedule, names: Seq<Seq<char>>)
    requires
        tidy(s.regs),
        distinct(names),
        s.marshal(names, 0) is Ok,
    ensures
        names.len() <= s.regs.slots.len(),
{
    lemma_marshal_needs(s, names, 0);
    let wanted = Seq::new(names.len(), |j: int| NameView::Ident(names[j]));
    assert forall|j: int| 0 <= j < wanted.len() implies held(
        s.regs.slots,
        #[trigger] wanted[j],
    ) by {
        assert(held(s.regs.slots, NameView::Ident(names[j])));
    }
    lemma_held_names(s.regs.slots, wanted);
}

/// The slot count of a schedule is its high-water mark: no operation
/// touches a slot at or above it, and the slot just below it, where there
/// is one, is written. Where no name stands twice in the end stack it is
/// also the greatest number of slots that held a name at one time.
pub proof fn lemma_slot_count_is_high_water_mark(block: BlockView)
    requires
        schedule(block) is Ok,
    ensures
        marked(schedule(block)->Ok_0),
        distinct(block.end_stack) ==> peaked(schedule(block)->Ok_0),
{
    let start = Schedule { regs: initial_registers(block), ops: Seq::empty() };
    lemma_ingest(start, block.start_stack, block.start_stack.len() as int);
    lemma_ingest_marked(start, block.start_stack, block.start_stack.len() as int);
    let ingested = start.ingest(block.start_stack, block.start_stack.len() as int);
    lemma_statements(ingested, block.statements, 0);
    lemma_statements_marked(ingested, block.statements, 0);
    let done = ingested.statements(block.statements, 0)->Ok_0;
    lemma_marshal_marked(done, block.end_stack, 0);
    if distinct(block.end_stack) {
        lemma_marshal_has_room(done, block.end_stack);
    }
}

/// Scheduling goes by structure alone: two blocks of the same value have
/// the same slot count and the same operations, or fail in the same way.
pub proof fn lemma_schedule_goes_by_structure(a: Block, b: Block)
    requires
        a@ == b@,
    ensures
        schedule(a@) == schedule(b@),
{
}

/// Whether a result is no failure for a read beyond the count.
pub open spec fn no_use_after_release<T>(r: Result<T, ScheduleErrorView>) -> bool {
    r matches Err(e) ==> e is UndefinedReference
}

/// A read from a tidy register file never fails for a read beyond the
/// count: a name that a slot holds is still to be read.
pub proof fn lemma_use_never_after_release(r: Registers, name: NameView)
    requires
        tidy(r),
    ensures
        no_use_after_release(r.use_reference(name)),
{
    lemma_first_index_of(r.slots, Some(name), 0);
}

/// `load_operands` never fails for a read beyond the count.
pub proof fn lemma_load_operands_never_after_release(s: Schedule, takes: Seq<ValueView>, k: int)
    requires
        tidy(s.regs),
        0 <= k <= takes.len(),
    ensures
        no_use_after_release(s.load_operands(takes, k)),
    decreases k,
{
    if k > 0 {
        match takes[k - 1] {
            ValueView::Literal(_) => {},
            ValueView::RefName(name) => {
                lemma_use_never_after_release(s.regs, name);
            },
        }
        if s.load(takes[k - 1]) is Ok {
            lemma_load(s, takes[k - 1]);
            lemma_load_operands_never_after_release(s.load(takes[k - 1])->Ok_0, takes, k - 1);
        }
    }
}

/// `statements` never fails for a read beyond the count.
pub proof fn lemma_statements_never_after_release(s: Schedule, stmts: Seq<StatementView>, k: int)
    requires
        tidy(s.regs),
        0 <= k <= stmts.len(),
    ensures
        no_use_after_release(s.statements(stmts, k)),
    decreases stmts.len() - k,
{
    if k < stmts.len() {
        match stmts[k] {
            StatementView::ValueAssign { to, value: ValueView::Literal(l) } => {},
            StatementView::ValueAssign { to, value: ValueView::RefName(src) } => {
                lemma_use_never_after_release(s.regs, src);
            },
            StatementView::CallAssign { assigns, calls, takes } => {
                lemma_load_operands_never_after_release(s, takes, takes.len() as int);
            },
        }
        if s.statement(stmts[k]) is Ok {
            lemma_statement(s, stmts[k]);
            lemma_statements_never_after_release(s.statement(stmts[k])->Ok_0, stmts, k + 1);
        }
    }
}

/// `marshal` never fails for a read beyond the count.
pub proof fn lemma_marshal_never_after_release(s: Schedule, names: Seq<Seq<char>>, k: int)
    requires
        tidy(s.regs),
        0 <= k <= names.len(),
    ensures
        no_use_after_release(s.marshal(names, k)),
    decreases names.len() - k,
{
    if k < names.len() {
        let name = NameView::Ident(names[k]);
        lemma_use_never_after_release(s.regs, name);
        if s.marshal_one(name, k as nat) is Ok {
            lemma_marshal_one(s, name, k as nat);
            lemma_marshal_never_after_release(s.marshal_one(name, k as nat)->Ok_0, names, k + 1);
        }
    }
}

/// The reference counts are right: no schedule fails because a name is
/// read more often than it was counted. A schedule that fails, fails
/// because a name is read that no slot holds.
pub proof fn lemma_counts_suffice(block: BlockView)
    ensures
        no_use_after_release(schedule(block)),
{
    let start = Schedule { regs: initial_registers(block), ops: Seq::empty() };
    lemma_ingest(start, block.start_stack, block.start_stack.len() as int);
    let ingested = start.ingest(block.start_stack, block.start_stack.len() as int);
    lemma_statements_never_after_release(ingested, block.statements, 0);
    if ingested.statements(block.statements, 0) is Ok {
        lemma_statements(ingested, block.statements, 0);
        lemma_marshal_never_after_release(
            ingested.statements(block.statements, 0)->Ok_0,
            block.end_stack,
            0,
        );
    }
}

} // verus!
