//! The proof that a block in which every use follows a definition is
//! scheduled without error.

use vstd::prelude::*;
use crate::flatten_laws::{defined_before, defined_in, defines, reads, well_formed};
use crate::registers::{lemma_first_index_of, Registers};
use crate::schedule_laws::{
    held, lemma_assign, lemma_ingest, lemma_load, lemma_load_operands, lemma_marshal_one,
    lemma_statement, lemma_store, lemma_store_results, lemma_use, tidy,
};
use crate::scheduler::{
    initial_registers, schedule, stack_refs, statement_refs, statements_refs, swapped, value_refs,
    values_refs, OpView, Schedule,
};
use crate::ssa_block::{BlockView, NameView, StatementView, ValueView};

verus! {

/// Every use follows a definition: what a statement reads is defined by
/// the start stack or by an earlier statement, and so is every name of
/// the end stack.
pub open spec fn uses_defined(b: BlockView) -> bool {
    &&& forall|k: int, n: NameView|
        0 <= k < b.statements.len() && #[trigger] reads(b.statements[k], n) ==> defined_before(
            b.start_stack,
            b.statements,
            k,
            n,
        )
    &&& forall|i: int|
        0 <= i < b.end_stack.len() ==> defined_before(
            b.start_stack,
            b.statements,
            b.statements.len() as int,
            NameView::Ident(#[trigger] b.end_stack[i]),
        )
}

/// A read of a name that a tidy register file holds succeeds.
pub proof fn lemma_use_succeeds(r: Registers, n: NameView)
    requires
        tidy(r),
        held(r.slots, n),
    ensures
        r.use_reference(n) is Ok,
{
    lemma_first_index_of(r.slots, Some(n), 0);
}

/// A name that is held stays held where a slot is found for another.
pub proof fn lemma_held_after_assign(r: Registers, name: NameView, m: NameView)
    requires
        tidy(r),
        r.remaining[name] > 0,
        held(r.slots, m) || m == name,
    ensures
        held(r.get_or_assign_loc(name).0.slots, m),
{
    lemma_assign(r, name);
    let (after, loc) = r.get_or_assign_loc(name);
    if m == name {
        assert(after.slots[loc as int] == Some(m));
    } else {
        let p = choose|p: int| 0 <= p < r.slots.len() && r.slots[p] == Some(m);
        assert(after.slots[p] == Some(m));
    }
}

/// A name that is held stays held after a read, unless it was the last
/// read of that name.
pub proof fn lemma_held_after_use(r: Registers, name: NameView, m: NameView)
    requires
        tidy(r),
        r.use_reference(name) is Ok,
        held(r.slots, m),
        m != name || r.remaining[name] > 1,
    ensures
        held(r.use_reference(name)->Ok_0.0.slots, m),
{
    lemma_use(r, name);
    let (after, loc) = r.use_reference(name)->Ok_0;
    let p = choose|p: int| 0 <= p < r.slots.len() && r.slots[p] == Some(m);
    assert(after.slots[p] == Some(m));
}

/// A name that is held stays held where two slots are exchanged.
pub proof fn lemma_held_swapped(slots: Seq<Option<NameView>>, i: nat, j: nat, m: NameView)
    requires
        held(slots, m),
    ensures
        held(swapped(slots, i, j), m),
{
    let p = choose|p: int| 0 <= p < slots.len() && slots[p] == Some(m);
    let q = if p == i {
        j as int
    } else if p == j {
        i as int
    } else {
        p
    };
    assert(swapped(slots, i, j)[q] == Some(m));
}

/// `store` holds the name where it is still to be read, and keeps held
/// what was held.
pub proof fn lemma_store_holds(s: Schedule, name: NameView, m: NameView)
    requires
        tidy(s.regs),
        held(s.regs.slots, m) || (m == name && s.regs.remaining[name] > 0),
    ensures
        held(s.store(name).regs.slots, m),
{
    if s.regs.remaining[name] > 0 {
        lemma_held_after_assign(s.regs, name, m);
    }
}

/// `ingest` holds every name of the start stack that is still to be read.
pub proof fn lemma_ingest_holds(s: Schedule, names: Seq<Seq<char>>, k: int, m: NameView)
    requires
        0 <= k <= names.len(),
        tidy(s.regs),
        s.regs.remaining[m] > 0,
        held(s.regs.slots, m) || exists|j: int| 0 <= j < k && NameView::Ident(names[j]) == m,
    ensures
        held(s.ingest(names, k).regs.slots, m),
    decreases k,
{
    if k > 0 {
        let name = NameView::Ident(names[k - 1]);
        lemma_store(s, name);
        if held(s.regs.slots, m) || m == name {
            lemma_store_holds(s, name, m);
        } else {
            let j = choose|j: int| 0 <= j < k && NameView::Ident(names[j]) == m;
            assert(0 <= j < k - 1 && NameView::Ident(names[j]) == m);
        }
        lemma_ingest_holds(s.store(name), names, k - 1, m);
    }
}

/// `store_results` holds every result that is still to be read, and keeps
/// held what was held.
pub proof fn lemma_store_results_hold(s: Schedule, assigns: Seq<NameView>, k: int, m: NameView)
    requires
        0 <= k <= assigns.len(),
        tidy(s.regs),
        held(s.regs.slots, m) || (s.regs.remaining[m] > 0 && exists|j: int|
            k <= j < assigns.len() && assigns[j] == m),
    ensures
        held(s.store_results(assigns, k).regs.slots, m),
    decreases assigns.len() - k,
{
    if k < assigns.len() {
        lemma_store(s, assigns[k]);
        if held(s.regs.slots, m) || m == assigns[k] {
            lemma_store_holds(s, assigns[k], m);
        } else {
            let j = choose|j: int| k <= j < assigns.len() && assigns[j] == m;
            assert(k + 1 <= j < assigns.len() && assigns[j] == m);
        }
        lemma_store_results_hold(s.store(assigns[k]), assigns, k + 1, m);
    }
}

/// How many of the first `k` operands read `n`.
pub open spec fn loads_left(takes: Seq<ValueView>, n: NameView, k: int) -> nat
    decreases k,
{
    if k <= 0 || k > takes.len() {
        0
    } else {
        loads_left(takes, n, k - 1) + value_refs(takes[k - 1], n)
    }
}

/// The operands before `k` and those from `k` on are all the operands.
pub proof fn lemma_loads_left(takes: Seq<ValueView>, n: NameView, k: int)
    requires
        0 <= k <= takes.len(),
    ensures
        loads_left(takes, n, k) + values_refs(takes, n, k) == values_refs(takes, n, 0),
    decreases k,
{
    if k > 0 {
        lemma_loads_left(takes, n, k - 1);
    }
}

/// An operand before `k` that reads `n` is counted.
pub proof fn lemma_loads_left_counts(takes: Seq<ValueView>, n: NameView, k: int, i: int)
    requires
        0 <= i < k <= takes.len(),
        takes[i] == ValueView::RefName(n),
    ensures
        loads_left(takes, n, k) >= 1,
    decreases k,
{
    if i < k - 1 {
        lemma_loads_left_counts(takes, n, k - 1, i);
    }
}

/// The first `k` operands can be loaded: every name among them is held,
/// and has at least as many reads to come as there are operands that
/// read it.
pub open spec fn loadable(s: Schedule, takes: Seq<ValueView>, k: int) -> bool {
    &&& tidy(s.regs)
    &&& forall|i: int|
        0 <= i < k ==> ((#[trigger] takes[i]) matches ValueView::RefName(n) ==> held(
            s.regs.slots,
            n,
        ))
    &&& forall|n: NameView| #[trigger] s.regs.remaining[n] >= loads_left(takes, n, k)
}

/// Loading operands that can be loaded succeeds, and keeps held every
/// name that is still to be read afterwards.
pub proof fn lemma_load_operands_succeeds(s: Schedule, takes: Seq<ValueView>, k: int)
    requires
        0 <= k <= takes.len(),
        loadable(s, takes, k),
    ensures
        s.load_operands(takes, k) is Ok,
        forall|m: NameView|
            held(s.regs.slots, m) && s.load_operands(takes, k)->Ok_0.regs.remaining[m] > 0
                ==> #[trigger] held(s.load_operands(takes, k)->Ok_0.regs.slots, m),
    decreases k,
{
    if k > 0 {
        let v = takes[k - 1];
        match v {
            ValueView::Literal(l) => {
                let next = s.load(v)->Ok_0;
                assert(loadable(next, takes, k - 1)) by {
                    assert forall|n: NameView| #[trigger]
                        next.regs.remaining[n] >= loads_left(takes, n, k - 1) by {
                        assert(s.regs.remaining[n] >= loads_left(takes, n, k));
                    }
                }
                lemma_load_operands_succeeds(next, takes, k - 1);
            },
            ValueView::RefName(name) => {
                assert(held(s.regs.slots, name));
                lemma_use_succeeds(s.regs, name);
                lemma_use(s.regs, name);
                let next = s.load(v)->Ok_0;
                assert(s.regs.remaining[name] >= loads_left(takes, name, k));
                assert(loadable(next, takes, k - 1)) by {
                    assert forall|i: int| 0 <= i < k - 1 implies ((#[trigger] takes[i]) matches ValueView::RefName(
                        n,
                    ) ==> held(next.regs.slots, n)) by {
                        if let ValueView::RefName(n) = takes[i] {
                            assert(held(s.regs.slots, n));
                            if n == name {
                                lemma_loads_left_counts(takes, name, k - 1, i);
                            }
                            lemma_held_after_use(s.regs, name, n);
                        }
                    }
                    assert forall|n: NameView| #[trigger]
                        next.regs.remaining[n] >= loads_left(takes, n, k - 1) by {
                        assert(s.regs.remaining[n] >= loads_left(takes, n, k));
                    }
                }
                lemma_load_operands_succeeds(next, takes, k - 1);
                let done = next.load_operands(takes, k - 1)->Ok_0;
                lemma_load_operands(next, takes, k - 1);
                assert forall|m: NameView|
                    held(s.regs.slots, m) && done.regs.remaining[m] > 0 implies #[trigger] held(
                    done.regs.slots,
                    m,
                ) by {
                    assert(done.regs.remaining[m] + (values_refs(takes, m, 0) - values_refs(
                        takes,
                        m,
                        k - 1,
                    )) as nat == next.regs.remaining[m]);
                    if m == name {
                        assert(next.regs.remaining[m] > 0);
                    }
                    lemma_held_after_use(s.regs, name, m);
                }
            },
        }
    }
}

/// The schedule stands before statement `k` of the block: the register
/// file is tidy, the counts are the reads still to come, and every name
/// that is defined and still to be read is held.
pub open spec fn ready(s: Schedule, b: BlockView, k: int) -> bool {
    &&& tidy(s.regs)
    &&& forall|n: NameView| #[trigger]
        s.regs.remaining[n] == statements_refs(b.statements, n, k) + stack_refs(b.end_stack, n, 0)
    &&& forall|n: NameView|
        defined_before(b.start_stack, b.statements, k, n) && s.regs.remaining[n] > 0
            ==> #[trigger] held(s.regs.slots, n)
}

/// What is defined before statement `k + 1` is defined before statement
/// `k` or by it.
pub proof fn lemma_defined_step(
    start: Seq<Seq<char>>,
    stmts: Seq<StatementView>,
    k: int,
    n: NameView,
)
    requires
        0 <= k < stmts.len(),
        defined_before(start, stmts, k + 1, n),
    ensures
        defined_before(start, stmts, k, n) || defines(stmts[k], n),
{
    if !(n is Ident && start.contains(n->Ident_0)) {
        let j = choose|j: int| 0 <= j < k + 1 && j < stmts.len() && defines(#[trigger] stmts[j], n);
        if j < k {
            assert(defined_in(stmts, k, n));
        }
    }
}

/// An operand that reads a name is counted among the reads of the
/// operands.
pub proof fn lemma_operand_counted(takes: Seq<ValueView>, n: NameView, i: int)
    requires
        0 <= i < takes.len(),
        takes[i] == ValueView::RefName(n),
    ensures
        values_refs(takes, n, 0) >= 1,
        loads_left(takes, n, takes.len() as int) == values_refs(takes, n, 0),
{
    lemma_loads_left_counts(takes, n, takes.len() as int, i);
    lemma_loads_left(takes, n, takes.len() as int);
}

/// A statement whose uses follow definitions is scheduled without error.
pub proof fn lemma_statement_succeeds(s: Schedule, b: BlockView, k: int)
    requires
        uses_defined(b),
        0 <= k < b.statements.len(),
        ready(s, b, k),
    ensures
        s.statement(b.statements[k]) is Ok,
        ready(s.statement(b.statements[k])->Ok_0, b, k + 1),
{
    let stmt = b.statements[k];
    let start = b.start_stack;
    let stmts = b.statements;
    match stmt {
        StatementView::ValueAssign { to, value: ValueView::Literal(l) } => {
            lemma_statement(s, stmt);
            let done = s.statement(stmt)->Ok_0;
            assert forall|n: NameView| #[trigger]
                done.regs.remaining[n] == statements_refs(stmts, n, k + 1) + stack_refs(
                    b.end_stack,
                    n,
                    0,
                ) by {
                assert(done.regs.remaining[n] + statement_refs(stmt, n) == s.regs.remaining[n]);
            }
            assert forall|n: NameView|
                defined_before(start, stmts, k + 1, n) && done.regs.remaining[n]
                    > 0 implies #[trigger] held(done.regs.slots, n) by {
                lemma_defined_step(start, stmts, k, n);
                if defined_before(start, stmts, k, n) {
                    assert(held(s.regs.slots, n));
                }
                if s.regs.remaining[to] > 0 {
                    lemma_held_after_assign(s.regs, to, n);
                }
            }
        },
        StatementView::ValueAssign { to, value: ValueView::RefName(src) } => {
            assert(reads(stmt, src));
            assert(s.regs.remaining[src] == statements_refs(stmts, src, k) + stack_refs(
                b.end_stack,
                src,
                0,
            ));
            assert(held(s.regs.slots, src));
            lemma_use_succeeds(s.regs, src);
            lemma_use(s.regs, src);
            lemma_statement(s, stmt);
            let (used, from) = s.regs.use_reference(src)->Ok_0;
            let done = s.statement(stmt)->Ok_0;
            assert forall|n: NameView| #[trigger]
                done.regs.remaining[n] == statements_refs(stmts, n, k + 1) + stack_refs(
                    b.end_stack,
                    n,
                    0,
                ) by {
                assert(done.regs.remaining[n] + statement_refs(stmt, n) == s.regs.remaining[n]);
            }
            assert forall|n: NameView|
                defined_before(start, stmts, k + 1, n) && done.regs.remaining[n]
                    > 0 implies #[trigger] held(done.regs.slots, n) by {
                lemma_defined_step(start, stmts, k, n);
                assert(done.regs.remaining[n] + statement_refs(stmt, n) == s.regs.remaining[n]);
                if defined_before(start, stmts, k, n) {
                    assert(held(s.regs.slots, n));
                    lemma_held_after_use(s.regs, src, n);
                }
                if used.remaining[to] > 0 {
                    lemma_held_after_assign(used, to, n);
                }
            }
        },
        StatementView::CallAssign { assigns, calls, takes } => {
            assert(loadable(s, takes, takes.len() as int)) by {
                assert forall|i: int| 0 <= i < takes.len() implies ((#[trigger] takes[i]) matches ValueView::RefName(
                    n,
                ) ==> held(s.regs.slots, n)) by {
                    if let ValueView::RefName(n) = takes[i] {
                        assert(reads(stmt, n));
                        lemma_operand_counted(takes, n, i);
                        assert(s.regs.remaining[n] == statements_refs(stmts, n, k) + stack_refs(
                            b.end_stack,
                            n,
                            0,
                        ));
                        assert(held(s.regs.slots, n));
                    }
                }
                assert forall|n: NameView| #[trigger]
                    s.regs.remaining[n] >= loads_left(takes, n, takes.len() as int) by {
                    lemma_loads_left(takes, n, takes.len() as int);
                    assert(s.regs.remaining[n] == statements_refs(stmts, n, k) + stack_refs(
                        b.end_stack,
                        n,
                        0,
                    ));
                }
            }
            lemma_load_operands_succeeds(s, takes, takes.len() as int);
            lemma_load_operands(s, takes, takes.len() as int);
            let loaded = s.load_operands(takes, takes.len() as int)->Ok_0;
            let called = loaded.emit(OpView::CallFn(calls));
            lemma_store_results(called, assigns, 0);
            lemma_statement(s, stmt);
            let done = s.statement(stmt)->Ok_0;
            assert forall|n: NameView| #[trigger]
                done.regs.remaining[n] == statements_refs(stmts, n, k + 1) + stack_refs(
                    b.end_stack,
                    n,
                    0,
                ) by {
                assert(done.regs.remaining[n] + statement_refs(stmt, n) == s.regs.remaining[n]);
            }
            assert forall|n: NameView|
                defined_before(start, stmts, k + 1, n) && done.regs.remaining[n]
                    > 0 implies #[trigger] held(done.regs.slots, n) by {
                lemma_defined_step(start, stmts, k, n);
                assert(done.regs.remaining[n] + statement_refs(stmt, n) == s.regs.remaining[n]);
                if defined_before(start, stmts, k, n) {
                    assert(held(s.regs.slots, n));
                    assert(held(loaded.regs.slots, n));
                } else {
                    let j = choose|j: int| 0 <= j < assigns.len() && assigns[j] == n;
                    assert(0 <= j < assigns.len() && assigns[j] == n);
                }
                lemma_store_results_hold(called, assigns, 0, n);
            }
        },
    }
}

/// Statements whose uses follow definitions are scheduled without error.
pub proof fn lemma_statements_succeed(s: Schedule, b: BlockView, k: int)
    requires
        uses_defined(b),
        0 <= k <= b.statements.len(),
        ready(s, b, k),
    ensures
        s.statements(b.statements, k) is Ok,
        ready(s.statements(b.statements, k)->Ok_0, b, b.statements.len() as int),
    decreases b.statements.len() - k,
{
    if k < b.statements.len() {
        lemma_statement_succeeds(s, b, k);
        lemma_statements_succeed(s.statement(b.statements[k])->Ok_0, b, k + 1);
    }
}

/// The schedule stands before place `k` of the end stack: the register
/// file is tidy, the counts are the places still to come, and every name
/// that is defined and still to be placed is held.
pub open spec fn placing(s: Schedule, b: BlockView, k: int) -> bool {
    &&& tidy(s.regs)
    &&& forall|n: NameView| #[trigger] s.regs.remaining[n] == stack_refs(b.end_stack, n, k)
    &&& forall|n: NameView|
        defined_before(b.start_stack, b.statements, b.statements.len() as int, n)
            && s.regs.remaining[n] > 0 ==> #[trigger] held(s.regs.slots, n)
}

/// An end stack whose names are defined is marshalled without error.
pub proof fn lemma_marshal_succeeds(s: Schedule, b: BlockView, k: int)
    requires
        uses_defined(b),
        0 <= k <= b.end_stack.len(),
        placing(s, b, k),
    ensures
        s.marshal(b.end_stack, k) is Ok,
    decreases b.end_stack.len() - k,
{
    if k < b.end_stack.len() {
        let name = NameView::Ident(b.end_stack[k]);
        assert(s.regs.remaining[name] == stack_refs(b.end_stack, name, k));
        assert(held(s.regs.slots, name));
        lemma_use_succeeds(s.regs, name);
        lemma_use(s.regs, name);
        lemma_marshal_one(s, name, k as nat);
        let (used, from) = s.regs.use_reference(name)->Ok_0;
        let next = s.marshal_one(name, k as nat)->Ok_0;
        assert(placing(next, b, k + 1)) by {
            assert forall|n: NameView| #[trigger]
                next.regs.remaining[n] == stack_refs(b.end_stack, n, k + 1) by {
                assert(s.regs.remaining[n] == stack_refs(b.end_stack, n, k));
            }
            assert forall|n: NameView|
                defined_before(b.start_stack, b.statements, b.statements.len() as int, n)
                    && next.regs.remaining[n] > 0 implies #[trigger] held(next.regs.slots, n) by {
                assert(s.regs.remaining[n] == stack_refs(b.end_stack, n, k));
                assert(next.regs.remaining[n] == stack_refs(b.end_stack, n, k + 1));
                assert(held(s.regs.slots, n));
                lemma_held_after_use(s.regs, name, n);
                if from != k {
                    lemma_held_swapped(used.slots, k as nat, from, n);
                }
            }
        }
        lemma_marshal_succeeds(next, b, k + 1);
    }
}

/// A block in which every use follows a definition is scheduled without
/// error.
pub proof fn lemma_schedule_succeeds(b: BlockView)
    requires
        uses_defined(b),
    ensures
        schedule(b) is Ok,
{
    let s0 = Schedule { regs: initial_registers(b), ops: Seq::empty() };
    lemma_ingest(s0, b.start_stack, b.start_stack.len() as int);
    let ingested = s0.ingest(b.start_stack, b.start_stack.len() as int);
    assert(ready(ingested, b, 0)) by {
        assert forall|n: NameView|
            defined_before(b.start_stack, b.statements, 0, n) && ingested.regs.remaining[n]
                > 0 implies #[trigger] held(ingested.regs.slots, n) by {
            let x = n->Ident_0;
            let j = choose|j: int| 0 <= j < b.start_stack.len() && b.start_stack[j] == x;
            assert(NameView::Ident(b.start_stack[j]) == n);
            lemma_ingest_holds(s0, b.start_stack, b.start_stack.len() as int, n);
        }
    }
    lemma_statements_succeed(ingested, b, 0);
    let done = ingested.statements(b.statements, 0)->Ok_0;
    assert(placing(done, b, 0)) by {
        assert forall|n: NameView| #[trigger]
            done.regs.remaining[n] == stack_refs(b.end_stack, n, 0) by {
            assert(done.regs.remaining[n] == statements_refs(
                b.statements,
                n,
                b.statements.len() as int,
            ) + stack_refs(b.end_stack, n, 0));
        }
    }
    lemma_marshal_succeeds(done, b, 0);
}

/// A well-formed block is scheduled without error.
pub proof fn lemma_well_formed_is_scheduled(b: BlockView)
    requires
        well_formed(b),
    ensures
        schedule(b) is Ok,
{
    assert(uses_defined(b)) by {
        assert forall|k: int, n: NameView|
            0 <= k < b.statements.len() && #[trigger] reads(b.statements[k], n) implies defined_before(
            b.start_stack,
            b.statements,
            k,
            n,
        ) by {
            assert(crate::flatten_laws::statement_in_form(b.start_stack, b.statements, k));
        }
    }
    lemma_schedule_succeeds(b);
}

/// Every name that a slot holds is defined before statement `k`.
pub open spec fn held_are_defined(s: Schedule, b: BlockView, k: int) -> bool {
    forall|n: NameView| #[trigger]
        held(s.regs.slots, n) ==> defined_before(b.start_stack, b.statements, k, n)
}

/// What is defined before a statement is defined before the next.
pub proof fn lemma_defined_later(
    start: Seq<Seq<char>>,
    stmts: Seq<StatementView>,
    k: int,
    n: NameView,
)
    requires
        0 <= k < stmts.len(),
        defined_before(start, stmts, k, n) || defines(stmts[k], n),
    ensures
        defined_before(start, stmts, k + 1, n),
{
    if defined_in(stmts, k, n) {
        let j = choose|j: int| 0 <= j < k && j < stmts.len() && defines(#[trigger] stmts[j], n);
        assert(defines(stmts[j], n));
    } else if defines(stmts[k], n) {
        assert(defined_in(stmts, k + 1, n));
    }
}

/// A name that is held after `store` was held before, or is the name
/// stored.
pub proof fn lemma_store_held_from(s: Schedule, name: NameView, m: NameView)
    requires
        tidy(s.regs),
        held(s.store(name).regs.slots, m),
    ensures
        held(s.regs.slots, m) || m == name,
{
    if s.regs.remaining[name] > 0 {
        lemma_assign(s.regs, name);
        let (after, loc) = s.regs.get_or_assign_loc(name);
        let p = choose|p: int| 0 <= p < after.slots.len() && after.slots[p] == Some(m);
        if p != loc {
            assert(s.regs.slots[p] == Some(m));
        }
    }
}

/// A name that is held after `ingest` is a name of the start stack, or
/// was held before.
pub proof fn lemma_ingest_held_from(s: Schedule, names: Seq<Seq<char>>, k: int, m: NameView)
    requires
        0 <= k <= names.len(),
        tidy(s.regs),
        held(s.ingest(names, k).regs.slots, m),
    ensures
        held(s.regs.slots, m) || (m is Ident && names.contains(m->Ident_0)),
    decreases k,
{
    if k > 0 {
        let name = NameView::Ident(names[k - 1]);
        lemma_store(s, name);
        lemma_ingest_held_from(s.store(name), names, k - 1, m);
        if held(s.store(name).regs.slots, m) {
            lemma_store_held_from(s, name, m);
        }
    }
}

/// A name that is held after `store_results` was held before, or is one
/// of the results.
pub proof fn lemma_store_results_held_from(s: Schedule, assigns: Seq<NameView>, k: int, m: NameView)
    requires
        0 <= k <= assigns.len(),
        tidy(s.regs),
        held(s.store_results(assigns, k).regs.slots, m),
    ensures
        held(s.regs.slots, m) || assigns.contains(m),
    decreases assigns.len() - k,
{
    if k < assigns.len() {
        lemma_store(s, assigns[k]);
        lemma_store_results_held_from(s.store(assigns[k]), assigns, k + 1, m);
        if held(s.store(assigns[k]).regs.slots, m) {
            lemma_store_held_from(s, assigns[k], m);
        }
    }
}

/// A name that is held after a read was held before.
pub proof fn lemma_use_held_from(r: Registers, name: NameView, m: NameView)
    requires
        tidy(r),
        r.use_reference(name) is Ok,
        held(r.use_reference(name)->Ok_0.0.slots, m),
    ensures
        held(r.slots, m),
        held(r.slots, name),
{
    lemma_use(r, name);
    let (after, loc) = r.use_reference(name)->Ok_0;
    let p = choose|p: int| 0 <= p < after.slots.len() && after.slots[p] == Some(m);
    assert(r.slots[p] == Some(m));
    assert(r.slots[loc as int] == Some(name));
}

/// Operands that are loaded without error were all held, and what is
/// held afterwards was held before.
pub proof fn lemma_loaded_were_held(s: Schedule, takes: Seq<ValueView>, k: int)
    requires
        0 <= k <= takes.len(),
        tidy(s.regs),
        s.load_operands(takes, k) is Ok,
    ensures
        forall|i: int|
            0 <= i < k ==> ((#[trigger] takes[i]) matches ValueView::RefName(n) ==> held(
                s.regs.slots,
                n,
            )),
        forall|m: NameView| #[trigger]
            held(s.load_operands(takes, k)->Ok_0.regs.slots, m) ==> held(s.regs.slots, m),
    decreases k,
{
    if k > 0 {
        lemma_load(s, takes[k - 1]);
        let next = s.load(takes[k - 1])->Ok_0;
        lemma_loaded_were_held(next, takes, k - 1);
        let done = next.load_operands(takes, k - 1)->Ok_0;
        match takes[k - 1] {
            ValueView::Literal(_) => {},
            ValueView::RefName(name) => {
                lemma_use(s.regs, name);
                let (used, loc) = s.regs.use_reference(name)->Ok_0;
                assert(s.regs.slots[loc as int] == Some(name));
                assert forall|i: int| 0 <= i < k implies ((#[trigger] takes[i]) matches ValueView::RefName(
                    n,
                ) ==> held(s.regs.slots, n)) by {
                    if i < k - 1 {
                        if let ValueView::RefName(n) = takes[i] {
                            assert(held(next.regs.slots, n));
                            lemma_use_held_from(s.regs, name, n);
                        }
                    }
                }
                assert forall|m: NameView| #[trigger]
                    held(done.regs.slots, m) implies held(s.regs.slots, m) by {
                    assert(held(next.regs.slots, m));
                    lemma_use_held_from(s.regs, name, m);
                }
            },
        }
    }
}

/// A statement that is scheduled without error reads only what is
/// defined before it.
pub proof fn lemma_statement_reads_defined(s: Schedule, b: BlockView, k: int)
    requires
        0 <= k < b.statements.len(),
        tidy(s.regs),
        held_are_defined(s, b, k),
        s.statement(b.statements[k]) is Ok,
    ensures
        forall|n: NameView| #[trigger]
            reads(b.statements[k], n) ==> defined_before(b.start_stack, b.statements, k, n),
        held_are_defined(s.statement(b.statements[k])->Ok_0, b, k + 1),
        tidy(s.statement(b.statements[k])->Ok_0.regs),
{
    let stmt = b.statements[k];
    let start = b.start_stack;
    let stmts = b.statements;
    let done = s.statement(stmt)->Ok_0;
    lemma_statement(s, stmt);
    match stmt {
        StatementView::ValueAssign { to, value: ValueView::Literal(l) } => {
            assert forall|n: NameView| #[trigger] held(done.regs.slots, n) implies defined_before(
                start,
                stmts,
                k + 1,
                n,
            ) by {
                if s.regs.remaining[to] > 0 {
                    lemma_store_held_from(s.emit(OpView::Push(l)), to, n);
                }
                if held(s.regs.slots, n) {
                    assert(defined_before(start, stmts, k, n));
                }
                lemma_defined_later(start, stmts, k, n);
            }
        },
        StatementView::ValueAssign { to, value: ValueView::RefName(src) } => {
            lemma_use(s.regs, src);
            let (used, from) = s.regs.use_reference(src)->Ok_0;
            assert(s.regs.slots[from as int] == Some(src));
            assert(held(s.regs.slots, src));
            assert forall|n: NameView| #[trigger] held(done.regs.slots, n) implies defined_before(
                start,
                stmts,
                k + 1,
                n,
            ) by {
                if used.remaining[to] > 0 {
                    lemma_assign(used, to);
                    let (regs, to_loc) = used.get_or_assign_loc(to);
                    let p = choose|p: int| 0 <= p < regs.slots.len() && regs.slots[p] == Some(n);
                    if p != to_loc {
                        assert(used.slots[p] == Some(n));
                        lemma_use_held_from(s.regs, src, n);
                    }
                } else {
                    lemma_use_held_from(s.regs, src, n);
                }
                if held(s.regs.slots, n) {
                    assert(defined_before(start, stmts, k, n));
                }
                lemma_defined_later(start, stmts, k, n);
            }
        },
        StatementView::CallAssign { assigns, calls, takes } => {
            lemma_loaded_were_held(s, takes, takes.len() as int);
            lemma_load_operands(s, takes, takes.len() as int);
            let loaded = s.load_operands(takes, takes.len() as int)->Ok_0;
            let called = loaded.emit(OpView::CallFn(calls));
            assert forall|n: NameView| #[trigger] reads(stmt, n) implies defined_before(
                start,
                stmts,
                k,
                n,
            ) by {
                let i = choose|i: int| 0 <= i < takes.len() && takes[i] == ValueView::RefName(n);
                assert(takes[i] matches ValueView::RefName(m) && m == n);
                assert(held(s.regs.slots, n));
            }
            assert forall|n: NameView| #[trigger] held(done.regs.slots, n) implies defined_before(
                start,
                stmts,
                k + 1,
                n,
            ) by {
                lemma_store_results_held_from(called, assigns, 0, n);
                if held(called.regs.slots, n) {
                    assert(held(loaded.regs.slots, n));
                    assert(held(s.regs.slots, n));
                    assert(defined_before(start, stmts, k, n));
                }
                lemma_defined_later(start, stmts, k, n);
            }
        },
    }
}

/// Statements that are scheduled without error read only what is defined
/// before them.
pub proof fn lemma_statements_read_defined(s: Schedule, b: BlockView, k: int)
    requires
        0 <= k <= b.statements.len(),
        tidy(s.regs),
        held_are_defined(s, b, k),
        s.statements(b.statements, k) is Ok,
    ensures
        forall|j: int, n: NameView|
            k <= j < b.statements.len() && #[trigger] reads(b.statements[j], n)
                ==> defined_before(b.start_stack, b.statements, j, n),
        held_are_defined(
            s.statements(b.statements, k)->Ok_0,
            b,
            b.statements.len() as int,
        ),
        tidy(s.statements(b.statements, k)->Ok_0.regs),
    decreases b.statements.len() - k,
{
    if k < b.statements.len() {
        lemma_statement_reads_defined(s, b, k);
        lemma_statements_read_defined(s.statement(b.statements[k])->Ok_0, b, k + 1);
    }
}

/// An end stack that is marshalled without error names only what is
/// held.
pub proof fn lemma_marshalled_were_held(s: Schedule, names: Seq<Seq<char>>, k: int)
    requires
        0 <= k <= names.len(),
        tidy(s.regs),
        s.marshal(names, k) is Ok,
    ensures
        forall|i: int|
            k <= i < names.len() ==> held(s.regs.slots, NameView::Ident(#[trigger] names[i])),
{
    crate::schedule_laws::lemma_marshal_needs(s, names, k);
}

/// A block that is scheduled without error is one in which every use
/// follows a definition.
pub proof fn lemma_scheduled_uses_defined(b: BlockView)
    requires
        schedule(b) is Ok,
    ensures
        uses_defined(b),
{
    let s0 = Schedule { regs: initial_registers(b), ops: Seq::empty() };
    lemma_ingest(s0, b.start_stack, b.start_stack.len() as int);
    let ingested = s0.ingest(b.start_stack, b.start_stack.len() as int);
    assert(held_are_defined(ingested, b, 0)) by {
        assert forall|n: NameView| #[trigger] held(ingested.regs.slots, n) implies defined_before(
            b.start_stack,
            b.statements,
            0,
            n,
        ) by {
            lemma_ingest_held_from(s0, b.start_stack, b.start_stack.len() as int, n);
        }
    }
    lemma_statements_read_defined(ingested, b, 0);
    let done = ingested.statements(b.statements, 0)->Ok_0;
    lemma_marshalled_were_held(done, b.end_stack, 0);
    assert forall|i: int| 0 <= i < b.end_stack.len() implies defined_before(
        b.start_stack,
        b.statements,
        b.statements.len() as int,
        NameView::Ident(#[trigger] b.end_stack[i]),
    ) by {
        assert(held(done.regs.slots, NameView::Ident(b.end_stack[i])));
    }
}

/// When a block is scheduled: exactly where every use follows a
/// definition.
pub proof fn lemma_scheduled_exactly(b: BlockView)
    ensures
        schedule(b) is Ok <==> uses_defined(b),
{
    if schedule(b) is Ok {
        lemma_scheduled_uses_defined(b);
    }
    if uses_defined(b) {
        lemma_schedule_succeeds(b);
    }
}

} // verus!
