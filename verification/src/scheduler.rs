//! The memory and stack scheduler: from a block in three-address form to a
//! slot count and a list of operations of the target machine.

use vstd::prelude::*;
use crate::ir::Literal;
use crate::schedule_laws::{lemma_counts_suffice, no_use_after_release};
use crate::schedule_success::{lemma_scheduled_exactly, uses_defined};
use crate::ssa_block::{
    names_view, values_view, Block, BlockView, Name, NameView, Statement, StatementView, Value,
    ValueView,
};
use crate::registers::{
    counted_once, find_entry, lemma_lookup_absent, lemma_lookup_found, lemma_lookup_push, lemma_lookup_update,
    lookup_count, slots_view, MemoryAsRegisters, RefCount, Registers, ScheduleError,
    ScheduleErrorView,
};

verus! {

/// One operation of the target machine, whose state is a stack of words
/// and a file of memory slots.
#[derive(Debug, Clone, PartialEq, Eq, Hash)]
pub enum Op<'a> {
    /// Swap the top of the stack with the element this far below it.
    Swap(usize),
    /// Push a copy of the element this far below the top.
    Dup(usize),
    /// Discard the top of the stack.
    Pop,
    /// Push a literal word.
    Push(Literal),
    /// Swap the contents of two slots.
    MemSwap(usize, usize),
    /// Push the word held by a slot.
    MemVarLoad(usize),
    /// Pop the top of the stack into a slot.
    MemVarStore(usize),
    /// Copy one slot into another; the stack stays as it is.
    MemCopy { from: usize, to: usize },
    /// Call a function: it takes its arguments from the stack and leaves
    /// its results there, the first result on top.
    CallFn(&'a str),
}

/// The mathematical value of an `Op`.
pub ghost enum OpView {
    Swap(nat),
    Dup(nat),
    Pop,
    Push(Literal),
    MemSwap(nat, nat),
    MemVarLoad(nat),
    MemVarStore(nat),
    MemCopy { from: nat, to: nat },
    CallFn(Seq<char>),
}

impl<'a> View for Op<'a> {
    type V = OpView;

    open spec fn view(&self) -> OpView {
        match self {
            Op::Swap(k) => OpView::Swap(*k as nat),
            Op::Dup(k) => OpView::Dup(*k as nat),
            Op::Pop => OpView::Pop,
            Op::Push(l) => OpView::Push(*l),
            Op::MemSwap(i, j) => OpView::MemSwap(*i as nat, *j as nat),
            Op::MemVarLoad(i) => OpView::MemVarLoad(*i as nat),
            Op::MemVarStore(i) => OpView::MemVarStore(*i as nat),
            Op::MemCopy { from, to } => OpView::MemCopy { from: *from as nat, to: *to as nat },
            Op::CallFn(name) => OpView::CallFn(name@),
        }
    }
}

/// The values of a list of operations.
pub open spec fn ops_view(ops: Seq<Op<'_>>) -> Seq<OpView> {
    Seq::new(ops.len(), |i: int| ops[i]@)
}

/// 1 where the operand reads `n`, else 0.
pub open spec fn value_refs(v: ValueView, n: NameView) -> nat {
    if v == ValueView::RefName(n) {
        1
    } else {
        0
    }
}

/// How many of the operands from index `k` on read `n`.
pub open spec fn values_refs(values: Seq<ValueView>, n: NameView, k: int) -> nat
    decreases values.len() - k,
{
    if k < 0 || k >= values.len() {
        0
    } else {
        value_refs(values[k], n) + values_refs(values, n, k + 1)
    }
}

/// How often the statement reads `n`.
pub open spec fn statement_refs(s: StatementView, n: NameView) -> nat {
    match s {
        StatementView::CallAssign { takes, .. } => values_refs(takes, n, 0),
        StatementView::ValueAssign { value, .. } => value_refs(value, n),
    }
}

/// How often the statements from index `k` on read `n`.
pub open spec fn statements_refs(stmts: Seq<StatementView>, n: NameView, k: int) -> nat
    decreases stmts.len() - k,
{
    if k < 0 || k >= stmts.len() {
        0
    } else {
        statement_refs(stmts[k], n) + statements_refs(stmts, n, k + 1)
    }
}

/// How often a stack layout names `n` from index `k` on.
pub open spec fn stack_refs(names: Seq<Seq<char>>, n: NameView, k: int) -> nat
    decreases names.len() - k,
{
    if k < 0 || k >= names.len() {
        0
    } else {
        (if NameView::Ident(names[k]) == n {
            1nat
        } else {
            0nat
        }) + stack_refs(names, n, k + 1)
    }
}

/// The reference count of `n` in a block: one for each operand that reads
/// it and one for each place that the end stack gives it.
pub open spec fn ref_count(block: BlockView, n: NameView) -> nat {
    statements_refs(block.statements, n, 0) + stack_refs(block.end_stack, n, 0)
}

/// Every reference count of the block fits a machine word.
pub open spec fn counts_fit(block: BlockView) -> bool {
    forall|n: NameView| ref_count(block, n) <= usize::MAX
}

/// The register file before the first operation: no slot, and for each
/// name its reference count in the block.
pub open spec fn initial_registers(block: BlockView) -> Registers {
    Registers {
        slots: Seq::empty(),
        remaining: Map::new(|n: NameView| true, |n: NameView| ref_count(block, n)),
        peak: 0,
    }
}

/// `slots`, with empty slots behind it where it has fewer than `n`.
pub open spec fn padded(slots: Seq<Option<NameView>>, n: nat) -> Seq<Option<NameView>> {
    if n <= slots.len() {
        slots
    } else {
        slots + Seq::new((n - slots.len()) as nat, |k: int| None::<NameView>)
    }
}

/// `slots` with the contents of slots `i` and `j` exchanged.
pub open spec fn swapped(slots: Seq<Option<NameView>>, i: nat, j: nat) -> Seq<Option<NameView>> {
    let p = padded(padded(slots, i + 1), j + 1);
    p.update(i as int, p[j as int]).update(j as int, p[i as int])
}

/// A schedule under construction: the register file, and the operations
/// emitted so far.
pub ghost struct Schedule {
    pub regs: Registers,
    pub ops: Seq<OpView>,
}

impl Schedule {
    /// The schedule with `op` behind its operations.
    pub open spec fn emit(self, op: OpView) -> Schedule {
        Schedule { ops: self.ops.push(op), ..self }
    }

    /// Take the top of the stack for `name`: into the slot of `name` where
    /// the name is still to be read, else off the stack.
    pub open spec fn store(self, name: NameView) -> Schedule {
        if self.regs.remaining[name] > 0 {
            let (regs, loc) = self.regs.get_or_assign_loc(name);
            Schedule { regs, ops: self.ops.push(OpView::MemVarStore(loc)) }
        } else {
            self.emit(OpView::Pop)
        }
    }

    /// Take the first `k` names of the start stack off the stack, the
    /// topmost (last) first.
    pub open spec fn ingest(self, names: Seq<Seq<char>>, k: int) -> Schedule
        decreases k,
    {
        if k <= 0 || k > names.len() {
            self
        } else {
            self.store(NameView::Ident(names[k - 1])).ingest(names, k - 1)
        }
    }

    /// Take the results of a call off the stack, from index `k` on, the
    /// first result first.
    pub open spec fn store_results(self, assigns: Seq<NameView>, k: int) -> Schedule
        decreases assigns.len() - k,
    {
        if k < 0 || k >= assigns.len() {
            self
        } else {
            self.store(assigns[k]).store_results(assigns, k + 1)
        }
    }

    /// Push one operand: a literal as it is, a name from its slot, which
    /// is one read of it.
    pub open spec fn load(self, v: ValueView) -> Result<Schedule, ScheduleErrorView> {
        match v {
            ValueView::Literal(l) => Ok(self.emit(OpView::Push(l))),
            ValueView::RefName(n) => match self.regs.use_reference(n) {
                Ok((regs, loc)) => Ok(Schedule { regs, ops: self.ops.push(OpView::MemVarLoad(loc)) }),
                Err(e) => Err(e),
            },
        }
    }

    /// Push the first `k` operands, the last of them first.
    pub open spec fn load_operands(self, takes: Seq<ValueView>, k: int) -> Result<
        Schedule,
        ScheduleErrorView,
    >
        decreases k,
    {
        if k <= 0 || k > takes.len() {
            Ok(self)
        } else {
            match self.load(takes[k - 1]) {
                Ok(s) => s.load_operands(takes, k - 1),
                Err(e) => Err(e),
            }
        }
    }

    /// Schedule one statement.
    pub open spec fn statement(self, stmt: StatementView) -> Result<Schedule, ScheduleErrorView> {
        match stmt {
            StatementView::ValueAssign { to, value: ValueView::Literal(l) } => {
                if self.regs.remaining[to] > 0 {
                    let (regs, loc) = self.regs.get_or_assign_loc(to);
                    Ok(
                        Schedule {
                            regs,
                            ops: self.ops.push(OpView::Push(l)).push(OpView::MemVarStore(loc)),
                        },
                    )
                } else {
                    Ok(self)
                }
            },
            StatementView::ValueAssign { to, value: ValueView::RefName(src) } => {
                match self.regs.use_reference(src) {
                    Err(e) => Err(e),
                    Ok((used, from)) => {
                        if used.remaining[to] > 0 {
                            let (regs, to_loc) = used.get_or_assign_loc(to);
                            Ok(
                                Schedule {
                                    regs,
                                    ops: self.ops.push(OpView::MemCopy { from, to: to_loc }),
                                },
                            )
                        } else {
                            Ok(Schedule { regs: used, ops: self.ops })
                        }
                    },
                }
            },
            StatementView::CallAssign { assigns, calls, takes } => {
                match self.load_operands(takes, takes.len() as int) {
                    Err(e) => Err(e),
                    Ok(loaded) => Ok(loaded.emit(OpView::CallFn(calls)).store_results(assigns, 0)),
                }
            },
        }
    }

    /// Schedule the statements from index `k` on, in order.
    pub open spec fn statements(self, stmts: Seq<StatementView>, k: int) -> Result<
        Schedule,
        ScheduleErrorView,
    >
        decreases stmts.len() - k,
    {
        if k < 0 || k >= stmts.len() {
            Ok(self)
        } else {
            match self.statement(stmts[k]) {
                Ok(s) => s.statements(stmts, k + 1),
                Err(e) => Err(e),
            }
        }
    }

    /// Bring the value that the end stack wants at position `i` into slot
    /// `i`: one read of its name, and a swap of slots where it is held
    /// elsewhere.
    pub open spec fn marshal_one(self, name: NameView, i: nat) -> Result<Schedule, ScheduleErrorView> {
        match self.regs.use_reference(name) {
            Err(e) => Err(e),
            Ok((regs, from)) => if from != i {
                Ok(
                    Schedule {
                        regs: Registers { slots: swapped(regs.slots, i, from), ..regs },
                        ops: self.ops.push(OpView::MemSwap(i, from)),
                    },
                )
            } else {
                Ok(Schedule { regs, ops: self.ops })
            },
        }
    }

    /// Marshal the end stack from position `k` on, in order.
    pub open spec fn marshal(self, names: Seq<Seq<char>>, k: int) -> Result<
        Schedule,
        ScheduleErrorView,
    >
        decreases names.len() - k,
    {
        if k < 0 || k >= names.len() {
            Ok(self)
        } else {
            match self.marshal_one(NameView::Ident(names[k]), k as nat) {
                Ok(s) => s.marshal(names, k + 1),
                Err(e) => Err(e),
            }
        }
    }
}

/// The schedule of a block: the start stack is taken into slots, the
/// statements are scheduled in order, and the end stack is marshalled into
/// the lowest slots.
pub open spec fn schedule(block: BlockView) -> Result<Schedule, ScheduleErrorView> {
    let start = Schedule { regs: initial_registers(block), ops: Seq::empty() };
    let ingested = start.ingest(block.start_stack, block.start_stack.len() as int);
    match ingested.statements(block.statements, 0) {
        Err(e) => Err(e),
        Ok(done) => done.marshal(block.end_stack, 0),
    }
}

/// Count one more read for the name that `value` reads; a literal counts
/// for nothing.
pub fn inc_value_count(use_counts: &mut Vec<RefCount>, value: &Value)
    requires
        forall|n: NameView|
            value_refs(value@, n) > 0 ==> lookup_count(old(use_counts)@, n, 0) < usize::MAX,
    ensures
        forall|n: NameView|
            lookup_count(final(use_counts)@, n, 0) == lookup_count(old(use_counts)@, n, 0)
                + value_refs(value@, n),
        counted_once(old(use_counts)@) ==> counted_once(final(use_counts)@),
{
    match value {
        Value::RefName(name) => {
            assert(value_refs(value@, name@) > 0);
            match find_entry(use_counts, name) {
                Some(i) => {
                    proof {
                        lemma_lookup_found(use_counts@, name@, i as int, 0);
                    }
                    let entry = RefCount { name: name.duplicate(), count: use_counts[i].count + 1 };
                    proof {
                        assert forall|n: NameView|
                            lookup_count(use_counts@.update(i as int, entry), n, 0)
                                == lookup_count(use_counts@, n, 0) + value_refs(value@, n) by {
                            lemma_lookup_update(use_counts@, i as int, entry, n, 0);
                        }
                    }
                    use_counts.set(i, entry);
                },
                None => {
                    let entry = RefCount { name: name.duplicate(), count: 1 };
                    proof {
                        lemma_lookup_absent(use_counts@, name@, 0);
                        assert forall|n: NameView|
                            lookup_count(use_counts@.push(entry), n, 0) == lookup_count(
                                use_counts@,
                                n,
                                0,
                            ) + value_refs(value@, n) by {
                            lemma_lookup_push(use_counts@, entry, n, 0);
                        }
                    }
                    use_counts.push(entry);
                },
            }
        },
        Value::Literal(_) => {},
    }
}

impl MemoryAsRegisters {
    /// The register file with which the scheduling of `block` starts: no
    /// slot, and for each name its reference count in the block.
    pub fn for_block(block: &Block) -> (r: MemoryAsRegisters)
        requires
            counts_fit(block@),
        ensures
            r@ == initial_registers(block@),
            r.wf(),
    {
        let mut counts: Vec<RefCount> = Vec::new();
        let ghost view = block@;
        let mut i: usize = 0;
        while i < block.statements.len()
            invariant
                i <= block.statements.len(),
                view == block@,
                counts_fit(view),
                counted_once(counts@),
                forall|n: NameView|
                    lookup_count(counts@, n, 0) + statements_refs(view.statements, n, i as int)
                        + stack_refs(view.end_stack, n, 0) == #[trigger] ref_count(view, n),
            decreases block.statements.len() - i,
        {
            assert(view.statements[i as int] == block.statements[i as int]@);
            match &block.statements[i] {
                Statement::ValueAssign { to: _, value } => {
                    assert forall|n: NameView| value_refs(value@, n) > 0 implies lookup_count(
                        counts@,
                        n,
                        0,
                    ) < usize::MAX by {
                        assert(ref_count(view, n) <= usize::MAX);
                    }
                    inc_value_count(&mut counts, value);
                },
                Statement::CallAssign { assigns: _, calls: _, takes } => {
                    let ghost operands = values_view(takes@);
                    let mut j: usize = 0;
                    while j < takes.len()
                        invariant
                            j <= takes.len(),
                            i < view.statements.len(),
                            counts_fit(view),
                            counted_once(counts@),
                            operands == values_view(takes@),
                            forall|n: NameView|
                                statement_refs(view.statements[i as int], n) == values_refs(
                                    operands,
                                    n,
                                    0,
                                ),
                            forall|n: NameView|
                                lookup_count(counts@, n, 0) + values_refs(operands, n, j as int)
                                    + statements_refs(view.statements, n, i + 1) + stack_refs(
                                    view.end_stack,
                                    n,
                                    0,
                                ) == #[trigger] ref_count(view, n),
                        decreases takes.len() - j,
                    {
                        assert forall|n: NameView|
                            value_refs(takes[j as int]@, n) > 0 implies lookup_count(counts@, n, 0)
                            < usize::MAX by {
                            assert(ref_count(view, n) <= usize::MAX);
                        }
                        inc_value_count(&mut counts, &takes[j]);
                        j += 1;
                    }
                },
            }
            i += 1;
        }
        let mut k: usize = 0;
        while k < block.end_stack.len()
            invariant
                k <= block.end_stack.len(),
                view == block@,
                counts_fit(view),
                counted_once(counts@),
                forall|n: NameView|
                    lookup_count(counts@, n, 0) + stack_refs(view.end_stack, n, k as int)
                        == #[trigger] ref_count(view, n),
            decreases block.end_stack.len() - k,
        {
            let value = Value::ident(&block.end_stack[k]);
            assert(view.end_stack[k as int] == block.end_stack[k as int]@);
            assert forall|n: NameView| value_refs(value@, n) > 0 implies lookup_count(
                counts@,
                n,
                0,
            ) < usize::MAX by {
                assert(ref_count(view, n) <= usize::MAX);
            }
            inc_value_count(&mut counts, &value);
            k += 1;
        }
        let r = MemoryAsRegisters {
            slots: Vec::new(),
            remaining_ref_counts: counts,
            peak: Ghost(0),
        };
        assert(r@.remaining =~= initial_registers(view).remaining);
        assert(r@.slots =~= initial_registers(view).slots);
        r
    }
}

/// The schedule that a register file and a list of operations stand for.
pub open spec fn state_of(memory: MemoryAsRegisters, ops: Seq<Op<'_>>) -> Schedule {
    Schedule { regs: memory@, ops: ops_view(ops) }
}

/// Put `op` behind the operations emitted so far.
fn emit<'a>(ops: &mut Vec<Op<'a>>, op: Op<'a>)
    ensures
        ops_view(final(ops)@) == ops_view(old(ops)@).push(op@),
{
    ops.push(op);
    assert(ops_view(ops@) =~= ops_view(old(ops)@).push(op@));
}

/// A copy of what a slot holds.
fn duplicate_slot(slot: &Option<Name>) -> (r: Option<Name>)
    ensures
        slots_view(seq![r]) == slots_view(seq![*slot]),
{
    let r = match slot {
        Some(n) => Some(n.duplicate()),
        None => None,
    };
    assert(slots_view(seq![r]) =~= slots_view(seq![*slot]));
    r
}

impl MemoryAsRegisters {
    /// Add empty slots until there are at least `n`.
    fn pad_slots(&mut self, n: usize)
        ensures
            final(self)@ == (Registers { slots: padded(old(self)@.slots, n as nat), ..old(self)@ }),
            final(self).slots.len() >= n,
            final(self).slots.len() >= old(self).slots.len(),
            final(self).remaining_ref_counts == old(self).remaining_ref_counts,
    {
        while self.slots.len() < n
            invariant
                self.remaining_ref_counts == old(self).remaining_ref_counts,
                self.peak == old(self).peak,
                self.slots.len() >= old(self).slots.len(),
                padded(self@.slots, n as nat) == padded(old(self)@.slots, n as nat),
            decreases n - self.slots.len(),
        {
            let ghost before = self@.slots;
            self.slots.push(None);
            assert(self@.slots =~= before.push(None));
            assert(padded(self@.slots, n as nat) =~= padded(before, n as nat));
        }
    }

    /// Exchange the contents of slots `i` and `j`; slots that are missing
    /// up to these two are added empty.
    pub fn swap_slots(&mut self, i: usize, j: usize)
        requires
            i < usize::MAX,
            j < usize::MAX,
        ensures
            final(self)@ == (Registers {
                slots: swapped(old(self)@.slots, i as nat, j as nat),
                ..old(self)@
            }),
            final(self).remaining_ref_counts == old(self).remaining_ref_counts,
    {
        self.pad_slots(i + 1);
        self.pad_slots(j + 1);
        let ghost p = self@.slots;
        let a = duplicate_slot(&self.slots[i]);
        let b = duplicate_slot(&self.slots[j]);
        assert(slots_view(seq![a])[0] == slots_view(seq![self.slots[i as int]])[0]);
        assert(slots_view(seq![b])[0] == slots_view(seq![self.slots[j as int]])[0]);
        self.slots.set(i, b);
        self.slots.set(j, a);
        assert(self@.slots =~= p.update(i as int, p[j as int]).update(j as int, p[i as int]));
    }
}

/// Take the top of the stack for `name`: into the slot of `name` where the
/// name is still to be read, else off the stack.
fn store<'a>(memory: &mut MemoryAsRegisters, ops: &mut Vec<Op<'a>>, name: &Name)
    ensures
        state_of(*final(memory), final(ops)@) == state_of(*old(memory), old(ops)@).store(name@),
{
    if memory.get_rem_ref_count(name) > 0 {
        let slot = memory.get_or_assign_loc(name);
        emit(ops, Op::MemVarStore(slot));
    } else {
        emit(ops, Op::Pop);
    }
}

/// Push one operand: a literal as it is, a name from its slot, which is
/// one read of it.
fn load<'a>(memory: &mut MemoryAsRegisters, ops: &mut Vec<Op<'a>>, value: &Value) -> (r: Result<
    (),
    ScheduleError,
>)
    ensures
        match r {
            Ok(_) => state_of(*old(memory), old(ops)@).load(value@) == Ok::<
                Schedule,
                ScheduleErrorView,
            >(state_of(*final(memory), final(ops)@)),
            Err(e) => state_of(*old(memory), old(ops)@).load(value@) == Err::<
                Schedule,
                ScheduleErrorView,
            >(e@),
        },
{
    match value {
        Value::Literal(lit) => {
            emit(ops, Op::Push(*lit));
            Ok(())
        },
        Value::RefName(name) => {
            match memory.use_reference(name) {
                Ok(loc) => {
                    emit(ops, Op::MemVarLoad(loc));
                    Ok(())
                },
                Err(e) => Err(e),
            }
        },
    }
}

/// Schedule one statement: its operations go behind `ops`, and `memory`
/// follows what they do to the slots.
pub fn schedule_statement<'a>(
    memory: &mut MemoryAsRegisters,
    ops: &mut Vec<Op<'a>>,
    stmt: &'a Statement,
) -> (r: Result<(), ScheduleError>)
    ensures
        match r {
            Ok(_) => state_of(*old(memory), old(ops)@).statement(stmt@) == Ok::<
                Schedule,
                ScheduleErrorView,
            >(state_of(*final(memory), final(ops)@)),
            Err(e) => state_of(*old(memory), old(ops)@).statement(stmt@) == Err::<
                Schedule,
                ScheduleErrorView,
            >(e@),
        },
{
    let ghost start = state_of(*memory, ops@);
    match stmt {
        Statement::ValueAssign { to, value } => match value {
            Value::Literal(lit) => {
                if memory.get_rem_ref_count(to) > 0 {
                    emit(ops, Op::Push(*lit));
                    let slot = memory.get_or_assign_loc(to);
                    emit(ops, Op::MemVarStore(slot));
                }
                Ok(())
            },
            Value::RefName(name) => {
                let from_loc = match memory.use_reference(name) {
                    Ok(loc) => loc,
                    Err(e) => {
                        return Err(e);
                    },
                };
                if memory.get_rem_ref_count(to) > 0 {
                    let to_loc = memory.get_or_assign_loc(to);
                    emit(ops, Op::MemCopy { from: from_loc, to: to_loc });
                }
                Ok(())
            },
        },
        Statement::CallAssign { assigns, calls, takes } => {
            let ghost operands = values_view(takes@);
            let ghost results = names_view(assigns@);
            let mut k: usize = takes.len();
            while k > 0
                invariant
                    k <= takes.len(),
                    operands == values_view(takes@),
                    start == state_of(*old(memory), old(ops)@),
                    stmt@ == (StatementView::CallAssign {
                        assigns: results,
                        calls: calls@,
                        takes: operands,
                    }),
                    start.load_operands(operands, operands.len() as int) == state_of(
                        *memory,
                        ops@,
                    ).load_operands(operands, k as int),
                decreases k,
            {
                assert(operands[k - 1] == takes[k - 1]@);
                let ghost before = state_of(*memory, ops@);
                match load(memory, ops, &takes[k - 1]) {
                    Ok(_) => {},
                    Err(e) => {
                        assert(before.load_operands(operands, k as int) == Err::<
                            Schedule,
                            ScheduleErrorView,
                        >(e@));
                        return Err(e);
                    },
                }
                k -= 1;
            }
            emit(ops, Op::CallFn(calls.as_str()));
            let ghost called = state_of(*memory, ops@);
            let mut j: usize = 0;
            while j < assigns.len()
                invariant
                    j <= assigns.len(),
                    results == names_view(assigns@),
                    called.store_results(results, 0) == state_of(*memory, ops@).store_results(
                        results,
                        j as int,
                    ),
                decreases assigns.len() - j,
            {
                assert(results[j as int] == assigns[j as int]@);
                store(memory, ops, &assigns[j]);
                j += 1;
            }
            Ok(())
        },
    }
}

/// A block's schedule: how many memory slots it needs, and the operations
/// that realise it.
pub trait MemoryScheduler {
    /// Whether the reference counts fit a machine word.
    spec fn schedulable(&self) -> bool;

    /// The schedule, or why there is none.
    spec fn scheduled(&self) -> Result<Schedule, ScheduleErrorView>;

    fn schedule_memory(&self) -> (r: Result<(usize, Vec<Op<'_>>), ScheduleError>)
        requires
            self.schedulable(),
        ensures
            match r {
                Ok((slot_count, ops)) => self.scheduled() matches Ok(s) && slot_count
                    == s.regs.slots.len() && ops_view(ops@) == s.ops,
                Err(e) => self.scheduled() == Err::<Schedule, ScheduleErrorView>(e@),
            },
    ;
}

impl MemoryScheduler for Block {
    open spec fn schedulable(&self) -> bool {
        counts_fit(self@)
    }

    open spec fn scheduled(&self) -> Result<Schedule, ScheduleErrorView> {
        schedule(self@)
    }

    /// Schedule the block: the start stack is taken into slots, the topmost
    /// name first; the statements are scheduled in order; and the end stack
    /// is marshalled into the lowest slots, position by position. A block
    /// is scheduled exactly where every use in it follows a definition; a
    /// block that is not scheduled reads a name that no slot holds.
    fn schedule_memory(&self) -> (r: Result<(usize, Vec<Op<'_>>), ScheduleError>)
        ensures
            r is Ok <==> uses_defined(self@),
            r matches Err(e) ==> e is UndefinedReference,
    {
        proof {
            lemma_counts_suffice(self@);
            lemma_scheduled_exactly(self@);
        }
        let ghost view = self@;
        let mut memory = MemoryAsRegisters::for_block(self);
        let mut ops: Vec<Op<'_>> = Vec::new();
        assert(ops_view(ops@) =~= Seq::empty());
        let ghost start = state_of(memory, ops@);
        assert(start == Schedule { regs: initial_registers(view), ops: Seq::empty() });

        let mut k: usize = self.start_stack.len();
        while k > 0
            invariant
                k <= self.start_stack.len(),
                view == self@,
                start.ingest(view.start_stack, view.start_stack.len() as int) == state_of(
                    memory,
                    ops@,
                ).ingest(view.start_stack, k as int),
            decreases k,
        {
            assert(view.start_stack[k - 1] == self.start_stack[k - 1]@);
            let name = Name::Ident(self.start_stack[k - 1].clone());
            store(&mut memory, &mut ops, &name);
            k -= 1;
        }
        let ghost ingested = state_of(memory, ops@);

        let mut i: usize = 0;
        while i < self.statements.len()
            invariant
                i <= self.statements.len(),
                view == self@,
                no_use_after_release(schedule(view)),
                schedule(view) is Ok <==> uses_defined(view),
                ingested == (Schedule {
                    regs: initial_registers(view),
                    ops: Seq::empty(),
                }).ingest(view.start_stack, view.start_stack.len() as int),
                ingested.statements(view.statements, 0) == state_of(memory, ops@).statements(
                    view.statements,
                    i as int,
                ),
            decreases self.statements.len() - i,
        {
            assert(view.statements[i as int] == self.statements[i as int]@);
            let ghost before = state_of(memory, ops@);
            match schedule_statement(&mut memory, &mut ops, &self.statements[i]) {
                Ok(_) => {},
                Err(e) => {
                    assert(before.statements(view.statements, i as int) == Err::<
                        Schedule,
                        ScheduleErrorView,
                    >(e@));
                    return Err(e);
                },
            }
            i += 1;
        }
        let ghost done = state_of(memory, ops@);

        let mut p: usize = 0;
        while p < self.end_stack.len()
            invariant
                p <= self.end_stack.len(),
                view == self@,
                no_use_after_release(schedule(view)),
                schedule(view) is Ok <==> uses_defined(view),
                (Schedule { regs: initial_registers(view), ops: Seq::empty() }).ingest(
                    view.start_stack,
                    view.start_stack.len() as int,
                ).statements(view.statements, 0) == Ok::<Schedule, ScheduleErrorView>(done),
                done.marshal(view.end_stack, 0) == state_of(memory, ops@).marshal(
                    view.end_stack,
                    p as int,
                ),
            decreases self.end_stack.len() - p,
        {
            assert(view.end_stack[p as int] == self.end_stack[p as int]@);
            let name = Name::Ident(self.end_stack[p].clone());
            let ghost before = state_of(memory, ops@);
            let from_loc = match memory.use_reference(&name) {
                Ok(loc) => loc,
                Err(e) => {
                    assert(before.marshal_one(name@, p as nat) == Err::<
                        Schedule,
                        ScheduleErrorView,
                    >(e@));
                    assert(before.marshal(view.end_stack, p as int) == Err::<
                        Schedule,
                        ScheduleErrorView,
                    >(e@));
                    return Err(e);
                },
            };
            if from_loc != p {
                memory.swap_slots(p, from_loc);
                emit(&mut ops, Op::MemSwap(p, from_loc));
            }
            p += 1;
        }
        Ok((memory.len(), ops))
    }
}

/// How many operands the statements from index `k` on have.
pub open spec fn operand_count(stmts: Seq<StatementView>, k: int) -> nat
    decreases stmts.len() - k,
{
    if k < 0 || k >= stmts.len() {
        0
    } else {
        (match stmts[k] {
            StatementView::CallAssign { takes, .. } => takes.len(),
            StatementView::ValueAssign { .. } => 1nat,
        }) + operand_count(stmts, k + 1)
    }
}

/// How many places there are in a block at which a name can be read: the
/// operands of its statements and the places of its end stack.
pub open spec fn reference_places(block: BlockView) -> nat {
    operand_count(block.statements, 0) + block.end_stack.len()
}

/// No more operands read a name than there are operands.
pub proof fn lemma_values_refs_bound(values: Seq<ValueView>, n: NameView, k: int)
    requires
        0 <= k <= values.len(),
    ensures
        values_refs(values, n, k) <= values.len() - k,
    decreases values.len() - k,
{
    if k < values.len() {
        lemma_values_refs_bound(values, n, k + 1);
    }
}

/// No more statements' operands read a name than there are operands.
pub proof fn lemma_statements_refs_bound(stmts: Seq<StatementView>, n: NameView, k: int)
    requires
        0 <= k <= stmts.len(),
    ensures
        statements_refs(stmts, n, k) <= operand_count(stmts, k),
    decreases stmts.len() - k,
{
    if k < stmts.len() {
        lemma_statements_refs_bound(stmts, n, k + 1);
        match stmts[k] {
            StatementView::CallAssign { takes, .. } => {
                lemma_values_refs_bound(takes, n, 0);
            },
            StatementView::ValueAssign { .. } => {},
        }
    }
}

/// No more places of a stack layout give a name than there are places.
pub proof fn lemma_stack_refs_bound(names: Seq<Seq<char>>, n: NameView, k: int)
    requires
        0 <= k <= names.len(),
    ensures
        stack_refs(names, n, k) <= names.len() - k,
    decreases names.len() - k,
{
    if k < names.len() {
        lemma_stack_refs_bound(names, n, k + 1);
    }
}

/// Whether the places of the block at which a name can be read can be
/// counted in a machine word. Where they can, every reference count fits
/// one.
pub fn references_fit(block: &Block) -> (r: bool)
    ensures
        r == (reference_places(block@) <= usize::MAX),
        r ==> counts_fit(block@),
{
    let ghost view = block@;
    let mut total: usize = block.end_stack.len();
    let mut i: usize = block.statements.len();
    while i > 0
        invariant
            i <= block.statements.len(),
            view == block@,
            total == operand_count(view.statements, i as int) + view.end_stack.len(),
        decreases i,
    {
        i -= 1;
        assert(view.statements[i as int] == block.statements[i as int]@);
        let operands: usize = match &block.statements[i] {
            Statement::CallAssign { assigns: _, calls: _, takes } => takes.len(),
            Statement::ValueAssign { .. } => 1,
        };
        match total.checked_add(operands) {
            Some(sum) => {
                total = sum;
            },
            None => {
                proof {
                    lemma_operand_count_grows(view.statements, 0, i as int);
                }
                return false;
            },
        }
    }
    proof {
        assert forall|n: NameView| ref_count(view, n) <= usize::MAX by {
            lemma_statements_refs_bound(view.statements, n, 0);
            lemma_stack_refs_bound(view.end_stack, n, 0);
        }
    }
    true
}

/// The statements from an earlier index on have at least as many operands
/// as those from a later one.
pub proof fn lemma_operand_count_grows(stmts: Seq<StatementView>, k: int, j: int)
    requires
        0 <= k <= j <= stmts.len(),
    ensures
        operand_count(stmts, j) <= operand_count(stmts, k),
    decreases j - k,
{
    if k < j {
        lemma_operand_count_grows(stmts, k + 1, j);
    }
}

} // verus!
