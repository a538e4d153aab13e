//! An abstract stack machine, what a block means, and the proof that a
//! schedule run on the machine does what its block means.

use vstd::prelude::*;
use crate::ir::Literal;
use crate::registers::Registers;
use crate::schedule_laws::{
    distinct, lemma_assign, lemma_counts_reach_zero, lemma_marshal_has_room, lemma_swapped_tidy,
    lemma_use, tidy,
};
use crate::scheduler::{initial_registers, schedule, OpView, Schedule};
use crate::ssa_block::{BlockView, NameView, StatementView, ValueView};

verus! {

/// A word of the abstract machine, by where it comes from.
pub ghost enum Word {
    /// The word that the start stack holds under this name.
    Input(Seq<char>),
    /// A literal.
    Lit(Literal),
    /// A result of a call: calls are counted from zero in the order in
    /// which they are made, and so are the results of one call.
    Result { call: nat, index: nat },
}

/// A call as the machine made it: the function, and the arguments in the
/// order of the parameters.
pub ghost struct CallRecord {
    pub name: Seq<char>,
    pub args: Seq<Word>,
}

/// How many words a call takes from the stack and how many it leaves
/// there.
pub ghost struct Signature {
    pub takes: nat,
    pub gives: nat,
}

/// The state of the abstract machine: a stack of words, whose top is its
/// last element; memory slots, which hold a word once one is written; and
/// the calls made so far.
pub ghost struct Machine {
    pub stack: Seq<Word>,
    pub memory: Map<nat, Word>,
    pub calls: Seq<CallRecord>,
}

impl Machine {
    /// The machine after one operation, or nothing where the operation
    /// cannot run: where the stack is too short, a slot that is read holds
    /// nothing, or a call has no signature. The `n`-th call made has the
    /// `n`-th signature; it takes its first argument from the top of the
    /// stack and leaves its first result there.
    pub open spec fn step(self, op: OpView, sigs: Seq<Signature>) -> Option<Machine> {
        let len = self.stack.len() as int;
        match op {
            OpView::Pop => if len >= 1 {
                Some(Machine { stack: self.stack.drop_last(), ..self })
            } else {
                None
            },
            OpView::Push(l) => Some(Machine { stack: self.stack.push(Word::Lit(l)), ..self }),
            OpView::Swap(k) => if 1 <= k < len {
                Some(
                    Machine {
                        stack: self.stack.update(len - 1, self.stack[len - 1 - k]).update(
                            len - 1 - k,
                            self.stack[len - 1],
                        ),
                        ..self
                    },
                )
            } else {
                None
            },
            OpView::Dup(k) => if 1 <= k <= len {
                Some(Machine { stack: self.stack.push(self.stack[len - k]), ..self })
            } else {
                None
            },
            OpView::MemVarStore(i) => if len >= 1 {
                Some(
                    Machine {
                        stack: self.stack.drop_last(),
                        memory: self.memory.insert(i, self.stack.last()),
                        ..self
                    },
                )
            } else {
                None
            },
            OpView::MemVarLoad(i) => if self.memory.dom().contains(i) {
                Some(Machine { stack: self.stack.push(self.memory[i]), ..self })
            } else {
                None
            },
            OpView::MemCopy { from, to } => if self.memory.dom().contains(from) {
                Some(Machine { memory: self.memory.insert(to, self.memory[from]), ..self })
            } else {
                None
            },
            OpView::MemSwap(i, j) => if self.memory.dom().contains(i) && self.memory.dom().contains(
                j,
            ) {
                Some(
                    Machine {
                        memory: self.memory.insert(i, self.memory[j]).insert(j, self.memory[i]),
                        ..self
                    },
                )
            } else {
                None
            },
            OpView::CallFn(name) => if self.calls.len() < sigs.len() && sigs[self.calls.len() as int].takes
                <= len {
                let sig = sigs[self.calls.len() as int];
                let call = self.calls.len();
                Some(
                    Machine {
                        stack: self.stack.take(len - sig.takes) + Seq::new(
                            sig.gives,
                            |r: int| Word::Result { call, index: (sig.gives - 1 - r) as nat },
                        ),
                        calls: self.calls.push(
                            CallRecord {
                                name,
                                args: Seq::new(sig.takes, |a: int| self.stack[len - 1 - a]),
                            },
                        ),
                        ..self
                    },
                )
            } else {
                None
            },
        }
    }

    /// The machine after the operations in order, or nothing where one of
    /// them cannot run.
    pub open spec fn run(self, ops: Seq<OpView>, sigs: Seq<Signature>) -> Option<Machine>
        decreases ops.len(),
    {
        if ops.len() == 0 {
            Some(self)
        } else {
            match self.run(ops.drop_last(), sigs) {
                Some(m) => m.step(ops.last(), sigs),
                None => None,
            }
        }
    }
}

/// What a block means: the word that each name stands for, and the calls
/// that are made.
pub ghost struct Meaning {
    pub env: Map<NameView, Word>,
    pub calls: Seq<CallRecord>,
}

/// The word that an operand stands for.
pub open spec fn word_of(env: Map<NameView, Word>, v: ValueView) -> Word {
    match v {
        ValueView::Literal(l) => Word::Lit(l),
        ValueView::RefName(n) => env[n],
    }
}

/// `env`, with the names from index `k` on bound to the results of the
/// call numbered `call`, the first name to the first result.
pub open spec fn bind_results(env: Map<NameView, Word>, assigns: Seq<NameView>, call: nat, k: int) -> Map<
    NameView,
    Word,
>
    decreases assigns.len() - k,
{
    if k < 0 || k >= assigns.len() {
        env
    } else {
        bind_results(
            env.insert(assigns[k], Word::Result { call, index: k as nat }),
            assigns,
            call,
            k + 1,
        )
    }
}

impl Meaning {
    /// The meaning after one statement: a value assignment binds its name
    /// to the word of its operand; a call is made with the words of its
    /// operands and binds its names to its results.
    pub open spec fn statement(self, stmt: StatementView) -> Meaning {
        match stmt {
            StatementView::ValueAssign { to, value } => Meaning {
                env: self.env.insert(to, word_of(self.env, value)),
                ..self
            },
            StatementView::CallAssign { assigns, calls, takes } => Meaning {
                env: bind_results(self.env, assigns, self.calls.len(), 0),
                calls: self.calls.push(
                    CallRecord {
                        name: calls,
                        args: Seq::new(takes.len(), |a: int| word_of(self.env, takes[a])),
                    },
                ),
            },
        }
    }

    /// The meaning after the statements from index `k` on.
    pub open spec fn statements(self, stmts: Seq<StatementView>, k: int) -> Meaning
        decreases stmts.len() - k,
    {
        if k < 0 || k >= stmts.len() {
            self
        } else {
            self.statement(stmts[k]).statements(stmts, k + 1)
        }
    }
}

/// Before the first statement every identifier stands for the word that
/// the start stack holds under its name, and no call is made.
pub open spec fn at_entry() -> Meaning {
    Meaning {
        env: Map::new(
            |n: NameView| n is Ident,
            |n: NameView| Word::Input(n->Ident_0),
        ),
        calls: Seq::empty(),
    }
}

/// What the block means.
pub open spec fn meaning(block: BlockView) -> Meaning {
    at_entry().statements(block.statements, 0)
}

/// The signatures of the calls among the first `k` statements, in order.
pub open spec fn signatures(stmts: Seq<StatementView>, k: int) -> Seq<Signature>
    decreases k,
{
    if k <= 0 || k > stmts.len() {
        Seq::empty()
    } else {
        match stmts[k - 1] {
            StatementView::CallAssign { assigns, calls, takes } => signatures(stmts, k - 1).push(
                Signature { takes: takes.len(), gives: assigns.len() },
            ),
            StatementView::ValueAssign { .. } => signatures(stmts, k - 1),
        }
    }
}

/// The machine at the entry of a block: the words of the start stack on
/// the stack, nothing in memory, no call made.
pub open spec fn machine_at_entry(block: BlockView) -> Machine {
    Machine {
        stack: Seq::new(block.start_stack.len(), |i: int| Word::Input(block.start_stack[i])),
        memory: Map::empty(),
        calls: Seq::empty(),
    }
}

/// The machine agrees with the register file under `env`: every slot of
/// the file has been written, and a slot that holds a name holds the word
/// of that name.
pub open spec fn agrees(r: Registers, m: Machine, env: Map<NameView, Word>) -> bool {
    &&& tidy(r)
    &&& forall|j: nat| j < r.slots.len() ==> #[trigger] m.memory.dom().contains(j)
    &&& forall|j: nat|
        j < r.slots.len() && r.slots[j as int] is Some ==> #[trigger] m.memory[j]
            == env[r.slots[j as int]->0]
}

/// Running one more operation is one step from where the operations
/// before it lead.
pub proof fn lemma_run_push(start: Machine, ops: Seq<OpView>, op: OpView, sigs: Seq<Signature>)
    ensures
        start.run(ops.push(op), sigs) == match start.run(ops, sigs) {
            Some(m) => m.step(op, sigs),
            None => None,
        },
{
    assert(ops.push(op).drop_last() =~= ops);
}

/// `store` takes the top of the stack for a name: the machine follows,
/// and agrees with the register file once the name stands for that word.
pub proof fn lemma_store_runs(
    s: Schedule,
    start: Machine,
    sigs: Seq<Signature>,
    env: Map<NameView, Word>,
    name: NameView,
)
    requires
        start.run(s.ops, sigs) is Some,
        agrees(s.regs, start.run(s.ops, sigs)->0, env),
        start.run(s.ops, sigs)->0.stack.len() >= 1,
    ensures
        ({
            let m = start.run(s.ops, sigs)->0;
            let after = start.run(s.store(name).ops, sigs);
            &&& after is Some
            &&& after->0.stack == m.stack.drop_last()
            &&& after->0.calls == m.calls
            &&& agrees(s.store(name).regs, after->0, env.insert(name, m.stack.last()))
            &&& s.regs.slots.len() <= s.store(name).regs.slots.len()
        }),
{
    let m = start.run(s.ops, sigs)->0;
    if s.regs.remaining[name] > 0 {
        lemma_assign(s.regs, name);
        let (regs, loc) = s.regs.get_or_assign_loc(name);
        lemma_run_push(start, s.ops, OpView::MemVarStore(loc), sigs);
    } else {
        lemma_run_push(start, s.ops, OpView::Pop, sigs);
    }
}

/// The words of a stack layout at the entry of a block.
pub open spec fn inputs(names: Seq<Seq<char>>) -> Seq<Word> {
    Seq::new(names.len(), |i: int| Word::Input(names[i]))
}

/// `ingest` empties the stack: the machine follows, and agrees with the
/// register file under the meaning at entry.
pub proof fn lemma_ingest_runs(
    s: Schedule,
    start: Machine,
    sigs: Seq<Signature>,
    names: Seq<Seq<char>>,
    k: int,
)
    requires
        0 <= k <= names.len(),
        start.run(s.ops, sigs) is Some,
        agrees(s.regs, start.run(s.ops, sigs)->0, at_entry().env),
        start.run(s.ops, sigs)->0.stack == inputs(names).take(k),
    ensures
        ({
            let m = start.run(s.ops, sigs)->0;
            let after = start.run(s.ingest(names, k).ops, sigs);
            &&& after is Some
            &&& after->0.stack.len() == 0
            &&& after->0.calls == m.calls
            &&& agrees(s.ingest(names, k).regs, after->0, at_entry().env)
        }),
    decreases k,
{
    if k > 0 {
        let name = NameView::Ident(names[k - 1]);
        let m = start.run(s.ops, sigs)->0;
        lemma_store_runs(s, start, sigs, at_entry().env, name);
        assert(m.stack.last() == Word::Input(names[k - 1]));
        assert(at_entry().env.insert(name, m.stack.last()) =~= at_entry().env);
        assert(inputs(names).take(k).drop_last() =~= inputs(names).take(k - 1));
        lemma_ingest_runs(s.store(name), start, sigs, names, k - 1);
    }
}

/// `load` pushes the word of an operand: the machine follows and still
/// agrees with the register file.
pub proof fn lemma_load_runs(
    s: Schedule,
    start: Machine,
    sigs: Seq<Signature>,
    env: Map<NameView, Word>,
    v: ValueView,
)
    requires
        start.run(s.ops, sigs) is Some,
        agrees(s.regs, start.run(s.ops, sigs)->0, env),
        s.load(v) is Ok,
    ensures
        ({
            let m = start.run(s.ops, sigs)->0;
            let after = start.run(s.load(v)->Ok_0.ops, sigs);
            &&& after is Some
            &&& after->0.stack == m.stack.push(word_of(env, v))
            &&& after->0.calls == m.calls
            &&& agrees(s.load(v)->Ok_0.regs, after->0, env)
        }),
{
    match v {
        ValueView::Literal(l) => {
            lemma_run_push(start, s.ops, OpView::Push(l), sigs);
        },
        ValueView::RefName(name) => {
            lemma_use(s.regs, name);
            let (regs, loc) = s.regs.use_reference(name)->Ok_0;
            lemma_run_push(start, s.ops, OpView::MemVarLoad(loc), sigs);
            let m = start.run(s.ops, sigs)->0;
            assert(m.memory.dom().contains(loc));
            assert(m.memory[loc] == env[name]);
        },
    }
}

/// The words of the first `k` operands as `load_operands` leaves them on
/// the stack: the first operand on top.
pub open spec fn loaded(env: Map<NameView, Word>, takes: Seq<ValueView>, k: int) -> Seq<Word> {
    Seq::new(k as nat, |a: int| word_of(env, takes[k - 1 - a]))
}

/// `load_operands` pushes the words of the operands, the first operand
/// last: the machine follows and still agrees with the register file.
pub proof fn lemma_load_operands_runs(
    s: Schedule,
    start: Machine,
    sigs: Seq<Signature>,
    env: Map<NameView, Word>,
    takes: Seq<ValueView>,
    k: int,
)
    requires
        0 <= k <= takes.len(),
        start.run(s.ops, sigs) is Some,
        agrees(s.regs, start.run(s.ops, sigs)->0, env),
        s.load_operands(takes, k) is Ok,
    ensures
        ({
            let m = start.run(s.ops, sigs)->0;
            let after = start.run(s.load_operands(takes, k)->Ok_0.ops, sigs);
            &&& after is Some
            &&& after->0.stack == m.stack + loaded(env, takes, k)
            &&& after->0.calls == m.calls
            &&& agrees(s.load_operands(takes, k)->Ok_0.regs, after->0, env)
        }),
    decreases k,
{
    let m = start.run(s.ops, sigs)->0;
    if k > 0 {
        lemma_load_runs(s, start, sigs, env, takes[k - 1]);
        let next = s.load(takes[k - 1])->Ok_0;
        lemma_load_operands_runs(next, start, sigs, env, takes, k - 1);
        assert(m.stack.push(word_of(env, takes[k - 1])) + loaded(env, takes, k - 1) =~= m.stack
            + loaded(env, takes, k));
    } else {
        assert(m.stack + loaded(env, takes, k) =~= m.stack);
    }
}

/// The results of a call from index `k` on as the call leaves them on the
/// stack: the first of them on top.
pub open spec fn results(call: nat, gives: nat, k: int) -> Seq<Word> {
    Seq::new((gives - k) as nat, |r: int| Word::Result { call, index: (gives - 1 - r) as nat })
}

/// `store_results` takes the results of a call off the stack: the machine
/// follows, and agrees with the register file once the names stand for
/// the results.
pub proof fn lemma_store_results_runs(
    s: Schedule,
    start: Machine,
    sigs: Seq<Signature>,
    env: Map<NameView, Word>,
    assigns: Seq<NameView>,
    k: int,
    call: nat,
    base: Seq<Word>,
)
    requires
        0 <= k <= assigns.len(),
        start.run(s.ops, sigs) is Some,
        agrees(s.regs, start.run(s.ops, sigs)->0, env),
        start.run(s.ops, sigs)->0.stack == base + results(call, assigns.len(), k),
    ensures
        ({
            let m = start.run(s.ops, sigs)->0;
            let after = start.run(s.store_results(assigns, k).ops, sigs);
            &&& after is Some
            &&& after->0.stack == base
            &&& after->0.calls == m.calls
            &&& agrees(
                s.store_results(assigns, k).regs,
                after->0,
                bind_results(env, assigns, call, k),
            )
        }),
    decreases assigns.len() - k,
{
    let m = start.run(s.ops, sigs)->0;
    if k < assigns.len() {
        assert(m.stack.last() == Word::Result { call, index: k as nat });
        lemma_store_runs(s, start, sigs, env, assigns[k]);
        assert(m.stack.drop_last() =~= base + results(call, assigns.len(), k + 1));
        lemma_store_results_runs(
            s.store(assigns[k]),
            start,
            sigs,
            env.insert(assigns[k], Word::Result { call, index: k as nat }),
            assigns,
            k + 1,
            call,
            base,
        );
    } else {
        assert(base + results(call, assigns.len(), k) =~= base);
    }
}

/// A statement is scheduled so that the machine does what the statement
/// means: from an empty stack it comes back to an empty stack, has made
/// the call that the statement makes, and agrees with the register file
/// under the meaning after the statement.
pub proof fn lemma_statement_runs(
    s: Schedule,
    start: Machine,
    sigs: Seq<Signature>,
    mean: Meaning,
    stmt: StatementView,
)
    requires
        start.run(s.ops, sigs) is Some,
        agrees(s.regs, start.run(s.ops, sigs)->0, mean.env),
        start.run(s.ops, sigs)->0.stack.len() == 0,
        start.run(s.ops, sigs)->0.calls == mean.calls,
        s.statement(stmt) is Ok,
        stmt matches StatementView::CallAssign { assigns, calls, takes } ==> mean.calls.len()
            < sigs.len() && sigs[mean.calls.len() as int] == (Signature {
            takes: takes.len(),
            gives: assigns.len(),
        }),
    ensures
        ({
            let after = start.run(s.statement(stmt)->Ok_0.ops, sigs);
            &&& after is Some
            &&& after->0.stack.len() == 0
            &&& after->0.calls == mean.statement(stmt).calls
            &&& agrees(s.statement(stmt)->Ok_0.regs, after->0, mean.statement(stmt).env)
        }),
{
    let m = start.run(s.ops, sigs)->0;
    let env = mean.env;
    match stmt {
        StatementView::ValueAssign { to, value: ValueView::Literal(l) } => {
            if s.regs.remaining[to] > 0 {
                let pushed = s.emit(OpView::Push(l));
                lemma_run_push(start, s.ops, OpView::Push(l), sigs);
                lemma_store_runs(pushed, start, sigs, env, to);
                assert(pushed.store(to) == s.statement(stmt)->Ok_0);
                let m1 = start.run(pushed.ops, sigs)->0;
                assert(m1.stack.last() == Word::Lit(l));
                assert(m1.stack.drop_last() =~= m.stack);
            }
        },
        StatementView::ValueAssign { to, value: ValueView::RefName(src) } => {
            lemma_use(s.regs, src);
            let (used, from) = s.regs.use_reference(src)->Ok_0;
            assert(m.memory[from] == env[src]);
            if used.remaining[to] > 0 {
                lemma_assign(used, to);
                let (regs, to_loc) = used.get_or_assign_loc(to);
                lemma_run_push(start, s.ops, OpView::MemCopy { from, to: to_loc }, sigs);
            }
        },
        StatementView::CallAssign { assigns, calls, takes } => {
            lemma_load_operands_runs(s, start, sigs, env, takes, takes.len() as int);
            let loaded_s = s.load_operands(takes, takes.len() as int)->Ok_0;
            let m1 = start.run(loaded_s.ops, sigs)->0;
            assert(m1.stack =~= loaded(env, takes, takes.len() as int));
            let called = loaded_s.emit(OpView::CallFn(calls));
            lemma_run_push(start, loaded_s.ops, OpView::CallFn(calls), sigs);
            let m2 = start.run(called.ops, sigs)->0;
            let call = mean.calls.len();
            assert(m2.stack =~= Seq::<Word>::empty() + results(call, assigns.len(), 0));
            assert(m2.calls.last().args =~= Seq::new(
                takes.len(),
                |a: int| word_of(env, takes[a]),
            ));
            lemma_store_results_runs(
                called,
                start,
                sigs,
                env,
                assigns,
                0,
                call,
                Seq::<Word>::empty(),
            );
        },
    }
}

/// The signatures of the calls among the first statements stay as they
/// are where more statements are counted.
pub proof fn lemma_signatures_prefix(stmts: Seq<StatementView>, k: int, j: int)
    requires
        0 <= k <= j <= stmts.len(),
    ensures
        signatures(stmts, k).len() <= signatures(stmts, j).len(),
        forall|c: int|
            0 <= c < signatures(stmts, k).len() ==> signatures(stmts, j)[c] == signatures(
                stmts,
                k,
            )[c],
    decreases j - k,
{
    if k < j {
        lemma_signatures_prefix(stmts, k, j - 1);
    }
}

/// The statements are scheduled so that the machine does what they mean.
pub proof fn lemma_statements_runs(
    s: Schedule,
    start: Machine,
    mean: Meaning,
    stmts: Seq<StatementView>,
    k: int,
)
    requires
        0 <= k <= stmts.len(),
        start.run(s.ops, signatures(stmts, stmts.len() as int)) is Some,
        agrees(s.regs, start.run(s.ops, signatures(stmts, stmts.len() as int))->0, mean.env),
        start.run(s.ops, signatures(stmts, stmts.len() as int))->0.stack.len() == 0,
        start.run(s.ops, signatures(stmts, stmts.len() as int))->0.calls == mean.calls,
        mean.calls.len() == signatures(stmts, k).len(),
        s.statements(stmts, k) is Ok,
    ensures
        ({
            let after = start.run(
                s.statements(stmts, k)->Ok_0.ops,
                signatures(stmts, stmts.len() as int),
            );
            &&& after is Some
            &&& after->0.stack.len() == 0
            &&& after->0.calls == mean.statements(stmts, k).calls
            &&& agrees(s.statements(stmts, k)->Ok_0.regs, after->0, mean.statements(stmts, k).env)
        }),
    decreases stmts.len() - k,
{
    if k < stmts.len() {
        let sigs = signatures(stmts, stmts.len() as int);
        lemma_signatures_prefix(stmts, k + 1, stmts.len() as int);
        lemma_statement_runs(s, start, sigs, mean, stmts[k]);
        lemma_statements_runs(s.statement(stmts[k])->Ok_0, start, mean.statement(stmts[k]), stmts, k + 1);
    }
}

/// The places of the end stack below `k` are marshalled: slot `p` holds
/// the word of the name at place `p`, and the register file holds that
/// name there or nothing.
pub open spec fn placed(
    r: Registers,
    m: Machine,
    env: Map<NameView, Word>,
    names: Seq<Seq<char>>,
    k: int,
) -> bool {
    forall|p: nat|
        #![trigger m.memory.dom().contains(p)]
        #![trigger m.memory[p]]
        p < k ==> m.memory.dom().contains(p) && m.memory[p] == env[NameView::Ident(
            names[p as int],
        )] && (r.slots[p as int] is None || r.slots[p as int] == Some(
            NameView::Ident(names[p as int]),
        ))
}

/// The end stack is marshalled so that slot `p` of the machine holds the
/// word of the name at place `p`, for every place.
pub proof fn lemma_marshal_runs(
    s: Schedule,
    start: Machine,
    sigs: Seq<Signature>,
    env: Map<NameView, Word>,
    names: Seq<Seq<char>>,
    k: int,
)
    requires
        0 <= k <= names.len(),
        distinct(names),
        names.len() <= s.regs.slots.len(),
        start.run(s.ops, sigs) is Some,
        agrees(s.regs, start.run(s.ops, sigs)->0, env),
        placed(s.regs, start.run(s.ops, sigs)->0, env, names, k),
        s.marshal(names, k) is Ok,
    ensures
        ({
            let m = start.run(s.ops, sigs)->0;
            let after = start.run(s.marshal(names, k)->Ok_0.ops, sigs);
            &&& after is Some
            &&& after->0.stack == m.stack
            &&& after->0.calls == m.calls
            &&& placed(
                s.marshal(names, k)->Ok_0.regs,
                after->0,
                env,
                names,
                names.len() as int,
            )
        }),
    decreases names.len() - k,
{
    if k < names.len() {
        let m = start.run(s.ops, sigs)->0;
        let name = NameView::Ident(names[k]);
        lemma_use(s.regs, name);
        let (used, from) = s.regs.use_reference(name)->Ok_0;
        let next = s.marshal_one(name, k as nat)->Ok_0;
        assert(from >= k) by {
            if from < k {
                assert(m.memory[from] == env[NameView::Ident(names[from as int])]);
                assert(names[from as int] != names[k]);
            }
        }
        assert(m.memory[from] == env[name]);
        assert(m.memory.dom().contains(k as nat));
        if from != k {
            lemma_swapped_tidy(used, k as nat, from);
            lemma_run_push(start, s.ops, OpView::MemSwap(k as nat, from), sigs);
            let m2 = start.run(next.ops, sigs)->0;
            assert(next.regs.slots =~= used.slots.update(k, used.slots[from as int]).update(
                from as int,
                used.slots[k],
            ));
            assert(agrees(next.regs, m2, env)) by {
                assert forall|j: nat|
                    j < next.regs.slots.len() && next.regs.slots[j as int] is Some implies #[trigger] m2.memory[j]
                    == env[next.regs.slots[j as int]->0] by {
                    if j == k {
                    } else if j == from {
                        assert(m.memory[k as nat] == env[s.regs.slots[k]->0]);
                    } else {
                        assert(m.memory[j] == env[s.regs.slots[j as int]->0]);
                    }
                }
            }
            assert(placed(next.regs, m2, env, names, k + 1)) by {
                assert forall|p: nat| p < k + 1 implies m2.memory.dom().contains(p)
                    && m2.memory[p] == env[NameView::Ident(names[p as int])] && (
                next.regs.slots[p as int] is None || next.regs.slots[p as int] == Some(
                    NameView::Ident(names[p as int]),
                )) by {
                    if p < k {
                        assert(m.memory[p] == env[NameView::Ident(names[p as int])]);
                    }
                }
            }
        } else {
            assert(placed(next.regs, m, env, names, k + 1)) by {
                assert forall|p: nat| p < k + 1 implies m.memory.dom().contains(p)
                    && m.memory[p] == env[NameView::Ident(names[p as int])] && (
                next.regs.slots[p as int] is None || next.regs.slots[p as int] == Some(
                    NameView::Ident(names[p as int]),
                )) by {
                    if p < k {
                        assert(m.memory[p] == env[NameView::Ident(names[p as int])]);
                    }
                }
            }
        }
        lemma_marshal_runs(next, start, sigs, env, names, k + 1);
    }
}

/// A schedule realises its block. Run on the abstract machine from the
/// entry of the block, with the words of the start stack on the stack and
/// nothing in memory, its operations all run; they leave the stack empty;
/// the calls made are those that the block means, in order and with the
/// words of their operands as arguments; and, where no name stands twice
/// in the end stack, slot `p` holds the word that the name at place `p` of
/// the end stack stands for, for every place.
pub proof fn lemma_schedule_realises_block(block: BlockView)
    requires
        schedule(block) is Ok,
        distinct(block.end_stack),
    ensures
        ({
            let after = machine_at_entry(block).run(
                schedule(block)->Ok_0.ops,
                signatures(block.statements, block.statements.len() as int),
            );
            &&& after is Some
            &&& after->0.stack.len() == 0
            &&& after->0.calls == meaning(block).calls
            &&& forall|p: nat|
                #![trigger after->0.memory.dom().contains(p)]
                #![trigger after->0.memory[p]]
                p < block.end_stack.len() ==> after->0.memory.dom().contains(p)
                    && after->0.memory[p] == meaning(block).env[NameView::Ident(
                    block.end_stack[p as int],
                )]
        }),
{
    let start = machine_at_entry(block);
    let sigs = signatures(block.statements, block.statements.len() as int);
    let s0 = Schedule { regs: initial_registers(block), ops: Seq::empty() };
    assert(start.stack =~= inputs(block.start_stack).take(block.start_stack.len() as int));
    lemma_ingest_runs(s0, start, sigs, block.start_stack, block.start_stack.len() as int);
    let ingested = s0.ingest(block.start_stack, block.start_stack.len() as int);
    lemma_statements_runs(ingested, start, at_entry(), block.statements, 0);
    let done = ingested.statements(block.statements, 0)->Ok_0;
    lemma_marshal_has_room(done, block.end_stack);
    assert(meaning(block) == at_entry().statements(block.statements, 0));
    let m = start.run(done.ops, sigs)->0;
    assert(placed(done.regs, m, meaning(block).env, block.end_stack, 0));
    lemma_marshal_runs(done, start, sigs, meaning(block).env, block.end_stack, 0);
}

/// A block whose end stack is empty is scheduled so that nothing is left
/// behind: the operations all run, the stack ends as the end stack asks,
/// which is empty, and every slot of the register file is released.
pub proof fn lemma_schedule_leaves_nothing(block: BlockView)
    requires
        schedule(block) is Ok,
        block.end_stack.len() == 0,
    ensures
        ({
            let after = machine_at_entry(block).run(
                schedule(block)->Ok_0.ops,
                signatures(block.statements, block.statements.len() as int),
            );
            &&& after is Some
            &&& after->0.stack == inputs(block.end_stack)
            &&& forall|i: int|
                0 <= i < schedule(block)->Ok_0.regs.slots.len() ==> (
                #[trigger] schedule(block)->Ok_0.regs.slots[i]) is None
        }),
{
    lemma_schedule_realises_block(block);
    lemma_counts_reach_zero(block);
    let after = machine_at_entry(block).run(
        schedule(block)->Ok_0.ops,
        signatures(block.statements, block.statements.len() as int),
    );
    assert(after->0.stack =~= inputs(block.end_stack));
}

} // verus!
