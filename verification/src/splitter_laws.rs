//! What holds of the blocks that the splitter gives out: they hand over to
//! one another, and no two functions have one name.

use vstd::prelude::*;
use crate::basic_block::BasicBlockView;
use crate::ir::{BlockView, ExprView, FunctionDefinitionView, StatementView};
use crate::splitter::{
    any_reserved, force_last_end, has_function, lower, lower_all, merge_functions, zeroed, Builder,
    FunctionBlocksView, COND, RET_ADDR,
};

verus! {

/// Whether a block that ends at the stack `end` hands over to one that
/// starts at the stack `start`: the stacks are the same, or the first has
/// the condition of a branch on top of the second.
pub open spec fn hands_over(end: Seq<Seq<char>>, start: Seq<Seq<char>>) -> bool {
    end == start || end == start.push(COND@)
}

/// Whether the stack is reached before block `k`: it is the stack at
/// entry, or one of the blocks before `k` hands over to it.
pub open spec fn reached(
    entry: Seq<Seq<char>>,
    blocks: Seq<BasicBlockView>,
    k: int,
    stack: Seq<Seq<char>>,
) -> bool {
    stack == entry || exists|j: int|
        0 <= j < k && j < blocks.len() && hands_over((#[trigger] blocks[j]).end_stack, stack)
}

/// Whether every block starts at a stack that is reached before it.
pub open spec fn chained(entry: Seq<Seq<char>>, blocks: Seq<BasicBlockView>) -> bool {
    forall|i: int|
        0 <= i < blocks.len() ==> reached(entry, blocks, i, (#[trigger] blocks[i]).start_stack)
}

/// Whether the blocks of every function are chained from the stack at
/// which the first of them starts.
pub open spec fn functions_chained(functions: Seq<FunctionBlocksView>) -> bool {
    forall|i: int|
        0 <= i < functions.len() && (#[trigger] functions[i]).blocks.len() > 0 ==> chained(
            functions[i].blocks[0].start_stack,
            functions[i].blocks,
        )
}

/// Whether the statement ends the run of statements that it stands in:
/// `leave`, `break`, `continue`, or a block whose last statement does.
pub open spec fn closes(s: StatementView) -> bool
    decreases s,
{
    match s {
        StatementView::Leave => true,
        StatementView::Break => true,
        StatementView::Continue => true,
        StatementView::Block(b) => b.0.len() > 0 && closes(b.0[b.0.len() - 1]),
        _ => false,
    }
}

/// Whether the last statement of the block ends the run of statements.
pub open spec fn ends_closed(b: BlockView) -> bool {
    b.0.len() > 0 && closes(b.0[b.0.len() - 1])
}

/// Whether the block holds no dead code: no statement follows one that
/// ends the run, here or in a nested block, and the setup of no loop ends
/// the run.
pub open spec fn orderly_block(b: BlockView) -> bool
    decreases b, 1nat,
{
    orderly_statements(b.0, 0)
}

/// Whether the statements from index `k` on hold no dead code.
pub open spec fn orderly_statements(stmts: Seq<StatementView>, k: int) -> bool
    decreases stmts, stmts.len() - k,
{
    if k < 0 || k >= stmts.len() {
        true
    } else {
        &&& orderly_statement(stmts[k])
        &&& k < stmts.len() - 1 ==> !closes(stmts[k])
        &&& orderly_statements(stmts, k + 1)
    }
}

/// Whether the statement holds no dead code.
pub open spec fn orderly_statement(s: StatementView) -> bool
    decreases s, 0nat,
{
    match s {
        StatementView::Block(b) => orderly_block(b),
        StatementView::FnDef(f) => orderly_block(f.body),
        StatementView::If { cond, body } => orderly_block(body),
        StatementView::ForLoop { setup, cond, on_iter, body } => {
            &&& orderly_block(setup)
            &&& !ends_closed(setup)
            &&& orderly_block(on_iter)
            &&& orderly_block(body)
        },
        _ => true,
    }
}

/// The builder holds the blocks of `before` and perhaps more behind them.
pub open spec fn grown(before: Seq<BasicBlockView>, after: Seq<BasicBlockView>) -> bool {
    &&& before.len() <= after.len()
    &&& forall|p: int| 0 <= p < before.len() ==> after[p] == before[p]
}

/// A stack that is reached stays reached where blocks are added.
pub proof fn lemma_reached_grows(
    entry: Seq<Seq<char>>,
    before: Seq<BasicBlockView>,
    after: Seq<BasicBlockView>,
    k: int,
    stack: Seq<Seq<char>>,
)
    requires
        grown(before, after),
        k <= before.len(),
        reached(entry, before, k, stack),
    ensures
        reached(entry, after, k, stack),
        reached(entry, after, after.len() as int, stack),
{
    if stack != entry {
        let j = choose|j: int|
            0 <= j < k && j < before.len() && hands_over((#[trigger] before[j]).end_stack, stack);
        assert(hands_over(after[j].end_stack, stack));
    }
}

/// Chained blocks stay chained with one more behind them that starts at
/// a stack that is reached.
pub proof fn lemma_chain_push(entry: Seq<Seq<char>>, blocks: Seq<BasicBlockView>, b: BasicBlockView)
    requires
        chained(entry, blocks),
        reached(entry, blocks, blocks.len() as int, b.start_stack),
    ensures
        chained(entry, blocks.push(b)),
        grown(blocks, blocks.push(b)),
        reached(entry, blocks.push(b), blocks.len() as int + 1, b.end_stack),
{
    let more = blocks.push(b);
    assert forall|i: int| 0 <= i < more.len() implies reached(
        entry,
        more,
        i,
        (#[trigger] more[i]).start_stack,
    ) by {
        if i < blocks.len() {
            assert(reached(entry, blocks, i, blocks[i].start_stack));
            lemma_reached_grows(entry, blocks, more, i, blocks[i].start_stack);
        } else {
            lemma_reached_grows(entry, blocks, more, blocks.len() as int, b.start_stack);
        }
    }
    assert(hands_over(more[blocks.len() as int].end_stack, b.end_stack));
}

/// Chained blocks stay chained with blocks behind them that are chained
/// from a stack that is reached.
pub proof fn lemma_chain_append(
    entry: Seq<Seq<char>>,
    blocks: Seq<BasicBlockView>,
    inner_entry: Seq<Seq<char>>,
    inner: Seq<BasicBlockView>,
)
    requires
        chained(entry, blocks),
        chained(inner_entry, inner),
        reached(entry, blocks, blocks.len() as int, inner_entry),
    ensures
        chained(entry, blocks + inner),
        grown(blocks, blocks + inner),
        forall|stack: Seq<Seq<char>>|
            reached(inner_entry, inner, inner.len() as int, stack) ==> reached(
                entry,
                blocks + inner,
                (blocks + inner).len() as int,
                stack,
            ),
{
    let all = blocks + inner;
    assert forall|stack: Seq<Seq<char>>, k: int|
        0 <= k <= inner.len() && reached(inner_entry, inner, k, stack) implies reached(
        entry,
        all,
        blocks.len() + k,
        stack,
    ) by {
        if stack == inner_entry {
            lemma_reached_grows(entry, blocks, all, blocks.len() as int, stack);
        } else {
            let j = choose|j: int|
                0 <= j < k && j < inner.len() && hands_over(
                    (#[trigger] inner[j]).end_stack,
                    stack,
                );
            assert(hands_over(all[blocks.len() + j].end_stack, stack));
        }
    }
    assert forall|i: int| 0 <= i < all.len() implies reached(
        entry,
        all,
        i,
        (#[trigger] all[i]).start_stack,
    ) by {
        if i < blocks.len() {
            assert(reached(entry, blocks, i, blocks[i].start_stack));
            lemma_reached_grows(entry, blocks, all, i, blocks[i].start_stack);
        } else {
            let p = i - blocks.len();
            assert(reached(inner_entry, inner, p, inner[p].start_stack));
        }
    }
}

/// Chained blocks stay chained where the last of them ends elsewhere.
pub proof fn lemma_chain_forced(entry: Seq<Seq<char>>, blocks: Seq<BasicBlockView>, end: Seq<Seq<char>>)
    requires
        chained(entry, blocks),
    ensures
        chained(entry, force_last_end(blocks, end)),
{
    let forced = force_last_end(blocks, end);
    assert forall|i: int| 0 <= i < forced.len() implies reached(
        entry,
        forced,
        i,
        (#[trigger] forced[i]).start_stack,
    ) by {
        assert(reached(entry, blocks, i, blocks[i].start_stack));
        if blocks[i].start_stack != entry {
            let j = choose|j: int|
                0 <= j < i && j < blocks.len() && hands_over(
                    (#[trigger] blocks[j]).end_stack,
                    blocks[i].start_stack,
                );
            assert(hands_over(forced[j].end_stack, forced[i].start_stack));
        }
    }
}

/// Functions that are merged without error are those of the first list
/// and behind them those of the second.
pub proof fn lemma_merged(
    functions: Seq<FunctionBlocksView>,
    more: Seq<FunctionBlocksView>,
    k: int,
)
    requires
        0 <= k <= more.len(),
        merge_functions(functions, more, k) is Ok,
        functions_chained(functions),
        functions_chained(more),
    ensures
        functions_chained(merge_functions(functions, more, k)->Ok_0),
    decreases more.len() - k,
{
    if k < more.len() {
        let added = functions.push(more[k]);
        assert forall|i: int|
            0 <= i < added.len() && (#[trigger] added[i]).blocks.len() > 0 implies chained(
            added[i].blocks[0].start_stack,
            added[i].blocks,
        ) by {
            if i < functions.len() {
                assert(functions[i].blocks.len() > 0);
            } else {
                assert(more[k].blocks.len() > 0);
            }
        }
        lemma_merged(added, more, k + 1);
    }
}

/// The builder stands at a stack that is reached: its blocks are chained
/// from the stack at entry, the block in flight starts at a stack that
/// is reached, and the blocks of its functions are chained.
pub open spec fn open_at(b: Builder, entry: Seq<Seq<char>>) -> bool {
    &&& chained(entry, b.basic_blocks)
    &&& reached(entry, b.basic_blocks, b.basic_blocks.len() as int, b.start_stack)
    &&& functions_chained(b.functions)
}

/// What a walk leaves behind: chained blocks, with those from before the
/// walk first; and a block in flight that starts at a stack that is
/// reached, or, where the walk ended the run, that is empty.
pub open spec fn walked(before: Builder, after: Builder, entry: Seq<Seq<char>>, closed: bool) -> bool {
    &&& chained(entry, after.basic_blocks)
    &&& functions_chained(after.functions)
    &&& grown(before.basic_blocks, after.basic_blocks)
    &&& if closed {
        after.start_stack == after.current_stack && after.assignments.len() == 0
    } else {
        reached(entry, after.basic_blocks, after.basic_blocks.len() as int, after.start_stack)
    }
}

/// What joins a builder from a nested one keeps its blocks chained.
pub proof fn lemma_consume(b: Builder, entry: Seq<Seq<char>>, sub: Builder, inner_entry: Seq<Seq<char>>)
    requires
        open_at(b, entry),
        chained(inner_entry, sub.basic_blocks),
        functions_chained(sub.functions),
        reached(entry, b.basic_blocks, b.basic_blocks.len() as int, inner_entry),
        b.consume(sub) is Ok,
    ensures
        open_at(b.consume(sub)->Ok_0, entry),
        grown(b.basic_blocks, b.consume(sub)->Ok_0.basic_blocks),
        b.consume(sub)->Ok_0.start_stack == b.start_stack,
        forall|stack: Seq<Seq<char>>|
            reached(inner_entry, sub.basic_blocks, sub.basic_blocks.len() as int, stack)
                ==> reached(
                entry,
                b.consume(sub)->Ok_0.basic_blocks,
                b.consume(sub)->Ok_0.basic_blocks.len() as int,
                stack,
            ),
{
    lemma_chain_append(entry, b.basic_blocks, inner_entry, sub.basic_blocks);
    lemma_merged(b.functions, sub.functions, 0);
    lemma_reached_grows(
        entry,
        b.basic_blocks,
        b.basic_blocks + sub.basic_blocks,
        b.basic_blocks.len() as int,
        b.start_stack,
    );
}

/// A walk of a block without dead code keeps the blocks chained, and ends
/// at a stack that is reached unless the block ends the run.
pub proof fn lemma_block_chained(b: Builder, entry: Seq<Seq<char>>, blk: BlockView)
    requires
        open_at(b, entry),
        orderly_block(blk),
        b.block(blk) is Ok,
    ensures
        walked(b, b.block(blk)->Ok_0, entry, ends_closed(blk)),
        !ends_closed(blk) ==> reached(
            entry,
            b.block(blk)->Ok_0.basic_blocks,
            b.block(blk)->Ok_0.basic_blocks.len() as int,
            b.block(blk)->Ok_0.current_stack,
        ),
    decreases blk, 1nat,
{
    lemma_statements_chained(b, entry, blk.0, 0);
    let s = b.statements(blk.0, 0)->Ok_0;
    if !ends_closed(blk) {
        if s.start_stack != s.current_stack || s.assignments.len() > 0 {
            lemma_chain_push(entry, s.basic_blocks, s.in_flight(s.current_stack));
            lemma_reached_grows(
                entry,
                s.basic_blocks,
                s.emit(s.current_stack).basic_blocks,
                s.basic_blocks.len() as int,
                s.start_stack,
            );
        }
    }
}

/// A walk of statements without dead code keeps the blocks chained.
pub proof fn lemma_statements_chained(
    b: Builder,
    entry: Seq<Seq<char>>,
    stmts: Seq<StatementView>,
    k: int,
)
    requires
        0 <= k <= stmts.len(),
        open_at(b, entry),
        orderly_statements(stmts, k),
        b.statements(stmts, k) is Ok,
    ensures
        walked(
            b,
            b.statements(stmts, k)->Ok_0,
            entry,
            k < stmts.len() && closes(stmts[stmts.len() - 1]),
        ),
    decreases stmts, stmts.len() - k,
{
    if k < stmts.len() {
        lemma_statement_chained(b, entry, stmts[k]);
        let next = b.statement(stmts[k])->Ok_0;
        if k < stmts.len() - 1 {
            lemma_statements_chained(next, entry, stmts, k + 1);
        }
    }
}

/// A walk of a statement without dead code keeps the blocks chained.
pub proof fn lemma_statement_chained(b: Builder, entry: Seq<Seq<char>>, s: StatementView)
    requires
        open_at(b, entry),
        orderly_statement(s),
        b.statement(s) is Ok,
    ensures
        walked(b, b.statement(s)->Ok_0, entry, closes(s)),
    decreases s, 1nat,
{
    match s {
        StatementView::Block(inner) => {
            lemma_block_chained(b, entry, inner);
        },
        StatementView::FnDef(f) => {
            lemma_fn_def_chained(b, entry, f);
        },
        StatementView::Assignment { to, expr } => {},
        StatementView::If { .. } => {
            lemma_split_if_chained(b, entry, s);
        },
        StatementView::Switch { .. } => {},
        StatementView::ForLoop { .. } => {
            lemma_split_for_chained(b, entry, s);
        },
        StatementView::Leave => {
            lemma_chain_push(entry, b.basic_blocks, b.in_flight(b.fn_return->0));
        },
        StatementView::Break => {
            lemma_chain_push(entry, b.basic_blocks, b.in_flight(b.loop_revert_state->0));
        },
        StatementView::Continue => {
            lemma_chain_push(entry, b.basic_blocks, b.in_flight(b.loop_continue_state->0));
        },
    }
}

/// The blocks of a function without dead code are chained from the stack
/// at which the function starts.
pub proof fn lemma_fn_def_chained(b: Builder, entry: Seq<Seq<char>>, f: FunctionDefinitionView)
    requires
        open_at(b, entry),
        orderly_block(f.body),
        b.fn_def(f) is Ok,
    ensures
        walked(b, b.fn_def(f)->Ok_0, entry, false),
    decreases f, 0nat,
{
    let end = f.rets.push(RET_ADDR@);
    let start = (f.args + f.rets).push(RET_ADDR@);
    let inner = Builder { fn_return: Some(end), assignments: zeroed(f.rets), ..Builder::new(start) };
    lemma_block_chained(inner, start, f.body);
    let done = inner.block(f.body)->Ok_0;
    lemma_chain_forced(start, done.basic_blocks, end);
    let own = FunctionBlocksView { name: f.name, blocks: force_last_end(done.basic_blocks, end) };
    if own.blocks.len() > 0 {
        assert(reached(start, own.blocks, 0, own.blocks[0].start_stack));
    }
    let added = b.functions.push(own);
    assert forall|i: int|
        0 <= i < added.len() && (#[trigger] added[i]).blocks.len() > 0 implies chained(
        added[i].blocks[0].start_stack,
        added[i].blocks,
    ) by {
        if i < b.functions.len() {
            assert(b.functions[i].blocks.len() > 0);
        }
    }
    lemma_merged(added, done.functions, 0);
}

/// A conditional without dead code keeps the blocks chained: the block
/// that ends with the condition hands over to the body and to what
/// follows the conditional.
pub proof fn lemma_split_if_chained(b: Builder, entry: Seq<Seq<char>>, s: StatementView)
    requires
        open_at(b, entry),
        orderly_statement(s),
        s is If,
        b.split_if(s) is Ok,
    ensures
        walked(b, b.split_if(s)->Ok_0, entry, false),
    decreases s, 0nat,
{
    match s {
        StatementView::If { cond, body } => {
            let c = lower(cond)->Ok_0;
            let with_cond = b.assign_cond(c);
            let end = b.current_stack.push(COND@);
            lemma_chain_push(entry, b.basic_blocks, with_cond.in_flight(end));
            let branch = with_cond.emit_and_reset(end);
            assert(hands_over(branch.basic_blocks[b.basic_blocks.len() as int].end_stack, b.current_stack));
            assert(open_at(branch, entry));
            let sub_entry = branch.current_stack;
            lemma_block_chained(branch.derive(), sub_entry, body);
            let sub = branch.derive().block(body)->Ok_0;
            lemma_consume(branch, entry, sub, sub_entry);
        },
        _ => {},
    }
}

/// A loop without dead code keeps the blocks chained: the block before
/// the loop hands over to the setup, the setup to the body, the step and
/// the condition, and the block that leaves the loop to what follows it.
pub proof fn lemma_split_for_chained(b: Builder, entry: Seq<Seq<char>>, s: StatementView)
    requires
        open_at(b, entry),
        orderly_statement(s),
        s is ForLoop,
        b.split_for(s) is Ok,
    ensures
        walked(b, b.split_for(s)->Ok_0, entry, false),
    decreases s, 0nat,
{
    match s {
        StatementView::ForLoop { setup, cond, on_iter, body } => {
            lemma_chain_push(entry, b.basic_blocks, b.in_flight(b.current_stack));
            let pre = b.emit_and_reset(b.current_stack);
            assert(open_at(pre, entry));
            let before = pre.current_stack;
            lemma_block_chained(pre.derive(), before, setup);
            let set = pre.derive().block(setup)->Ok_0;
            let after = set.current_stack;
            let in_body = Builder {
                loop_revert_state: Some(set.start_stack),
                loop_continue_state: Some(set.current_stack),
                ..set.derive()
            };
            lemma_block_chained(in_body, after, body);
            let bod = in_body.block(body)->Ok_0;
            lemma_block_chained(set.derive(), after, on_iter);
            let step = set.derive().block(on_iter)->Ok_0;
            let c = lower(cond)->Ok_0;

            lemma_chain_forced(after, bod.basic_blocks, set.current_stack);
            let body_part = Builder {
                basic_blocks: force_last_end(bod.basic_blocks, set.current_stack),
                ..bod
            };
            lemma_chain_forced(after, step.basic_blocks, step.start_stack);
            let step_part = Builder {
                basic_blocks: force_last_end(step.basic_blocks, step.start_stack),
                ..step
            };
            let test = set.derive().assign(seq![COND@], c);
            let first = test.in_flight(test.start_stack.push(COND@));
            let second = BasicBlockView {
                start_stack: test.start_stack,
                assignments: Seq::empty(),
                end_stack: set.start_stack,
            };
            lemma_chain_push(after, test.basic_blocks, first);
            lemma_reached_grows(
                after,
                test.basic_blocks,
                test.basic_blocks.push(first),
                0,
                second.start_stack,
            );
            lemma_chain_push(after, test.basic_blocks.push(first), second);
            let cond_part = Builder { basic_blocks: test.basic_blocks.push(first).push(second), ..test };

            lemma_consume(pre, entry, set, before);
            let a1 = pre.consume(set)->Ok_0;
            lemma_consume(a1, entry, body_part, after);
            let a2 = a1.consume(body_part)->Ok_0;
            lemma_reached_grows(
                entry,
                a1.basic_blocks,
                a2.basic_blocks,
                a1.basic_blocks.len() as int,
                after,
            );
            lemma_consume(a2, entry, step_part, after);
            let a3 = a2.consume(step_part)->Ok_0;
            lemma_reached_grows(
                entry,
                a2.basic_blocks,
                a3.basic_blocks,
                a2.basic_blocks.len() as int,
                after,
            );
            lemma_consume(a3, entry, cond_part, after);
        },
        _ => {},
    }
}

/// The blocks of a program without dead code hand over to one another:
/// every block of the top-level code starts at the stack at entry or at a
/// stack at which an earlier block ends, with or without the condition
/// of a branch on top; and so does every block of every function, from
/// the stack at which the function's first block starts.
pub proof fn lemma_blocks_hand_over(start: Seq<Seq<char>>, code: BlockView)
    requires
        orderly_block(code),
        Builder::new(start).block(code) is Ok,
    ensures
        chained(start, Builder::new(start).block(code)->Ok_0.basic_blocks),
        functions_chained(Builder::new(start).block(code)->Ok_0.functions),
{
    lemma_block_chained(Builder::new(start), start, code);
}

/// Whether the expression holds no builtin call.
pub open spec fn lowers(e: ExprView) -> bool
    decreases e,
{
    match e {
        ExprView::Builtin { .. } => false,
        ExprView::Call { fn_name, args } => forall|i: int|
            0 <= i < args.len() ==> lowers(#[trigger] args[i]),
        _ => true,
    }
}

/// An expression is lowered exactly where it holds no builtin call.
pub proof fn lemma_lowers(e: ExprView)
    ensures
        lower(e) is Ok <==> lowers(e),
    decreases e, 1nat,
{
    match e {
        ExprView::Call { fn_name, args } => {
            lemma_lowers_all(args, 0, Seq::empty());
        },
        _ => {},
    }
}

/// Expressions are lowered exactly where they hold no builtin call.
pub proof fn lemma_lowers_all(args: Seq<ExprView>, k: int, acc: Seq<crate::basic_block::ExprView>)
    requires
        0 <= k <= args.len(),
    ensures
        lower_all(args, k, acc) is Ok <==> forall|i: int|
            k <= i < args.len() ==> lowers(#[trigger] args[i]),
    decreases args, args.len() - k,
{
    if k < args.len() {
        lemma_lowers(args[k]);
        if lower(args[k]) is Ok {
            lemma_lowers_all(args, k + 1, acc.push(lower(args[k])->Ok_0));
        }
    }
}

/// Where a statement stands: inside a function, inside the body of a
/// loop, or neither.
pub ghost struct Scope {
    pub in_function: bool,
    pub in_loop: bool,
}

/// Where the statements stand that the builder walks.
pub open spec fn scope_of(b: Builder) -> Scope {
    Scope { in_function: b.fn_return is Some, in_loop: b.loop_revert_state is Some }
}

/// Whether the block holds only what can be split where it stands.
pub open spec fn fits_block(scope: Scope, b: BlockView) -> bool
    decreases b, 1nat,
{
    fits_statements(scope, b.0, 0)
}

/// Whether the statements from index `k` on hold only what can be split
/// where they stand.
pub open spec fn fits_statements(scope: Scope, stmts: Seq<StatementView>, k: int) -> bool
    decreases stmts, stmts.len() - k,
{
    if k < 0 || k >= stmts.len() {
        true
    } else {
        fits_statement(scope, stmts[k]) && fits_statements(scope, stmts, k + 1)
    }
}

/// Whether the statement holds only what can be split where it stands:
/// no `switch` and no builtin call; no binding of a reserved name;
/// `leave` only inside a function; and `break` and `continue` only inside
/// the body of a loop of the same function.
pub open spec fn fits_statement(scope: Scope, s: StatementView) -> bool
    decreases s, 0nat,
{
    match s {
        StatementView::Block(b) => fits_block(scope, b),
        StatementView::FnDef(f) => {
            &&& !any_reserved(f.args)
            &&& !any_reserved(f.rets)
            &&& fits_block(Scope { in_function: true, in_loop: false }, f.body)
        },
        StatementView::Assignment { to, expr } => !any_reserved(to) && lowers(expr),
        StatementView::If { cond, body } => lowers(cond) && fits_block(scope, body),
        StatementView::Switch { .. } => false,
        StatementView::ForLoop { setup, cond, on_iter, body } => {
            &&& fits_block(scope, setup)
            &&& fits_block(Scope { in_loop: true, ..scope }, body)
            &&& fits_block(scope, on_iter)
            &&& lowers(cond)
        },
        StatementView::Leave => scope.in_function,
        StatementView::Break => scope.in_loop,
        StatementView::Continue => scope.in_loop,
    }
}

/// The names of the functions that the block defines, nested ones
/// included, in the order in which the splitter gives them out.
pub open spec fn defined_functions(b: BlockView) -> Seq<Seq<char>>
    decreases b, 1nat,
{
    defined_from(b.0, 0)
}

/// The names of the functions that the statements from index `k` on
/// define.
pub open spec fn defined_from(stmts: Seq<StatementView>, k: int) -> Seq<Seq<char>>
    decreases stmts, stmts.len() - k,
{
    if k < 0 || k >= stmts.len() {
        Seq::empty()
    } else {
        defined_by(stmts[k]) + defined_from(stmts, k + 1)
    }
}

/// The names of the functions that the statement defines.
pub open spec fn defined_by(s: StatementView) -> Seq<Seq<char>>
    decreases s, 0nat,
{
    match s {
        StatementView::Block(b) => defined_functions(b),
        StatementView::FnDef(f) => seq![f.name] + defined_functions(f.body),
        StatementView::If { cond, body } => defined_functions(body),
        StatementView::ForLoop { setup, cond, on_iter, body } => defined_functions(setup)
            + defined_functions(body) + defined_functions(on_iter),
        _ => Seq::empty(),
    }
}

/// The names of a list of functions.
pub open spec fn names_of(functions: Seq<FunctionBlocksView>) -> Seq<Seq<char>> {
    Seq::new(functions.len(), |i: int| functions[i].name)
}

/// Whether no name stands twice in the list.
pub open spec fn all_differ(names: Seq<Seq<char>>) -> bool {
    forall|i: int, j: int| 0 <= i < j < names.len() ==> names[i] != names[j]
}

/// Names that all differ still do where only the first of them are
/// taken.
pub proof fn lemma_front_differs(a: Seq<Seq<char>>, b: Seq<Seq<char>>)
    requires
        all_differ(a + b),
    ensures
        all_differ(a),
        all_differ(b),
{
    assert forall|i: int, j: int| 0 <= i < j < a.len() implies a[i] != a[j] by {
        assert((a + b)[i] == a[i] && (a + b)[j] == a[j]);
    }
    assert forall|i: int, j: int| 0 <= i < j < b.len() implies b[i] != b[j] by {
        assert((a + b)[a.len() + i] == b[i] && (a + b)[a.len() + j] == b[j]);
    }
}

/// Functions are merged without error exactly where the names of those
/// merged so far and those still to merge all differ; the functions are
/// then those of both lists.
pub proof fn lemma_merge_succeeds(
    functions: Seq<FunctionBlocksView>,
    more: Seq<FunctionBlocksView>,
    k: int,
)
    requires
        0 <= k <= more.len(),
        all_differ(names_of(functions)),
    ensures
        merge_functions(functions, more, k) is Ok <==> all_differ(
            names_of(functions) + names_of(more).skip(k),
        ),
        merge_functions(functions, more, k) is Ok ==> names_of(
            merge_functions(functions, more, k)->Ok_0,
        ) == names_of(functions) + names_of(more).skip(k),
    decreases more.len() - k,
{
    let taken = names_of(functions);
    let rest = names_of(more).skip(k);
    if k < more.len() {
        let added = functions.push(more[k]);
        assert(names_of(added) =~= taken.push(more[k].name));
        assert(taken + rest =~= names_of(added) + names_of(more).skip(k + 1));
        if has_function(functions, more[k].name) {
            let i = choose|i: int|
                0 <= i < functions.len() && (#[trigger] functions[i]).name == more[k].name;
            assert((taken + rest)[i] == (taken + rest)[taken.len() as int]);
        } else {
            assert(all_differ(names_of(added))) by {
                assert forall|i: int, j: int| 0 <= i < j < names_of(added).len() implies names_of(
                    added,
                )[i] != names_of(added)[j] by {
                    if j == functions.len() {
                        assert(functions[i].name != more[k].name);
                    } else {
                        assert(taken[i] != taken[j]);
                    }
                }
            }
            lemma_merge_succeeds(added, more, k + 1);
        }
    } else {
        assert(taken + rest =~= taken);
    }
}

/// What a walk that succeeds does to the functions: it puts those that
/// it defines behind the others, and leaves the scope as it is.
pub open spec fn collected(before: Builder, after: Builder, defined: Seq<Seq<char>>) -> bool {
    &&& names_of(after.functions) == names_of(before.functions) + defined
    &&& after.fn_return == before.fn_return
    &&& after.loop_revert_state == before.loop_revert_state
    &&& after.loop_continue_state == before.loop_continue_state
}

/// Whether `break` and `continue` have a loop together or not at all,
/// as in every builder that the splitter makes.
pub open spec fn loop_known(b: Builder) -> bool {
    b.loop_revert_state is Some <==> b.loop_continue_state is Some
}

/// When a block is split: exactly where it holds only what can be split
/// where it stands and the names of the functions, those from before and
/// those that it defines, all differ.
pub proof fn lemma_block_splits(b: Builder, blk: BlockView)
    requires
        all_differ(names_of(b.functions)),
        loop_known(b),
    ensures
        b.block(blk) is Ok <==> fits_block(scope_of(b), blk) && all_differ(
            names_of(b.functions) + defined_functions(blk),
        ),
        b.block(blk) is Ok ==> collected(b, b.block(blk)->Ok_0, defined_functions(blk)),
    decreases blk, 1nat,
{
    lemma_statements_split(b, blk.0, 0);
}

/// When statements are split.
pub proof fn lemma_statements_split(b: Builder, stmts: Seq<StatementView>, k: int)
    requires
        0 <= k <= stmts.len(),
        all_differ(names_of(b.functions)),
        loop_known(b),
    ensures
        b.statements(stmts, k) is Ok <==> fits_statements(scope_of(b), stmts, k) && all_differ(
            names_of(b.functions) + defined_from(stmts, k),
        ),
        b.statements(stmts, k) is Ok ==> collected(
            b,
            b.statements(stmts, k)->Ok_0,
            defined_from(stmts, k),
        ),
    decreases stmts, stmts.len() - k,
{
    let taken = names_of(b.functions);
    if k < stmts.len() {
        lemma_statement_splits(b, stmts[k]);
        let first = defined_by(stmts[k]);
        let rest = defined_from(stmts, k + 1);
        assert(taken + defined_from(stmts, k) =~= (taken + first) + rest);
        if all_differ(taken + defined_from(stmts, k)) {
            lemma_front_differs(taken + first, rest);
        }
        if b.statement(stmts[k]) is Ok {
            let next = b.statement(stmts[k])->Ok_0;
            lemma_front_differs(taken, first);
            lemma_statements_split(next, stmts, k + 1);
        }
    } else {
        assert(taken + defined_from(stmts, k) =~= taken);
    }
}

/// What joins a builder from a nested one that has split a block: its
/// functions are merged exactly where their names differ from those of
/// the builder.
pub proof fn lemma_nested_splits(b: Builder, sub: Builder, blk: BlockView)
    requires
        all_differ(names_of(b.functions)),
        sub.functions.len() == 0,
        sub.block(blk) is Ok,
        collected(sub, sub.block(blk)->Ok_0, defined_functions(blk)),
    ensures
        b.consume(sub.block(blk)->Ok_0) is Ok <==> all_differ(
            names_of(b.functions) + defined_functions(blk),
        ),
        b.consume(sub.block(blk)->Ok_0) is Ok ==> names_of(
            b.consume(sub.block(blk)->Ok_0)->Ok_0.functions,
        ) == names_of(b.functions) + defined_functions(blk),
{
    let done = sub.block(blk)->Ok_0;
    lemma_merge_succeeds(b.functions, done.functions, 0);
    assert(names_of(sub.functions) + defined_functions(blk) =~= defined_functions(blk));
    assert(names_of(done.functions).skip(0) =~= names_of(done.functions));
}

/// When a statement is split.
pub proof fn lemma_statement_splits(b: Builder, s: StatementView)
    requires
        all_differ(names_of(b.functions)),
        loop_known(b),
    ensures
        b.statement(s) is Ok <==> fits_statement(scope_of(b), s) && all_differ(
            names_of(b.functions) + defined_by(s),
        ),
        b.statement(s) is Ok ==> collected(b, b.statement(s)->Ok_0, defined_by(s)),
    decreases s, 1nat,
{
    let taken = names_of(b.functions);
    match s {
        StatementView::Block(inner) => {
            lemma_block_splits(b, inner);
        },
        StatementView::FnDef(f) => {
            let end = f.rets.push(RET_ADDR@);
            let start = (f.args + f.rets).push(RET_ADDR@);
            let inner = Builder {
                fn_return: Some(end),
                assignments: zeroed(f.rets),
                ..Builder::new(start)
            };
            let nested = defined_functions(f.body);
            assert(names_of(inner.functions) =~= Seq::empty());
            assert(names_of(inner.functions) + nested =~= nested);
            lemma_block_splits(inner, f.body);
            assert(taken + defined_by(s) =~= taken.push(f.name) + nested);
            if all_differ(taken + defined_by(s)) {
                lemma_front_differs(taken.push(f.name), nested);
            }
            if !any_reserved(f.args) && !any_reserved(f.rets) && inner.block(f.body) is Ok {
                let done = inner.block(f.body)->Ok_0;
                let own = FunctionBlocksView {
                    name: f.name,
                    blocks: force_last_end(done.basic_blocks, end),
                };
                let added = b.functions.push(own);
                assert(names_of(added) =~= taken.push(f.name));
                if has_function(b.functions, f.name) {
                    let i = choose|i: int|
                        0 <= i < b.functions.len() && (#[trigger] b.functions[i]).name == f.name;
                    assert(taken.push(f.name)[i] == taken.push(f.name)[taken.len() as int]);
                } else {
                    assert(all_differ(names_of(added))) by {
                        assert forall|i: int, j: int|
                            0 <= i < j < names_of(added).len() implies names_of(added)[i]
                            != names_of(added)[j] by {
                            if j == b.functions.len() {
                                assert(b.functions[i].name != f.name);
                            } else {
                                assert(taken[i] != taken[j]);
                            }
                        }
                    }
                    lemma_merge_succeeds(added, done.functions, 0);
                    assert(names_of(done.functions).skip(0) =~= names_of(done.functions));
                }
            }
        },
        StatementView::Assignment { to, expr } => {
            lemma_lowers(expr);
            assert(taken + defined_by(s) =~= taken);
        },
        StatementView::If { cond, body } => {
            lemma_lowers(cond);
            if lower(cond) is Ok {
                let c = lower(cond)->Ok_0;
                let branch = b.assign_cond(c).emit_and_reset(b.current_stack.push(COND@));
                let sub = branch.derive();
                assert(names_of(sub.functions) =~= Seq::empty());
                assert(names_of(sub.functions) + defined_functions(body) =~= defined_functions(
                    body,
                ));
                lemma_block_splits(sub, body);
                if all_differ(taken + defined_by(s)) {
                    lemma_front_differs(taken, defined_functions(body));
                }
                if sub.block(body) is Ok {
                    lemma_nested_splits(branch, sub, body);
                }
            }
        },
        StatementView::Switch { .. } => {},
        StatementView::ForLoop { setup, cond, on_iter, body } => {
            lemma_for_splits(b, s);
        },
        StatementView::Leave => {
            assert(taken + defined_by(s) =~= taken);
        },
        StatementView::Break => {
            assert(taken + defined_by(s) =~= taken);
        },
        StatementView::Continue => {
            assert(taken + defined_by(s) =~= taken);
        },
    }
}

/// When a loop is split.
pub proof fn lemma_for_splits(b: Builder, s: StatementView)
    requires
        s is ForLoop,
        all_differ(names_of(b.functions)),
        loop_known(b),
    ensures
        b.split_for(s) is Ok <==> fits_statement(scope_of(b), s) && all_differ(
            names_of(b.functions) + defined_by(s),
        ),
        b.split_for(s) is Ok ==> collected(b, b.split_for(s)->Ok_0, defined_by(s)),
    decreases s, 0nat,
{
    let taken = names_of(b.functions);
    match s {
        StatementView::ForLoop { setup, cond, on_iter, body } => {
            let in_setup = defined_functions(setup);
            let in_body = defined_functions(body);
            let in_step = defined_functions(on_iter);
            assert(taken + defined_by(s) =~= ((taken + in_setup) + in_body) + in_step);
            if all_differ(taken + defined_by(s)) {
                lemma_front_differs((taken + in_setup) + in_body, in_step);
                lemma_front_differs(taken + in_setup, in_body);
                lemma_front_differs(taken, in_setup);
            }
            lemma_lowers(cond);
            let pre = b.emit_and_reset(b.current_stack);
            let first = pre.derive();
            assert(names_of(first.functions) =~= Seq::empty());
            assert(names_of(first.functions) + in_setup =~= in_setup);
            lemma_block_splits(first, setup);
            if first.block(setup) is Ok {
                let set = first.block(setup)->Ok_0;
                let second = Builder {
                    loop_revert_state: Some(set.start_stack),
                    loop_continue_state: Some(set.current_stack),
                    ..set.derive()
                };
                assert(names_of(second.functions) =~= Seq::empty());
                assert(names_of(second.functions) + in_body =~= in_body);
                lemma_block_splits(second, body);
                if second.block(body) is Ok {
                    let bod = second.block(body)->Ok_0;
                    let third = set.derive();
                    assert(names_of(third.functions) =~= Seq::empty());
                    assert(names_of(third.functions) + in_step =~= in_step);
                    lemma_block_splits(third, on_iter);
                    if third.block(on_iter) is Ok && lower(cond) is Ok {
                        let step = third.block(on_iter)->Ok_0;
                        let c = lower(cond)->Ok_0;
                        let body_part = Builder {
                            basic_blocks: force_last_end(bod.basic_blocks, set.current_stack),
                            ..bod
                        };
                        let step_part = Builder {
                            basic_blocks: force_last_end(step.basic_blocks, step.start_stack),
                            ..step
                        };
                        let test = set.derive().assign(seq![COND@], c);
                        let cond_part = Builder {
                            basic_blocks: test.basic_blocks.push(
                                test.in_flight(test.start_stack.push(COND@)),
                            ).push(
                                BasicBlockView {
                                    start_stack: test.start_stack,
                                    assignments: Seq::empty(),
                                    end_stack: set.start_stack,
                                },
                            ),
                            ..test
                        };
                        assert(names_of(set.functions) =~= in_setup);
                        assert(names_of(bod.functions) =~= in_body);
                        assert(names_of(step.functions) =~= in_step);
                        assert(names_of(test.functions) =~= Seq::empty());
                        lemma_merge_succeeds(pre.functions, set.functions, 0);
                        assert(names_of(set.functions).skip(0) =~= in_setup);
                        if pre.consume(set) is Ok {
                            let a1 = pre.consume(set)->Ok_0;
                            lemma_merge_succeeds(a1.functions, body_part.functions, 0);
                            assert(names_of(body_part.functions).skip(0) =~= in_body);
                            if a1.consume(body_part) is Ok {
                                let a2 = a1.consume(body_part)->Ok_0;
                                lemma_merge_succeeds(a2.functions, step_part.functions, 0);
                                assert(names_of(step_part.functions).skip(0) =~= in_step);
                                if a2.consume(step_part) is Ok {
                                    let a3 = a2.consume(step_part)->Ok_0;
                                    lemma_merge_succeeds(a3.functions, cond_part.functions, 0);
                                    assert(names_of(cond_part.functions).skip(0) =~= Seq::<
                                        Seq<char>,
                                    >::empty());
                                    assert(names_of(a3.functions) + Seq::<Seq<char>>::empty()
                                        =~= names_of(a3.functions));
                                }
                            }
                        }
                    }
                }
            }
        },
        _ => {},
    }
}

/// When a program is split. The splitter gives out the blocks of a
/// program exactly where the program holds no `switch` and no builtin
/// call, binds no reserved name, has `leave` only inside functions and
/// `break` and `continue` only inside the bodies of loops, and defines no
/// two functions of one name.
pub proof fn lemma_split_succeeds(start: Seq<Seq<char>>, code: BlockView)
    ensures
        Builder::new(start).block(code) is Ok <==> fits_block(
            Scope { in_function: false, in_loop: false },
            code,
        ) && all_differ(defined_functions(code)),
{
    let b = Builder::new(start);
    assert(names_of(b.functions) =~= Seq::empty());
    assert(names_of(b.functions) + defined_functions(code) =~= defined_functions(code));
    lemma_block_splits(b, code);
}

/// No two functions that the splitter gives out have one name, and
/// their names are those of the functions that the program defines.
pub proof fn lemma_function_names_differ(start: Seq<Seq<char>>, code: BlockView)
    requires
        Builder::new(start).block(code) is Ok,
    ensures
        all_differ(names_of(Builder::new(start).block(code)->Ok_0.functions)),
        names_of(Builder::new(start).block(code)->Ok_0.functions) == defined_functions(code),
{
    let b = Builder::new(start);
    assert(names_of(b.functions) =~= Seq::empty());
    assert(names_of(b.functions) + defined_functions(code) =~= defined_functions(code));
    lemma_block_splits(b, code);
}

} // verus!
