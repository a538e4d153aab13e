//! The control-flow splitter: from structured code to basic blocks, each
//! with the stack layout at which it starts and at which it ends.

use vstd::prelude::*;
use crate::basic_block::{
    assignments_view, clone_assignments, exprs_view, Assignment, AssignmentView, BasicBlock,
    BasicBlockView, Expr, ExprView,
};
use crate::ir::{clone_names, texts, zero_word};
use crate::splitter_laws::{
    all_differ, defined_functions, fits_block, lemma_block_splits, lemma_merge_succeeds, loop_known,
    names_of, scope_of,
};
use crate::text::same_text;

verus! {

/// The name under which a function's return address stands on the stack.
pub const RET_ADDR: &'static str = "__ret_addr__";

/// The name under which the condition of a branch stands on the stack.
pub const COND: &'static str = "__cond__";

/// Why a program unit cannot be split into basic blocks.
#[derive(Clone, Copy, Debug, PartialEq, Eq, Structural)]
pub enum SplitError {
    /// `break` outside a loop.
    BreakOutsideLoop,
    /// `continue` outside a loop.
    ContinueOutsideLoop,
    /// `leave` outside a function.
    LeaveOutsideFunction,
    /// Two functions of one name.
    DuplicateFunction,
    /// A construct that cannot be lowered: `switch`, or a builtin call.
    Unsupported,
    /// The program binds one of the reserved names.
    NameCollision,
}

/// The basic blocks of one function.
#[derive(Debug, PartialEq, Eq)]
pub struct FunctionBlocks {
    pub name: String,
    pub blocks: Vec<BasicBlock>,
}

/// The mathematical value of a `FunctionBlocks`.
pub ghost struct FunctionBlocksView {
    pub name: Seq<char>,
    pub blocks: Seq<BasicBlockView>,
}

/// The values of a list of basic blocks.
pub open spec fn blocks_view(v: Seq<BasicBlock>) -> Seq<BasicBlockView> {
    Seq::new(v.len(), |i: int| v[i]@)
}

impl View for FunctionBlocks {
    type V = FunctionBlocksView;

    open spec fn view(&self) -> FunctionBlocksView {
        FunctionBlocksView { name: self.name@, blocks: blocks_view(self.blocks@) }
    }
}

/// The values of a list of functions.
pub open spec fn functions_view(v: Seq<FunctionBlocks>) -> Seq<FunctionBlocksView> {
    Seq::new(v.len(), |i: int| v[i]@)
}

/// The texts of a stack layout that may be absent.
pub open spec fn layout_view(v: Option<Vec<String>>) -> Option<Seq<Seq<char>>> {
    match v {
        Some(names) => Some(texts(names@)),
        None => None,
    }
}

/// Whether `name` is one of the two reserved names.
pub open spec fn reserved(name: Seq<char>) -> bool {
    name == RET_ADDR@ || name == COND@
}

/// Whether one of `names` is reserved.
pub open spec fn any_reserved(names: Seq<Seq<char>>) -> bool {
    exists|i: int| 0 <= i < names.len() && reserved(#[trigger] names[i])
}

/// The expression of a basic block that stands for an expression of the
/// structured representation. A builtin call has none.
pub open spec fn lower(e: crate::ir::ExprView) -> Result<ExprView, SplitError>
    decreases e, 0nat,
{
    match e {
        crate::ir::ExprView::VarRef(n) => Ok(ExprView::Refr(n)),
        crate::ir::ExprView::Literal(l) => Ok(ExprView::Literal(l)),
        crate::ir::ExprView::Builtin { .. } => Err(SplitError::Unsupported),
        crate::ir::ExprView::Call { fn_name, args } => match lower_all(args, 0, Seq::empty()) {
            Ok(lowered) => Ok(ExprView::Call { fn_name, args: lowered }),
            Err(e) => Err(e),
        },
    }
}

/// `acc`, and behind it the expressions that stand for `args` from index
/// `k` on.
pub open spec fn lower_all(args: Seq<crate::ir::ExprView>, k: int, acc: Seq<ExprView>) -> Result<
    Seq<ExprView>,
    SplitError,
>
    decreases args, args.len() - k,
{
    if k < 0 || k >= args.len() {
        Ok(acc)
    } else {
        match lower(args[k]) {
            Ok(x) => lower_all(args, k + 1, acc.push(x)),
            Err(e) => Err(e),
        }
    }
}

/// `stack`, and behind it those of `to` from index `k` on that it does not
/// hold yet.
pub open spec fn extended(stack: Seq<Seq<char>>, to: Seq<Seq<char>>, k: int) -> Seq<Seq<char>>
    decreases to.len() - k,
{
    if k < 0 || k >= to.len() {
        stack
    } else if stack.contains(to[k]) {
        extended(stack, to, k + 1)
    } else {
        extended(stack.push(to[k]), to, k + 1)
    }
}

/// One assignment of the zero word to each of `rets`.
pub open spec fn zeroed(rets: Seq<Seq<char>>) -> Seq<AssignmentView> {
    Seq::new(
        rets.len(),
        |i: int|
            AssignmentView { to_idents: seq![rets[i]], expr: ExprView::Literal(zero_word()) },
    )
}

/// Whether a function of this name is among `functions`.
pub open spec fn has_function(functions: Seq<FunctionBlocksView>, name: Seq<char>) -> bool {
    exists|i: int| 0 <= i < functions.len() && (#[trigger] functions[i]).name == name
}

/// `functions` with `f` behind them; a second function of one name is an
/// error.
pub open spec fn add_function(functions: Seq<FunctionBlocksView>, f: FunctionBlocksView) -> Result<
    Seq<FunctionBlocksView>,
    SplitError,
> {
    if has_function(functions, f.name) {
        Err(SplitError::DuplicateFunction)
    } else {
        Ok(functions.push(f))
    }
}

/// `functions` with those of `more` from index `k` on behind them.
pub open spec fn merge_functions(
    functions: Seq<FunctionBlocksView>,
    more: Seq<FunctionBlocksView>,
    k: int,
) -> Result<Seq<FunctionBlocksView>, SplitError>
    decreases more.len() - k,
{
    if k < 0 || k >= more.len() {
        Ok(functions)
    } else {
        match add_function(functions, more[k]) {
            Ok(added) => merge_functions(added, more, k + 1),
            Err(e) => Err(e),
        }
    }
}

/// `blocks` with the end stack of the last block replaced by `end`; an
/// empty list stays empty.
pub open spec fn force_last_end(blocks: Seq<BasicBlockView>, end: Seq<Seq<char>>) -> Seq<
    BasicBlockView,
> {
    if blocks.len() == 0 {
        blocks
    } else {
        blocks.update(blocks.len() - 1, BasicBlockView { end_stack: end, ..blocks.last() })
    }
}

/// The state of the splitter while it walks a block.
pub ghost struct Builder {
    pub start_stack: Seq<Seq<char>>,
    pub current_stack: Seq<Seq<char>>,
    pub assignments: Seq<AssignmentView>,
    pub functions: Seq<FunctionBlocksView>,
    pub basic_blocks: Seq<BasicBlockView>,
    pub loop_revert_state: Option<Seq<Seq<char>>>,
    pub loop_continue_state: Option<Seq<Seq<char>>>,
    pub fn_return: Option<Seq<Seq<char>>>,
}

impl Builder {
    /// A builder at the start of a scope whose stack is `start`.
    pub open spec fn new(start: Seq<Seq<char>>) -> Builder {
        Builder {
            start_stack: start,
            current_stack: start,
            assignments: Seq::empty(),
            functions: Seq::empty(),
            basic_blocks: Seq::empty(),
            loop_revert_state: None,
            loop_continue_state: None,
            fn_return: None,
        }
    }

    /// A builder for a nested scope: it starts at the current stack, knows
    /// the enclosing loop and function, and holds no block or function.
    pub open spec fn derive(self) -> Builder {
        Builder {
            start_stack: self.current_stack,
            current_stack: self.current_stack,
            assignments: Seq::empty(),
            functions: Seq::empty(),
            basic_blocks: Seq::empty(),
            loop_revert_state: self.loop_revert_state,
            loop_continue_state: self.loop_continue_state,
            fn_return: self.fn_return,
        }
    }

    /// The block in flight, ending at `end`.
    pub open spec fn in_flight(self, end: Seq<Seq<char>>) -> BasicBlockView {
        BasicBlockView {
            start_stack: self.start_stack,
            assignments: self.assignments,
            end_stack: end,
        }
    }

    /// The block in flight is emitted with end stack `end`; the builder
    /// keeps its stacks and assignments.
    pub open spec fn emit(self, end: Seq<Seq<char>>) -> Builder {
        Builder { basic_blocks: self.basic_blocks.push(self.in_flight(end)), ..self }
    }

    /// The block in flight is emitted with end stack `end`, and the next
    /// block starts at the current stack with no assignment.
    pub open spec fn emit_and_reset(self, end: Seq<Seq<char>>) -> Builder {
        Builder {
            basic_blocks: self.basic_blocks.push(self.in_flight(end)),
            start_stack: self.current_stack,
            assignments: Seq::empty(),
            ..self
        }
    }

    /// An assignment joins the block in flight, and its destinations the
    /// current stack, as far as they are new to it.
    pub open spec fn assign(self, to: Seq<Seq<char>>, expr: ExprView) -> Builder {
        Builder {
            current_stack: extended(self.current_stack, to, 0),
            assignments: self.assignments.push(AssignmentView { to_idents: to, expr }),
            ..self
        }
    }

    /// The blocks and functions of a nested builder join this one's.
    pub open spec fn consume(self, sub: Builder) -> Result<Builder, SplitError> {
        match merge_functions(self.functions, sub.functions, 0) {
            Ok(functions) => Ok(
                Builder { basic_blocks: self.basic_blocks + sub.basic_blocks, functions, ..self },
            ),
            Err(e) => Err(e),
        }
    }

    /// Walk a block: its statements in order, and at its end one more
    /// block where the stack has changed or assignments are pending.
    pub open spec fn block(self, b: crate::ir::BlockView) -> Result<Builder, SplitError>
        decreases b, 1nat,
    {
        match self.statements(b.0, 0) {
            Err(e) => Err(e),
            Ok(s) => if s.start_stack != s.current_stack || s.assignments.len() > 0 {
                Ok(s.emit(s.current_stack))
            } else {
                Ok(s)
            },
        }
    }

    /// Walk the statements from index `k` on.
    pub open spec fn statements(self, stmts: Seq<crate::ir::StatementView>, k: int) -> Result<
        Builder,
        SplitError,
    >
        decreases stmts, stmts.len() - k,
    {
        if k < 0 || k >= stmts.len() {
            Ok(self)
        } else {
            match self.statement(stmts[k]) {
                Ok(next) => next.statements(stmts, k + 1),
                Err(e) => Err(e),
            }
        }
    }

    /// Walk one statement.
    pub open spec fn statement(self, s: crate::ir::StatementView) -> Result<Builder, SplitError>
        decreases s, 1nat,
    {
        match s {
            crate::ir::StatementView::Block(inner) => self.block(inner),
            crate::ir::StatementView::FnDef(f) => self.fn_def(f),
            crate::ir::StatementView::Assignment { to, expr } => {
                if any_reserved(to) {
                    Err(SplitError::NameCollision)
                } else {
                    match lower(expr) {
                        Ok(x) => Ok(self.assign(to, x)),
                        Err(e) => Err(e),
                    }
                }
            },
            crate::ir::StatementView::If { .. } => self.split_if(s),
            crate::ir::StatementView::Switch { .. } => Err(SplitError::Unsupported),
            crate::ir::StatementView::ForLoop { .. } => self.split_for(s),
            crate::ir::StatementView::Leave => match self.fn_return {
                Some(end) => Ok(self.emit_and_reset(end)),
                None => Err(SplitError::LeaveOutsideFunction),
            },
            crate::ir::StatementView::Break => match self.loop_revert_state {
                Some(end) => Ok(self.emit_and_reset(end)),
                None => Err(SplitError::BreakOutsideLoop),
            },
            crate::ir::StatementView::Continue => match self.loop_continue_state {
                Some(end) => Ok(self.emit_and_reset(end)),
                None => Err(SplitError::ContinueOutsideLoop),
            },
        }
    }

    /// A function definition: its blocks are made by a fresh builder that
    /// starts with the parameters, the results and the return address on
    /// the stack and with each result set to zero; its last block ends at
    /// the results and the return address. The builder in flight keeps its
    /// stacks and assignments.
    pub open spec fn fn_def(self, f: crate::ir::FunctionDefinitionView) -> Result<
        Builder,
        SplitError,
    >
        decreases f, 0nat,
    {
        if any_reserved(f.args) || any_reserved(f.rets) {
            Err(SplitError::NameCollision)
        } else {
            let end = f.rets.push(RET_ADDR@);
            let inner = Builder {
                fn_return: Some(end),
                assignments: zeroed(f.rets),
                ..Builder::new((f.args + f.rets).push(RET_ADDR@))
            };
            match inner.block(f.body) {
                Err(e) => Err(e),
                Ok(done) => {
                    let own = FunctionBlocksView {
                        name: f.name,
                        blocks: force_last_end(done.basic_blocks, end),
                    };
                    match add_function(self.functions, own) {
                        Err(e) => Err(e),
                        Ok(added) => match merge_functions(added, done.functions, 0) {
                            Err(e) => Err(e),
                            Ok(functions) => Ok(Builder { functions, ..self }),
                        },
                    }
                },
            }
        }
    }

    /// A conditional: the block in flight ends with the condition, bound
    /// to the reserved name, on top of the current stack; the blocks of
    /// the body follow, and the next block starts at the current stack.
    pub open spec fn split_if(self, s: crate::ir::StatementView) -> Result<Builder, SplitError>
        decreases s, 0nat,
    {
        match s {
            crate::ir::StatementView::If { cond, body } => match lower(cond) {
                Err(e) => Err(e),
                Ok(c) => {
                    let branch = self.assign_cond(c).emit_and_reset(
                        self.current_stack.push(COND@),
                    );
                    match branch.derive().block(body) {
                        Err(e) => Err(e),
                        Ok(sub) => branch.consume(sub),
                    }
                },
            },
            _ => Ok(self),
        }
    }

    /// The condition joins the block in flight, bound to the reserved name.
    pub open spec fn assign_cond(self, c: ExprView) -> Builder {
        Builder {
            assignments: self.assignments.push(AssignmentView { to_idents: seq![COND@], expr: c }),
            ..self
        }
    }

    /// A loop. The block in flight ends at the current stack. Then follow
    /// the blocks of the setup; those of the body, the last of which ends
    /// at the stack after the setup; those of the step, the last of which
    /// ends where the step started; the block of the condition, which ends
    /// with the condition on top of the stack after the setup; and an
    /// empty block that leaves the loop for the stack before it. Inside
    /// the body `break` ends a block at the stack with which the setup
    /// started, and `continue` at the stack after the setup.
    pub open spec fn split_for(self, s: crate::ir::StatementView) -> Result<Builder, SplitError>
        decreases s, 0nat,
    {
        match s {
            crate::ir::StatementView::ForLoop { setup, cond, on_iter, body } => {
                let pre = self.emit_and_reset(self.current_stack);
                match pre.derive().block(setup) {
                    Err(e) => Err(e),
                    Ok(set) => {
                        let in_body = Builder {
                            loop_revert_state: Some(set.start_stack),
                            loop_continue_state: Some(set.current_stack),
                            ..set.derive()
                        };
                        match in_body.block(body) {
                            Err(e) => Err(e),
                            Ok(bod) => match set.derive().block(on_iter) {
                                Err(e) => Err(e),
                                Ok(step) => match lower(cond) {
                                    Err(e) => Err(e),
                                    Ok(c) => Builder::join_loop(pre, set, bod, step, c),
                                },
                            },
                        }
                    },
                }
            },
            _ => Ok(self),
        }
    }

    /// The parts of a loop, joined behind the blocks of `pre` in the order
    /// setup, body, step, condition.
    pub open spec fn join_loop(pre: Builder, set: Builder, bod: Builder, step: Builder, c: ExprView) -> Result<
        Builder,
        SplitError,
    > {
        let body_part = Builder {
            basic_blocks: force_last_end(bod.basic_blocks, set.current_stack),
            ..bod
        };
        let step_part = Builder {
            basic_blocks: force_last_end(step.basic_blocks, step.start_stack),
            ..step
        };
        let test = set.derive().assign(seq![COND@], c);
        let cond_part = Builder {
            basic_blocks: test.basic_blocks.push(
                test.in_flight(test.start_stack.push(COND@)),
            ).push(
                BasicBlockView {
                    start_stack: test.start_stack,
                    assignments: Seq::empty(),
                    end_stack: set.start_stack,
                },
            ),
            ..test
        };
        match pre.consume(set) {
            Err(e) => Err(e),
            Ok(a) => match a.consume(body_part) {
                Err(e) => Err(e),
                Ok(b) => match b.consume(step_part) {
                    Err(e) => Err(e),
                    Ok(d) => d.consume(cond_part),
                },
            },
        }
    }
}

/// Whether `name` is one of the two reserved names.
pub fn is_reserved(name: &String) -> (r: bool)
    ensures
        r == reserved(name@),
{
    same_text(name, RET_ADDR) || same_text(name, COND)
}

/// Whether one of `names` is reserved.
fn any_reserved_name(names: &Vec<String>) -> (r: bool)
    ensures
        r == any_reserved(texts(names@)),
{
    let mut i: usize = 0;
    while i < names.len()
        invariant
            i <= names.len(),
            forall|j: int| 0 <= j < i ==> !reserved(#[trigger] texts(names@)[j]),
        decreases names.len() - i,
    {
        if is_reserved(&names[i]) {
            assert(reserved(texts(names@)[i as int]));
            return true;
        }
        i += 1;
    }
    false
}

/// Whether the stack layout holds `name`.
fn contains_name(stack: &Vec<String>, name: &String) -> (r: bool)
    ensures
        r == texts(stack@).contains(name@),
{
    let mut i: usize = 0;
    while i < stack.len()
        invariant
            i <= stack.len(),
            forall|j: int| 0 <= j < i ==> texts(stack@)[j] != name@,
        decreases stack.len() - i,
    {
        if stack[i] == *name {
            assert(texts(stack@)[i as int] == name@);
            return true;
        }
        i += 1;
    }
    false
}

/// Whether two stack layouts hold the same names in the same order.
fn names_equal(a: &Vec<String>, b: &Vec<String>) -> (r: bool)
    ensures
        r == (texts(a@) == texts(b@)),
{
    if a.len() != b.len() {
        assert(texts(a@).len() != texts(b@).len());
        return false;
    }
    let mut i: usize = 0;
    while i < a.len()
        invariant
            i <= a.len(),
            a.len() == b.len(),
            forall|j: int| 0 <= j < i ==> texts(a@)[j] == texts(b@)[j],
        decreases a.len() - i,
    {
        if a[i] != b[i] {
            assert(texts(a@)[i as int] != texts(b@)[i as int]);
            return false;
        }
        i += 1;
    }
    assert(texts(a@) =~= texts(b@));
    true
}

/// A copy of a stack layout that may be absent.
fn clone_layout(layout: &Option<Vec<String>>) -> (r: Option<Vec<String>>)
    ensures
        layout_view(r) == layout_view(*layout),
{
    match layout {
        Some(names) => Some(clone_names(names)),
        None => None,
    }
}

/// `blocks` with the end stack of the last block replaced by `end`; an
/// empty list stays empty.
fn set_last_end(blocks: &mut Vec<BasicBlock>, end: Vec<String>)
    ensures
        blocks_view(final(blocks)@) == force_last_end(blocks_view(old(blocks)@), texts(end@)),
{
    match blocks.pop() {
        Some(last) => {
            let forced = BasicBlock {
                start_stack: last.start_stack,
                assignments: last.assignments,
                end_stack: end,
            };
            blocks.push(forced);
            assert(blocks_view(blocks@) =~= force_last_end(
                blocks_view(old(blocks)@),
                texts(end@),
            ));
        },
        None => {
            assert(blocks_view(blocks@) =~= blocks_view(old(blocks)@));
        },
    }
}

impl Expr {
    /// The expression of a basic block that stands for an expression of
    /// the structured representation. Fails on a builtin call, which has
    /// none.
    pub fn from_ir(e: &crate::ir::Expr) -> (r: Result<Expr, SplitError>)
        ensures
            match r {
                Ok(x) => lower(e@) == Ok::<ExprView, SplitError>(x@),
                Err(err) => lower(e@) == Err::<ExprView, SplitError>(err),
            },
        decreases e,
    {
        match e {
            crate::ir::Expr::VarRef(name) => Ok(Expr::Refr(name.clone())),
            crate::ir::Expr::Literal(l) => Ok(Expr::Literal(*l)),
            crate::ir::Expr::Builtin { .. } => Err(SplitError::Unsupported),
            crate::ir::Expr::Call { fn_name, args } => {
                let ghost list = e@->args;
                let mut lowered: Vec<Expr> = Vec::new();
                assert(exprs_view(lowered@) =~= Seq::empty());
                let mut i: usize = 0;
                while i < args.len()
                    invariant
                        i <= args.len(),
                        e is Call,
                        e->args == *args,
                        list == e@->args,
                        list.len() == args.len(),
                        forall|j: int| 0 <= j < args.len() ==> list[j] == args[j]@,
                        lower_all(list, 0, Seq::empty()) == lower_all(
                            list,
                            i as int,
                            exprs_view(lowered@),
                        ),
                    decreases args.len() - i,
                {
                    proof {
                        vstd::std_specs::vec::axiom_vec_index_decreases(*args, i as int);
                    }
                    let ghost before = exprs_view(lowered@);
                    match Expr::from_ir(&args[i]) {
                        Ok(x) => {
                            lowered.push(x);
                            assert(exprs_view(lowered@) =~= before.push(x@));
                        },
                        Err(err) => {
                            assert(lower_all(list, i as int, before) == Err::<
                                Seq<ExprView>,
                                SplitError,
                            >(err));
                            return Err(err);
                        },
                    }
                    i += 1;
                }
                let x = Expr::Call { fn_name: fn_name.clone(), args: lowered };
                assert(x@->args =~= exprs_view(lowered@));
                Ok(x)
            },
        }
    }
}

/// The splitter's state while it walks a block: the block in flight, the
/// blocks and functions emitted so far, and the stack layouts at which
/// `break`, `continue` and `leave` end a block.
#[derive(Debug)]
pub struct BasicBlocksBuilder {
    pub start_stack: Vec<String>,
    pub current_stack: Vec<String>,
    pub assignments: Vec<Assignment>,
    pub functions: Vec<FunctionBlocks>,
    pub basic_blocks: Vec<BasicBlock>,
    pub loop_revert_state: Option<Vec<String>>,
    pub loop_continue_state: Option<Vec<String>>,
    pub fn_return: Option<Vec<String>>,
}

impl View for BasicBlocksBuilder {
    type V = Builder;

    open spec fn view(&self) -> Builder {
        Builder {
            start_stack: texts(self.start_stack@),
            current_stack: texts(self.current_stack@),
            assignments: assignments_view(self.assignments@),
            functions: functions_view(self.functions@),
            basic_blocks: blocks_view(self.basic_blocks@),
            loop_revert_state: layout_view(self.loop_revert_state),
            loop_continue_state: layout_view(self.loop_continue_state),
            fn_return: layout_view(self.fn_return),
        }
    }
}

impl BasicBlocksBuilder {
    /// No two of the functions have one name, and `break` and `continue`
    /// have a loop together or not at all.
    pub open spec fn wf(&self) -> bool {
        &&& all_differ(names_of(self@.functions))
        &&& loop_known(self@)
    }

    /// A builder at the start of a scope whose stack is `start_stack`.
    pub fn new(start_stack: &Vec<String>) -> (r: BasicBlocksBuilder)
        ensures
            r@ == Builder::new(texts(start_stack@)),
            r.wf(),
    {
        let r = BasicBlocksBuilder {
            start_stack: clone_names(start_stack),
            current_stack: clone_names(start_stack),
            assignments: Vec::new(),
            functions: Vec::new(),
            basic_blocks: Vec::new(),
            loop_revert_state: None,
            loop_continue_state: None,
            fn_return: None,
        };
        assert(r@.assignments =~= Seq::empty());
        assert(r@.functions =~= Seq::empty());
        assert(r@.basic_blocks =~= Seq::empty());
        r
    }

    /// A builder for a nested scope: it starts at the current stack, knows
    /// the enclosing loop and function, and holds no block or function.
    pub fn derive_builder(&self) -> (r: BasicBlocksBuilder)
        ensures
            r@ == self@.derive(),
            self.wf() ==> r.wf(),
    {
        let r = BasicBlocksBuilder {
            start_stack: clone_names(&self.current_stack),
            current_stack: clone_names(&self.current_stack),
            assignments: Vec::new(),
            functions: Vec::new(),
            basic_blocks: Vec::new(),
            loop_revert_state: clone_layout(&self.loop_revert_state),
            loop_continue_state: clone_layout(&self.loop_continue_state),
            fn_return: clone_layout(&self.fn_return),
        };
        assert(r@.assignments =~= Seq::empty());
        assert(r@.functions =~= Seq::empty());
        assert(r@.basic_blocks =~= Seq::empty());
        r
    }

    /// Emit the block in flight with end stack `end_stack`; the builder
    /// keeps its stacks and assignments.
    fn emit(&mut self, end_stack: Vec<String>)
        ensures
            final(self)@ == old(self)@.emit(texts(end_stack@)),
    {
        let bb = BasicBlock {
            start_stack: clone_names(&self.start_stack),
            assignments: clone_assignments(&self.assignments),
            end_stack,
        };
        self.basic_blocks.push(bb);
        assert(self@.basic_blocks =~= old(self)@.basic_blocks.push(bb@));
    }

    /// Emit the block in flight with end stack `end_stack`; the next block
    /// starts at the current stack with no assignment.
    fn emit_and_reset(&mut self, end_stack: Vec<String>)
        ensures
            final(self)@ == old(self)@.emit_and_reset(texts(end_stack@)),
    {
        self.emit(end_stack);
        self.assignments = Vec::new();
        self.start_stack = clone_names(&self.current_stack);
        assert(self@.assignments =~= Seq::empty());
    }

    /// An assignment of the expression that stands for `expr` joins the
    /// block in flight, and its destinations the current stack, as far as
    /// they are new to it. Fails, and changes nothing, where the
    /// expression holds a builtin call.
    pub fn split_assignment(&mut self, to: Vec<String>, expr: &crate::ir::Expr) -> (r: Result<
        (),
        SplitError,
    >)
        ensures
            match r {
                Ok(_) => lower(expr@) matches Ok(x) && final(self)@ == old(self)@.assign(
                    texts(to@),
                    x,
                ),
                Err(e) => lower(expr@) == Err::<ExprView, SplitError>(e) && final(self)@ == old(
                    self,
                )@,
            },
            old(self).wf() ==> final(self).wf(),
    {
        let lowered = match Expr::from_ir(expr) {
            Ok(x) => x,
            Err(e) => {
                return Err(e);
            },
        };
        let ghost names = texts(to@);
        let mut i: usize = 0;
        while i < to.len()
            invariant
                i <= to.len(),
                names == texts(to@),
                self@ == (Builder { current_stack: self@.current_stack, ..old(self)@ }),
                extended(old(self)@.current_stack, names, 0) == extended(
                    self@.current_stack,
                    names,
                    i as int,
                ),
            decreases to.len() - i,
        {
            if !contains_name(&self.current_stack, &to[i]) {
                let ghost before = self@.current_stack;
                self.current_stack.push(to[i].clone());
                assert(self@.current_stack =~= before.push(names[i as int]));
            }
            i += 1;
        }
        let assignment = Assignment { to_idents: to, expr: lowered };
        self.assignments.push(assignment);
        assert(self@.assignments =~= old(self)@.assignments.push(assignment@));
        Ok(())
    }

    /// Whether a function of this name is among those emitted so far.
    fn has_function(&self, name: &String) -> (r: bool)
        ensures
            r == has_function(self@.functions, name@),
    {
        let mut i: usize = 0;
        while i < self.functions.len()
            invariant
                i <= self.functions.len(),
                forall|j: int| 0 <= j < i ==> (#[trigger] self@.functions[j]).name != name@,
            decreases self.functions.len() - i,
        {
            if self.functions[i].name == *name {
                assert(self@.functions[i as int].name == name@);
                return true;
            }
            i += 1;
        }
        false
    }

    /// Put the blocks of one function behind the functions emitted so
    /// far. Fails, and changes nothing, where a function of this name is
    /// among them.
    fn add_function(&mut self, f: FunctionBlocks) -> (r: Result<(), SplitError>)
        ensures
            match r {
                Ok(_) => add_function(old(self)@.functions, f@) == Ok::<
                    Seq<FunctionBlocksView>,
                    SplitError,
                >(final(self)@.functions) && final(self)@ == (Builder {
                    functions: final(self)@.functions,
                    ..old(self)@
                }),
                Err(e) => add_function(old(self)@.functions, f@) == Err::<
                    Seq<FunctionBlocksView>,
                    SplitError,
                >(e) && final(self)@ == old(self)@,
            },
    {
        if self.has_function(&f.name) {
            return Err(SplitError::DuplicateFunction);
        }
        self.functions.push(f);
        assert(self@.functions =~= old(self)@.functions.push(f@));
        Ok(())
    }

    /// Put `functions` behind those emitted so far, in their order. Fails
    /// where a name occurs twice.
    fn merge_functions(&mut self, functions: Vec<FunctionBlocks>) -> (r: Result<(), SplitError>)
        ensures
            match r {
                Ok(_) => merge_functions(old(self)@.functions, functions_view(functions@), 0)
                    == Ok::<Seq<FunctionBlocksView>, SplitError>(final(self)@.functions)
                    && final(self)@ == (Builder {
                    functions: final(self)@.functions,
                    ..old(self)@
                }),
                Err(e) => merge_functions(old(self)@.functions, functions_view(functions@), 0)
                    == Err::<Seq<FunctionBlocksView>, SplitError>(e),
            },
    {
        let ghost more = functions_view(functions@);
        let mut rest = functions;
        let ghost mut k: int = 0;
        while rest.len() > 0
            invariant
                0 <= k,
                more == functions_view(functions@),
                k + rest.len() == more.len(),
                forall|j: int| 0 <= j < rest.len() ==> rest[j]@ == more[k + j],
                self@ == (Builder { functions: self@.functions, ..old(self)@ }),
                merge_functions(old(self)@.functions, more, 0) == merge_functions(
                    self@.functions,
                    more,
                    k,
                ),
            decreases rest.len(),
        {
            let ghost before = self@.functions;
            let f = rest.remove(0);
            assert(f@ == more[k]);
            match self.add_function(f) {
                Ok(_) => {},
                Err(e) => {
                    assert(merge_functions(before, more, k) == Err::<
                        Seq<FunctionBlocksView>,
                        SplitError,
                    >(e));
                    return Err(e);
                },
            }
            proof {
                k = k + 1;
            }
        }
        Ok(())
    }

    /// The blocks and functions of a nested builder join this one's: the
    /// blocks behind the blocks, the functions behind the functions.
    /// Fails where a function name occurs twice.
    pub fn consume_builder(&mut self, builder: BasicBlocksBuilder) -> (r: Result<(), SplitError>)
        ensures
            match r {
                Ok(_) => old(self)@.consume(builder@) == Ok::<Builder, SplitError>(final(self)@),
                Err(e) => old(self)@.consume(builder@) == Err::<Builder, SplitError>(e),
            },
            old(self).wf() ==> (r is Ok <==> all_differ(
                names_of(old(self)@.functions) + names_of(builder@.functions),
            )),
            old(self).wf() && r is Ok ==> final(self).wf(),
    {
        proof {
            if self.wf() {
                lemma_merge_succeeds(self@.functions, builder@.functions, 0);
                assert(names_of(builder@.functions).skip(0) =~= names_of(builder@.functions));
            }
        }
        let mut blocks = builder.basic_blocks;
        let ghost joined = old(self)@.basic_blocks + builder@.basic_blocks;
        match self.merge_functions(builder.functions) {
            Ok(_) => {},
            Err(e) => {
                return Err(e);
            },
        }
        self.basic_blocks.append(&mut blocks);
        assert(self@.basic_blocks =~= joined);
        Ok(())
    }
}

/// One assignment of the zero word to each of `rets`.
fn zero_assignments(rets: &Vec<String>) -> (r: Vec<Assignment>)
    ensures
        assignments_view(r@) == zeroed(texts(rets@)),
{
    let mut r: Vec<Assignment> = Vec::new();
    let mut i: usize = 0;
    while i < rets.len()
        invariant
            i <= rets.len(),
            r.len() == i,
            forall|j: int| 0 <= j < i ==> r[j]@ == zeroed(texts(rets@))[j],
        decreases rets.len() - i,
    {
        let mut to: Vec<String> = Vec::new();
        to.push(rets[i].clone());
        assert(texts(to@) =~= seq![rets[i as int]@]);
        r.push(Assignment { to_idents: to, expr: Expr::Literal([0u8;32]) });
        i += 1;
    }
    assert(assignments_view(r@) =~= zeroed(texts(rets@)));
    r
}

/// A stack layout with one more name on top.
fn with_top(stack: &Vec<String>, top: &str) -> (r: Vec<String>)
    ensures
        texts(r@) == texts(stack@).push(top@),
{
    let mut r = clone_names(stack);
    let ghost before = texts(r@);
    r.push(top.to_owned());
    assert(texts(r@) =~= before.push(top@));
    r
}

impl BasicBlocksBuilder {
    /// Walk a block: its statements in order, and at its end one more
    /// block where the stack has changed or assignments are pending.
    /// Fails on `break` or `continue` outside a loop, `leave` outside a
    /// function, two functions of one name, a `switch` or a builtin call,
    /// and where the program binds a reserved name.
    pub fn split_block(&mut self, block: crate::ir::Block) -> (r: Result<(), SplitError>)
        ensures
            match r {
                Ok(_) => old(self)@.block(block@) == Ok::<Builder, SplitError>(final(self)@),
                Err(e) => old(self)@.block(block@) == Err::<Builder, SplitError>(e),
            },
            old(self).wf() ==> (r is Ok <==> fits_block(scope_of(old(self)@), block@)
                && all_differ(names_of(old(self)@.functions) + defined_functions(block@))),
            old(self).wf() && r is Ok ==> final(self).wf(),
    {
        proof {
            if self.wf() {
                lemma_block_splits(self@, block@);
            }
        }
        self.split_block_ref(&block)
    }

    /// `split_block` on a borrowed block.
    pub fn split_block_ref(&mut self, block: &crate::ir::Block) -> (r: Result<(), SplitError>)
        ensures
            match r {
                Ok(_) => old(self)@.block(block@) == Ok::<Builder, SplitError>(final(self)@),
                Err(e) => old(self)@.block(block@) == Err::<Builder, SplitError>(e),
            },
        decreases block, 1nat,
    {
        let ghost stmts = block@.0;
        let mut i: usize = 0;
        while i < block.0.len()
            invariant
                i <= block.0.len(),
                stmts == block@.0,
                old(self)@.statements(stmts, 0) == self@.statements(stmts, i as int),
            decreases block.0.len() - i,
        {
            proof {
                vstd::std_specs::vec::axiom_vec_index_decreases(block.0, i as int);
            }
            assert(stmts[i as int] == block.0[i as int]@);
            let ghost before = self@;
            match self.split_statement(&block.0[i]) {
                Ok(_) => {},
                Err(e) => {
                    assert(before.statements(stmts, i as int) == Err::<Builder, SplitError>(e));
                    return Err(e);
                },
            }
            i += 1;
        }
        if !names_equal(&self.start_stack, &self.current_stack) || self.assignments.len() > 0 {
            let end_stack = clone_names(&self.current_stack);
            self.emit(end_stack);
        }
        Ok(())
    }

    /// Walk one statement.
    pub fn split_statement(&mut self, stmt: &crate::ir::Statement) -> (r: Result<(), SplitError>)
        ensures
            match r {
                Ok(_) => old(self)@.statement(stmt@) == Ok::<Builder, SplitError>(final(self)@),
                Err(e) => old(self)@.statement(stmt@) == Err::<Builder, SplitError>(e),
            },
        decreases stmt, 1nat,
    {
        match stmt {
            crate::ir::Statement::Block(block) => self.split_block_ref(block),
            crate::ir::Statement::FnDef(f) => self.split_fn_def(f),
            crate::ir::Statement::Assignment { to, expr } => {
                if any_reserved_name(to) {
                    return Err(SplitError::NameCollision);
                }
                self.split_assignment(clone_names(to), expr)
            },
            crate::ir::Statement::If { .. } => self.split_if(stmt),
            crate::ir::Statement::Switch { .. } => Err(SplitError::Unsupported),
            crate::ir::Statement::ForLoop { .. } => self.split_for(stmt),
            crate::ir::Statement::Leave => {
                match clone_layout(&self.fn_return) {
                    Some(end_stack) => {
                        self.emit_and_reset(end_stack);
                        Ok(())
                    },
                    None => Err(SplitError::LeaveOutsideFunction),
                }
            },
            crate::ir::Statement::Break => {
                match clone_layout(&self.loop_revert_state) {
                    Some(end_stack) => {
                        self.emit_and_reset(end_stack);
                        Ok(())
                    },
                    None => Err(SplitError::BreakOutsideLoop),
                }
            },
            crate::ir::Statement::Continue => {
                match clone_layout(&self.loop_continue_state) {
                    Some(end_stack) => {
                        self.emit_and_reset(end_stack);
                        Ok(())
                    },
                    None => Err(SplitError::ContinueOutsideLoop),
                }
            },
        }
    }

    /// A function definition: its blocks are made by a fresh builder that
    /// starts with the parameters, the results and the return address on
    /// the stack and with each result set to zero; its last block ends at
    /// the results and the return address. They join the functions
    /// emitted so far, with the functions defined inside it behind them.
    pub fn split_fn_def(&mut self, f: &crate::ir::FunctionDefinition) -> (r: Result<(), SplitError>)
        ensures
            match r {
                Ok(_) => old(self)@.fn_def(f@) == Ok::<Builder, SplitError>(final(self)@),
                Err(e) => old(self)@.fn_def(f@) == Err::<Builder, SplitError>(e),
            },
        decreases f, 0nat,
    {
        if any_reserved_name(&f.args) || any_reserved_name(&f.rets) {
            return Err(SplitError::NameCollision);
        }
        let mut start_stack = clone_names(&f.args);
        let mut rets = clone_names(&f.rets);
        start_stack.append(&mut rets);
        start_stack.push(RET_ADDR.to_owned());
        assert(texts(start_stack@) =~= (f@.args + f@.rets).push(RET_ADDR@));
        let end_stack = with_top(&f.rets, RET_ADDR);

        let mut builder = BasicBlocksBuilder::new(&start_stack);
        builder.fn_return = Some(clone_names(&end_stack));
        builder.assignments = zero_assignments(&f.rets);
        match builder.split_block_ref(&f.body) {
            Ok(_) => {},
            Err(e) => {
                return Err(e);
            },
        }
        let mut basic_blocks = builder.basic_blocks;
        set_last_end(&mut basic_blocks, end_stack);
        let own = FunctionBlocks { name: f.name.clone(), blocks: basic_blocks };
        match self.add_function(own) {
            Ok(_) => {},
            Err(e) => {
                return Err(e);
            },
        }
        self.merge_functions(builder.functions)
    }

    /// A conditional: the block in flight ends with the condition, bound
    /// to the reserved name, on top of the current stack; the blocks of
    /// the body follow, and the next block starts at the current stack.
    /// A statement that is no conditional changes nothing.
    pub fn split_if(&mut self, stmt: &crate::ir::Statement) -> (r: Result<(), SplitError>)
        ensures
            match r {
                Ok(_) => old(self)@.split_if(stmt@) == Ok::<Builder, SplitError>(final(self)@),
                Err(e) => old(self)@.split_if(stmt@) == Err::<Builder, SplitError>(e),
            },
        decreases stmt, 0nat,
    {
        match stmt {
            crate::ir::Statement::If { cond, body } => {
                let c = match Expr::from_ir(cond) {
                    Ok(c) => c,
                    Err(e) => {
                        return Err(e);
                    },
                };
                let mut to: Vec<String> = Vec::new();
                to.push(COND.to_owned());
                assert(texts(to@) =~= seq![COND@]);
                let assignment = Assignment { to_idents: to, expr: c };
                self.assignments.push(assignment);
                assert(self@.assignments =~= old(self)@.assignments.push(assignment@));
                let end_stack = with_top(&self.current_stack, COND);
                self.emit_and_reset(end_stack);
                let mut builder = self.derive_builder();
                match builder.split_block_ref(body) {
                    Ok(_) => {},
                    Err(e) => {
                        return Err(e);
                    },
                }
                self.consume_builder(builder)
            },
            _ => Ok(()),
        }
    }

    /// A loop: the block in flight ends at the current stack; then follow
    /// the blocks of the setup, of the body, of the step and of the
    /// condition, and an empty block that leaves the loop.
    /// A statement that is no loop changes nothing.
    pub fn split_for(&mut self, stmt: &crate::ir::Statement) -> (r: Result<(), SplitError>)
        ensures
            match r {
                Ok(_) => old(self)@.split_for(stmt@) == Ok::<Builder, SplitError>(final(self)@),
                Err(e) => old(self)@.split_for(stmt@) == Err::<Builder, SplitError>(e),
            },
        decreases stmt, 0nat,
    {
        match stmt {
            crate::ir::Statement::ForLoop { setup, cond, on_iter, body } => {
                let end_stack = clone_names(&self.current_stack);
                self.emit_and_reset(end_stack);
                let ghost pre = self@;

                let mut setup_builder = self.derive_builder();
                match setup_builder.split_block_ref(setup) {
                    Ok(_) => {},
                    Err(e) => {
                        return Err(e);
                    },
                }
                let ghost set = setup_builder@;

                let mut body_builder = setup_builder.derive_builder();
                body_builder.loop_revert_state = Some(clone_names(&setup_builder.start_stack));
                body_builder.loop_continue_state = Some(clone_names(&setup_builder.current_stack));
                match body_builder.split_block_ref(body) {
                    Ok(_) => {},
                    Err(e) => {
                        return Err(e);
                    },
                }
                let ghost bod = body_builder@;
                set_last_end(
                    &mut body_builder.basic_blocks,
                    clone_names(&setup_builder.current_stack),
                );

                let mut on_iter_builder = setup_builder.derive_builder();
                match on_iter_builder.split_block_ref(on_iter) {
                    Ok(_) => {},
                    Err(e) => {
                        return Err(e);
                    },
                }
                let ghost step = on_iter_builder@;
                let step_start = clone_names(&on_iter_builder.start_stack);
                set_last_end(&mut on_iter_builder.basic_blocks, step_start);

                let mut cond_builder = setup_builder.derive_builder();
                let mut to: Vec<String> = Vec::new();
                to.push(COND.to_owned());
                assert(texts(to@) =~= seq![COND@]);
                match cond_builder.split_assignment(to, cond) {
                    Ok(_) => {},
                    Err(e) => {
                        return Err(e);
                    },
                }
                let ghost test = cond_builder@;
                let end_stack = with_top(&cond_builder.start_stack, COND);
                cond_builder.emit(end_stack);
                let leave = BasicBlock {
                    start_stack: clone_names(&cond_builder.start_stack),
                    assignments: Vec::new(),
                    end_stack: clone_names(&setup_builder.start_stack),
                };
                assert(leave@.assignments =~= Seq::empty());
                let ghost emitted = cond_builder@.basic_blocks;
                cond_builder.basic_blocks.push(leave);
                assert(cond_builder@.basic_blocks =~= emitted.push(leave@));

                match self.consume_builder(setup_builder) {
                    Ok(_) => {},
                    Err(e) => {
                        return Err(e);
                    },
                }
                match self.consume_builder(body_builder) {
                    Ok(_) => {},
                    Err(e) => {
                        return Err(e);
                    },
                }
                match self.consume_builder(on_iter_builder) {
                    Ok(_) => {},
                    Err(e) => {
                        return Err(e);
                    },
                }
                self.consume_builder(cond_builder)
            },
            _ => Ok(()),
        }
    }
}

/// Splitting goes by structure alone: two builders of the same value,
/// given two blocks of the same value, give the same blocks and functions
/// or fail in the same way, whatever strings hold the names.
pub proof fn lemma_split_goes_by_structure(
    a: BasicBlocksBuilder,
    b: BasicBlocksBuilder,
    x: crate::ir::Block,
    y: crate::ir::Block,
)
    requires
        a@ == b@,
        x@ == y@,
    ensures
        a@.block(x@) == b@.block(y@),
{
}

} // verus!
