//! Basic blocks, whose assignments hold expression trees, and their
//! flattening to three-address form.

use vstd::prelude::*;
use crate::ir::{clone_names, texts, Literal};
use crate::ssa_block::{
    names_view, statements_view, values_view, Block as SSABlock, BlockView as SSABlockView, Name,
    NameView, Statement, StatementView, Value, ValueView,
};

verus! {

/// An expression of a basic block: a reference to a named value, a literal
/// word, or a call whose arguments are expressions.
#[derive(Debug, PartialEq, Eq)]
pub enum Expr {
    Refr(String),
    Literal(Literal),
    Call { fn_name: String, args: Vec<Expr> },
}

/// The mathematical value of an `Expr`.
pub ghost enum ExprView {
    Refr(Seq<char>),
    Literal(Literal),
    Call { fn_name: Seq<char>, args: Seq<ExprView> },
}

/// The mathematical value of an expression.
pub open spec fn expr_view(e: Expr) -> ExprView
    decreases e,
{
    match e {
        Expr::Refr(s) => ExprView::Refr(s@),
        Expr::Literal(l) => ExprView::Literal(l),
        Expr::Call { fn_name, args } => ExprView::Call {
            fn_name: fn_name@,
            args: Seq::new(
                args.len() as nat,
                |i: int|
                    if 0 <= i < args.len() {
                        expr_view(args[i])
                    } else {
                        ExprView::Refr(Seq::empty())
                    },
            ),
        },
    }
}

impl View for Expr {
    type V = ExprView;

    open spec fn view(&self) -> ExprView {
        expr_view(*self)
    }
}

/// The values of a list of expressions.
pub open spec fn exprs_view(v: Seq<Expr>) -> Seq<ExprView> {
    Seq::new(v.len(), |i: int| v[i]@)
}

impl Expr {
    /// A reference to the value named `name`.
    pub fn r(name: &str) -> (e: Expr)
        ensures
            e@ == ExprView::Refr(name@),
    {
        Expr::Refr(name.to_owned())
    }

    /// A call of `name` with one argument.
    pub fn call1(name: &str, arg: Expr) -> (e: Expr)
        ensures
            e@ == (ExprView::Call { fn_name: name@, args: seq![arg@] }),
    {
        let mut args: Vec<Expr> = Vec::new();
        args.push(arg);
        let e = Expr::call(name, args);
        assert(e@->args =~= seq![arg@]);
        e
    }

    /// A call of `name` with two arguments.
    pub fn call2(name: &str, arg1: Expr, arg2: Expr) -> (e: Expr)
        ensures
            e@ == (ExprView::Call { fn_name: name@, args: seq![arg1@, arg2@] }),
    {
        let mut args: Vec<Expr> = Vec::new();
        args.push(arg1);
        args.push(arg2);
        let e = Expr::call(name, args);
        assert(e@->args =~= seq![arg1@, arg2@]);
        e
    }

    /// A call of `name` with the given arguments.
    pub fn call(name: &str, args: Vec<Expr>) -> (e: Expr)
        ensures
            e@ == (ExprView::Call { fn_name: name@, args: exprs_view(args@) }),
    {
        let e = Expr::Call { fn_name: name.to_owned(), args };
        assert(e@->args =~= exprs_view(args@));
        e
    }

    /// A copy of the expression.
    pub fn duplicate(&self) -> (e: Expr)
        ensures
            e@ == self@,
        decreases self,
    {
        match self {
            Expr::Refr(s) => Expr::Refr(s.clone()),
            Expr::Literal(l) => Expr::Literal(*l),
            Expr::Call { fn_name, args } => {
                let mut copies: Vec<Expr> = Vec::new();
                let mut i: usize = 0;
                while i < args.len()
                    invariant
                        i <= args.len(),
                        self is Call,
                        self->args == *args,
                        copies.len() == i,
                        forall|j: int| 0 <= j < i ==> copies[j]@ == args[j]@,
                    decreases args.len() - i,
                {
                    proof {
                        vstd::std_specs::vec::axiom_vec_index_decreases(*args, i as int);
                    }
                    copies.push(args[i].duplicate());
                    i += 1;
                }
                let e = Expr::Call { fn_name: fn_name.clone(), args: copies };
                assert(e@->args =~= self@->args);
                e
            },
        }
    }
}

impl Clone for Expr {
    fn clone(&self) -> (e: Expr)
        ensures
            e@ == self@,
    {
        self.duplicate()
    }
}

/// An assignment of a basic block: the value of the expression, or the
/// results of the call, bound to the destinations in order.
#[derive(Debug, PartialEq, Eq)]
pub struct Assignment {
    pub to_idents: Vec<String>,
    pub expr: Expr,
}

/// The mathematical value of an `Assignment`.
pub ghost struct AssignmentView {
    pub to_idents: Seq<Seq<char>>,
    pub expr: ExprView,
}

impl View for Assignment {
    type V = AssignmentView;

    open spec fn view(&self) -> AssignmentView {
        AssignmentView { to_idents: texts(self.to_idents@), expr: self.expr@ }
    }
}

/// The values of a list of assignments.
pub open spec fn assignments_view(v: Seq<Assignment>) -> Seq<AssignmentView> {
    Seq::new(v.len(), |i: int| v[i]@)
}

/// The texts of a list of string slices.
pub open spec fn slices_view(v: Seq<&str>) -> Seq<Seq<char>> {
    Seq::new(v.len(), |i: int| v[i]@)
}

impl Assignment {
    /// The assignment of `expr` to the destinations `to`.
    pub fn new(to: Vec<&str>, expr: Expr) -> (a: Assignment)
        ensures
            a@ == (AssignmentView { to_idents: slices_view(to@), expr: expr@ }),
    {
        let mut to_idents: Vec<String> = Vec::new();
        let mut i: usize = 0;
        while i < to.len()
            invariant
                i <= to.len(),
                to_idents.len() == i,
                forall|j: int| 0 <= j < i ==> to_idents[j]@ == to[j]@,
            decreases to.len() - i,
        {
            to_idents.push(to[i].to_owned());
            i += 1;
        }
        assert(texts(to_idents@) =~= slices_view(to@));
        Assignment { to_idents, expr }
    }

    /// A copy of the assignment.
    pub fn duplicate(&self) -> (a: Assignment)
        ensures
            a@ == self@,
    {
        Assignment { to_idents: clone_names(&self.to_idents), expr: self.expr.duplicate() }
    }
}

impl Clone for Assignment {
    fn clone(&self) -> (a: Assignment)
        ensures
            a@ == self@,
    {
        self.duplicate()
    }
}

/// A copy of a list of assignments.
pub fn clone_assignments(list: &Vec<Assignment>) -> (r: Vec<Assignment>)
    ensures
        assignments_view(r@) == assignments_view(list@),
{
    let mut r: Vec<Assignment> = Vec::new();
    let mut i: usize = 0;
    while i < list.len()
        invariant
            i <= list.len(),
            r.len() == i,
            forall|j: int| 0 <= j < i ==> r[j]@ == list[j]@,
        decreases list.len() - i,
    {
        r.push(list[i].duplicate());
        i += 1;
    }
    assert(assignments_view(r@) =~= assignments_view(list@));
    r
}

/// A straight-line run of assignments between two stack layouts. The top
/// of a stack is the last element of its layout.
#[derive(Debug, PartialEq, Eq)]
pub struct BasicBlock {
    pub start_stack: Vec<String>,
    pub assignments: Vec<Assignment>,
    pub end_stack: Vec<String>,
}

/// The mathematical value of a `BasicBlock`.
pub ghost struct BasicBlockView {
    pub start_stack: Seq<Seq<char>>,
    pub assignments: Seq<AssignmentView>,
    pub end_stack: Seq<Seq<char>>,
}

impl View for BasicBlock {
    type V = BasicBlockView;

    open spec fn view(&self) -> BasicBlockView {
        BasicBlockView {
            start_stack: texts(self.start_stack@),
            assignments: assignments_view(self.assignments@),
            end_stack: texts(self.end_stack@),
        }
    }
}

impl Clone for BasicBlock {
    fn clone(&self) -> (b: BasicBlock)
        ensures
            b@ == self@,
    {
        BasicBlock {
            start_stack: clone_names(&self.start_stack),
            assignments: clone_assignments(&self.assignments),
            end_stack: clone_names(&self.end_stack),
        }
    }
}

/// Why a basic block cannot be flattened.
#[derive(Clone, Copy, Debug, PartialEq, Eq, Structural)]
pub enum FlattenError {
    /// A literal or a reference is assigned to more than one destination.
    DestinationArity,
}

/// The three-address statements emitted so far, and the number of the next
/// intermediate name.
pub ghost struct Flat {
    pub next_id: nat,
    pub statements: Seq<StatementView>,
}

/// The names of a list of identifiers.
pub open spec fn idents(names: Seq<Seq<char>>) -> Seq<NameView> {
    Seq::new(names.len(), |i: int| NameView::Ident(names[i]))
}

impl Flat {
    /// Flatten one argument to an operand. A nested call is given the next
    /// intermediate name, after the calls among its own arguments, and its
    /// statement goes behind theirs.
    pub open spec fn value(self, e: ExprView) -> (Flat, ValueView)
        decreases e, 0nat,
    {
        match e {
            ExprView::Literal(l) => (self, ValueView::Literal(l)),
            ExprView::Refr(n) => (self, ValueView::RefName(NameView::Ident(n))),
            ExprView::Call { fn_name, args } => {
                let (inner, takes) = self.values(args, 0, Seq::empty());
                let name = NameView::Intermed(inner.next_id);
                (
                    Flat {
                        next_id: inner.next_id + 1,
                        statements: inner.statements.push(
                            StatementView::CallAssign { assigns: seq![name], calls: fn_name, takes },
                        ),
                    },
                    ValueView::RefName(name),
                )
            },
        }
    }

    /// Flatten the arguments from index `k` on, the leftmost first; `acc`
    /// holds the operands of those before `k`.
    pub open spec fn values(self, args: Seq<ExprView>, k: int, acc: Seq<ValueView>) -> (
        Flat,
        Seq<ValueView>,
    )
        decreases args, args.len() - k,
    {
        if k < 0 || k >= args.len() {
            (self, acc)
        } else {
            let (next, v) = self.value(args[k]);
            next.values(args, k + 1, acc.push(v))
        }
    }

    /// Flatten one assignment.
    pub open spec fn assignment(self, a: AssignmentView) -> Result<Flat, FlattenError> {
        match a.expr {
            ExprView::Literal(l) => self.assign_value(a.to_idents, ValueView::Literal(l)),
            ExprView::Refr(n) => self.assign_value(
                a.to_idents,
                ValueView::RefName(NameView::Ident(n)),
            ),
            ExprView::Call { fn_name, args } => {
                let (inner, takes) = self.values(args, 0, Seq::empty());
                Ok(
                    Flat {
                        statements: inner.statements.push(
                            StatementView::CallAssign {
                                assigns: idents(a.to_idents),
                                calls: fn_name,
                                takes,
                            },
                        ),
                        ..inner
                    },
                )
            },
        }
    }

    /// Bind a literal or a reference: to no destination, which emits
    /// nothing, or to one.
    pub open spec fn assign_value(self, to: Seq<Seq<char>>, value: ValueView) -> Result<
        Flat,
        FlattenError,
    > {
        if to.len() == 0 {
            Ok(self)
        } else if to.len() == 1 {
            Ok(
                Flat {
                    statements: self.statements.push(
                        StatementView::ValueAssign { to: NameView::Ident(to[0]), value },
                    ),
                    ..self
                },
            )
        } else {
            Err(FlattenError::DestinationArity)
        }
    }

    /// Flatten the assignments from index `k` on, in order.
    pub open spec fn assignments(self, list: Seq<AssignmentView>, k: int) -> Result<
        Flat,
        FlattenError,
    >
        decreases list.len() - k,
    {
        if k < 0 || k >= list.len() {
            Ok(self)
        } else {
            match self.assignment(list[k]) {
                Ok(next) => next.assignments(list, k + 1),
                Err(e) => Err(e),
            }
        }
    }
}

/// Whether the assignment binds a call, or else at most one destination.
pub open spec fn arity_fits(a: AssignmentView) -> bool {
    a.expr is Call || a.to_idents.len() <= 1
}

/// Whether every assignment of the block binds a call, or else at most
/// one destination.
pub open spec fn arities_fit(bb: BasicBlockView) -> bool {
    forall|k: int| 0 <= k < bb.assignments.len() ==> arity_fits(#[trigger] bb.assignments[k])
}

/// The assignments from index `k` on are flattened without error exactly
/// where each of them binds a call or at most one destination.
pub proof fn lemma_assignments_flatten(f: Flat, list: Seq<AssignmentView>, k: int)
    requires
        0 <= k <= list.len(),
    ensures
        f.assignments(list, k) is Ok <==> forall|j: int|
            k <= j < list.len() ==> arity_fits(#[trigger] list[j]),
    decreases list.len() - k,
{
    if k < list.len() {
        if arity_fits(list[k]) {
            lemma_assignments_flatten(f.assignment(list[k])->Ok_0, list, k + 1);
        }
    }
}

/// A basic block has a three-address form exactly where no literal and no
/// reference is assigned to more than one destination.
pub proof fn lemma_flatten_succeeds(bb: BasicBlockView)
    ensures
        flatten(bb) is Ok <==> arities_fit(bb),
{
    lemma_assignments_flatten(Flat { next_id: 0, statements: Seq::empty() }, bb.assignments, 0);
}

/// The three-address form of a basic block: the same stack layouts, and
/// the statements of its assignments in order, with intermediate names
/// counted from zero.
pub open spec fn flatten(bb: BasicBlockView) -> Result<SSABlockView, FlattenError> {
    match (Flat { next_id: 0, statements: Seq::empty() }).assignments(bb.assignments, 0) {
        Ok(flat) => Ok(
            SSABlockView {
                start_stack: bb.start_stack,
                statements: flat.statements,
                end_stack: bb.end_stack,
            },
        ),
        Err(e) => Err(e),
    }
}

/// Collects the statements of a block while it is flattened.
#[derive(Debug)]
pub struct FlatStatementBuilder {
    pub next_intermed_id: usize,
    pub statements: Vec<Statement>,
}

impl View for FlatStatementBuilder {
    type V = Flat;

    open spec fn view(&self) -> Flat {
        Flat { next_id: self.next_intermed_id as nat, statements: statements_view(self.statements@) }
    }
}

impl FlatStatementBuilder {
    /// Every intermediate name given out so far names the result of a
    /// statement of its own.
    pub open spec fn wf(&self) -> bool {
        self.next_intermed_id <= self.statements.len()
    }

    /// A builder that holds no statement and has given out no name.
    pub fn new() -> (r: FlatStatementBuilder)
        ensures
            r@ == (Flat { next_id: 0, statements: Seq::empty() }),
            r.wf(),
    {
        let r = FlatStatementBuilder { next_intermed_id: 0, statements: Vec::new() };
        assert(r@.statements =~= Seq::empty());
        r
    }

    /// The next intermediate name.
    pub fn get_next_name(&mut self) -> (name: Name)
        requires
            old(self).next_intermed_id < usize::MAX,
        ensures
            name@ == NameView::Intermed(old(self).next_intermed_id as nat),
            final(self).next_intermed_id == old(self).next_intermed_id + 1,
            final(self).statements == old(self).statements,
    {
        let id = self.next_intermed_id;
        self.next_intermed_id += 1;
        Name::Intermed(id)
    }

    /// Put `stmt` behind the statements collected so far.
    fn push(&mut self, stmt: Statement)
        ensures
            final(self)@ == (Flat {
                statements: old(self)@.statements.push(stmt@),
                ..old(self)@
            }),
            final(self).statements.len() == old(self).statements.len() + 1,
    {
        self.statements.push(stmt);
        assert(self@.statements =~= old(self)@.statements.push(stmt@));
    }

    /// Flatten one argument to an operand.
    fn flatten_to_value(&mut self, arg: &Expr) -> (v: Value)
        requires
            old(self).wf(),
        ensures
            final(self).wf(),
            old(self)@.value(arg@) == (final(self)@, v@),
        decreases arg, 0nat,
    {
        match arg {
            Expr::Literal(x) => Value::Literal(*x),
            Expr::Refr(name) => Value::ident(name),
            Expr::Call { fn_name, args } => {
                let takes = self.flatten_to_values(args);
                assert(arg@->args == exprs_view(args@));
                let ghost inner = self@;
                let ghost id = self.next_intermed_id;
                let mut assigns: Vec<Name> = Vec::new();
                assigns.push(Name::Intermed(self.next_intermed_id));
                assert(names_view(assigns@) =~= seq![NameView::Intermed(id as nat)]);
                self.push(Statement::CallAssign { assigns, calls: fn_name.clone(), takes });
                let new_name = self.get_next_name();
                Value::RefName(new_name)
            },
        }
    }

    /// Flatten the arguments of a call to operands, the leftmost first. The
    /// statements of nested calls go behind those collected so far, and
    /// the operands stand in the order of the arguments.
    pub fn flatten_to_values(&mut self, args: &Vec<Expr>) -> (takes: Vec<Value>)
        requires
            old(self).wf(),
        ensures
            final(self).wf(),
            old(self)@.values(exprs_view(args@), 0, Seq::empty()) == (
                final(self)@,
                values_view(takes@),
            ),
        decreases args, args.len(),
    {
        let mut takes: Vec<Value> = Vec::new();
        let ghost list = exprs_view(args@);
        assert(values_view(takes@) =~= Seq::empty());
        let mut i: usize = 0;
        while i < args.len()
            invariant
                i <= args.len(),
                self.wf(),
                list == exprs_view(args@),
                old(self)@.values(list, 0, Seq::empty()) == self@.values(
                    list,
                    i as int,
                    values_view(takes@),
                ),
            decreases args.len() - i,
        {
            proof {
                vstd::std_specs::vec::axiom_vec_index_decreases(*args, i as int);
            }
            let ghost before = values_view(takes@);
            let v = self.flatten_to_value(&args[i]);
            takes.push(v);
            assert(values_view(takes@) =~= before.push(v@));
            i += 1;
        }
        takes
    }
}

/// The names of a list of identifiers.
fn ident_names(to: &Vec<String>) -> (r: Vec<Name>)
    ensures
        names_view(r@) == idents(texts(to@)),
{
    let mut r: Vec<Name> = Vec::new();
    let mut i: usize = 0;
    while i < to.len()
        invariant
            i <= to.len(),
            r.len() == i,
            forall|j: int| 0 <= j < i ==> r[j]@ == NameView::Ident(to[j]@),
        decreases to.len() - i,
    {
        r.push(Name::Ident(to[i].clone()));
        i += 1;
    }
    assert(names_view(r@) =~= idents(texts(to@)));
    r
}

impl FlatStatementBuilder {
    /// Bind a literal or a reference: to no destination, which emits
    /// nothing, or to one.
    fn assign_value(&mut self, to: &Vec<String>, value: Value) -> (r: Result<(), FlattenError>)
        requires
            old(self).wf(),
        ensures
            final(self).wf(),
            match r {
                Ok(_) => old(self)@.assign_value(texts(to@), value@) == Ok::<Flat, FlattenError>(
                    final(self)@,
                ),
                Err(e) => old(self)@.assign_value(texts(to@), value@) == Err::<Flat, FlattenError>(e),
            },
    {
        if to.len() == 0 {
            Ok(())
        } else if to.len() == 1 {
            self.push(Statement::ValueAssign { to: Name::Ident(to[0].clone()), value });
            Ok(())
        } else {
            Err(FlattenError::DestinationArity)
        }
    }

    /// Flatten one assignment: the statements of its nested calls, then
    /// its own.
    pub fn flatten_assignment(&mut self, assign: &Assignment) -> (r: Result<(), FlattenError>)
        requires
            old(self).wf(),
        ensures
            final(self).wf(),
            match r {
                Ok(_) => old(self)@.assignment(assign@) == Ok::<Flat, FlattenError>(final(self)@),
                Err(e) => old(self)@.assignment(assign@) == Err::<Flat, FlattenError>(e),
            },
    {
        match &assign.expr {
            Expr::Literal(lit) => self.assign_value(&assign.to_idents, Value::Literal(*lit)),
            Expr::Refr(name) => self.assign_value(&assign.to_idents, Value::ident(name)),
            Expr::Call { fn_name, args } => {
                assert(assign.expr@->args == exprs_view(args@));
                let takes = self.flatten_to_values(args);
                let assigns = ident_names(&assign.to_idents);
                self.push(Statement::CallAssign { assigns, calls: fn_name.clone(), takes });
                Ok(())
            },
        }
    }
}

impl BasicBlock {
    /// The three-address form of the block: the same stack layouts, and
    /// the statements of its assignments in order. Fails where a literal
    /// or a reference is assigned to more than one destination.
    pub fn flatten_to(self) -> (r: Result<SSABlock, FlattenError>)
        ensures
            match r {
                Ok(b) => flatten(self@) == Ok::<SSABlockView, FlattenError>(b@),
                Err(e) => flatten(self@) == Err::<SSABlockView, FlattenError>(e),
            },
            r is Ok <==> arities_fit(self@),
    {
        proof {
            lemma_flatten_succeeds(self@);
        }
        let mut flattener = FlatStatementBuilder::new();
        let ghost start = flattener@;
        let ghost list = self@.assignments;
        let mut i: usize = 0;
        while i < self.assignments.len()
            invariant
                i <= self.assignments.len(),
                flattener.wf(),
                list == assignments_view(self.assignments@),
                flatten(self@) is Ok <==> arities_fit(self@),
                start == (Flat { next_id: 0, statements: Seq::empty() }),
                start.assignments(list, 0) == flattener@.assignments(list, i as int),
            decreases self.assignments.len() - i,
        {
            let ghost before = flattener@;
            assert(list[i as int] == self.assignments[i as int]@);
            match flattener.flatten_assignment(&self.assignments[i]) {
                Ok(_) => {},
                Err(e) => {
                    assert(before.assignments(list, i as int) == Err::<Flat, FlattenError>(e));
                    return Err(e);
                },
            }
            i += 1;
        }
        Ok(
            SSABlock {
                start_stack: self.start_stack,
                statements: flattener.statements,
                end_stack: self.end_stack,
            },
        )
    }
}

/// Flattening goes by structure alone: two basic blocks of the same value
/// have the same three-address form or fail in the same way.
pub proof fn lemma_flatten_goes_by_structure(a: BasicBlock, b: BasicBlock)
    requires
        a@ == b@,
    ensures
        flatten(a@) == flatten(b@),
{
}

} // verus!
