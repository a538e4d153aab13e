//! Single-assignment form, and the proof that flattening keeps it.

use vstd::prelude::*;
use crate::basic_block::{flatten, idents, AssignmentView, BasicBlockView, ExprView, Flat};
use crate::schedule_laws::distinct;
use crate::ssa_block::{BlockView, NameView, StatementView, ValueView};

verus! {

/// Whether the statement defines `n`.
pub open spec fn defines(stmt: StatementView, n: NameView) -> bool {
    match stmt {
        StatementView::CallAssign { assigns, .. } => assigns.contains(n),
        StatementView::ValueAssign { to, .. } => to == n,
    }
}

/// Whether the statement reads `n`.
pub open spec fn reads(stmt: StatementView, n: NameView) -> bool {
    match stmt {
        StatementView::CallAssign { takes, .. } => takes.contains(ValueView::RefName(n)),
        StatementView::ValueAssign { value, .. } => value == ValueView::RefName(n),
    }
}

/// Whether one of the first `k` statements defines `n`.
pub open spec fn defined_in(stmts: Seq<StatementView>, k: int, n: NameView) -> bool {
    exists|j: int| 0 <= j < k && j < stmts.len() && defines(#[trigger] stmts[j], n)
}

/// Whether `n` is defined before statement `k`: by the start stack or by
/// an earlier statement.
pub open spec fn defined_before(
    start: Seq<Seq<char>>,
    stmts: Seq<StatementView>,
    k: int,
    n: NameView,
) -> bool {
    (n is Ident && start.contains(n->Ident_0)) || defined_in(stmts, k, n)
}

/// Whether statement `k` is in single-assignment form after the statements
/// before it: what it defines is not defined before, a call defines no
/// name twice, and what it reads is defined before.
pub open spec fn statement_in_form(start: Seq<Seq<char>>, stmts: Seq<StatementView>, k: int) -> bool {
    &&& forall|n: NameView| #[trigger] defines(stmts[k], n) ==> !defined_before(start, stmts, k, n)
    &&& stmts[k] matches StatementView::CallAssign { assigns, .. } ==> forall|i: int, j: int|
        0 <= i < j < assigns.len() ==> assigns[i] != assigns[j]
    &&& forall|n: NameView| #[trigger] reads(stmts[k], n) ==> defined_before(start, stmts, k, n)
}

/// Whether the statements are in single-assignment form on the start
/// stack: no name is defined twice, and every use follows a definition.
pub open spec fn single_assignment(start: Seq<Seq<char>>, stmts: Seq<StatementView>) -> bool {
    forall|k: int| 0 <= k < stmts.len() ==> #[trigger] statement_in_form(start, stmts, k)
}

/// A block is well formed where no name stands twice in its start stack,
/// its statements are in single-assignment form, and every name of its
/// end stack is defined.
pub open spec fn well_formed(b: BlockView) -> bool {
    &&& distinct(b.start_stack)
    &&& single_assignment(b.start_stack, b.statements)
    &&& forall|i: int|
        0 <= i < b.end_stack.len() ==> defined_before(
            b.start_stack,
            b.statements,
            b.statements.len() as int,
            NameView::Ident(#[trigger] b.end_stack[i]),
        )
}

/// Whether the expression reads the identifier `x`.
pub open spec fn expr_reads(e: ExprView, x: Seq<char>) -> bool
    decreases e,
{
    match e {
        ExprView::Refr(y) => y == x,
        ExprView::Literal(_) => false,
        ExprView::Call { fn_name, args } => exists|i: int|
            0 <= i < args.len() && expr_reads(#[trigger] args[i], x),
    }
}

/// Whether one of the first `k` assignments binds `x`.
pub open spec fn bound_in(list: Seq<AssignmentView>, k: int, x: Seq<char>) -> bool {
    exists|j: int| 0 <= j < k && j < list.len() && (#[trigger] list[j]).to_idents.contains(x)
}

/// Whether assignment `k` is in single-assignment form after the
/// assignments before it.
pub open spec fn assignment_in_form(start: Seq<Seq<char>>, list: Seq<AssignmentView>, k: int) -> bool {
    &&& forall|x: Seq<char>| #[trigger]
        list[k].to_idents.contains(x) ==> !start.contains(x) && !bound_in(list, k, x)
    &&& forall|i: int, j: int|
        0 <= i < j < list[k].to_idents.len() ==> list[k].to_idents[i] != list[k].to_idents[j]
    &&& forall|x: Seq<char>| #[trigger]
        expr_reads(list[k].expr, x) ==> start.contains(x) || bound_in(list, k, x)
}

/// A basic block is well formed where no name stands twice in its start
/// stack, no name is bound twice, every use follows a binding, and every
/// name of its end stack is bound.
pub open spec fn basic_block_well_formed(bb: BasicBlockView) -> bool {
    &&& distinct(bb.start_stack)
    &&& forall|k: int|
        0 <= k < bb.assignments.len() ==> #[trigger] assignment_in_form(
            bb.start_stack,
            bb.assignments,
            k,
        )
    &&& forall|i: int|
        0 <= i < bb.end_stack.len() ==> bb.start_stack.contains(#[trigger] bb.end_stack[i])
            || bound_in(bb.assignments, bb.assignments.len() as int, bb.end_stack[i])
}

/// Whether `b` holds the statements of `a` and perhaps more behind them.
pub open spec fn grown(a: Seq<StatementView>, b: Seq<StatementView>) -> bool {
    &&& a.len() <= b.len()
    &&& forall|p: int| 0 <= p < a.len() ==> b[p] == a[p]
}

/// The intermediate names that the statements define are those below the
/// number of the next one.
pub open spec fn temps_counted(f: Flat) -> bool {
    forall|i: nat|
        #[trigger] defined_in(f.statements, f.statements.len() as int, NameView::Intermed(i)) <==> i
            < f.next_id
}

/// Every name among the operands is defined by the start stack or by one
/// of the statements.
pub open spec fn operands_known(
    start: Seq<Seq<char>>,
    stmts: Seq<StatementView>,
    takes: Seq<ValueView>,
) -> bool {
    forall|i: int|
        0 <= i < takes.len() ==> ((#[trigger] takes[i]) matches ValueView::RefName(n)
            ==> defined_before(start, stmts, stmts.len() as int, n))
}

/// What is defined by statements is defined by the same statements with
/// more behind them.
pub proof fn lemma_defined_grows(
    start: Seq<Seq<char>>,
    a: Seq<StatementView>,
    b: Seq<StatementView>,
    k: int,
    n: NameView,
)
    requires
        grown(a, b),
        0 <= k <= a.len(),
    ensures
        defined_in(a, k, n) <==> defined_in(b, k, n),
        defined_before(start, a, k, n) <==> defined_before(start, b, k, n),
        defined_in(a, a.len() as int, n) ==> defined_in(b, b.len() as int, n),
{
    if defined_in(a, k, n) {
        let j = choose|j: int| 0 <= j < k && j < a.len() && defines(#[trigger] a[j], n);
        assert(defines(b[j], n));
    }
    if defined_in(b, k, n) {
        let j = choose|j: int| 0 <= j < k && j < b.len() && defines(#[trigger] b[j], n);
        assert(defines(a[j], n));
    }
    if defined_in(a, a.len() as int, n) {
        let j = choose|j: int| 0 <= j < a.len() && j < a.len() && defines(#[trigger] a[j], n);
        assert(defines(b[j], n));
    }
}

/// Statements in single-assignment form stay so with one more behind
/// them that defines nothing defined before, defines no name twice, and
/// reads only what is defined.
pub proof fn lemma_push_in_form(start: Seq<Seq<char>>, stmts: Seq<StatementView>, stmt: StatementView)
    requires
        single_assignment(start, stmts),
        forall|n: NameView| #[trigger]
            defines(stmt, n) ==> !defined_before(start, stmts, stmts.len() as int, n),
        stmt matches StatementView::CallAssign { assigns, .. } ==> forall|i: int, j: int|
            0 <= i < j < assigns.len() ==> assigns[i] != assigns[j],
        forall|n: NameView| #[trigger]
            reads(stmt, n) ==> defined_before(start, stmts, stmts.len() as int, n),
    ensures
        single_assignment(start, stmts.push(stmt)),
        grown(stmts, stmts.push(stmt)),
{
    let more = stmts.push(stmt);
    assert forall|k: int| 0 <= k < more.len() implies #[trigger] statement_in_form(
        start,
        more,
        k,
    ) by {
        assert forall|n: NameView|
            defined_before(start, stmts, k, n) <==> defined_before(start, more, k, n) by {
            lemma_defined_grows(start, stmts, more, k, n);
        }
        if k < stmts.len() {
            assert(statement_in_form(start, stmts, k));
        }
    }
}

/// What flattening adds to statements in single-assignment form keeps
/// the form, counts the intermediate names and defines no identifier.
pub open spec fn flattened_on(start: Seq<Seq<char>>, f: Flat, g: Flat) -> bool {
    &&& single_assignment(start, g.statements)
    &&& temps_counted(g)
    &&& grown(f.statements, g.statements)
    &&& f.next_id <= g.next_id
    &&& forall|x: Seq<char>| #[trigger]
        defined_in(g.statements, g.statements.len() as int, NameView::Ident(x)) ==> defined_in(
            f.statements,
            f.statements.len() as int,
            NameView::Ident(x),
        )
}

/// Flattening an argument keeps the single-assignment form, and the
/// operand that it gives is defined.
pub proof fn lemma_value_in_form(f: Flat, start: Seq<Seq<char>>, e: ExprView)
    requires
        single_assignment(start, f.statements),
        temps_counted(f),
        forall|x: Seq<char>| #[trigger]
            expr_reads(e, x) ==> defined_before(
                start,
                f.statements,
                f.statements.len() as int,
                NameView::Ident(x),
            ),
    ensures
        flattened_on(start, f, f.value(e).0),
        f.value(e).1 matches ValueView::RefName(n) ==> defined_before(
            start,
            f.value(e).0.statements,
            f.value(e).0.statements.len() as int,
            n,
        ),
    decreases e, 0nat,
{
    match e {
        ExprView::Literal(l) => {},
        ExprView::Refr(n) => {
            assert(expr_reads(e, n));
        },
        ExprView::Call { fn_name, args } => {
            assert forall|i: int, x: Seq<char>|
                0 <= i < args.len() && #[trigger] expr_reads(args[i], x) implies defined_before(
                start,
                f.statements,
                f.statements.len() as int,
                NameView::Ident(x),
            ) by {
                assert(expr_reads(e, x));
            }
            lemma_values_in_form(f, start, args, 0, Seq::empty());
            let (inner, takes) = f.values(args, 0, Seq::empty());
            let name = NameView::Intermed(inner.next_id);
            let stmt = StatementView::CallAssign { assigns: seq![name], calls: fn_name, takes };
            let g = f.value(e).0;
            assert forall|n: NameView| #[trigger] defines(stmt, n) implies !defined_before(
                start,
                inner.statements,
                inner.statements.len() as int,
                n,
            ) by {
                assert(n == name);
                assert(defined_in(
                    inner.statements,
                    inner.statements.len() as int,
                    NameView::Intermed(inner.next_id),
                ) <==> inner.next_id < inner.next_id);
            }
            assert forall|n: NameView| #[trigger] reads(stmt, n) implies defined_before(
                start,
                inner.statements,
                inner.statements.len() as int,
                n,
            ) by {
                let i = choose|i: int| 0 <= i < takes.len() && takes[i] == ValueView::RefName(n);
                assert(takes[i] matches ValueView::RefName(m) && m == n);
            }
            lemma_push_in_form(start, inner.statements, stmt);
            assert(g.statements == inner.statements.push(stmt));
            let last = inner.statements.len() as int;
            assert(seq![name][0] == name);
            assert(defines(g.statements[last], name));
            assert forall|i: nat| #[trigger]
                defined_in(g.statements, g.statements.len() as int, NameView::Intermed(i)) <==> i
                    < g.next_id by {
                let n = NameView::Intermed(i);
                lemma_defined_grows(start, inner.statements, g.statements, last, n);
                assert(defined_in(inner.statements, last, n) <==> i < inner.next_id);
                if defined_in(g.statements, g.statements.len() as int, n) {
                    let j = choose|j: int|
                        0 <= j < g.statements.len() && j < g.statements.len() && defines(
                            #[trigger] g.statements[j],
                            n,
                        );
                    if j < last {
                        assert(defines(inner.statements[j], n));
                    }
                }
                if i == inner.next_id {
                    assert(defines(g.statements[last], n));
                }
            }
            assert forall|x: Seq<char>| #[trigger]
                defined_in(
                    g.statements,
                    g.statements.len() as int,
                    NameView::Ident(x),
                ) implies defined_in(
                f.statements,
                f.statements.len() as int,
                NameView::Ident(x),
            ) by {
                let n = NameView::Ident(x);
                let j = choose|j: int|
                    0 <= j < g.statements.len() && j < g.statements.len() && defines(
                        #[trigger] g.statements[j],
                        n,
                    );
                assert(j < last);
                assert(defines(inner.statements[j], n));
                assert(defined_in(inner.statements, last, n));
            }
        },
    }
}

/// Flattening a list of arguments keeps the single-assignment form, and
/// the operands that it gives are defined.
pub proof fn lemma_values_in_form(
    f: Flat,
    start: Seq<Seq<char>>,
    args: Seq<ExprView>,
    k: int,
    acc: Seq<ValueView>,
)
    requires
        0 <= k <= args.len(),
        single_assignment(start, f.statements),
        temps_counted(f),
        forall|i: int, x: Seq<char>|
            k <= i < args.len() && #[trigger] expr_reads(args[i], x) ==> defined_before(
                start,
                f.statements,
                f.statements.len() as int,
                NameView::Ident(x),
            ),
        operands_known(start, f.statements, acc),
    ensures
        flattened_on(start, f, f.values(args, k, acc).0),
        operands_known(start, f.values(args, k, acc).0.statements, f.values(args, k, acc).1),
    decreases args, args.len() - k,
{
    if k < args.len() {
        assert forall|x: Seq<char>| #[trigger] expr_reads(args[k], x) implies defined_before(
            start,
            f.statements,
            f.statements.len() as int,
            NameView::Ident(x),
        ) by {}
        lemma_value_in_form(f, start, args[k]);
        let (next, v) = f.value(args[k]);
        assert forall|i: int, x: Seq<char>|
            k + 1 <= i < args.len() && #[trigger] expr_reads(args[i], x) implies defined_before(
            start,
            next.statements,
            next.statements.len() as int,
            NameView::Ident(x),
        ) by {
            lemma_defined_grows(
                start,
                f.statements,
                next.statements,
                f.statements.len() as int,
                NameView::Ident(x),
            );
        }
        let more = acc.push(v);
        assert forall|i: int| 0 <= i < more.len() implies ((#[trigger] more[i]) matches ValueView::RefName(
            n,
        ) ==> defined_before(start, next.statements, next.statements.len() as int, n)) by {
            if i < acc.len() {
                if let ValueView::RefName(n) = acc[i] {
                    lemma_defined_grows(
                        start,
                        f.statements,
                        next.statements,
                        f.statements.len() as int,
                        n,
                    );
                }
            }
        }
        lemma_values_in_form(next, start, args, k + 1, more);
        let g = next.values(args, k + 1, more).0;
        assert forall|x: Seq<char>| #[trigger]
            defined_in(
                g.statements,
                g.statements.len() as int,
                NameView::Ident(x),
            ) implies defined_in(
            f.statements,
            f.statements.len() as int,
            NameView::Ident(x),
        ) by {
            assert(defined_in(next.statements, next.statements.len() as int, NameView::Ident(x)));
        }
    }
}

/// The statements are those of the first `k` assignments: they are in
/// single-assignment form, count the intermediate names, and define the
/// identifiers that those assignments bind.
pub open spec fn flattened_upto(start: Seq<Seq<char>>, f: Flat, list: Seq<AssignmentView>, k: int) -> bool {
    &&& single_assignment(start, f.statements)
    &&& temps_counted(f)
    &&& forall|x: Seq<char>| #[trigger]
        defined_in(f.statements, f.statements.len() as int, NameView::Ident(x)) <==> bound_in(
            list,
            k,
            x,
        )
}

/// One more statement behind statements that stand for the first `k`
/// assignments, which defines the identifiers that assignment `k` binds
/// and no other name, and reads only what is defined, makes statements
/// that stand for the first `k + 1`.
pub proof fn lemma_push_assignment(
    start: Seq<Seq<char>>,
    f: Flat,
    inner: Flat,
    list: Seq<AssignmentView>,
    k: int,
    stmt: StatementView,
)
    requires
        0 <= k < list.len(),
        flattened_upto(start, f, list, k),
        flattened_on(start, f, inner),
        assignment_in_form(start, list, k),
        forall|n: NameView| #[trigger]
            defines(stmt, n) <==> n is Ident && list[k].to_idents.contains(n->Ident_0),
        stmt matches StatementView::CallAssign { assigns, .. } ==> forall|i: int, j: int|
            0 <= i < j < assigns.len() ==> assigns[i] != assigns[j],
        forall|n: NameView| #[trigger]
            reads(stmt, n) ==> defined_before(
                start,
                inner.statements,
                inner.statements.len() as int,
                n,
            ),
    ensures
        flattened_upto(
            start,
            Flat { statements: inner.statements.push(stmt), ..inner },
            list,
            k + 1,
        ),
{
    let g = Flat { statements: inner.statements.push(stmt), ..inner };
    let last = inner.statements.len() as int;
    assert forall|n: NameView| #[trigger] defines(stmt, n) implies !defined_before(
        start,
        inner.statements,
        last,
        n,
    ) by {
        let x = n->Ident_0;
        assert(n == NameView::Ident(x));
        if defined_in(inner.statements, last, NameView::Ident(x)) {
            assert(defined_in(f.statements, f.statements.len() as int, NameView::Ident(x)));
            assert(bound_in(list, k, x));
        }
    }
    lemma_push_in_form(start, inner.statements, stmt);
    assert forall|i: nat| #[trigger]
        defined_in(g.statements, g.statements.len() as int, NameView::Intermed(i)) <==> i
            < g.next_id by {
        let n = NameView::Intermed(i);
        lemma_defined_grows(start, inner.statements, g.statements, last, n);
        assert(defined_in(inner.statements, last, n) <==> i < inner.next_id);
        if defined_in(g.statements, g.statements.len() as int, n) {
            let j = choose|j: int|
                0 <= j < g.statements.len() && j < g.statements.len() && defines(
                    #[trigger] g.statements[j],
                    n,
                );
            if j < last {
                assert(defines(inner.statements[j], n));
            }
        }
    }
    assert forall|x: Seq<char>| #[trigger]
        defined_in(g.statements, g.statements.len() as int, NameView::Ident(x)) <==> bound_in(
            list,
            k + 1,
            x,
        ) by {
        let n = NameView::Ident(x);
        lemma_defined_grows(start, inner.statements, g.statements, last, n);
        lemma_defined_grows(start, f.statements, inner.statements, f.statements.len() as int, n);
        assert(defined_in(f.statements, f.statements.len() as int, n) <==> bound_in(list, k, x));
        if defined_in(g.statements, g.statements.len() as int, n) {
            let j = choose|j: int|
                0 <= j < g.statements.len() && j < g.statements.len() && defines(
                    #[trigger] g.statements[j],
                    n,
                );
            if j < last {
                assert(defines(inner.statements[j], n));
                assert(defined_in(inner.statements, last, n));
                let b = choose|b: int|
                    0 <= b < k && b < list.len() && (#[trigger] list[b]).to_idents.contains(x);
                assert(list[b].to_idents.contains(x));
            } else {
                assert(list[k].to_idents.contains(x));
            }
        }
        if bound_in(list, k + 1, x) {
            let b = choose|b: int|
                0 <= b < k + 1 && b < list.len() && (#[trigger] list[b]).to_idents.contains(x);
            if b < k {
                assert(bound_in(list, k, x));
                assert(defined_in(inner.statements, last, n));
            } else {
                assert(defines(g.statements[last], n));
            }
        }
    }
}

/// Flattening one assignment in single-assignment form keeps the form.
pub proof fn lemma_assignment_in_form(
    f: Flat,
    start: Seq<Seq<char>>,
    list: Seq<AssignmentView>,
    k: int,
)
    requires
        0 <= k < list.len(),
        flattened_upto(start, f, list, k),
        assignment_in_form(start, list, k),
        f.assignment(list[k]) is Ok,
    ensures
        flattened_upto(start, f.assignment(list[k])->Ok_0, list, k + 1),
{
    let a = list[k];
    let to = a.to_idents;
    let g = f.assignment(a)->Ok_0;
    assert forall|x: Seq<char>| #[trigger] expr_reads(a.expr, x) implies defined_before(
        start,
        f.statements,
        f.statements.len() as int,
        NameView::Ident(x),
    ) by {
        assert(start.contains(x) || bound_in(list, k, x));
    }
    match a.expr {
        ExprView::Call { fn_name, args } => {
            assert forall|i: int, x: Seq<char>|
                0 <= i < args.len() && #[trigger] expr_reads(args[i], x) implies defined_before(
                start,
                f.statements,
                f.statements.len() as int,
                NameView::Ident(x),
            ) by {
                assert(expr_reads(a.expr, x));
            }
            lemma_values_in_form(f, start, args, 0, Seq::empty());
            let (inner, takes) = f.values(args, 0, Seq::empty());
            let stmt = StatementView::CallAssign { assigns: idents(to), calls: fn_name, takes };
            assert forall|n: NameView| #[trigger]
                defines(stmt, n) <==> n is Ident && to.contains(n->Ident_0) by {
                if defines(stmt, n) {
                    let i = choose|i: int| 0 <= i < idents(to).len() && idents(to)[i] == n;
                    assert(to[i] == n->Ident_0);
                }
                if n is Ident && to.contains(n->Ident_0) {
                    let i = choose|i: int| 0 <= i < to.len() && to[i] == n->Ident_0;
                    assert(idents(to)[i] == n);
                }
            }
            assert forall|n: NameView| #[trigger] reads(stmt, n) implies defined_before(
                start,
                inner.statements,
                inner.statements.len() as int,
                n,
            ) by {
                let i = choose|i: int| 0 <= i < takes.len() && takes[i] == ValueView::RefName(n);
                assert(takes[i] matches ValueView::RefName(m) && m == n);
            }
            lemma_push_assignment(start, f, inner, list, k, stmt);
        },
        _ => {
            let value = match a.expr {
                ExprView::Literal(l) => ValueView::Literal(l),
                ExprView::Refr(y) => ValueView::RefName(NameView::Ident(y)),
                _ => arbitrary(),
            };
            if to.len() == 0 {
                assert forall|x: Seq<char>| bound_in(list, k + 1, x) <==> bound_in(list, k, x) by {
                    if bound_in(list, k + 1, x) {
                        let b = choose|b: int|
                            0 <= b < k + 1 && b < list.len() && (
                            #[trigger] list[b]).to_idents.contains(x);
                        assert(b < k);
                    }
                    if bound_in(list, k, x) {
                        let b = choose|b: int|
                            0 <= b < k && b < list.len() && (#[trigger] list[b]).to_idents.contains(
                                x,
                            );
                        assert(list[b].to_idents.contains(x));
                    }
                }
            } else {
                let stmt = StatementView::ValueAssign { to: NameView::Ident(to[0]), value };
                assert forall|n: NameView| #[trigger]
                    defines(stmt, n) <==> n is Ident && to.contains(n->Ident_0) by {
                    if defines(stmt, n) {
                        assert(to[0] == n->Ident_0);
                    }
                }
                assert forall|n: NameView| #[trigger] reads(stmt, n) implies defined_before(
                    start,
                    f.statements,
                    f.statements.len() as int,
                    n,
                ) by {
                    assert(expr_reads(a.expr, n->Ident_0));
                }
                lemma_push_assignment(start, f, f, list, k, stmt);
            }
        },
    }
}

/// Flattening assignments in single-assignment form keeps the form.
pub proof fn lemma_assignments_in_form(
    f: Flat,
    start: Seq<Seq<char>>,
    list: Seq<AssignmentView>,
    k: int,
)
    requires
        0 <= k <= list.len(),
        flattened_upto(start, f, list, k),
        forall|j: int| 0 <= j < list.len() ==> #[trigger] assignment_in_form(start, list, j),
        f.assignments(list, k) is Ok,
    ensures
        flattened_upto(start, f.assignments(list, k)->Ok_0, list, list.len() as int),
    decreases list.len() - k,
{
    if k < list.len() {
        assert(assignment_in_form(start, list, k));
        lemma_assignment_in_form(f, start, list, k);
        lemma_assignments_in_form(f.assignment(list[k])->Ok_0, start, list, k + 1);
    }
}

/// Flattening keeps single assignment. The three-address form of a basic
/// block in which no name is bound twice and every use follows a binding
/// is well formed: no name is defined twice, the intermediate names
/// included, and every use follows a definition.
pub proof fn lemma_flatten_keeps_single_assignment(bb: BasicBlockView)
    requires
        basic_block_well_formed(bb),
        flatten(bb) is Ok,
    ensures
        well_formed(flatten(bb)->Ok_0),
{
    let f = Flat { next_id: 0, statements: Seq::empty() };
    lemma_assignments_in_form(f, bb.start_stack, bb.assignments, 0);
    let g = f.assignments(bb.assignments, 0)->Ok_0;
    let b = flatten(bb)->Ok_0;
    assert forall|i: int| 0 <= i < b.end_stack.len() implies defined_before(
        b.start_stack,
        b.statements,
        b.statements.len() as int,
        NameView::Ident(#[trigger] b.end_stack[i]),
    ) by {
        let x = bb.end_stack[i];
        assert(bb.start_stack.contains(x) || bound_in(
            bb.assignments,
            bb.assignments.len() as int,
            x,
        ));
        assert(defined_in(g.statements, g.statements.len() as int, NameView::Ident(x))
            <==> bound_in(bb.assignments, bb.assignments.len() as int, x));
    }
}

} // verus!
