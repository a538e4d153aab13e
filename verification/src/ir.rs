//! The structured intermediate representation: blocks, statements,
//! expressions and function definitions.

use vstd::prelude::*;

verus! {

/// A fixed-width machine word: 32 bytes, most significant byte first.
pub type Literal = [u8; 32];

/// The word whose bytes are all zero.
pub open spec fn zero_word() -> Literal {
    vstd::array::spec_array_fill_for_copy_type::<u8, 32>(0u8)
}

/// A program unit: its code, the objects nested in it, and its data
/// sections, which are carried through as they are.
#[derive(Debug, PartialEq, Eq)]
pub struct YulObject {
    pub name: String,
    pub code: Block,
    pub objects: Vec<YulObject>,
    pub data: Vec<(String, Vec<u8>)>,
}

/// A sequence of statements.
#[derive(Debug, PartialEq, Eq)]
pub struct Block(pub Vec<Statement>);

/// An expression tree.
#[derive(Debug, PartialEq, Eq)]
pub enum Expr {
    VarRef(String),
    Literal(Literal),
    Call { fn_name: String, args: Vec<Expr> },
    /// A call whose argument is a symbolic token, such as the name of a
    /// data section, and no run-time value.
    Builtin { fn_name: String, input: String },
}

/// A statement of the structured representation.
#[derive(Debug, PartialEq, Eq)]
pub enum Statement {
    Block(Block),
    FnDef(FunctionDefinition),
    Assignment { to: Vec<String>, expr: Expr },
    If { cond: Expr, body: Block },
    Switch { cond: Expr, cases: Vec<(Literal, Block)>, default: Option<Block> },
    ForLoop { setup: Block, cond: Expr, on_iter: Block, body: Block },
    Leave,
    Break,
    Continue,
}

/// A function of the program: its parameters, its results and its body.
#[derive(Debug, PartialEq, Eq)]
pub struct FunctionDefinition {
    pub name: String,
    pub args: Vec<String>,
    pub rets: Vec<String>,
    pub body: Block,
}

/// The mathematical value of an `Expr`.
pub ghost enum ExprView {
    VarRef(Seq<char>),
    Literal(Literal),
    Call { fn_name: Seq<char>, args: Seq<ExprView> },
    Builtin { fn_name: Seq<char>, input: Seq<char> },
}

/// The mathematical value of a `Block`.
pub ghost struct BlockView(pub Seq<StatementView>);

/// The mathematical value of a `Statement`.
pub ghost enum StatementView {
    Block(BlockView),
    FnDef(FunctionDefinitionView),
    Assignment { to: Seq<Seq<char>>, expr: ExprView },
    If { cond: ExprView, body: BlockView },
    Switch { cond: ExprView, cases: Seq<(Literal, BlockView)>, default: Option<BlockView> },
    ForLoop { setup: BlockView, cond: ExprView, on_iter: BlockView, body: BlockView },
    Leave,
    Break,
    Continue,
}

/// The mathematical value of a `FunctionDefinition`.
pub ghost struct FunctionDefinitionView {
    pub name: Seq<char>,
    pub args: Seq<Seq<char>>,
    pub rets: Seq<Seq<char>>,
    pub body: BlockView,
}

/// The mathematical value of a `YulObject`.
pub ghost struct YulObjectView {
    pub name: Seq<char>,
    pub code: BlockView,
    pub objects: Seq<YulObjectView>,
    pub data: Seq<(Seq<char>, Seq<u8>)>,
}

/// The texts of a list of identifiers.
pub open spec fn texts(v: Seq<String>) -> Seq<Seq<char>> {
    Seq::new(v.len(), |i: int| v[i]@)
}

/// The mathematical value of an expression.
pub open spec fn expr_view(e: Expr) -> ExprView
    decreases e,
{
    match e {
        Expr::VarRef(s) => ExprView::VarRef(s@),
        Expr::Literal(l) => ExprView::Literal(l),
        Expr::Call { fn_name, args } => ExprView::Call {
            fn_name: fn_name@,
            args: Seq::new(
                args.len() as nat,
                |i: int|
                    if 0 <= i < args.len() {
                        expr_view(args[i])
                    } else {
                        arbitrary()
                    },
            ),
        },
        Expr::Builtin { fn_name, input } => ExprView::Builtin { fn_name: fn_name@, input: input@ },
    }
}

/// The mathematical value of a block.
pub open spec fn block_view(b: Block) -> BlockView
    decreases b,
{
    BlockView(
        Seq::new(
            b.0.len() as nat,
            |i: int|
                if 0 <= i < b.0.len() {
                    statement_view(b.0[i])
                } else {
                    arbitrary()
                },
        ),
    )
}

/// The mathematical value of a statement.
pub open spec fn statement_view(s: Statement) -> StatementView
    decreases s,
{
    match s {
        Statement::Block(b) => StatementView::Block(block_view(b)),
        Statement::FnDef(f) => StatementView::FnDef(function_view(f)),
        Statement::Assignment { to, expr } => StatementView::Assignment {
            to: texts(to@),
            expr: expr_view(expr),
        },
        Statement::If { cond, body } => StatementView::If {
            cond: expr_view(cond),
            body: block_view(body),
        },
        Statement::Switch { cond, cases, default } => StatementView::Switch {
            cond: expr_view(cond),
            cases: Seq::new(
                cases.len() as nat,
                |i: int|
                    if 0 <= i < cases.len() {
                        (cases[i].0, block_view(cases[i].1))
                    } else {
                        arbitrary()
                    },
            ),
            default: match default {
                Some(b) => Some(block_view(b)),
                None => None,
            },
        },
        Statement::ForLoop { setup, cond, on_iter, body } => StatementView::ForLoop {
            setup: block_view(setup),
            cond: expr_view(cond),
            on_iter: block_view(on_iter),
            body: block_view(body),
        },
        Statement::Leave => StatementView::Leave,
        Statement::Break => StatementView::Break,
        Statement::Continue => StatementView::Continue,
    }
}

/// The mathematical value of a function definition.
pub open spec fn function_view(f: FunctionDefinition) -> FunctionDefinitionView
    decreases f,
{
    FunctionDefinitionView {
        name: f.name@,
        args: texts(f.args@),
        rets: texts(f.rets@),
        body: block_view(f.body),
    }
}

/// The mathematical value of a program unit.
pub open spec fn object_view(o: YulObject) -> YulObjectView
    decreases o,
{
    YulObjectView {
        name: o.name@,
        code: block_view(o.code),
        objects: Seq::new(
            o.objects.len() as nat,
            |i: int|
                if 0 <= i < o.objects.len() {
                    object_view(o.objects[i])
                } else {
                    arbitrary()
                },
        ),
        data: Seq::new(o.data.len() as nat, |i: int| (o.data[i].0@, o.data[i].1@)),
    }
}

impl View for Expr {
    type V = ExprView;

    open spec fn view(&self) -> ExprView {
        expr_view(*self)
    }
}

impl View for Block {
    type V = BlockView;

    open spec fn view(&self) -> BlockView {
        block_view(*self)
    }
}

impl View for Statement {
    type V = StatementView;

    open spec fn view(&self) -> StatementView {
        statement_view(*self)
    }
}

impl View for FunctionDefinition {
    type V = FunctionDefinitionView;

    open spec fn view(&self) -> FunctionDefinitionView {
        function_view(*self)
    }
}

impl View for YulObject {
    type V = YulObjectView;

    open spec fn view(&self) -> YulObjectView {
        object_view(*self)
    }
}

/// A copy of a list of identifiers.
pub fn clone_names(names: &Vec<String>) -> (r: Vec<String>)
    ensures
        texts(r@) == texts(names@),
{
    let mut r: Vec<String> = Vec::new();
    let mut i: usize = 0;
    while i < names.len()
        invariant
            i <= names.len(),
            r.len() == i,
            forall|j: int| 0 <= j < i ==> r[j]@ == names[j]@,
        decreases names.len() - i,
    {
        r.push(names[i].clone());
        i += 1;
    }
    assert(texts(r@) =~= texts(names@));
    r
}

/// A copy of a list of bytes.
fn clone_bytes(bytes: &Vec<u8>) -> (r: Vec<u8>)
    ensures
        r@ == bytes@,
{
    let mut r: Vec<u8> = Vec::new();
    let mut i: usize = 0;
    while i < bytes.len()
        invariant
            i <= bytes.len(),
            r@ == bytes@.take(i as int),
        decreases bytes.len() - i,
    {
        r.push(bytes[i]);
        assert(r@ =~= bytes@.take(i + 1));
        i += 1;
    }
    assert(r@ =~= bytes@);
    r
}

impl Clone for Expr {
    fn clone(&self) -> (e: Expr)
        ensures
            e@ == self@,
        decreases self,
    {
        match self {
            Expr::VarRef(s) => Expr::VarRef(s.clone()),
            Expr::Literal(l) => Expr::Literal(*l),
            Expr::Builtin { fn_name, input } => Expr::Builtin {
                fn_name: fn_name.clone(),
                input: input.clone(),
            },
            Expr::Call { fn_name, args } => {
                let mut copies: Vec<Expr> = Vec::new();
                let mut i: usize = 0;
                while i < args.len()
                    invariant
                        i <= args.len(),
                        self is Call,
                        self->args == *args,
                        copies.len() == i,
                        forall|j: int| 0 <= j < i ==> copies[j]@ == args[j]@,
                    decreases args.len() - i,
                {
                    proof {
                        vstd::std_specs::vec::axiom_vec_index_decreases(*args, i as int);
                    }
                    copies.push(args[i].clone());
                    i += 1;
                }
                let e = Expr::Call { fn_name: fn_name.clone(), args: copies };
                assert(e@->args =~= self@->args);
                e
            },
        }
    }
}

impl Clone for Block {
    fn clone(&self) -> (b: Block)
        ensures
            b@ == self@,
        decreases self,
    {
        let mut copies: Vec<Statement> = Vec::new();
        let mut i: usize = 0;
        while i < self.0.len()
            invariant
                i <= self.0.len(),
                copies.len() == i,
                forall|j: int| 0 <= j < i ==> copies[j]@ == self.0[j]@,
            decreases self.0.len() - i,
        {
            proof {
                vstd::std_specs::vec::axiom_vec_index_decreases(self.0, i as int);
            }
            copies.push(self.0[i].clone());
            i += 1;
        }
        let b = Block(copies);
        assert(b@.0 =~= self@.0);
        b
    }
}

impl Clone for Statement {
    fn clone(&self) -> (s: Statement)
        ensures
            s@ == self@,
        decreases self,
    {
        match self {
            Statement::Block(b) => Statement::Block(b.clone()),
            Statement::FnDef(f) => Statement::FnDef(f.clone()),
            Statement::Assignment { to, expr } => Statement::Assignment {
                to: clone_names(to),
                expr: expr.clone(),
            },
            Statement::If { cond, body } => Statement::If { cond: cond.clone(), body: body.clone() },
            Statement::Switch { cond, cases, default } => {
                let mut copies: Vec<(Literal, Block)> = Vec::new();
                let mut i: usize = 0;
                while i < cases.len()
                    invariant
                        i <= cases.len(),
                        self is Switch,
                        self->cases == *cases,
                        copies.len() == i,
                        forall|j: int|
                            0 <= j < i ==> copies[j].0 == cases[j].0 && copies[j].1@ == cases[j].1@,
                    decreases cases.len() - i,
                {
                    proof {
                        vstd::std_specs::vec::axiom_vec_index_decreases(*cases, i as int);
                    }
                    copies.push((cases[i].0, cases[i].1.clone()));
                    i += 1;
                }
                let default = match default {
                    Some(b) => Some(b.clone()),
                    None => None,
                };
                let s = Statement::Switch { cond: cond.clone(), cases: copies, default };
                assert(s@->cases =~= self@->cases);
                s
            },
            Statement::ForLoop { setup, cond, on_iter, body } => Statement::ForLoop {
                setup: setup.clone(),
                cond: cond.clone(),
                on_iter: on_iter.clone(),
                body: body.clone(),
            },
            Statement::Leave => Statement::Leave,
            Statement::Break => Statement::Break,
            Statement::Continue => Statement::Continue,
        }
    }
}

impl Clone for FunctionDefinition {
    fn clone(&self) -> (f: FunctionDefinition)
        ensures
            f@ == self@,
        decreases self,
    {
        FunctionDefinition {
            name: self.name.clone(),
            args: clone_names(&self.args),
            rets: clone_names(&self.rets),
            body: self.body.clone(),
        }
    }
}

impl Clone for YulObject {
    fn clone(&self) -> (o: YulObject)
        ensures
            o@ == self@,
        decreases self,
    {
        let mut objects: Vec<YulObject> = Vec::new();
        let mut i: usize = 0;
        while i < self.objects.len()
            invariant
                i <= self.objects.len(),
                objects.len() == i,
                forall|j: int| 0 <= j < i ==> objects[j]@ == self.objects[j]@,
            decreases self.objects.len() - i,
        {
            proof {
                vstd::std_specs::vec::axiom_vec_index_decreases(self.objects, i as int);
            }
            objects.push(self.objects[i].clone());
            i += 1;
        }
        let mut data: Vec<(String, Vec<u8>)> = Vec::new();
        let mut k: usize = 0;
        while k < self.data.len()
            invariant
                k <= self.data.len(),
                data.len() == k,
                forall|j: int|
                    0 <= j < k ==> data[j].0@ == self.data[j].0@ && data[j].1@ == self.data[j].1@,
            decreases self.data.len() - k,
        {
            data.push((self.data[k].0.clone(), clone_bytes(&self.data[k].1)));
            k += 1;
        }
        let o = YulObject { name: self.name.clone(), code: self.code.clone(), objects, data };
        assert(o@.objects =~= self@.objects);
        assert(o@.data =~= self@.data);
        o
    }
}

} // verus!
