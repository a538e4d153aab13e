//! Blocks in three-address form: every statement binds names to a value or
//! to the results of one call on plain operands.

use vstd::prelude::*;
use crate::ir::{texts, Literal};

verus! {

/// The name of a value: an identifier of the source program, or an
/// intermediate numbered while a block is flattened.
#[derive(Clone, Debug, PartialEq, Eq)]
pub enum Name {
    Ident(String),
    Intermed(usize),
}

/// What a statement reads: a named value or a literal word.
#[derive(Clone, Debug, PartialEq, Eq)]
pub enum Value {
    RefName(Name),
    Literal(Literal),
}

/// A three-address statement.
#[derive(Clone, Debug, PartialEq, Eq)]
pub enum Statement {
    CallAssign { assigns: Vec<Name>, calls: String, takes: Vec<Value> },
    ValueAssign { to: Name, value: Value },
}

/// A straight-line block of three-address statements between two stack
/// layouts. The top of a stack is the last element of its layout.
#[derive(Clone, Debug, PartialEq, Eq)]
pub struct Block {
    pub start_stack: Vec<String>,
    pub statements: Vec<Statement>,
    pub end_stack: Vec<String>,
}

/// The mathematical value of a `Name`.
pub ghost enum NameView {
    Ident(Seq<char>),
    Intermed(nat),
}

/// The mathematical value of a `Value`.
pub ghost enum ValueView {
    RefName(NameView),
    Literal(Literal),
}

/// The mathematical value of a `Statement`.
pub ghost enum StatementView {
    CallAssign { assigns: Seq<NameView>, calls: Seq<char>, takes: Seq<ValueView> },
    ValueAssign { to: NameView, value: ValueView },
}

/// The mathematical value of a `Block`.
pub ghost struct BlockView {
    pub start_stack: Seq<Seq<char>>,
    pub statements: Seq<StatementView>,
    pub end_stack: Seq<Seq<char>>,
}

impl View for Name {
    type V = NameView;

    open spec fn view(&self) -> NameView {
        match self {
            Name::Ident(s) => NameView::Ident(s@),
            Name::Intermed(id) => NameView::Intermed(*id as nat),
        }
    }
}

impl View for Value {
    type V = ValueView;

    open spec fn view(&self) -> ValueView {
        match self {
            Value::RefName(n) => ValueView::RefName(n@),
            Value::Literal(l) => ValueView::Literal(*l),
        }
    }
}

/// The values of a list of names.
pub open spec fn names_view(v: Seq<Name>) -> Seq<NameView> {
    Seq::new(v.len(), |i: int| v[i]@)
}

/// The values of a list of operands.
pub open spec fn values_view(v: Seq<Value>) -> Seq<ValueView> {
    Seq::new(v.len(), |i: int| v[i]@)
}

impl View for Statement {
    type V = StatementView;

    open spec fn view(&self) -> StatementView {
        match self {
            Statement::CallAssign { assigns, calls, takes } => StatementView::CallAssign {
                assigns: names_view(assigns@),
                calls: calls@,
                takes: values_view(takes@),
            },
            Statement::ValueAssign { to, value } => StatementView::ValueAssign {
                to: to@,
                value: value@,
            },
        }
    }
}

/// The values of a list of statements.
pub open spec fn statements_view(v: Seq<Statement>) -> Seq<StatementView> {
    Seq::new(v.len(), |i: int| v[i]@)
}

impl View for Block {
    type V = BlockView;

    open spec fn view(&self) -> BlockView {
        BlockView {
            start_stack: texts(self.start_stack@),
            statements: statements_view(self.statements@),
            end_stack: texts(self.end_stack@),
        }
    }
}

impl Name {
    /// Whether two names are the same: the same kind with the same payload.
    pub fn same(&self, other: &Name) -> (r: bool)
        ensures
            r == (self@ == other@),
    {
        match self {
            Name::Ident(a) => match other {
                Name::Ident(b) => *a == *b,
                Name::Intermed(_) => false,
            },
            Name::Intermed(x) => match other {
                Name::Ident(_) => false,
                Name::Intermed(y) => *x == *y,
            },
        }
    }

    /// A copy of the name.
    pub fn duplicate(&self) -> (r: Name)
        ensures
            r@ == self@,
    {
        match self {
            Name::Ident(a) => Name::Ident(a.clone()),
            Name::Intermed(x) => Name::Intermed(*x),
        }
    }
}

impl Value {
    /// The operand that reads the identifier `name`.
    pub fn ident(name: &String) -> (r: Value)
        ensures
            r@ == ValueView::RefName(NameView::Ident(name@)),
    {
        Value::RefName(Name::Ident(name.clone()))
    }
}

impl From<String> for Name {
    /// The identifier of this text.
    fn from(value: String) -> (r: Name) {
        Name::Ident(value)
    }
}

impl vstd::std_specs::convert::FromSpecImpl<String> for Name {
    open spec fn obeys_from_spec() -> bool {
        true
    }

    open spec fn from_spec(value: String) -> Name {
        Name::Ident(value)
    }
}

impl From<&String> for Name {
    /// The identifier of this text.
    fn from(value: &String) -> (r: Name) {
        Name::Ident(value.clone())
    }
}

impl vstd::std_specs::convert::FromSpecImpl<&String> for Name {
    open spec fn obeys_from_spec() -> bool {
        true
    }

    open spec fn from_spec(value: &String) -> Name {
        Name::Ident(*value)
    }
}

impl From<Name> for Value {
    /// The operand that reads the name.
    fn from(value: Name) -> (r: Value) {
        Value::RefName(value)
    }
}

impl vstd::std_specs::convert::FromSpecImpl<Name> for Value {
    open spec fn obeys_from_spec() -> bool {
        true
    }

    open spec fn from_spec(value: Name) -> Value {
        Value::RefName(value)
    }
}

} // verus!
