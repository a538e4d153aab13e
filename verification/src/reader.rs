//! Reading the structured representation off a parse tree.

use vstd::prelude::*;
use crate::ir::{
    texts, Block, BlockView, Expr, ExprView, Literal, Statement, StatementView, YulObject,
    YulObjectView,
};
use crate::k_parser::{
    cons_items, lemma_cons_items_are_parts, refs_view, KApply, KAst, KInner, KToken,
};
use crate::text::{
    decimal_bytes, decimal_to_bytes, hex_decode, hex_decoded, same_text, strip_prefix, strip_suffix,
    without_prefix, without_suffix,
};

verus! {

/// Why a parse tree is no program of the structured representation.
#[derive(Clone, Copy, Debug, PartialEq, Eq, Structural)]
pub enum ConvertError {
    /// A token stands where an application is expected.
    ExpectedApply,
    /// An application stands where a token is expected.
    ExpectedToken,
    /// An application has another number of arguments than its label asks.
    ArgCount,
    /// A cons list is malformed: a node of it lacks its second argument,
    /// or has a token there.
    MalformedList,
    /// An application that is no call stands where an expression is
    /// expected.
    UnknownExpression,
    /// A builtin is called with another number of arguments than one.
    BuiltinArity,
    /// A hexadecimal literal or data section lacks its frame, has an odd
    /// number of digits, or holds a character that is no digit.
    MalformedHex,
    /// A decimal literal is no number.
    MalformedInteger,
    /// A literal has more than 32 bytes.
    LiteralTooLong,
    /// A token of an unknown sort.
    UnknownToken,
    /// An application with an unknown label stands where a statement is
    /// expected.
    UnknownStatement,
    /// A node has another label than the one expected.
    UnexpectedLabel,
    /// A case of a switch is no literal.
    CaseNotLiteral,
    /// The tree holds no program unit.
    NoObject,
    /// The tree holds more than one program unit at top level.
    ManyObjects,
}

/// `bytes` at the right end of 32 bytes, with zero bytes before them.
pub open spec fn right_aligned(bytes: Seq<u8>) -> Seq<u8> {
    Seq::new(
        32,
        |k: int|
            if k >= 32 - bytes.len() {
                bytes[k - (32 - bytes.len())]
            } else {
                0u8
            },
    )
}

/// The word that holds `bytes` at its right end.
pub open spec fn word_of(bytes: Seq<u8>) -> Literal {
    choose|w: Literal| w@ == right_aligned(bytes)
}

/// The word of a literal of the given bytes; more than 32 bytes are too
/// long.
pub open spec fn literal_of(bytes: Seq<u8>) -> Result<Literal, ConvertError> {
    if bytes.len() > 32 {
        Err(ConvertError::LiteralTooLong)
    } else {
        Ok(word_of(bytes))
    }
}

/// The word that holds `bytes` at its right end, the bytes before them
/// zero. Fails on more than 32 bytes.
pub fn bytes_to_literal(bytes: Vec<u8>) -> (r: Result<Literal, ConvertError>)
    ensures
        r == literal_of(bytes@),
        r matches Ok(w) ==> w@ == right_aligned(bytes@),
{
    if bytes.len() > 32 {
        return Err(ConvertError::LiteralTooLong);
    }
    let mut lit: Literal = [0u8;32];
    let offset: usize = 32 - bytes.len();
    let mut i: usize = 0;
    while i < bytes.len()
        invariant
            i <= bytes.len() <= 32,
            offset == 32 - bytes.len(),
            forall|k: int| 0 <= k < offset ==> lit@[k] == 0u8,
            forall|k: int| 0 <= k < i ==> lit@[offset + k] == bytes@[k],
        decreases bytes.len() - i,
    {
        lit[offset + i] = bytes[i];
        i += 1;
    }
    assert(lit@ =~= right_aligned(bytes@));
    assert(lit =~= word_of(bytes@));
    Ok(lit)
}

/// The application that a node is.
pub open spec fn apply_of(k: KInner) -> Result<KApply, ConvertError> {
    match k {
        KInner::KApply(a) => Ok(a),
        KInner::KToken(_) => Err(ConvertError::ExpectedApply),
    }
}

/// The token that a node is.
pub open spec fn token_of(k: KInner) -> Result<KToken, ConvertError> {
    match k {
        KInner::KToken(t) => Ok(t),
        KInner::KApply(_) => Err(ConvertError::ExpectedToken),
    }
}

/// The items of the cons list with the given label that a node is.
pub open spec fn items_of(k: KInner, label: Seq<char>) -> Result<Seq<KInner>, ConvertError> {
    match k {
        KInner::KApply(list) => match cons_items(list, label) {
            Ok(items) => Ok(items),
            Err(_) => Err(ConvertError::MalformedList),
        },
        KInner::KToken(_) => Err(ConvertError::ExpectedApply),
    }
}

/// Whether a label is that of a call.
pub open spec fn is_call_label(label: Seq<char>) -> bool {
    label == "function_call"@ || label == "function_call_values"@
}

/// Whether a function name is that of a builtin, whose argument is a
/// token and no value.
pub open spec fn is_builtin_name(name: Seq<char>) -> bool {
    name == "datasize"@ || name == "dataoffset"@ || name == "setimmutable"@ || name
        == "getimmutable"@
}

/// The bytes of a text of hexadecimal digits.
pub open spec fn hex_bytes(digits: Seq<char>) -> Result<Seq<u8>, ConvertError> {
    match hex_decoded(vstd::utf8::encode_utf8(digits)) {
        Some(bytes) => Ok(bytes),
        None => Err(ConvertError::MalformedHex),
    }
}

/// The expression that a token stands for: a hexadecimal literal behind
/// `0x`, a decimal literal, or an identifier.
pub open spec fn expr_of_token(t: KToken) -> Result<ExprView, ConvertError> {
    if t.sort.name@ == "HexLiteral"@ {
        match without_prefix(t.token@, "0x"@) {
            None => Err(ConvertError::MalformedHex),
            Some(digits) => match hex_bytes(digits) {
                Err(e) => Err(e),
                Ok(bytes) => match literal_of(bytes) {
                    Ok(w) => Ok(ExprView::Literal(w)),
                    Err(e) => Err(e),
                },
            },
        }
    } else if t.sort.name@ == "Int"@ {
        match decimal_bytes(t.token@) {
            None => Err(ConvertError::MalformedInteger),
            Some(bytes) => match literal_of(bytes) {
                Ok(w) => Ok(ExprView::Literal(w)),
                Err(e) => Err(e),
            },
        }
    } else if t.sort.name@ == "Identifier"@ {
        Ok(ExprView::VarRef(t.token@))
    } else {
        Err(ConvertError::UnknownToken)
    }
}

/// The expression that a node stands for.
pub open spec fn expr_of(k: KInner) -> Result<ExprView, ConvertError>
    decreases k, 2nat,
{
    match k {
        KInner::KApply(a) => expr_of_apply(a),
        KInner::KToken(t) => expr_of_token(t),
    }
}

/// The expression that an application stands for: a call of the function
/// named by its first argument with the expressions listed in its second;
/// a builtin where the name is that of one.
pub open spec fn expr_of_apply(k: KApply) -> Result<ExprView, ConvertError>
    decreases k, 1nat,
{
    if !is_call_label(k.label.name@) {
        Err(ConvertError::UnknownExpression)
    } else if k.args.len() != 2 {
        Err(ConvertError::ArgCount)
    } else {
        match items_of(k.args[1], "expression_list"@) {
            Err(e) => Err(e),
            Ok(items) => match token_of(k.args[0]) {
                Err(e) => Err(e),
                Ok(ident) => if is_builtin_name(ident.token@) {
                    if items.len() == 1 {
                        match token_of(items[0]) {
                            Ok(t) => Ok(
                                ExprView::Builtin { fn_name: ident.token@, input: t.token@ },
                            ),
                            Err(e) => Err(e),
                        }
                    } else {
                        Err(ConvertError::BuiltinArity)
                    }
                } else {
                    match exprs_of(k, items, 0, Seq::empty()) {
                        Ok(args) => Ok(ExprView::Call { fn_name: ident.token@, args }),
                        Err(e) => Err(e),
                    }
                },
            },
        }
    }
}

/// `acc`, and behind it the expressions that the items from index `i` on
/// stand for. The items are parts of `parent`.
pub open spec fn exprs_of(parent: KApply, items: Seq<KInner>, i: int, acc: Seq<ExprView>) -> Result<
    Seq<ExprView>,
    ConvertError,
>
    decreases parent, 0nat, items.len() - i,
{
    if i < 0 || i >= items.len() {
        Ok(acc)
    } else if decreases_to!(parent => items[i]) {
        match expr_of(items[i]) {
            Ok(e) => exprs_of(parent, items, i + 1, acc.push(e)),
            Err(e) => Err(e),
        }
    } else {
        Err(ConvertError::MalformedList)
    }
}

/// The application that a node is.
fn as_apply(k: &KInner) -> (r: Result<&KApply, ConvertError>)
    ensures
        match r {
            Ok(a) => apply_of(*k) == Ok::<KApply, ConvertError>(*a),
            Err(e) => apply_of(*k) == Err::<KApply, ConvertError>(e),
        },
{
    match k.get_kapply() {
        Ok(a) => Ok(a),
        Err(_) => Err(ConvertError::ExpectedApply),
    }
}

/// The token that a node is.
fn as_token(k: &KInner) -> (r: Result<&KToken, ConvertError>)
    ensures
        match r {
            Ok(t) => token_of(*k) == Ok::<KToken, ConvertError>(*t),
            Err(e) => token_of(*k) == Err::<KToken, ConvertError>(e),
        },
{
    match k.get_token() {
        Ok(t) => Ok(t),
        Err(_) => Err(ConvertError::ExpectedToken),
    }
}

/// The items of the cons list with the given label that a node is.
fn list_items<'a>(k: &'a KInner, label: &str) -> (r: Result<Vec<&'a KInner>, ConvertError>)
    ensures
        match r {
            Ok(items) => items_of(*k, label@) == Ok::<Seq<KInner>, ConvertError>(
                refs_view(items@),
            ) && k is KApply && cons_items(k->KApply_0, label@) == Ok::<Seq<KInner>, Seq<char>>(
                refs_view(items@),
            ),
            Err(e) => items_of(*k, label@) == Err::<Seq<KInner>, ConvertError>(e),
        },
{
    let list = match k.get_kapply() {
        Ok(a) => a,
        Err(_) => {
            return Err(ConvertError::ExpectedApply);
        },
    };
    match list.flatten_cons(label) {
        Ok(items) => Ok(items),
        Err(_) => Err(ConvertError::MalformedList),
    }
}

/// Every item of a cons list that is the argument at `position` of an
/// application is a part of the application.
proof fn lemma_items_are_parts(k: KApply, position: int, label: Seq<char>, i: int)
    requires
        0 <= position < k.args.len(),
        k.args[position] is KApply,
        cons_items(k.args[position]->KApply_0, label) is Ok,
        0 <= i < cons_items(k.args[position]->KApply_0, label)->Ok_0.len(),
    ensures
        decreases_to!(k => cons_items(k.args[position]->KApply_0, label)->Ok_0[i]),
{
    lemma_cons_items_are_parts(k.args[position]->KApply_0, label, i);
    assert(decreases_to!(k => k.args[position]));
    assert(decreases_to!(k.args[position] => k.args[position]->KApply_0));
}

/// Whether a function name is that of a builtin.
fn is_builtin(name: &String) -> (r: bool)
    ensures
        r == is_builtin_name(name@),
{
    same_text(name, "datasize") || same_text(name, "dataoffset") || same_text(name, "setimmutable")
        || same_text(name, "getimmutable")
}

/// The bytes of a text of hexadecimal digits.
fn decode_hex(digits: &str) -> (r: Result<Vec<u8>, ConvertError>)
    ensures
        match r {
            Ok(bytes) => hex_bytes(digits@) == Ok::<Seq<u8>, ConvertError>(bytes@),
            Err(e) => hex_bytes(digits@) == Err::<Seq<u8>, ConvertError>(e),
        },
{
    match hex_decode(digits) {
        Ok(bytes) => Ok(bytes),
        Err(_) => Err(ConvertError::MalformedHex),
    }
}

impl Expr {
    /// The expression that a token stands for: a hexadecimal literal
    /// behind `0x`, a decimal literal, or an identifier.
    pub fn from_ktoken(ktoken: &KToken) -> (r: Result<Expr, ConvertError>)
        ensures
            match r {
                Ok(e) => expr_of_token(*ktoken) == Ok::<ExprView, ConvertError>(e@),
                Err(err) => expr_of_token(*ktoken) == Err::<ExprView, ConvertError>(err),
            },
    {
        if same_text(&ktoken.sort.name, "HexLiteral") {
            let digits = match strip_prefix(ktoken.token.as_str(), "0x") {
                Some(digits) => digits,
                None => {
                    return Err(ConvertError::MalformedHex);
                },
            };
            let bytes = match decode_hex(digits) {
                Ok(bytes) => bytes,
                Err(e) => {
                    return Err(e);
                },
            };
            match bytes_to_literal(bytes) {
                Ok(w) => Ok(Expr::Literal(w)),
                Err(e) => Err(e),
            }
        } else if same_text(&ktoken.sort.name, "Int") {
            let bytes = match decimal_to_bytes(ktoken.token.as_str()) {
                Ok(bytes) => bytes,
                Err(_) => {
                    return Err(ConvertError::MalformedInteger);
                },
            };
            match bytes_to_literal(bytes) {
                Ok(w) => Ok(Expr::Literal(w)),
                Err(e) => Err(e),
            }
        } else if same_text(&ktoken.sort.name, "Identifier") {
            Ok(Expr::VarRef(ktoken.token.clone()))
        } else {
            Err(ConvertError::UnknownToken)
        }
    }

    /// The expression that a node stands for.
    pub fn from_kinner(value: &KInner) -> (r: Result<Expr, ConvertError>)
        ensures
            match r {
                Ok(e) => expr_of(*value) == Ok::<ExprView, ConvertError>(e@),
                Err(err) => expr_of(*value) == Err::<ExprView, ConvertError>(err),
            },
        decreases value, 2nat,
    {
        match value {
            KInner::KApply(kapply) => Expr::from_kapply(kapply),
            KInner::KToken(ktoken) => Expr::from_ktoken(ktoken),
        }
    }

    /// The expression that an application stands for: a call of the
    /// function named by its first argument with the expressions listed
    /// in its second; a builtin where the name is that of one.
    #[verifier::loop_isolation(false)]
    pub fn from_kapply(value: &KApply) -> (r: Result<Expr, ConvertError>)
        ensures
            match r {
                Ok(e) => expr_of_apply(*value) == Ok::<ExprView, ConvertError>(e@),
                Err(err) => expr_of_apply(*value) == Err::<ExprView, ConvertError>(err),
            },
        decreases value, 1nat,
    {
        if !(same_text(&value.label.name, "function_call") || same_text(
            &value.label.name,
            "function_call_values",
        )) {
            return Err(ConvertError::UnknownExpression);
        }
        let (call_ident, expressions) = match value.unpack_2args() {
            Ok(pair) => pair,
            Err(_) => {
                return Err(ConvertError::ArgCount);
            },
        };
        let args = match list_items(expressions, "expression_list") {
            Ok(args) => args,
            Err(e) => {
                return Err(e);
            },
        };
        let ghost items = refs_view(args@);
        let ident = match as_token(call_ident) {
            Ok(t) => t,
            Err(e) => {
                return Err(e);
            },
        };
        let fn_name = ident.token.clone();
        if is_builtin(&fn_name) {
            if args.len() == 1 {
                assert(items[0] == *args[0]);
                match as_token(args[0]) {
                    Ok(t) => Ok(Expr::Builtin { fn_name, input: t.token.clone() }),
                    Err(e) => Err(e),
                }
            } else {
                Err(ConvertError::BuiltinArity)
            }
        } else {
            let mut converted: Vec<Expr> = Vec::new();
            let ghost mut acc: Seq<ExprView> = Seq::empty();
            let mut i: usize = 0;
            while i < args.len()
                invariant
                    i <= args.len(),
                    converted.len() == i,
                    acc.len() == i,
                    forall|j: int| 0 <= j < i ==> converted[j]@ == acc[j],
                    exprs_of(*value, items, 0, Seq::empty()) == exprs_of(
                        *value,
                        items,
                        i as int,
                        acc,
                    ),
                decreases args.len() - i,
            {
                proof {
                    lemma_items_are_parts(*value, 1, "expression_list"@, i as int);
                }
                assert(items[i as int] == *args[i as int]);
                match Expr::from_kinner(args[i]) {
                    Ok(e) => {
                        proof {
                            acc = acc.push(e@);
                        }
                        converted.push(e);
                    },
                    Err(err) => {
                        return Err(err);
                    },
                }
                i += 1;
            }
            let e = Expr::Call { fn_name, args: converted };
            assert(e@->args =~= acc);
            Ok(e)
        }
    }
}

/// `acc`, and behind it the texts of the tokens that the items from index
/// `i` on are.
pub open spec fn names_of(items: Seq<KInner>, i: int, acc: Seq<Seq<char>>) -> Result<
    Seq<Seq<char>>,
    ConvertError,
>
    decreases items.len() - i,
{
    if i < 0 || i >= items.len() {
        Ok(acc)
    } else {
        match token_of(items[i]) {
            Ok(t) => names_of(items, i + 1, acc.push(t.token@)),
            Err(e) => Err(e),
        }
    }
}

/// The statement that a node stands for: a block, a binding of names, a
/// conditional, a call for its effect, or a switch.
pub open spec fn statement_of(k: KInner) -> Result<StatementView, ConvertError>
    decreases k, 3nat,
{
    match k {
        KInner::KToken(_) => Err(ConvertError::ExpectedApply),
        KInner::KApply(value) => {
            let label = value.label.name@;
            if label == "block"@ {
                match block_of(value) {
                    Ok(b) => Ok(StatementView::Block(b)),
                    Err(e) => Err(e),
                }
            } else if label == "let"@ {
                binding_of(value)
            } else if label == "if"@ {
                conditional_of(value)
            } else if is_call_label(label) {
                match expr_of_apply(value) {
                    Err(e) => Err(e),
                    Ok(expr) => Ok(StatementView::Assignment { to: Seq::empty(), expr }),
                }
            } else if label == "switch_default"@ {
                switch_of(value)
            } else {
                Err(ConvertError::UnknownStatement)
            }
        },
    }
}

/// The assignment that a binding stands for: the names listed in its
/// first argument take the value of its second.
pub open spec fn binding_of(value: KApply) -> Result<StatementView, ConvertError>
    decreases value, 2nat,
{
    if value.args.len() != 2 {
        Err(ConvertError::ArgCount)
    } else {
        match items_of(value.args[0], "typed_id_list"@) {
            Err(e) => Err(e),
            Ok(ids) => match names_of(ids, 0, Seq::empty()) {
                Err(e) => Err(e),
                Ok(to) => match expr_of(value.args[1]) {
                    Err(e) => Err(e),
                    Ok(expr) => Ok(StatementView::Assignment { to, expr }),
                },
            },
        }
    }
}

/// The conditional that an application stands for: its first argument is
/// the condition, its second the body.
pub open spec fn conditional_of(value: KApply) -> Result<StatementView, ConvertError>
    decreases value, 2nat,
{
    if value.args.len() != 2 {
        Err(ConvertError::ArgCount)
    } else {
        match expr_of(value.args[0]) {
            Err(e) => Err(e),
            Ok(cond) => match apply_of(value.args[1]) {
                Err(e) => Err(e),
                Ok(b) => match block_of(b) {
                    Err(e) => Err(e),
                    Ok(body) => Ok(StatementView::If { cond, body }),
                },
            },
        }
    }
}

/// The switch that an application stands for: its first argument is the
/// value switched on, its second lists the cases. It has no default.
pub open spec fn switch_of(value: KApply) -> Result<StatementView, ConvertError>
    decreases value, 2nat,
{
    if value.args.len() != 2 {
        Err(ConvertError::ArgCount)
    } else {
        match items_of(value.args[1], "case_list"@) {
            Err(e) => Err(e),
            Ok(items) => match cases_of(value, items, 0, Seq::empty()) {
                Err(e) => Err(e),
                Ok(cases) => match expr_of(value.args[0]) {
                    Err(e) => Err(e),
                    Ok(cond) => Ok(StatementView::Switch { cond, cases, default: None }),
                },
            },
        }
    }
}

/// The block that an application stands for: its label is `block`, and
/// its one argument lists the statements.
pub open spec fn block_of(k: KApply) -> Result<BlockView, ConvertError>
    decreases k, 1nat,
{
    if k.label.name@ != "block"@ {
        Err(ConvertError::UnexpectedLabel)
    } else if k.args.len() != 1 {
        Err(ConvertError::ArgCount)
    } else {
        match items_of(k.args[0], "statement_list"@) {
            Err(e) => Err(e),
            Ok(items) => match statements_of(k, items, 0, Seq::empty()) {
                Ok(stmts) => Ok(BlockView(stmts)),
                Err(e) => Err(e),
            },
        }
    }
}

/// `acc`, and behind it the statements that the items from index `i` on
/// stand for. The items are parts of `parent`.
pub open spec fn statements_of(
    parent: KApply,
    items: Seq<KInner>,
    i: int,
    acc: Seq<StatementView>,
) -> Result<Seq<StatementView>, ConvertError>
    decreases parent, 0nat, items.len() - i,
{
    if i < 0 || i >= items.len() {
        Ok(acc)
    } else if decreases_to!(parent => items[i]) {
        match statement_of(items[i]) {
            Ok(s) => statements_of(parent, items, i + 1, acc.push(s)),
            Err(e) => Err(e),
        }
    } else {
        Err(ConvertError::MalformedList)
    }
}

/// The case of a switch that a node stands for: a literal and a block.
pub open spec fn case_of(k: KInner) -> Result<(Literal, BlockView), ConvertError>
    decreases k, 2nat,
{
    match k {
        KInner::KToken(_) => Err(ConvertError::ExpectedApply),
        KInner::KApply(c) => if c.args.len() != 2 {
            Err(ConvertError::ArgCount)
        } else {
            match token_of(c.args[0]) {
                Err(e) => Err(e),
                Ok(t) => match expr_of_token(t) {
                    Err(e) => Err(e),
                    Ok(ExprView::Literal(l)) => match apply_of(c.args[1]) {
                        Err(e) => Err(e),
                        Ok(b) => match block_of(b) {
                            Err(e) => Err(e),
                            Ok(body) => Ok((l, body)),
                        },
                    },
                    Ok(_) => Err(ConvertError::CaseNotLiteral),
                },
            }
        },
    }
}

/// `acc`, and behind it the cases that the items from index `i` on stand
/// for. The items are parts of `parent`.
pub open spec fn cases_of(
    parent: KApply,
    items: Seq<KInner>,
    i: int,
    acc: Seq<(Literal, BlockView)>,
) -> Result<Seq<(Literal, BlockView)>, ConvertError>
    decreases parent, 0nat, items.len() - i,
{
    if i < 0 || i >= items.len() {
        Ok(acc)
    } else if decreases_to!(parent => items[i]) {
        match case_of(items[i]) {
            Ok(c) => cases_of(parent, items, i + 1, acc.push(c)),
            Err(e) => Err(e),
        }
    } else {
        Err(ConvertError::MalformedList)
    }
}

/// The texts of the tokens that a list of nodes are.
fn token_texts(items: &Vec<&KInner>) -> (r: Result<Vec<String>, ConvertError>)
    ensures
        match r {
            Ok(names) => names_of(refs_view(items@), 0, Seq::empty()) == Ok::<
                Seq<Seq<char>>,
                ConvertError,
            >(texts(names@)),
            Err(e) => names_of(refs_view(items@), 0, Seq::empty()) == Err::<
                Seq<Seq<char>>,
                ConvertError,
            >(e),
        },
{
    let ghost list = refs_view(items@);
    let mut names: Vec<String> = Vec::new();
    assert(texts(names@) =~= Seq::empty());
    let mut i: usize = 0;
    while i < items.len()
        invariant
            i <= items.len(),
            list == refs_view(items@),
            names_of(list, 0, Seq::empty()) == names_of(list, i as int, texts(names@)),
        decreases items.len() - i,
    {
        assert(list[i as int] == *items[i as int]);
        let ghost before = texts(names@);
        match as_token(items[i]) {
            Ok(t) => {
                names.push(t.token.clone());
                assert(texts(names@) =~= before.push(t.token@));
            },
            Err(e) => {
                return Err(e);
            },
        }
        i += 1;
    }
    Ok(names)
}

impl Statement {
    /// The statement that a node stands for: a block, a binding of names,
    /// a conditional, a call for its effect, or a switch.
    pub fn from_kinner(k_inner: &KInner) -> (r: Result<Statement, ConvertError>)
        ensures
            match r {
                Ok(s) => statement_of(*k_inner) == Ok::<StatementView, ConvertError>(s@),
                Err(e) => statement_of(*k_inner) == Err::<StatementView, ConvertError>(e),
            },
        decreases k_inner, 3nat,
    {
        let value = match as_apply(k_inner) {
            Ok(a) => a,
            Err(e) => {
                return Err(e);
            },
        };
        if same_text(&value.label.name, "block") {
            match Block::from_kapply(value) {
                Ok(b) => Ok(Statement::Block(b)),
                Err(e) => Err(e),
            }
        } else if same_text(&value.label.name, "let") {
            Statement::binding_from_kapply(value)
        } else if same_text(&value.label.name, "if") {
            Statement::conditional_from_kapply(value)
        } else if same_text(&value.label.name, "function_call") || same_text(
            &value.label.name,
            "function_call_values",
        ) {
            match Expr::from_kapply(value) {
                Ok(expr) => {
                    let to: Vec<String> = Vec::new();
                    assert(texts(to@) =~= Seq::empty());
                    Ok(Statement::Assignment { to, expr })
                },
                Err(e) => Err(e),
            }
        } else if same_text(&value.label.name, "switch_default") {
            Statement::switch_from_kapply(value)
        } else {
            Err(ConvertError::UnknownStatement)
        }
    }

    /// The assignment that a binding stands for: the names listed in its
    /// first argument take the value of its second.
    pub fn binding_from_kapply(value: &KApply) -> (r: Result<Statement, ConvertError>)
        ensures
            match r {
                Ok(s) => binding_of(*value) == Ok::<StatementView, ConvertError>(s@),
                Err(e) => binding_of(*value) == Err::<StatementView, ConvertError>(e),
            },
        decreases value, 2nat,
    {
        let (id_list, expr) = match value.unpack_2args() {
            Ok(pair) => pair,
            Err(_) => {
                return Err(ConvertError::ArgCount);
            },
        };
        let identifiers = match list_items(id_list, "typed_id_list") {
            Ok(items) => items,
            Err(e) => {
                return Err(e);
            },
        };
        let to = match token_texts(&identifiers) {
            Ok(to) => to,
            Err(e) => {
                return Err(e);
            },
        };
        match Expr::from_kinner(expr) {
            Ok(expr) => Ok(Statement::Assignment { to, expr }),
            Err(e) => Err(e),
        }
    }

    /// The conditional that an application stands for: its first argument
    /// is the condition, its second the body.
    pub fn conditional_from_kapply(value: &KApply) -> (r: Result<Statement, ConvertError>)
        ensures
            match r {
                Ok(s) => conditional_of(*value) == Ok::<StatementView, ConvertError>(s@),
                Err(e) => conditional_of(*value) == Err::<StatementView, ConvertError>(e),
            },
        decreases value, 2nat,
    {
        let (expr, block) = match value.unpack_2args() {
            Ok(pair) => pair,
            Err(_) => {
                return Err(ConvertError::ArgCount);
            },
        };
        let cond = match Expr::from_kinner(expr) {
            Ok(cond) => cond,
            Err(e) => {
                return Err(e);
            },
        };
        let b = match as_apply(block) {
            Ok(b) => b,
            Err(e) => {
                return Err(e);
            },
        };
        match Block::from_kapply(b) {
            Ok(body) => Ok(Statement::If { cond, body }),
            Err(e) => Err(e),
        }
    }

    /// The switch that an application stands for: its first argument is
    /// the value switched on, its second lists the cases. It has no
    /// default.
    #[verifier::loop_isolation(false)]
    pub fn switch_from_kapply(value: &KApply) -> (r: Result<Statement, ConvertError>)
        ensures
            match r {
                Ok(s) => switch_of(*value) == Ok::<StatementView, ConvertError>(s@),
                Err(e) => switch_of(*value) == Err::<StatementView, ConvertError>(e),
            },
        decreases value, 2nat,
    {
        let (expr, case_list) = match value.unpack_2args() {
            Ok(pair) => pair,
            Err(_) => {
                return Err(ConvertError::ArgCount);
            },
        };
        let items = match list_items(case_list, "case_list") {
            Ok(items) => items,
            Err(e) => {
                return Err(e);
            },
        };
        let ghost list = refs_view(items@);
        let mut cases: Vec<(Literal, Block)> = Vec::new();
        let ghost mut acc: Seq<(Literal, BlockView)> = Seq::empty();
        let mut i: usize = 0;
        while i < items.len()
            invariant
                i <= items.len(),
                cases.len() == i,
                acc.len() == i,
                forall|j: int| 0 <= j < i ==> (cases[j].0, cases[j].1@) == acc[j],
                cases_of(*value, list, 0, Seq::empty()) == cases_of(*value, list, i as int, acc),
            decreases items.len() - i,
        {
            proof {
                lemma_items_are_parts(*value, 1, "case_list"@, i as int);
            }
            assert(list[i as int] == *items[i as int]);
            match Statement::case_from_kinner(items[i]) {
                Ok(case) => {
                    proof {
                        acc = acc.push((case.0, case.1@));
                    }
                    cases.push(case);
                },
                Err(e) => {
                    return Err(e);
                },
            }
            i += 1;
        }
        match Expr::from_kinner(expr) {
            Ok(cond) => {
                let s = Statement::Switch { cond, cases, default: None };
                assert(s@->cases =~= acc);
                Ok(s)
            },
            Err(e) => Err(e),
        }
    }

    /// The case of a switch that a node stands for: a literal and a block.
    pub fn case_from_kinner(case: &KInner) -> (r: Result<(Literal, Block), ConvertError>)
        ensures
            match r {
                Ok(c) => case_of(*case) == Ok::<(Literal, BlockView), ConvertError>((c.0, c.1@)),
                Err(e) => case_of(*case) == Err::<(Literal, BlockView), ConvertError>(e),
            },
        decreases case, 2nat,
    {
        let c = match as_apply(case) {
            Ok(c) => c,
            Err(e) => {
                return Err(e);
            },
        };
        let (literal, block) = match c.unpack_2args() {
            Ok(pair) => pair,
            Err(_) => {
                return Err(ConvertError::ArgCount);
            },
        };
        let t = match as_token(literal) {
            Ok(t) => t,
            Err(e) => {
                return Err(e);
            },
        };
        let parsed = match Expr::from_ktoken(t) {
            Ok(parsed) => parsed,
            Err(e) => {
                return Err(e);
            },
        };
        let lit = match parsed {
            Expr::Literal(lit) => lit,
            _ => {
                return Err(ConvertError::CaseNotLiteral);
            },
        };
        let b = match as_apply(block) {
            Ok(b) => b,
            Err(e) => {
                return Err(e);
            },
        };
        match Block::from_kapply(b) {
            Ok(body) => Ok((lit, body)),
            Err(e) => Err(e),
        }
    }
}

impl Block {
    /// The block that an application stands for: its label is `block`,
    /// and its one argument lists the statements.
    #[verifier::loop_isolation(false)]
    pub fn from_kapply(value: &KApply) -> (r: Result<Block, ConvertError>)
        ensures
            match r {
                Ok(b) => block_of(*value) == Ok::<BlockView, ConvertError>(b@),
                Err(e) => block_of(*value) == Err::<BlockView, ConvertError>(e),
            },
        decreases value, 1nat,
    {
        if !same_text(&value.label.name, "block") {
            return Err(ConvertError::UnexpectedLabel);
        }
        let list = match value.unpack_arg() {
            Ok(list) => list,
            Err(_) => {
                return Err(ConvertError::ArgCount);
            },
        };
        let items = match list_items(list, "statement_list") {
            Ok(items) => items,
            Err(e) => {
                return Err(e);
            },
        };
        let ghost nodes = refs_view(items@);
        let mut statements: Vec<Statement> = Vec::new();
        let ghost mut acc: Seq<StatementView> = Seq::empty();
        let mut i: usize = 0;
        while i < items.len()
            invariant
                i <= items.len(),
                statements.len() == i,
                acc.len() == i,
                forall|j: int| 0 <= j < i ==> statements[j]@ == acc[j],
                statements_of(*value, nodes, 0, Seq::empty()) == statements_of(
                    *value,
                    nodes,
                    i as int,
                    acc,
                ),
            decreases items.len() - i,
        {
            proof {
                lemma_items_are_parts(*value, 0, "statement_list"@, i as int);
            }
            assert(nodes[i as int] == *items[i as int]);
            match Statement::from_kinner(items[i]) {
                Ok(s) => {
                    proof {
                        acc = acc.push(s@);
                    }
                    statements.push(s);
                },
                Err(e) => {
                    return Err(e);
                },
            }
            i += 1;
        }
        let b = Block(statements);
        assert(b@.0 =~= acc);
        Ok(b)
    }
}

/// The label of the cons list of program units.
pub const OBJECT_LIST_CONS_LABEL: &'static str = "___YUL-OBJECTS_ObjectList_Object_ObjectList";

/// The label of a program unit.
pub const YUL_OBJECT_LABEL: &'static str =
    "object_{___}_YUL-OBJECTS_Object_StringLiteral_Code_DataList_ObjectList";

/// The data section that a node stands for: a name, and the bytes of the
/// hexadecimal digits between `hex"` and `"`.
pub open spec fn data_section_of(k: KInner) -> Result<(Seq<char>, Seq<u8>), ConvertError> {
    match k {
        KInner::KToken(_) => Err(ConvertError::ExpectedApply),
        KInner::KApply(d) => if d.args.len() != 2 {
            Err(ConvertError::ArgCount)
        } else {
            match token_of(d.args[0]) {
                Err(e) => Err(e),
                Ok(name) => match token_of(d.args[1]) {
                    Err(e) => Err(e),
                    Ok(t) => match without_prefix(t.token@, "hex\""@) {
                        None => Err(ConvertError::MalformedHex),
                        Some(framed) => match without_suffix(framed, "\""@) {
                            None => Err(ConvertError::MalformedHex),
                            Some(digits) => match hex_bytes(digits) {
                                Err(e) => Err(e),
                                Ok(bytes) => Ok((name.token@, bytes)),
                            },
                        },
                    },
                },
            }
        },
    }
}

/// `acc`, and behind it the data sections that the items from index `i`
/// on stand for.
pub open spec fn data_of(items: Seq<KInner>, i: int, acc: Seq<(Seq<char>, Seq<u8>)>) -> Result<
    Seq<(Seq<char>, Seq<u8>)>,
    ConvertError,
>
    decreases items.len() - i,
{
    if i < 0 || i >= items.len() {
        Ok(acc)
    } else {
        match data_section_of(items[i]) {
            Ok(d) => data_of(items, i + 1, acc.push(d)),
            Err(e) => Err(e),
        }
    }
}

/// The program unit that a node stands for: its name, its code, its data
/// sections and the units nested in it.
pub open spec fn object_of(k: KInner) -> Result<YulObjectView, ConvertError>
    decreases k, 1nat,
{
    match k {
        KInner::KToken(_) => Err(ConvertError::ExpectedApply),
        KInner::KApply(value) => if value.label.name@ != YUL_OBJECT_LABEL@ {
            Err(ConvertError::UnexpectedLabel)
        } else if value.args.len() != 4 {
            Err(ConvertError::ArgCount)
        } else {
            match code_of(value) {
                Err(e) => Err(e),
                Ok(code) => match token_of(value.args[0]) {
                    Err(e) => Err(e),
                    Ok(name) => match items_of(value.args[3], OBJECT_LIST_CONS_LABEL@) {
                        Err(e) => Err(e),
                        Ok(nested) => match objects_of(value, nested, 0, Seq::empty()) {
                            Err(e) => Err(e),
                            Ok(objects) => match items_of(value.args[2], "data_list"@) {
                                Err(e) => Err(e),
                                Ok(sections) => match data_of(sections, 0, Seq::empty()) {
                                    Err(e) => Err(e),
                                    Ok(data) => Ok(
                                        YulObjectView { name: name.token@, code, objects, data },
                                    ),
                                },
                            },
                        },
                    },
                },
            }
        },
    }
}

/// The code of a program unit: the statements listed in the first
/// argument of the unit's second argument.
pub open spec fn code_of(value: KApply) -> Result<BlockView, ConvertError>
    decreases value, 0nat, 1nat,
{
    if value.args.len() != 4 {
        Err(ConvertError::ArgCount)
    } else {
        match value.args[1] {
            KInner::KToken(_) => Err(ConvertError::ExpectedApply),
            KInner::KApply(code) => if code.args.len() != 2 {
                Err(ConvertError::ArgCount)
            } else {
                match items_of(code.args[0], "statement_list"@) {
                    Err(e) => Err(e),
                    Ok(items) => match statements_of(code, items, 0, Seq::empty()) {
                        Ok(stmts) => Ok(BlockView(stmts)),
                        Err(e) => Err(e),
                    },
                }
            },
        }
    }
}

/// `acc`, and behind it the program units that the items from index `i`
/// on stand for. The items are parts of `parent`.
pub open spec fn objects_of(
    parent: KApply,
    items: Seq<KInner>,
    i: int,
    acc: Seq<YulObjectView>,
) -> Result<Seq<YulObjectView>, ConvertError>
    decreases parent, 0nat, items.len() - i,
{
    if i < 0 || i >= items.len() {
        Ok(acc)
    } else if decreases_to!(parent => items[i]) {
        match object_of(items[i]) {
            Ok(o) => objects_of(parent, items, i + 1, acc.push(o)),
            Err(e) => Err(e),
        }
    } else {
        Err(ConvertError::MalformedList)
    }
}

/// The program unit of a parse tree: the one unit of its top-level list.
pub open spec fn object_of_ast(ast: KAst) -> Result<YulObjectView, ConvertError> {
    match items_of(ast.term, OBJECT_LIST_CONS_LABEL@) {
        Err(e) => Err(e),
        Ok(units) => if units.len() == 0 {
            Err(ConvertError::NoObject)
        } else if units.len() == 1 {
            object_of(units[0])
        } else {
            Err(ConvertError::ManyObjects)
        },
    }
}

/// The data section that a node stands for.
fn data_section(k: &KInner) -> (r: Result<(String, Vec<u8>), ConvertError>)
    ensures
        match r {
            Ok(d) => data_section_of(*k) == Ok::<(Seq<char>, Seq<u8>), ConvertError>((d.0@, d.1@)),
            Err(e) => data_section_of(*k) == Err::<(Seq<char>, Seq<u8>), ConvertError>(e),
        },
{
    let d = match as_apply(k) {
        Ok(d) => d,
        Err(e) => {
            return Err(e);
        },
    };
    let (name, data) = match d.unpack_2args() {
        Ok(pair) => pair,
        Err(_) => {
            return Err(ConvertError::ArgCount);
        },
    };
    let name = match as_token(name) {
        Ok(t) => t,
        Err(e) => {
            return Err(e);
        },
    };
    let t = match as_token(data) {
        Ok(t) => t,
        Err(e) => {
            return Err(e);
        },
    };
    let framed = match strip_prefix(t.token.as_str(), "hex\"") {
        Some(framed) => framed,
        None => {
            return Err(ConvertError::MalformedHex);
        },
    };
    let digits = match strip_suffix(framed, "\"") {
        Some(digits) => digits,
        None => {
            return Err(ConvertError::MalformedHex);
        },
    };
    match decode_hex(digits) {
        Ok(bytes) => Ok((name.token.clone(), bytes)),
        Err(e) => Err(e),
    }
}

/// The data sections that a list of nodes stand for.
fn data_sections(items: &Vec<&KInner>) -> (r: Result<Vec<(String, Vec<u8>)>, ConvertError>)
    ensures
        match r {
            Ok(data) => data_of(refs_view(items@), 0, Seq::empty()) == Ok::<
                Seq<(Seq<char>, Seq<u8>)>,
                ConvertError,
            >(Seq::new(data.len() as nat, |i: int| (data[i].0@, data[i].1@))),
            Err(e) => data_of(refs_view(items@), 0, Seq::empty()) == Err::<
                Seq<(Seq<char>, Seq<u8>)>,
                ConvertError,
            >(e),
        },
{
    let ghost list = refs_view(items@);
    let mut data: Vec<(String, Vec<u8>)> = Vec::new();
    let ghost mut acc: Seq<(Seq<char>, Seq<u8>)> = Seq::empty();
    let mut i: usize = 0;
    while i < items.len()
        invariant
            i <= items.len(),
            list == refs_view(items@),
            data.len() == i,
            acc.len() == i,
            forall|j: int| 0 <= j < i ==> (data[j].0@, data[j].1@) == acc[j],
            data_of(list, 0, Seq::empty()) == data_of(list, i as int, acc),
        decreases items.len() - i,
    {
        assert(list[i as int] == *items[i as int]);
        match data_section(items[i]) {
            Ok(d) => {
                proof {
                    acc = acc.push((d.0@, d.1@));
                }
                data.push(d);
            },
            Err(e) => {
                return Err(e);
            },
        }
        i += 1;
    }
    assert(acc =~= Seq::new(data.len() as nat, |i: int| (data[i].0@, data[i].1@)));
    Ok(data)
}

impl YulObject {
    /// The code of a program unit: the statements listed in the first
    /// argument of the unit's second argument.
    #[verifier::loop_isolation(false)]
    fn code_from_kapply(value: &KApply) -> (r: Result<Block, ConvertError>)
        requires
            value.args.len() == 4,
        ensures
            match r {
                Ok(b) => code_of(*value) == Ok::<BlockView, ConvertError>(b@),
                Err(e) => code_of(*value) == Err::<BlockView, ConvertError>(e),
            },
        decreases value, 0nat, 1nat,
    {
        let code = match as_apply(&value.args[1]) {
            Ok(code) => code,
            Err(e) => {
                return Err(e);
            },
        };
        let (list, _function_defs) = match code.unpack_2args() {
            Ok(pair) => pair,
            Err(_) => {
                return Err(ConvertError::ArgCount);
            },
        };
        let items = match list_items(list, "statement_list") {
            Ok(items) => items,
            Err(e) => {
                return Err(e);
            },
        };
        let ghost nodes = refs_view(items@);
        let mut statements: Vec<Statement> = Vec::new();
        let ghost mut acc: Seq<StatementView> = Seq::empty();
        let mut i: usize = 0;
        while i < items.len()
            invariant
                i <= items.len(),
                statements.len() == i,
                acc.len() == i,
                forall|j: int| 0 <= j < i ==> statements[j]@ == acc[j],
                statements_of(*code, nodes, 0, Seq::empty()) == statements_of(
                    *code,
                    nodes,
                    i as int,
                    acc,
                ),
            decreases items.len() - i,
        {
            proof {
                lemma_items_are_parts(*code, 0, "statement_list"@, i as int);
                assert(decreases_to!(value => value.args[1]));
                assert(decreases_to!(value.args[1] => *code));
            }
            assert(nodes[i as int] == *items[i as int]);
            match Statement::from_kinner(items[i]) {
                Ok(s) => {
                    proof {
                        acc = acc.push(s@);
                    }
                    statements.push(s);
                },
                Err(e) => {
                    return Err(e);
                },
            }
            i += 1;
        }
        let b = Block(statements);
        assert(b@.0 =~= acc);
        Ok(b)
    }

    /// The program unit that a node stands for: its name, its code, its
    /// data sections and the units nested in it.
    #[verifier::loop_isolation(false)]
    pub fn from_kinner(k: &KInner) -> (r: Result<YulObject, ConvertError>)
        ensures
            match r {
                Ok(o) => object_of(*k) == Ok::<YulObjectView, ConvertError>(o@),
                Err(e) => object_of(*k) == Err::<YulObjectView, ConvertError>(e),
            },
        decreases k, 1nat,
    {
        let value = match as_apply(k) {
            Ok(value) => value,
            Err(e) => {
                return Err(e);
            },
        };
        if !same_text(&value.label.name, YUL_OBJECT_LABEL) {
            return Err(ConvertError::UnexpectedLabel);
        }
        let (name, _code, data_list, inner_objs) = match value.unpack_4args() {
            Ok(parts) => parts,
            Err(_) => {
                return Err(ConvertError::ArgCount);
            },
        };
        let code = match YulObject::code_from_kapply(value) {
            Ok(code) => code,
            Err(e) => {
                return Err(e);
            },
        };
        let name = match as_token(name) {
            Ok(t) => t.token.clone(),
            Err(e) => {
                return Err(e);
            },
        };
        let nested = match list_items(inner_objs, OBJECT_LIST_CONS_LABEL) {
            Ok(items) => items,
            Err(e) => {
                return Err(e);
            },
        };
        let ghost nodes = refs_view(nested@);
        let mut objects: Vec<YulObject> = Vec::new();
        let ghost mut acc: Seq<YulObjectView> = Seq::empty();
        let mut i: usize = 0;
        while i < nested.len()
            invariant
                i <= nested.len(),
                objects.len() == i,
                acc.len() == i,
                forall|j: int| 0 <= j < i ==> objects[j]@ == acc[j],
                objects_of(*value, nodes, 0, Seq::empty()) == objects_of(
                    *value,
                    nodes,
                    i as int,
                    acc,
                ),
            decreases nested.len() - i,
        {
            proof {
                lemma_items_are_parts(*value, 3, OBJECT_LIST_CONS_LABEL@, i as int);
            }
            assert(nodes[i as int] == *nested[i as int]);
            match YulObject::from_kinner(nested[i]) {
                Ok(o) => {
                    proof {
                        acc = acc.push(o@);
                    }
                    objects.push(o);
                },
                Err(e) => {
                    return Err(e);
                },
            }
            i += 1;
        }
        let sections = match list_items(data_list, "data_list") {
            Ok(items) => items,
            Err(e) => {
                return Err(e);
            },
        };
        let data = match data_sections(&sections) {
            Ok(data) => data,
            Err(e) => {
                return Err(e);
            },
        };
        let o = YulObject { name, code, objects, data };
        assert(o@.objects =~= acc);
        Ok(o)
    }

    /// The program unit of a parse tree: the one unit of its top-level
    /// list.
    pub fn from_kast(value: &KAst) -> (r: Result<YulObject, ConvertError>)
        ensures
            match r {
                Ok(o) => object_of_ast(*value) == Ok::<YulObjectView, ConvertError>(o@),
                Err(e) => object_of_ast(*value) == Err::<YulObjectView, ConvertError>(e),
            },
    {
        let units = match list_items(&value.term, OBJECT_LIST_CONS_LABEL) {
            Ok(units) => units,
            Err(e) => {
                return Err(e);
            },
        };
        if units.len() == 0 {
            Err(ConvertError::NoObject)
        } else if units.len() == 1 {
            assert(refs_view(units@)[0] == *units[0]);
            YulObject::from_kinner(units[0])
        } else {
            Err(ConvertError::ManyObjects)
        }
    }
}

} // verus!
