use dunce_schedule::ir::{Block, Expr, Statement, YulObject};
use dunce_schedule::k_parser::{KApply, KAst, KInner, KLabel, KSort, KToken};
use dunce_schedule::reader::{
    bytes_to_literal, ConvertError, OBJECT_LIST_CONS_LABEL, YUL_OBJECT_LABEL,
};

fn tok(sort: &str, token: &str) -> KInner {
    KInner::KToken(KToken { token: token.to_owned(), sort: KSort { name: sort.to_owned() } })
}

fn app(label: &str, args: Vec<KInner>) -> KInner {
    KInner::KApply(KApply { label: KLabel { name: label.to_owned() }, args })
}

fn cons(label: &str, items: Vec<KInner>) -> KInner {
    let mut list = app(".List", vec![]);
    for item in items.into_iter().rev() {
        list = app(label, vec![item, list]);
    }
    list
}

fn apply_of(k: KInner) -> KApply {
    match k {
        KInner::KApply(a) => a,
        KInner::KToken(_) => panic!("no application"),
    }
}

fn word(tail: &[u8]) -> [u8; 32] {
    let mut w = [0u8; 32];
    w[32 - tail.len()..].copy_from_slice(tail);
    w
}

fn call(name: &str, args: Vec<KInner>) -> KInner {
    app("function_call", vec![tok("Identifier", name), cons("expression_list", args)])
}

fn block(statements: Vec<KInner>) -> KInner {
    app("block", vec![cons("statement_list", statements)])
}

fn object(name: &str, statements: Vec<KInner>, data: Vec<KInner>, nested: Vec<KInner>) -> KInner {
    app(
        YUL_OBJECT_LABEL,
        vec![
            tok("StringLiteral", name),
            app("code", vec![cons("statement_list", statements), app(".Functions", vec![])]),
            cons("data_list", data),
            cons(OBJECT_LIST_CONS_LABEL, nested),
        ],
    )
}

#[test]
fn test_parse_simple() {
    let simple = object(
        "Simple",
        vec![
            app(
                "let",
                vec![cons("typed_id_list", vec![tok("Identifier", "x")]), tok("Int", "1125")],
            ),
            call("sstore", vec![tok("HexLiteral", "0x00"), tok("Identifier", "x")]),
        ],
        vec![app("data", vec![tok("StringLiteral", "meta"), tok("HexData", "hex\"c0ffee\"")])],
        vec![object("Simple_deployed", vec![], vec![], vec![])],
    );
    let kast = KAst {
        version: 3,
        term: cons(OBJECT_LIST_CONS_LABEL, vec![simple]),
        format: "KAST".to_owned(),
    };
    let yul_obj = YulObject::from_kast(&kast).unwrap();
    println!("{:?}", yul_obj);
    assert_eq!(
        yul_obj,
        YulObject {
            name: "Simple".to_owned(),
            code: Block(vec![
                Statement::Assignment {
                    to: vec!["x".to_owned()],
                    expr: Expr::Literal(word(&[4, 101])),
                },
                Statement::Assignment {
                    to: vec![],
                    expr: Expr::Call {
                        fn_name: "sstore".to_owned(),
                        args: vec![Expr::Literal(word(&[0])), Expr::VarRef("x".to_owned())],
                    },
                },
            ]),
            objects: vec![YulObject {
                name: "Simple_deployed".to_owned(),
                code: Block(vec![]),
                objects: vec![],
                data: vec![],
            }],
            data: vec![("meta".to_owned(), vec![0xc0, 0xff, 0xee])],
        }
    );
}

#[test]
fn bytes_are_right_aligned() {
    assert_eq!(bytes_to_literal(vec![]), Ok([0u8; 32]));
    assert_eq!(bytes_to_literal(vec![0x12, 0x34]), Ok(word(&[0x12, 0x34])));
    let full: Vec<u8> = (1..=32).collect();
    let mut expected = [0u8; 32];
    for (i, b) in full.iter().enumerate() {
        expected[i] = *b;
    }
    assert_eq!(bytes_to_literal(full), Ok(expected));
    assert_eq!(bytes_to_literal(vec![0u8; 33]), Err(ConvertError::LiteralTooLong));
}

fn hex_token(text: &str) -> KToken {
    KToken { token: text.to_owned(), sort: KSort { name: "HexLiteral".to_owned() } }
}

fn int_token(text: &str) -> KToken {
    KToken { token: text.to_owned(), sort: KSort { name: "Int".to_owned() } }
}

#[test]
fn hex_literals_are_decoded() {
    assert_eq!(Expr::from_ktoken(&hex_token("0x1234")), Ok(Expr::Literal(word(&[0x12, 0x34]))));
    assert_eq!(Expr::from_ktoken(&hex_token("0xAbCdEf")), Ok(Expr::Literal(word(&[0xab, 0xcd, 0xef]))));
    assert_eq!(Expr::from_ktoken(&hex_token("0x")), Ok(Expr::Literal([0u8; 32])));
    let long = format!("0x{}", "ff".repeat(32));
    assert_eq!(Expr::from_ktoken(&hex_token(&long)), Ok(Expr::Literal([0xffu8; 32])));
}

#[test]
fn malformed_hex_literals_are_errors() {
    assert_eq!(Expr::from_ktoken(&hex_token("1234")), Err(ConvertError::MalformedHex));
    assert_eq!(Expr::from_ktoken(&hex_token("0x123")), Err(ConvertError::MalformedHex));
    assert_eq!(Expr::from_ktoken(&hex_token("0x12g4")), Err(ConvertError::MalformedHex));
    let long = format!("0x{}", "ff".repeat(33));
    assert_eq!(Expr::from_ktoken(&hex_token(&long)), Err(ConvertError::LiteralTooLong));
}

#[test]
fn decimal_literals_are_read_as_big_numbers() {
    assert_eq!(Expr::from_ktoken(&int_token("0")), Ok(Expr::Literal([0u8; 32])));
    assert_eq!(Expr::from_ktoken(&int_token("255")), Ok(Expr::Literal(word(&[255]))));
    assert_eq!(Expr::from_ktoken(&int_token("1125")), Ok(Expr::Literal(word(&[4, 101]))));
    // 2^256 - 1
    let max = "115792089237316195423570985008687907853269984665640564039457584007913129639935";
    assert_eq!(Expr::from_ktoken(&int_token(max)), Ok(Expr::Literal([0xffu8; 32])));
    // 2^256
    let over = "115792089237316195423570985008687907853269984665640564039457584007913129639936";
    assert_eq!(Expr::from_ktoken(&int_token(over)), Err(ConvertError::LiteralTooLong));
    assert_eq!(Expr::from_ktoken(&int_token("12a")), Err(ConvertError::MalformedInteger));
    assert_eq!(Expr::from_ktoken(&int_token("")), Err(ConvertError::MalformedInteger));
}

#[test]
fn identifiers_and_unknown_tokens() {
    let ident = KToken { token: "x".to_owned(), sort: KSort { name: "Identifier".to_owned() } };
    assert_eq!(Expr::from_ktoken(&ident), Ok(Expr::VarRef("x".to_owned())));
    let other = KToken { token: "x".to_owned(), sort: KSort { name: "Bool".to_owned() } };
    assert_eq!(Expr::from_ktoken(&other), Err(ConvertError::UnknownToken));
}

#[test]
fn calls_and_builtins() {
    let nested = call("add", vec![call("sload", vec![tok("Identifier", "a")]), tok("Int", "7")]);
    assert_eq!(
        Expr::from_kinner(&nested),
        Ok(Expr::Call {
            fn_name: "add".to_owned(),
            args: vec![
                Expr::Call {
                    fn_name: "sload".to_owned(),
                    args: vec![Expr::VarRef("a".to_owned())],
                },
                Expr::Literal(word(&[7])),
            ],
        })
    );
    let values = app(
        "function_call_values",
        vec![tok("Identifier", "f"), cons("expression_list", vec![])],
    );
    assert_eq!(
        Expr::from_kinner(&values),
        Ok(Expr::Call { fn_name: "f".to_owned(), args: vec![] })
    );
    let builtin = call("datasize", vec![tok("StringLiteral", "Simple_deployed")]);
    assert_eq!(
        Expr::from_kinner(&builtin),
        Ok(Expr::Builtin { fn_name: "datasize".to_owned(), input: "Simple_deployed".to_owned() })
    );
    let two = call("dataoffset", vec![tok("StringLiteral", "a"), tok("StringLiteral", "b")]);
    assert_eq!(Expr::from_kinner(&two), Err(ConvertError::BuiltinArity));
    assert_eq!(
        Expr::from_kinner(&call("setimmutable", vec![call("f", vec![])])),
        Err(ConvertError::ExpectedToken)
    );
}

#[test]
fn malformed_expressions_are_errors() {
    assert_eq!(Expr::from_kinner(&app("block", vec![])), Err(ConvertError::UnknownExpression));
    assert_eq!(
        Expr::from_kinner(&app("function_call", vec![tok("Identifier", "f")])),
        Err(ConvertError::ArgCount)
    );
    assert_eq!(
        Expr::from_kinner(&app(
            "function_call",
            vec![tok("Identifier", "f"), tok("Identifier", "g")]
        )),
        Err(ConvertError::ExpectedApply)
    );
    assert_eq!(
        Expr::from_kinner(&app(
            "function_call",
            vec![
                tok("Identifier", "f"),
                app("expression_list", vec![tok("Identifier", "a"), tok("Identifier", "b")]),
            ]
        )),
        Err(ConvertError::MalformedList)
    );
    assert_eq!(
        Expr::from_kinner(&app(
            "function_call",
            vec![call("g", vec![]), cons("expression_list", vec![])]
        )),
        Err(ConvertError::ExpectedToken)
    );
    // the first argument that fails decides
    assert_eq!(
        Expr::from_kinner(&call("f", vec![tok("Int", "x"), tok("HexLiteral", "zz")])),
        Err(ConvertError::MalformedInteger)
    );
}

#[test]
fn statements_are_read() {
    let binding = app(
        "let",
        vec![
            cons("typed_id_list", vec![tok("Identifier", "a"), tok("Identifier", "b")]),
            call("f", vec![]),
        ],
    );
    assert_eq!(
        Statement::from_kinner(&binding),
        Ok(Statement::Assignment {
            to: vec!["a".to_owned(), "b".to_owned()],
            expr: Expr::Call { fn_name: "f".to_owned(), args: vec![] },
        })
    );
    let conditional = app(
        "if",
        vec![tok("Identifier", "c"), block(vec![call("g", vec![])])],
    );
    assert_eq!(
        Statement::from_kinner(&conditional),
        Ok(Statement::If {
            cond: Expr::VarRef("c".to_owned()),
            body: Block(vec![Statement::Assignment {
                to: vec![],
                expr: Expr::Call { fn_name: "g".to_owned(), args: vec![] },
            }]),
        })
    );
    assert_eq!(
        Statement::from_kinner(&block(vec![block(vec![])])),
        Ok(Statement::Block(Block(vec![Statement::Block(Block(vec![]))])))
    );
    let switch = app(
        "switch_default",
        vec![
            tok("Identifier", "x"),
            cons(
                "case_list",
                vec![
                    app("case", vec![tok("Int", "1"), block(vec![])]),
                    app("case", vec![tok("HexLiteral", "0x02"), block(vec![call("h", vec![])])]),
                ],
            ),
        ],
    );
    assert_eq!(
        Statement::from_kinner(&switch),
        Ok(Statement::Switch {
            cond: Expr::VarRef("x".to_owned()),
            cases: vec![
                (word(&[1]), Block(vec![])),
                (
                    word(&[2]),
                    Block(vec![Statement::Assignment {
                        to: vec![],
                        expr: Expr::Call { fn_name: "h".to_owned(), args: vec![] },
                    }])
                ),
            ],
            default: None,
        })
    );
}

#[test]
fn malformed_statements_are_errors() {
    assert_eq!(Statement::from_kinner(&tok("Identifier", "x")), Err(ConvertError::ExpectedApply));
    assert_eq!(Statement::from_kinner(&app("for", vec![])), Err(ConvertError::UnknownStatement));
    assert_eq!(
        Statement::from_kinner(&app("let", vec![tok("Identifier", "x")])),
        Err(ConvertError::ArgCount)
    );
    assert_eq!(
        Statement::from_kinner(&app(
            "let",
            vec![cons("typed_id_list", vec![call("f", vec![])]), tok("Int", "1")]
        )),
        Err(ConvertError::ExpectedToken)
    );
    let case_is_name = app(
        "switch_default",
        vec![
            tok("Identifier", "x"),
            cons("case_list", vec![app("case", vec![tok("Identifier", "y"), block(vec![])])]),
        ],
    );
    assert_eq!(Statement::from_kinner(&case_is_name), Err(ConvertError::CaseNotLiteral));
    assert_eq!(
        Block::from_kapply(&apply_of(app("blok", vec![cons("statement_list", vec![])]))),
        Err(ConvertError::UnexpectedLabel)
    );
    assert_eq!(
        Block::from_kapply(&apply_of(app("block", vec![]))),
        Err(ConvertError::ArgCount)
    );
}

#[test]
fn program_units_are_counted() {
    let none = KAst {
        version: 3,
        term: cons(OBJECT_LIST_CONS_LABEL, vec![]),
        format: "KAST".to_owned(),
    };
    assert_eq!(YulObject::from_kast(&none), Err(ConvertError::NoObject));
    let two = KAst {
        version: 3,
        term: cons(
            OBJECT_LIST_CONS_LABEL,
            vec![object("A", vec![], vec![], vec![]), object("B", vec![], vec![], vec![])],
        ),
        format: "KAST".to_owned(),
    };
    assert_eq!(YulObject::from_kast(&two), Err(ConvertError::ManyObjects));
    let wrong = KAst {
        version: 3,
        term: cons(OBJECT_LIST_CONS_LABEL, vec![app("object", vec![])]),
        format: "KAST".to_owned(),
    };
    assert_eq!(YulObject::from_kast(&wrong), Err(ConvertError::UnexpectedLabel));
}

#[test]
fn data_sections_need_their_frame() {
    let with = |data: &str| {
        object(
            "A",
            vec![],
            vec![app("data", vec![tok("StringLiteral", "d"), tok("HexData", data)])],
            vec![],
        )
    };
    assert_eq!(YulObject::from_kinner(&with("hex\"00ff\"")).unwrap().data, vec![("d".to_owned(), vec![0, 255])]);
    assert_eq!(YulObject::from_kinner(&with("hex\"\"")).unwrap().data, vec![("d".to_owned(), vec![])]);
    assert_eq!(YulObject::from_kinner(&with("00ff")), Err(ConvertError::MalformedHex));
    assert_eq!(YulObject::from_kinner(&with("hex\"00ff")), Err(ConvertError::MalformedHex));
    assert_eq!(YulObject::from_kinner(&with("hex\"0\"")), Err(ConvertError::MalformedHex));
}

#[test]
fn programs_are_copied() {
    let unit = YulObject {
        name: "A".to_owned(),
        code: Block(vec![
            Statement::Switch {
                cond: Expr::VarRef("x".to_owned()),
                cases: vec![(word(&[1]), Block(vec![Statement::Leave]))],
                default: Some(Block(vec![Statement::Break, Statement::Continue])),
            },
            Statement::ForLoop {
                setup: Block(vec![]),
                cond: Expr::Builtin { fn_name: "datasize".to_owned(), input: "A".to_owned() },
                on_iter: Block(vec![]),
                body: Block(vec![Statement::If {
                    cond: Expr::Literal(word(&[1])),
                    body: Block(vec![Statement::Block(Block(vec![]))]),
                }]),
            },
            Statement::FnDef(dunce_schedule::ir::FunctionDefinition {
                name: "f".to_owned(),
                args: vec!["a".to_owned()],
                rets: vec!["r".to_owned()],
                body: Block(vec![Statement::Assignment {
                    to: vec!["r".to_owned()],
                    expr: Expr::Call { fn_name: "g".to_owned(), args: vec![Expr::VarRef("a".to_owned())] },
                }]),
            }),
        ]),
        objects: vec![YulObject {
            name: "B".to_owned(),
            code: Block(vec![]),
            objects: vec![],
            data: vec![],
        }],
        data: vec![("d".to_owned(), vec![1, 2, 3])],
    };
    assert_eq!(unit.clone(), unit);
}
