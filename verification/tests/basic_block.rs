use dunce_schedule::basic_block::{Assignment, BasicBlock, Expr, FlattenError};
use dunce_schedule::ir;
use dunce_schedule::splitter::{BasicBlocksBuilder, SplitError};
use dunce_schedule::ssa_block::{Name, Statement, Value};

fn names(list: &[&str]) -> Vec<String> {
    list.iter().map(|s| s.to_string()).collect()
}

fn call0(name: &str) -> ir::Expr {
    ir::Expr::Call { fn_name: name.into(), args: vec![] }
}

fn assign(to: &str, fn_name: &str) -> ir::Statement {
    ir::Statement::Assignment { to: vec![to.into()], expr: call0(fn_name) }
}

fn word(last: u8) -> [u8; 32] {
    let mut w = [0u8; 32];
    w[31] = last;
    w
}

#[test]
fn test_bb_assign() {
    let s1 = ir::Statement::Assignment {
        to: vec!["a".into(), "b".into(), "c".into()],
        expr: ir::Expr::Literal([0u8; 32]),
    };
    let s2 = ir::Statement::Assignment {
        to: vec!["a".into()],
        expr: ir::Expr::Call { fn_name: "bla".into(), args: vec![] },
    };
    let block = ir::Block { 0: vec![s1, s2] };
    let mut builder = BasicBlocksBuilder::new(&vec![]);
    builder.split_block(block).unwrap();
    println!("{:?}", builder.basic_blocks);
    println!("{:?}", builder.functions);
    assert_eq!(builder.basic_blocks.len(), 1);
    assert_eq!(builder.basic_blocks[0].start_stack, names(&[]));
    assert_eq!(builder.basic_blocks[0].assignments.len(), 2);
    assert_eq!(builder.basic_blocks[0].end_stack, names(&["a", "b", "c"]));
    assert!(builder.functions.is_empty());
}

#[test]
fn test_bb_assign_fndef_assign() {
    let s1 = ir::Statement::Assignment {
        to: vec!["a".into()],
        expr: ir::Expr::Call { fn_name: "bla".into(), args: vec![] },
    };
    let f = ir::Statement::FnDef(ir::FunctionDefinition {
        name: "bla".into(),
        args: vec!["x".into(), "y".into()],
        rets: vec!["z".into()],
        body: ir::Block {
            0: vec![ir::Statement::Assignment {
                to: vec!["a".into()],
                expr: ir::Expr::Call { fn_name: "bla".into(), args: vec![] },
            }],
        },
    });
    let s2 = ir::Statement::Assignment {
        to: vec!["b".into()],
        expr: ir::Expr::Call { fn_name: "bla".into(), args: vec![] },
    };
    let block = ir::Block { 0: vec![s1, f, s2] };
    let mut builder = BasicBlocksBuilder::new(&vec![]);
    builder.split_block(block).unwrap();
    println!("{:?}", builder.basic_blocks);
    println!("{:?}", builder.functions);
    assert_eq!(builder.basic_blocks.len(), 1);
    assert_eq!(builder.basic_blocks[0].assignments.len(), 2);
    assert_eq!(builder.basic_blocks[0].end_stack, names(&["a", "b"]));
    assert_eq!(builder.functions.len(), 1);
    assert_eq!(builder.functions[0].name, "bla");
    let blocks = &builder.functions[0].blocks;
    assert_eq!(blocks.len(), 1);
    assert_eq!(blocks[0].start_stack, names(&["x", "y", "z", "__ret_addr__"]));
    assert_eq!(blocks[0].assignments.len(), 2);
    assert_eq!(
        blocks[0].assignments[0],
        Assignment { to_idents: names(&["z"]), expr: Expr::Literal([0u8; 32]) }
    );
    assert_eq!(blocks[0].end_stack, names(&["z", "__ret_addr__"]));
}

#[test]
fn test_bb_if() {
    let s1 = ir::Statement::Assignment {
        to: vec!["a".into()],
        expr: ir::Expr::Call { fn_name: "bla".into(), args: vec![] },
    };

    let a1 = ir::Statement::Assignment {
        to: vec!["x".into()],
        expr: ir::Expr::Call { fn_name: "x_raise".into(), args: vec![] },
    };
    let if_stmt = ir::Statement::If {
        cond: ir::Expr::Call { fn_name: "if_var".into(), args: vec![] },
        body: ir::Block {
            0: vec![ir::Statement::Assignment {
                to: vec!["if".into()],
                expr: ir::Expr::Call { fn_name: "nothing".into(), args: vec![] },
            }],
        },
    };
    let a2 = ir::Statement::Assignment {
        to: vec!["y".into()],
        expr: ir::Expr::Call { fn_name: "y_raise".into(), args: vec![] },
    };

    let s2 = ir::Statement::Assignment {
        to: vec!["b".into()],
        expr: ir::Expr::Call { fn_name: "bla".into(), args: vec![] },
    };

    let block = ir::Block { 0: vec![s1, a1, if_stmt, a2, s2] };
    let mut builder = BasicBlocksBuilder::new(&vec![]);
    builder.split_block(block).unwrap();
    println!("{:?}", builder.basic_blocks);
    println!("{:?}", builder.functions);
    let blocks = &builder.basic_blocks;
    assert_eq!(blocks.len(), 3);
    assert_eq!(blocks[0].start_stack, names(&[]));
    assert_eq!(blocks[0].end_stack, names(&["a", "x", "__cond__"]));
    assert_eq!(blocks[0].assignments.len(), 3);
    assert_eq!(
        blocks[0].assignments[2],
        Assignment { to_idents: names(&["__cond__"]), expr: Expr::call("if_var", vec![]) }
    );
    assert_eq!(blocks[1].start_stack, names(&["a", "x"]));
    assert_eq!(blocks[1].end_stack, names(&["a", "x", "if"]));
    assert_eq!(blocks[2].start_stack, names(&["a", "x"]));
    assert_eq!(blocks[2].end_stack, names(&["a", "x", "y", "b"]));
    assert_eq!(blocks[2].assignments.len(), 2);
}

fn for_loop_around(terminator_name: &str, terminator: ir::Statement) -> ir::Block {
    let s1 = assign("a", "bla");
    let s2 = assign("b", "bla");

    let setup = ir::Block {
        0: vec![ir::Statement::Assignment {
            to: vec!["i".into()],
            expr: ir::Expr::Literal([0u8; 32]),
        }],
    };
    let cond = ir::Expr::Literal([1u8; 32]);
    let on_iter = ir::Block {
        0: vec![ir::Statement::Assignment {
            to: vec!["i".into()],
            expr: ir::Expr::Call { fn_name: "add".into(), args: vec![] },
        }],
    };
    let a1 = assign("x", "x_raise");
    let if_stmt = ir::Statement::If {
        cond: ir::Expr::Call { fn_name: terminator_name.into(), args: vec![] },
        body: ir::Block { 0: vec![terminator] },
    };
    let a2 = assign("y", "y_raise");
    let body = ir::Block { 0: vec![a1, if_stmt, a2] };
    let for_loop = ir::Statement::ForLoop { setup, cond, on_iter, body };
    ir::Block { 0: vec![s1, s2, for_loop] }
}

#[test]
fn test_bb_for_loop_continue() {
    let block = for_loop_around("continue", ir::Statement::Continue);
    let mut builder = BasicBlocksBuilder::new(&vec![]);
    builder.split_block(block).unwrap();
    println!("{:?}", builder.basic_blocks);
    println!("{:?}", builder.functions);
    let blocks = &builder.basic_blocks;
    assert_eq!(blocks.len(), 8);
    // before the loop
    assert_eq!(blocks[0].start_stack, names(&[]));
    assert_eq!(blocks[0].end_stack, names(&["a", "b"]));
    // setup
    assert_eq!(blocks[1].start_stack, names(&["a", "b"]));
    assert_eq!(blocks[1].end_stack, names(&["a", "b", "i"]));
    // body up to the conditional
    assert_eq!(blocks[2].start_stack, names(&["a", "b", "i"]));
    assert_eq!(blocks[2].end_stack, names(&["a", "b", "i", "x", "__cond__"]));
    // `continue` ends at the stack after the setup
    assert_eq!(blocks[3].start_stack, names(&["a", "b", "i", "x"]));
    assert_eq!(blocks[3].end_stack, names(&["a", "b", "i"]));
    assert!(blocks[3].assignments.is_empty());
    // body behind the conditional
    assert_eq!(blocks[4].start_stack, names(&["a", "b", "i", "x"]));
    assert_eq!(blocks[4].end_stack, names(&["a", "b", "i"]));
    assert_eq!(blocks[4].assignments.len(), 1);
    // step
    assert_eq!(blocks[5].start_stack, names(&["a", "b", "i"]));
    assert_eq!(blocks[5].end_stack, names(&["a", "b", "i"]));
    assert_eq!(blocks[5].assignments.len(), 1);
    // condition
    assert_eq!(blocks[6].start_stack, names(&["a", "b", "i"]));
    assert_eq!(blocks[6].end_stack, names(&["a", "b", "i", "__cond__"]));
    assert_eq!(
        blocks[6].assignments,
        vec![Assignment { to_idents: names(&["__cond__"]), expr: Expr::Literal([1u8; 32]) }]
    );
    // way out
    assert_eq!(blocks[7].start_stack, names(&["a", "b", "i"]));
    assert_eq!(blocks[7].end_stack, names(&["a", "b"]));
    assert!(blocks[7].assignments.is_empty());
}

#[test]
fn test_bb_for_loop_break() {
    let block = for_loop_around("break", ir::Statement::Break);
    let mut builder = BasicBlocksBuilder::new(&vec![]);
    builder.split_block(block).unwrap();
    println!("{:?}", builder.basic_blocks);
    println!("{:?}", builder.functions);
    let blocks = &builder.basic_blocks;
    assert_eq!(blocks.len(), 8);
    // `break` ends at the stack with which the setup started
    assert_eq!(blocks[3].start_stack, names(&["a", "b", "i", "x"]));
    assert_eq!(blocks[3].end_stack, names(&["a", "b"]));
    assert_eq!(blocks[4].end_stack, names(&["a", "b", "i"]));
    assert_eq!(blocks[7].end_stack, names(&["a", "b"]));
}

#[test]
fn test_bb_fndef() {
    let f = ir::Statement::FnDef(ir::FunctionDefinition {
        name: "bla".into(),
        args: vec!["x".into(), "y".into()],
        rets: vec!["z".into()],
        body: ir::Block {
            0: vec![
                ir::Statement::Assignment {
                    to: vec!["a".into()],
                    expr: ir::Expr::Call { fn_name: "bla".into(), args: vec![] },
                },
                ir::Statement::Assignment {
                    to: vec!["b".into()],
                    expr: ir::Expr::Call { fn_name: "bla".into(), args: vec![] },
                },
                ir::Statement::If {
                    cond: ir::Expr::Call { fn_name: "leave".into(), args: vec![] },
                    body: ir::Block { 0: vec![ir::Statement::Leave] },
                },
                ir::Statement::Assignment {
                    to: vec!["c".into()],
                    expr: ir::Expr::Call { fn_name: "bla".into(), args: vec![] },
                },
            ],
        },
    });
    let block = ir::Block { 0: vec![f] };
    let mut builder = BasicBlocksBuilder::new(&vec![]);
    builder.split_block(block).unwrap();
    println!("{:?}", builder.basic_blocks);
    println!("{:?}", builder.functions);
    assert!(builder.basic_blocks.is_empty());
    assert_eq!(builder.functions.len(), 1);
    assert_eq!(builder.functions[0].name, "bla");
    let blocks = &builder.functions[0].blocks;
    assert_eq!(blocks.len(), 3);
    assert_eq!(blocks[0].start_stack, names(&["x", "y", "z", "__ret_addr__"]));
    assert_eq!(
        blocks[0].assignments,
        vec![
            Assignment { to_idents: names(&["z"]), expr: Expr::Literal([0u8; 32]) },
            Assignment { to_idents: names(&["a"]), expr: Expr::call("bla", vec![]) },
            Assignment { to_idents: names(&["b"]), expr: Expr::call("bla", vec![]) },
            Assignment { to_idents: names(&["__cond__"]), expr: Expr::call("leave", vec![]) },
        ]
    );
    assert_eq!(
        blocks[0].end_stack,
        names(&["x", "y", "z", "__ret_addr__", "a", "b", "__cond__"])
    );
    assert_eq!(blocks[1].start_stack, names(&["x", "y", "z", "__ret_addr__", "a", "b"]));
    assert!(blocks[1].assignments.is_empty());
    assert_eq!(blocks[1].end_stack, names(&["z", "__ret_addr__"]));
    assert_eq!(blocks[2].start_stack, names(&["x", "y", "z", "__ret_addr__", "a", "b"]));
    assert_eq!(
        blocks[2].assignments,
        vec![Assignment { to_idents: names(&["c"]), expr: Expr::call("bla", vec![]) }]
    );
    assert_eq!(blocks[2].end_stack, names(&["z", "__ret_addr__"]));
}

#[test]
fn test_flatten() {
    let bb = BasicBlock {
        start_stack: vec!["sender_slot".to_owned(), "amount".to_owned()],
        assignments: vec![Assignment::new(
            vec!["balance"],
            Expr::call2("add", Expr::call1("sload", Expr::r("sender_slot")), Expr::r("amount")),
        )],
        end_stack: vec!["amount".to_owned(), "sender_slot".to_owned()],
    };

    let ssa = bb.flatten_to().unwrap();
    println!("{:?}", ssa);
    assert_eq!(ssa.start_stack, names(&["sender_slot", "amount"]));
    assert_eq!(ssa.end_stack, names(&["amount", "sender_slot"]));
    assert_eq!(
        ssa.statements,
        vec![
            Statement::CallAssign {
                assigns: vec![Name::Intermed(0)],
                calls: "sload".to_owned(),
                takes: vec![Value::RefName(Name::Ident("sender_slot".to_owned()))],
            },
            Statement::CallAssign {
                assigns: vec![Name::Ident("balance".to_owned())],
                calls: "add".to_owned(),
                takes: vec![
                    Value::RefName(Name::Intermed(0)),
                    Value::RefName(Name::Ident("amount".to_owned())),
                ],
            },
        ]
    );
}

#[test]
fn two_bindings_of_one_name_make_one_block() {
    let block = ir::Block { 0: vec![assign("a", "bla"), assign("a", "bla")] };
    let mut builder = BasicBlocksBuilder::new(&vec![]);
    builder.split_block(block).unwrap();
    assert_eq!(builder.basic_blocks.len(), 1);
    assert_eq!(builder.basic_blocks[0].start_stack, names(&[]));
    assert_eq!(builder.basic_blocks[0].assignments.len(), 2);
    assert_eq!(builder.basic_blocks[0].end_stack, names(&["a"]));
}

#[test]
fn empty_block_emits_nothing() {
    let mut builder = BasicBlocksBuilder::new(&names(&["a"]));
    builder.split_block(ir::Block { 0: vec![] }).unwrap();
    assert!(builder.basic_blocks.is_empty());
    assert!(builder.functions.is_empty());
}

#[test]
fn terminators_outside_their_scope_are_errors() {
    let mut builder = BasicBlocksBuilder::new(&vec![]);
    assert_eq!(
        builder.split_block(ir::Block { 0: vec![ir::Statement::Break] }),
        Err(SplitError::BreakOutsideLoop)
    );
    let mut builder = BasicBlocksBuilder::new(&vec![]);
    assert_eq!(
        builder.split_block(ir::Block { 0: vec![ir::Statement::Continue] }),
        Err(SplitError::ContinueOutsideLoop)
    );
    let mut builder = BasicBlocksBuilder::new(&vec![]);
    assert_eq!(
        builder.split_block(ir::Block { 0: vec![ir::Statement::Leave] }),
        Err(SplitError::LeaveOutsideFunction)
    );
}

#[test]
fn break_inside_a_function_inside_a_loop_is_an_error() {
    let f = ir::Statement::FnDef(ir::FunctionDefinition {
        name: "f".into(),
        args: vec![],
        rets: vec![],
        body: ir::Block { 0: vec![ir::Statement::Break] },
    });
    let for_loop = ir::Statement::ForLoop {
        setup: ir::Block { 0: vec![] },
        cond: ir::Expr::Literal([1u8; 32]),
        on_iter: ir::Block { 0: vec![] },
        body: ir::Block { 0: vec![f] },
    };
    let mut builder = BasicBlocksBuilder::new(&vec![]);
    assert_eq!(
        builder.split_block(ir::Block { 0: vec![for_loop] }),
        Err(SplitError::BreakOutsideLoop)
    );
}

#[test]
fn duplicate_function_is_an_error() {
    let def = |name: &str| {
        ir::Statement::FnDef(ir::FunctionDefinition {
            name: name.into(),
            args: vec![],
            rets: vec!["r".into()],
            body: ir::Block { 0: vec![] },
        })
    };
    let mut builder = BasicBlocksBuilder::new(&vec![]);
    assert_eq!(
        builder.split_block(ir::Block { 0: vec![def("f"), def("g"), def("f")] }),
        Err(SplitError::DuplicateFunction)
    );
    let mut builder = BasicBlocksBuilder::new(&vec![]);
    builder.split_block(ir::Block { 0: vec![def("f"), def("g")] }).unwrap();
    assert_eq!(builder.functions.len(), 2);
    assert_eq!(builder.functions[0].name, "f");
    assert_eq!(builder.functions[1].name, "g");
}

#[test]
fn switch_and_builtin_are_unsupported() {
    let switch = ir::Statement::Switch {
        cond: ir::Expr::VarRef("x".into()),
        cases: vec![],
        default: None,
    };
    let mut builder = BasicBlocksBuilder::new(&vec![]);
    assert_eq!(builder.split_block(ir::Block { 0: vec![switch] }), Err(SplitError::Unsupported));
    let builtin = ir::Statement::Assignment {
        to: vec!["n".into()],
        expr: ir::Expr::Call {
            fn_name: "add".into(),
            args: vec![ir::Expr::Builtin { fn_name: "datasize".into(), input: "code".into() }],
        },
    };
    let mut builder = BasicBlocksBuilder::new(&vec![]);
    assert_eq!(builder.split_block(ir::Block { 0: vec![builtin] }), Err(SplitError::Unsupported));
}

#[test]
fn reserved_names_cannot_be_bound() {
    let mut builder = BasicBlocksBuilder::new(&vec![]);
    assert_eq!(
        builder.split_block(ir::Block { 0: vec![assign("__cond__", "f")] }),
        Err(SplitError::NameCollision)
    );
    let f = ir::Statement::FnDef(ir::FunctionDefinition {
        name: "f".into(),
        args: vec!["__ret_addr__".into()],
        rets: vec![],
        body: ir::Block { 0: vec![] },
    });
    let mut builder = BasicBlocksBuilder::new(&vec![]);
    assert_eq!(builder.split_block(ir::Block { 0: vec![f] }), Err(SplitError::NameCollision));
}

#[test]
fn literal_to_two_destinations_is_an_arity_error() {
    let bb = BasicBlock {
        start_stack: vec![],
        assignments: vec![Assignment::new(vec!["a", "b"], Expr::Literal(word(1)))],
        end_stack: vec![],
    };
    assert_eq!(bb.flatten_to(), Err(FlattenError::DestinationArity));
    let bb = BasicBlock {
        start_stack: names(&["x"]),
        assignments: vec![Assignment::new(vec!["a", "b"], Expr::r("x"))],
        end_stack: vec![],
    };
    assert_eq!(bb.flatten_to(), Err(FlattenError::DestinationArity));
}

#[test]
fn values_without_destination_are_dropped() {
    let bb = BasicBlock {
        start_stack: names(&["x"]),
        assignments: vec![
            Assignment::new(vec![], Expr::Literal(word(1))),
            Assignment::new(vec![], Expr::r("x")),
            Assignment::new(vec!["y"], Expr::r("x")),
            Assignment::new(vec!["z"], Expr::Literal(word(2))),
        ],
        end_stack: names(&["y"]),
    };
    let ssa = bb.flatten_to().unwrap();
    assert_eq!(
        ssa.statements,
        vec![
            Statement::ValueAssign {
                to: Name::Ident("y".to_owned()),
                value: Value::RefName(Name::Ident("x".to_owned())),
            },
            Statement::ValueAssign {
                to: Name::Ident("z".to_owned()),
                value: Value::Literal(word(2)),
            },
        ]
    );
}

#[test]
fn nested_arguments_are_numbered_left_to_right() {
    // r := f(g(h(a)), 7, k(b))
    let bb = BasicBlock {
        start_stack: names(&["a", "b"]),
        assignments: vec![Assignment::new(
            vec!["r"],
            Expr::call(
                "f",
                vec![
                    Expr::call1("g", Expr::call1("h", Expr::r("a"))),
                    Expr::Literal(word(7)),
                    Expr::call1("k", Expr::r("b")),
                ],
            ),
        )],
        end_stack: names(&["r"]),
    };
    let ssa = bb.flatten_to().unwrap();
    let ident = |s: &str| Value::RefName(Name::Ident(s.to_owned()));
    let temp = |i: usize| Value::RefName(Name::Intermed(i));
    assert_eq!(
        ssa.statements,
        vec![
            Statement::CallAssign {
                assigns: vec![Name::Intermed(0)],
                calls: "h".to_owned(),
                takes: vec![ident("a")],
            },
            Statement::CallAssign {
                assigns: vec![Name::Intermed(1)],
                calls: "g".to_owned(),
                takes: vec![temp(0)],
            },
            Statement::CallAssign {
                assigns: vec![Name::Intermed(2)],
                calls: "k".to_owned(),
                takes: vec![ident("b")],
            },
            Statement::CallAssign {
                assigns: vec![Name::Ident("r".to_owned())],
                calls: "f".to_owned(),
                takes: vec![temp(1), Value::Literal(word(7)), temp(2)],
            },
        ]
    );
}

fn defined_names(statement: &Statement) -> Vec<Name> {
    match statement {
        Statement::CallAssign { assigns, .. } => assigns.clone(),
        Statement::ValueAssign { to, .. } => vec![to.clone()],
    }
}

fn read_names(statement: &Statement) -> Vec<Name> {
    let operands = match statement {
        Statement::CallAssign { takes, .. } => takes.clone(),
        Statement::ValueAssign { value, .. } => vec![value.clone()],
    };
    operands
        .into_iter()
        .filter_map(|v| match v {
            Value::RefName(n) => Some(n),
            Value::Literal(_) => None,
        })
        .collect()
}

#[test]
fn flattening_keeps_single_assignment() {
    // p, q := f(g(a), h(g(b), a)); r := k(p, m(q))
    let bb = BasicBlock {
        start_stack: names(&["a", "b"]),
        assignments: vec![
            Assignment::new(
                vec!["p", "q"],
                Expr::call2(
                    "f",
                    Expr::call1("g", Expr::r("a")),
                    Expr::call2("h", Expr::call1("g", Expr::r("b")), Expr::r("a")),
                ),
            ),
            Assignment::new(vec!["r"], Expr::call2("k", Expr::r("p"), Expr::call1("m", Expr::r("q")))),
        ],
        end_stack: names(&["r", "p"]),
    };
    let ssa = bb.flatten_to().unwrap();
    assert_eq!(ssa.statements.len(), 6);
    let mut defined: Vec<Name> = ssa.start_stack.iter().map(|s| Name::Ident(s.clone())).collect();
    for statement in &ssa.statements {
        for name in read_names(statement) {
            assert!(defined.contains(&name), "{:?} is read before it is defined", name);
        }
        for name in defined_names(statement) {
            assert!(!defined.contains(&name), "{:?} is defined twice", name);
            defined.push(name);
        }
    }
    for name in &ssa.end_stack {
        assert!(defined.contains(&Name::Ident(name.clone())));
    }
    let temps: Vec<Name> = defined.iter().filter(|n| matches!(n, Name::Intermed(_))).cloned().collect();
    assert_eq!(
        temps,
        vec![Name::Intermed(0), Name::Intermed(1), Name::Intermed(2), Name::Intermed(3)]
    );
}

fn chained(entry: &[String], blocks: &[BasicBlock]) -> bool {
    blocks.iter().enumerate().all(|(i, block)| {
        block.start_stack == entry
            || blocks[..i].iter().any(|earlier| {
                let mut with_cond = block.start_stack.clone();
                with_cond.push("__cond__".to_owned());
                earlier.end_stack == block.start_stack || earlier.end_stack == with_cond
            })
    })
}

#[test]
fn blocks_hand_over_to_one_another() {
    let mut builder = BasicBlocksBuilder::new(&vec![]);
    builder.split_block(for_loop_around("continue", ir::Statement::Continue)).unwrap();
    assert!(chained(&[], &builder.basic_blocks));

    let mut builder = BasicBlocksBuilder::new(&names(&["s"]));
    builder.split_block(for_loop_around("break", ir::Statement::Break)).unwrap();
    assert!(chained(&names(&["s"]), &builder.basic_blocks));

    let f = ir::Statement::FnDef(ir::FunctionDefinition {
        name: "f".into(),
        args: vec!["x".into()],
        rets: vec!["r".into()],
        body: for_loop_around("leave", ir::Statement::Leave),
    });
    let mut builder = BasicBlocksBuilder::new(&vec![]);
    builder.split_block(ir::Block { 0: vec![assign("t", "g"), f, assign("u", "g")] }).unwrap();
    assert!(chained(&[], &builder.basic_blocks));
    let blocks = &builder.functions[0].blocks;
    assert_eq!(blocks[0].start_stack, names(&["x", "r", "__ret_addr__"]));
    assert!(chained(&blocks[0].start_stack, blocks));
    assert_eq!(blocks[blocks.len() - 1].end_stack, names(&["r", "__ret_addr__"]));
}

#[test]
fn loop_without_statements_has_its_condition_and_its_way_out() {
    let for_loop = ir::Statement::ForLoop {
        setup: ir::Block { 0: vec![] },
        cond: ir::Expr::VarRef("c".into()),
        on_iter: ir::Block { 0: vec![] },
        body: ir::Block { 0: vec![] },
    };
    let mut builder = BasicBlocksBuilder::new(&names(&["c"]));
    builder.split_block(ir::Block { 0: vec![for_loop] }).unwrap();
    let blocks = &builder.basic_blocks;
    assert_eq!(blocks.len(), 3);
    assert_eq!(blocks[0].start_stack, names(&["c"]));
    assert!(blocks[0].assignments.is_empty());
    assert_eq!(blocks[0].end_stack, names(&["c"]));
    assert_eq!(blocks[1].end_stack, names(&["c", "__cond__"]));
    assert_eq!(
        blocks[1].assignments,
        vec![Assignment { to_idents: names(&["__cond__"]), expr: Expr::r("c") }]
    );
    assert_eq!(blocks[2].end_stack, names(&["c"]));
}

#[test]
fn expressions_are_built() {
    assert_eq!(Expr::r("x"), Expr::Refr("x".to_owned()));
    assert_eq!(
        Expr::call1("f", Expr::r("x")),
        Expr::Call { fn_name: "f".to_owned(), args: vec![Expr::Refr("x".to_owned())] }
    );
    assert_eq!(
        Expr::call2("f", Expr::r("x"), Expr::Literal(word(1))),
        Expr::Call {
            fn_name: "f".to_owned(),
            args: vec![Expr::Refr("x".to_owned()), Expr::Literal(word(1))],
        }
    );
    assert_eq!(Expr::call("f", vec![]), Expr::Call { fn_name: "f".to_owned(), args: vec![] });
    assert_eq!(
        Assignment::new(vec!["a", "b"], Expr::r("x")),
        Assignment { to_idents: names(&["a", "b"]), expr: Expr::Refr("x".to_owned()) }
    );
    let e = Expr::call2("f", Expr::call1("g", Expr::r("x")), Expr::Literal(word(1)));
    assert_eq!(e.duplicate(), e);
    assert_eq!(
        Expr::from_ir(&ir::Expr::Call {
            fn_name: "f".into(),
            args: vec![ir::Expr::VarRef("x".into()), ir::Expr::Literal(word(2))],
        }),
        Ok(Expr::call2("f", Expr::r("x"), Expr::Literal(word(2))))
    );
    assert_eq!(
        Expr::from_ir(&ir::Expr::Builtin { fn_name: "datasize".into(), input: "d".into() }),
        Err(SplitError::Unsupported)
    );
}
