use dunce_schedule::basic_block::FlattenError;
use dunce_schedule::ir::{Block, Expr, FunctionDefinition, Statement};
use dunce_schedule::pipeline::{lower_unit, LowerError};
use dunce_schedule::scheduler::{references_fit, MemoryScheduler, Op};
use dunce_schedule::splitter::SplitError;
use dunce_schedule::ssa_block as ssa;

fn call(name: &str, args: Vec<Expr>) -> Expr {
    Expr::Call { fn_name: name.into(), args }
}

fn var(name: &str) -> Expr {
    Expr::VarRef(name.into())
}

fn names(list: &[&str]) -> Vec<String> {
    list.iter().map(|s| s.to_string()).collect()
}

fn unit() -> Block {
    // function double(x) -> r { r := add(x, x) }
    // let a := double(load(0x..07))
    Block(vec![
        Statement::FnDef(FunctionDefinition {
            name: "double".into(),
            args: vec!["x".into()],
            rets: vec!["r".into()],
            body: Block(vec![Statement::Assignment {
                to: vec!["r".into()],
                expr: call("add", vec![var("x"), var("x")]),
            }]),
        }),
        Statement::Assignment {
            to: vec!["a".into()],
            expr: call("double", vec![call("load", vec![Expr::Literal([7u8; 32])])]),
        },
    ])
}

#[test]
fn unit_is_lowered_function_by_function() {
    let lowered = lower_unit(&unit()).unwrap();
    assert_eq!(lowered.blocks.len(), 1);
    assert_eq!(lowered.blocks[0].start_stack, names(&[]));
    assert_eq!(lowered.blocks[0].end_stack, names(&["a"]));
    assert_eq!(
        lowered.blocks[0].statements,
        vec![
            ssa::Statement::CallAssign {
                assigns: vec![ssa::Name::Intermed(0)],
                calls: "load".into(),
                takes: vec![ssa::Value::Literal([7u8; 32])],
            },
            ssa::Statement::CallAssign {
                assigns: vec![ssa::Name::Ident("a".into())],
                calls: "double".into(),
                takes: vec![ssa::Value::RefName(ssa::Name::Intermed(0))],
            },
        ]
    );
    assert_eq!(lowered.functions.len(), 1);
    assert_eq!(lowered.functions[0].name, "double");
    let body = &lowered.functions[0].blocks;
    assert_eq!(body.len(), 1);
    assert_eq!(body[0].start_stack, names(&["x", "r", "__ret_addr__"]));
    assert_eq!(body[0].end_stack, names(&["r", "__ret_addr__"]));

    assert!(references_fit(&body[0]));
    let (slot_count, ops) = body[0].schedule_memory().unwrap();
    assert_eq!(slot_count, 3);
    assert_eq!(
        ops,
        vec![
            Op::MemVarStore(0),
            Op::MemVarStore(1),
            Op::MemVarStore(2),
            Op::Push([0u8; 32]),
            Op::MemVarStore(1),
            Op::MemVarLoad(2),
            Op::MemVarLoad(2),
            Op::CallFn("add"),
            Op::MemVarStore(1),
            Op::MemSwap(0, 1),
        ]
    );
}

#[test]
fn lowering_twice_gives_the_same() {
    assert_eq!(lower_unit(&unit()), lower_unit(&unit()));
    let lowered = lower_unit(&unit()).unwrap();
    let again = lower_unit(&unit()).unwrap();
    for (a, b) in lowered.blocks.iter().zip(again.blocks.iter()) {
        assert_eq!(a.schedule_memory(), b.schedule_memory());
    }
}

#[test]
fn lowering_reports_the_stage_that_failed() {
    let leave = Block(vec![Statement::Leave]);
    assert_eq!(lower_unit(&leave), Err(LowerError::Split(SplitError::LeaveOutsideFunction)));
    let two = Block(vec![Statement::Assignment {
        to: vec!["a".into(), "b".into()],
        expr: Expr::Literal([0u8; 32]),
    }]);
    assert_eq!(lower_unit(&two), Err(LowerError::Flatten(FlattenError::DestinationArity)));
}
