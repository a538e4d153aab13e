use dunce_schedule::basic_block::{Assignment, BasicBlock, Expr};
use dunce_schedule::registers::{MemoryAsRegisters, ScheduleError};
use dunce_schedule::scheduler::{MemoryScheduler, Op};
use dunce_schedule::ssa_block::{Block, Name, Statement, Value};

fn word(last: u8) -> [u8; 32] {
    let mut w = [0u8; 32];
    w[31] = last;
    w
}

fn names(list: &[&str]) -> Vec<String> {
    list.iter().map(|s| s.to_string()).collect()
}

fn ident(s: &str) -> Name {
    Name::Ident(s.to_owned())
}

fn read(s: &str) -> Value {
    Value::RefName(ident(s))
}

fn call(assigns: &[&str], calls: &str, takes: Vec<Value>) -> Statement {
    Statement::CallAssign {
        assigns: assigns.iter().map(|s| ident(s)).collect(),
        calls: calls.to_owned(),
        takes,
    }
}

/// A word of the machine below, by where it comes from.
#[derive(Clone, Debug, PartialEq, Eq)]
enum Word {
    Input(String),
    Lit([u8; 32]),
    Result(usize, usize),
}

/// A machine that runs the operations on words: a stack, memory slots,
/// and the calls made. `arity` gives for each function how many words it
/// takes and gives.
struct Machine {
    stack: Vec<Word>,
    memory: Vec<Option<Word>>,
    calls: Vec<(String, Vec<Word>)>,
}

fn run(start_stack: &[&str], slot_count: usize, ops: &[Op], arity: &[(&str, usize, usize)]) -> Machine {
    let mut m = Machine {
        stack: start_stack.iter().map(|s| Word::Input(s.to_string())).collect(),
        memory: vec![None; slot_count],
        calls: vec![],
    };
    for op in ops {
        match op {
            Op::Pop => {
                m.stack.pop().unwrap();
            }
            Op::Push(l) => m.stack.push(Word::Lit(*l)),
            Op::Swap(k) => {
                let top = m.stack.len() - 1;
                m.stack.swap(top, top - k);
            }
            Op::Dup(k) => {
                let w = m.stack[m.stack.len() - k].clone();
                m.stack.push(w);
            }
            Op::MemVarStore(i) => {
                let w = m.stack.pop().unwrap();
                m.memory[*i] = Some(w);
            }
            Op::MemVarLoad(i) => {
                let w = m.memory[*i].clone().unwrap();
                m.stack.push(w);
            }
            Op::MemCopy { from, to } => {
                let w = m.memory[*from].clone().unwrap();
                m.memory[*to] = Some(w);
            }
            Op::MemSwap(i, j) => {
                assert!(m.memory[*i].is_some() && m.memory[*j].is_some());
                m.memory.swap(*i, *j);
            }
            Op::CallFn(name) => {
                let (_, takes, gives) = arity.iter().find(|(n, _, _)| n == name).unwrap();
                let mut args = vec![];
                for _ in 0..*takes {
                    args.push(m.stack.pop().unwrap());
                }
                let number = m.calls.len();
                m.calls.push((name.to_string(), args));
                for r in (0..*gives).rev() {
                    m.stack.push(Word::Result(number, r));
                }
            }
        }
    }
    m
}

fn max_written(ops: &[Op]) -> Option<usize> {
    ops.iter()
        .filter_map(|op| match op {
            Op::MemVarStore(i) => Some(*i),
            Op::MemCopy { to, .. } => Some(*to),
            Op::MemSwap(i, j) => Some(*i.max(j)),
            _ => None,
        })
        .max()
}

#[test]
fn end_stack_in_reverse_needs_no_swap() {
    let block = Block {
        start_stack: names(&["a", "b"]),
        statements: vec![],
        end_stack: names(&["b", "a"]),
    };
    let (slot_count, ops) = block.schedule_memory().unwrap();
    assert_eq!(slot_count, 2);
    assert_eq!(ops, vec![Op::MemVarStore(0), Op::MemVarStore(1)]);
    let m = run(&["a", "b"], slot_count, &ops, &[]);
    assert!(m.stack.is_empty());
    assert_eq!(m.memory, vec![Some(Word::Input("b".into())), Some(Word::Input("a".into()))]);
}

#[test]
fn end_stack_in_order_takes_one_swap() {
    let block = Block {
        start_stack: names(&["a", "b"]),
        statements: vec![],
        end_stack: names(&["a", "b"]),
    };
    let (slot_count, ops) = block.schedule_memory().unwrap();
    assert_eq!(slot_count, 2);
    assert_eq!(ops, vec![Op::MemVarStore(0), Op::MemVarStore(1), Op::MemSwap(0, 1)]);
    let m = run(&["a", "b"], slot_count, &ops, &[]);
    assert!(m.stack.is_empty());
    assert_eq!(m.memory, vec![Some(Word::Input("a".into())), Some(Word::Input("b".into()))]);
}

#[test]
fn dead_literal_assignment_emits_nothing() {
    let block = Block {
        start_stack: vec![],
        statements: vec![Statement::ValueAssign {
            to: Name::Intermed(0),
            value: Value::Literal(word(5)),
        }],
        end_stack: vec![],
    };
    let (slot_count, ops) = block.schedule_memory().unwrap();
    assert_eq!(slot_count, 0);
    assert_eq!(ops, vec![]);
}

#[test]
fn unread_start_names_are_popped() {
    let block = Block {
        start_stack: names(&["a", "b", "c"]),
        statements: vec![],
        end_stack: names(&["b"]),
    };
    let (slot_count, ops) = block.schedule_memory().unwrap();
    assert_eq!(slot_count, 1);
    assert_eq!(ops, vec![Op::Pop, Op::MemVarStore(0), Op::Pop]);
    let m = run(&["a", "b", "c"], slot_count, &ops, &[]);
    assert!(m.stack.is_empty());
    assert_eq!(m.memory, vec![Some(Word::Input("b".into()))]);
}

#[test]
fn nested_call_is_flattened_and_scheduled() {
    let bb = BasicBlock {
        start_stack: names(&["sender_slot", "amount"]),
        assignments: vec![Assignment::new(
            vec!["balance"],
            Expr::call2("add", Expr::call1("sload", Expr::r("sender_slot")), Expr::r("amount")),
        )],
        end_stack: names(&["amount", "sender_slot"]),
    };
    let ssa = bb.flatten_to().unwrap();
    let (slot_count, ops) = ssa.schedule_memory().unwrap();
    assert_eq!(slot_count, 3);
    assert_eq!(
        ops,
        vec![
            Op::MemVarStore(0),
            Op::MemVarStore(1),
            Op::MemVarLoad(1),
            Op::CallFn("sload"),
            Op::MemVarStore(2),
            Op::MemVarLoad(0),
            Op::MemVarLoad(2),
            Op::CallFn("add"),
            Op::Pop,
        ]
    );
    let m = run(&["sender_slot", "amount"], slot_count, &ops, &[("sload", 1, 1), ("add", 2, 1)]);
    assert!(m.stack.is_empty());
    assert_eq!(m.memory[0], Some(Word::Input("amount".into())));
    assert_eq!(m.memory[1], Some(Word::Input("sender_slot".into())));
    assert_eq!(
        m.calls,
        vec![
            ("sload".to_owned(), vec![Word::Input("sender_slot".into())]),
            ("add".to_owned(), vec![Word::Result(0, 0), Word::Input("amount".into())]),
        ]
    );
    assert_eq!(max_written(&ops), Some(slot_count - 1));
}

#[test]
fn live_literal_is_pushed_and_stored() {
    let block = Block {
        start_stack: vec![],
        statements: vec![
            Statement::ValueAssign { to: ident("five"), value: Value::Literal(word(5)) },
            Statement::ValueAssign { to: ident("dead"), value: Value::Literal(word(6)) },
        ],
        end_stack: names(&["five"]),
    };
    let (slot_count, ops) = block.schedule_memory().unwrap();
    assert_eq!(slot_count, 1);
    assert_eq!(ops, vec![Op::Push(word(5)), Op::MemVarStore(0)]);
}

#[test]
fn copies_reuse_the_released_slot_and_dead_copies_are_left_out() {
    let block = Block {
        start_stack: names(&["a"]),
        statements: vec![
            Statement::ValueAssign { to: ident("dead"), value: read("a") },
            Statement::ValueAssign { to: ident("b"), value: read("a") },
        ],
        end_stack: names(&["b"]),
    };
    let (slot_count, ops) = block.schedule_memory().unwrap();
    assert_eq!(slot_count, 1);
    assert_eq!(ops, vec![Op::MemVarStore(0), Op::MemCopy { from: 0, to: 0 }]);
    let m = run(&["a"], slot_count, &ops, &[]);
    assert_eq!(m.memory, vec![Some(Word::Input("a".into()))]);
}

#[test]
fn copy_of_a_name_that_lives_on_takes_a_new_slot() {
    let block = Block {
        start_stack: names(&["a"]),
        statements: vec![Statement::ValueAssign { to: ident("b"), value: read("a") }],
        end_stack: names(&["b", "a"]),
    };
    let (slot_count, ops) = block.schedule_memory().unwrap();
    assert_eq!(slot_count, 2);
    assert_eq!(
        ops,
        vec![Op::MemVarStore(0), Op::MemCopy { from: 0, to: 1 }, Op::MemSwap(0, 1)]
    );
    let m = run(&["a"], slot_count, &ops, &[]);
    assert_eq!(m.memory, vec![Some(Word::Input("a".into())), Some(Word::Input("a".into()))]);
}

#[test]
fn operands_are_loaded_last_first_and_results_stored_first_first() {
    let block = Block {
        start_stack: names(&["x", "y"]),
        statements: vec![call(
            &["q", "unused", "r"],
            "divmod",
            vec![read("x"), Value::Literal(word(3)), read("y")],
        )],
        end_stack: names(&["q", "r"]),
    };
    let (slot_count, ops) = block.schedule_memory().unwrap();
    assert_eq!(slot_count, 2);
    assert_eq!(
        ops,
        vec![
            Op::MemVarStore(0),
            Op::MemVarStore(1),
            Op::MemVarLoad(0),
            Op::Push(word(3)),
            Op::MemVarLoad(1),
            Op::CallFn("divmod"),
            Op::MemVarStore(0),
            Op::Pop,
            Op::MemVarStore(1),
        ]
    );
    let m = run(&["x", "y"], slot_count, &ops, &[("divmod", 3, 3)]);
    assert!(m.stack.is_empty());
    assert_eq!(m.memory, vec![Some(Word::Result(0, 0)), Some(Word::Result(0, 2))]);
    assert_eq!(
        m.calls,
        vec![(
            "divmod".to_owned(),
            vec![Word::Input("x".into()), Word::Lit(word(3)), Word::Input("y".into())]
        )]
    );
}

#[test]
fn slot_count_is_the_high_water_mark() {
    // three values live at once, then one at a time
    let block = Block {
        start_stack: names(&["a", "b", "c"]),
        statements: vec![
            call(&["s"], "add3", vec![read("a"), read("b"), read("c")]),
            call(&["t"], "neg", vec![read("s")]),
        ],
        end_stack: names(&["t"]),
    };
    let (slot_count, ops) = block.schedule_memory().unwrap();
    assert_eq!(slot_count, 3);
    assert_eq!(max_written(&ops), Some(2));
    let m = run(&["a", "b", "c"], slot_count, &ops, &[("add3", 3, 1), ("neg", 1, 1)]);
    assert!(m.stack.is_empty());
    assert_eq!(m.memory[0], Some(Word::Result(1, 0)));
}

#[test]
fn reading_an_undefined_name_is_an_error() {
    let block = Block {
        start_stack: names(&["a"]),
        statements: vec![call(&[], "f", vec![read("b")])],
        end_stack: vec![],
    };
    assert_eq!(block.schedule_memory(), Err(ScheduleError::UndefinedReference(ident("b"))));
    let block = Block { start_stack: vec![], statements: vec![], end_stack: names(&["a"]) };
    assert_eq!(block.schedule_memory(), Err(ScheduleError::UndefinedReference(ident("a"))));
    // a use before the definition
    let block = Block {
        start_stack: vec![],
        statements: vec![
            Statement::ValueAssign { to: ident("b"), value: read("a") },
            Statement::ValueAssign { to: ident("a"), value: Value::Literal(word(1)) },
        ],
        end_stack: names(&["b"]),
    };
    assert_eq!(block.schedule_memory(), Err(ScheduleError::UndefinedReference(ident("a"))));
}

#[test]
fn register_file_counts_and_reuses() {
    let block = Block {
        start_stack: names(&["a"]),
        statements: vec![call(&[], "f", vec![read("a"), read("a"), read("b")])],
        end_stack: names(&["b"]),
    };
    let mut memory = MemoryAsRegisters::for_block(&block);
    assert_eq!(memory.len(), 0);
    assert_eq!(memory.get_rem_ref_count(&ident("a")), 2);
    assert_eq!(memory.get_rem_ref_count(&ident("b")), 2);
    assert_eq!(memory.get_rem_ref_count(&ident("c")), 0);
    assert_eq!(memory.get_loc(&ident("a")), None);
    assert_eq!(memory.use_reference(&ident("a")), Err(ScheduleError::UndefinedReference(ident("a"))));

    assert_eq!(memory.get_or_assign_loc(&ident("a")), 0);
    assert_eq!(memory.get_or_assign_loc(&ident("b")), 1);
    assert_eq!(memory.get_or_assign_loc(&ident("a")), 0);
    assert_eq!(memory.get_loc(&ident("b")), Some(1));
    assert_eq!(memory.len(), 2);

    assert_eq!(memory.use_reference(&ident("a")), Ok(0));
    assert_eq!(memory.get_rem_ref_count(&ident("a")), 1);
    assert_eq!(memory.get_loc(&ident("a")), Some(0));
    assert_eq!(memory.use_reference(&ident("a")), Ok(0));
    assert_eq!(memory.get_rem_ref_count(&ident("a")), 0);
    assert_eq!(memory.get_loc(&ident("a")), None);
    assert_eq!(memory.len(), 2);

    // the lowest empty slot is taken again
    assert_eq!(memory.get_or_assign_loc(&ident("c")), 0);
    assert_eq!(memory.use_reference(&ident("c")), Err(ScheduleError::UseAfterRelease(ident("c"))));
    assert_eq!(memory.get_or_assign_loc(&Name::Intermed(0)), 2);
    assert_eq!(memory.len(), 3);

    memory.swap_slots(1, 2);
    assert_eq!(memory.get_loc(&ident("b")), Some(2));
    assert_eq!(memory.get_loc(&Name::Intermed(0)), Some(1));
}

#[test]
fn names_convert() {
    assert_eq!(Name::from("a".to_owned()), ident("a"));
    assert_eq!(Name::from(&"a".to_owned()), ident("a"));
    assert_eq!(Value::from(Name::Intermed(3)), Value::RefName(Name::Intermed(3)));
    assert_eq!(Value::ident(&"a".to_owned()), read("a"));
    assert_ne!(ident("a"), ident("b"));
    assert!(ident("a").same(&ident("a")));
    assert!(!ident("0").same(&Name::Intermed(0)));
    assert!(Name::Intermed(1).same(&Name::Intermed(1)));
    assert!(!Name::Intermed(1).same(&Name::Intermed(2)));
}

#[test]
fn name_twice_in_the_end_stack_takes_a_slot_of_its_own() {
    let block = Block {
        start_stack: names(&["a"]),
        statements: vec![],
        end_stack: names(&["a", "a"]),
    };
    let (slot_count, ops) = block.schedule_memory().unwrap();
    assert_eq!(slot_count, 2);
    assert_eq!(ops, vec![Op::MemVarStore(0), Op::MemSwap(1, 0)]);
}

#[test]
fn blocks_that_are_scheduled_are_those_whose_uses_are_defined() {
    let defined = Block {
        start_stack: names(&["a"]),
        statements: vec![
            call(&["b"], "f", vec![read("a")]),
            Statement::ValueAssign { to: ident("c"), value: read("b") },
        ],
        end_stack: names(&["c", "a"]),
    };
    assert!(defined.schedule_memory().is_ok());
    let end_undefined = Block {
        start_stack: names(&["a"]),
        statements: vec![call(&["b"], "f", vec![read("a")])],
        end_stack: names(&["c"]),
    };
    assert_eq!(
        end_undefined.schedule_memory(),
        Err(ScheduleError::UndefinedReference(ident("c")))
    );
    // a dead definition defines the name no less
    let dead = Block {
        start_stack: vec![],
        statements: vec![
            Statement::ValueAssign { to: ident("x"), value: Value::Literal(word(1)) },
        ],
        end_stack: vec![],
    };
    assert!(dead.schedule_memory().is_ok());
}
