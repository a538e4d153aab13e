use dunce_schedule::k_parser::{KApply, KInner, KLabel, KSort, KToken};

fn tok(sort: &str, token: &str) -> KInner {
    KInner::KToken(KToken { token: token.to_owned(), sort: KSort { name: sort.to_owned() } })
}

fn apply(label: &str, args: Vec<KInner>) -> KApply {
    KApply { label: KLabel { name: label.to_owned() }, args }
}

fn app(label: &str, args: Vec<KInner>) -> KInner {
    KInner::KApply(apply(label, args))
}

#[test]
fn nodes_are_told_apart() {
    let t = tok("Int", "1");
    let a = app("block", vec![]);
    assert_eq!(a.get_kapply(), Ok(&apply("block", vec![])));
    assert_eq!(t.get_kapply(), Err("Expected kapply".to_owned()));
    assert_eq!(
        t.get_token(),
        Ok(&KToken { token: "1".to_owned(), sort: KSort { name: "Int".to_owned() } })
    );
    assert_eq!(a.get_token(), Err("Expected token".to_owned()));
}

#[test]
fn arguments_are_unpacked_by_count() {
    let a = tok("Int", "1");
    let b = tok("Int", "2");
    let c = tok("Int", "3");
    let d = tok("Int", "4");
    let one = apply("l", vec![tok("Int", "1")]);
    let two = apply("l", vec![tok("Int", "1"), tok("Int", "2")]);
    let four = apply("l", vec![tok("Int", "1"), tok("Int", "2"), tok("Int", "3"), tok("Int", "4")]);
    assert_eq!(one.unpack_arg(), Ok(&a));
    assert_eq!(two.unpack_arg(), Err("Expected 1 arg".to_owned()));
    assert_eq!(two.unpack_2args(), Ok((&a, &b)));
    assert_eq!(one.unpack_2args(), Err("Expected 2 args".to_owned()));
    assert_eq!(four.unpack_4args(), Ok((&a, &b, &c, &d)));
    assert_eq!(two.unpack_4args(), Err("Expected 4 args".to_owned()));
    assert_eq!(apply("l", vec![]).unpack_arg(), Err("Expected 1 arg".to_owned()));
}

#[test]
fn cons_lists_are_flattened() {
    let list = apply(
        "cons",
        vec![tok("Int", "1"), app("cons", vec![tok("Int", "2"), app("nil", vec![])])],
    );
    let a = tok("Int", "1");
    let b = tok("Int", "2");
    assert_eq!(list.flatten_cons("cons"), Ok(vec![&a, &b]));
    assert_eq!(list.flatten_cons("other"), Ok(vec![]));
    assert_eq!(apply("nil", vec![]).flatten_cons("cons"), Ok(vec![]));
    // more than two arguments: the others are not looked at
    let wide = apply("cons", vec![tok("Int", "1"), app("nil", vec![]), tok("Int", "9")]);
    assert_eq!(wide.flatten_cons("cons"), Ok(vec![&a]));
}

#[test]
fn malformed_cons_lists_are_errors() {
    let tail_is_token = apply("cons", vec![tok("Int", "1"), tok("Int", "2")]);
    assert_eq!(
        tail_is_token.flatten_cons("cons"),
        Err("Second element of cons list was token".to_owned())
    );
    let deep = apply(
        "cons",
        vec![tok("Int", "1"), app("cons", vec![tok("Int", "2"), tok("Int", "3")])],
    );
    assert_eq!(deep.flatten_cons("cons"), Err("Second element of cons list was token".to_owned()));
    assert_eq!(
        apply("cons", vec![tok("Int", "1")]).flatten_cons("cons"),
        Err("Expected 2 args".to_owned())
    );
}

#[test]
fn trees_are_written_out_line_by_line() {
    let t = KToken { token: "a\"b".to_owned(), sort: KSort { name: "Identifier".to_owned() } };
    assert_eq!(t.to_fmt_string(0), "KToken Identifier \"a\\\"b\"");
    assert_eq!(t.to_fmt_string(2), "    KToken Identifier \"a\\\"b\"");
    let tree = apply(
        "block",
        vec![app("let", vec![tok("Identifier", "x"), tok("Int", "1")]), app("leave", vec![])],
    );
    assert_eq!(
        tree.to_fmt_string(0),
        "KApply block\n  KApply let\n    KToken Identifier \"x\"\n    KToken Int \"1\"\n  KApply leave\n"
    );
    assert_eq!(
        KInner::KApply(apply("leave", vec![])).to_fmt_string(1),
        "  KApply leave\n"
    );
    assert_eq!(tok("Int", "7").to_fmt_string(1), "  KToken Int \"7\"");
}

#[test]
fn trees_are_copied() {
    let tree = app(
        "block",
        vec![app("let", vec![tok("Identifier", "x"), tok("Int", "1")]), app("leave", vec![])],
    );
    assert_eq!(tree.clone(), tree);
    let ast = dunce_schedule::k_parser::KAst { version: 3, term: tree, format: "KAST".to_owned() };
    assert_eq!(ast.clone(), ast);
}
