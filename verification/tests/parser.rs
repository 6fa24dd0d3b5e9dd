use pulzar::{parse_expr, parse_file, ExprKind, SourceId, StmtKind};

#[test]
fn parses_pipeline_call_chain() {
    let parsed = parse_file("let users = cat users.json |> decode", SourceId(0));
    assert!(parsed.diagnostics.is_empty(), "{:?}", parsed.diagnostics);
    assert_eq!(parsed.file.statements.len(), 1);
    match &parsed.file.statements[0].kind {
        StmtKind::Let { value, .. } => assert!(matches!(value.kind, ExprKind::Pipeline { .. })),
        other => panic!("unexpected statement: {other:?}"),
    }
}

#[test]
fn parses_lambda_with_return_block() {
    let parsed = parse_expr("u => { return $u.age >= 18 }", SourceId(0));
    assert!(parsed.diagnostics.is_empty(), "{:?}", parsed.diagnostics);
    assert!(matches!(
        parsed.expr.expect("expr").kind,
        ExprKind::Lambda { .. }
    ));
}

#[test]
fn parses_function_expr_body() {
    let parsed = parse_file("fn score(u) => $u.points * 2", SourceId(0));
    assert!(parsed.diagnostics.is_empty(), "{:?}", parsed.diagnostics);
    assert!(matches!(
        parsed.file.statements[0].kind,
        StmtKind::FnDecl { .. }
    ));
}

#[test]
fn parses_member_chain_and_object_literal() {
    let member = parse_expr("$user.profile.name", SourceId(0));
    assert!(member.diagnostics.is_empty(), "{:?}", member.diagnostics);
    assert!(matches!(
        member.expr.expect("expr").kind,
        ExprKind::Member { .. }
    ));

    let object = parse_expr("@{name: \"a\", age: 18}", SourceId(0));
    assert!(object.diagnostics.is_empty(), "{:?}", object.diagnostics);
    assert!(matches!(
        object.expr.expect("expr").kind,
        ExprKind::Object(_)
    ));
}

#[test]
fn cooks_string_and_numeric_literals() {
    let string = parse_expr("'asijd uas'", SourceId(0));
    assert!(string.diagnostics.is_empty(), "{:?}", string.diagnostics);
    assert!(matches!(
        string.expr.expect("expr").kind,
        ExprKind::String(ref value) if value == "asijd uas"
    ));

    let number = parse_expr("42", SourceId(0));
    assert!(number.diagnostics.is_empty(), "{:?}", number.diagnostics);
    assert!(matches!(
        number.expr.expect("expr").kind,
        ExprKind::Integer(42)
    ));
}

#[test]
fn rejects_assignment_expression() {
    let parsed = parse_file("foo(x = 10)", SourceId(0));
    assert!(!parsed.diagnostics.is_empty());
}

#[test]
fn diagnoses_invalid_assignment_target() {
    let parsed = parse_file("a + b = 1", SourceId(0));
    assert!(!parsed.diagnostics.is_empty());
}

#[test]
fn parses_bareword_with_dots_as_string_like_atom() {
    let parsed = parse_expr("users.json", SourceId(0));
    assert!(parsed.diagnostics.is_empty(), "{:?}", parsed.diagnostics);
    assert!(matches!(
        parsed.expr.expect("expr").kind,
        ExprKind::Bareword(ref value) if value == "users.json"
    ));
}

#[test]
fn parses_shell_flags_as_bareword_args() {
    let parsed = parse_expr("git status --short --color=never", SourceId(0));
    assert!(parsed.diagnostics.is_empty(), "{:?}", parsed.diagnostics);
    let expr = parsed.expr.expect("expr");
    match expr.kind {
        ExprKind::Call { args, .. } => {
            assert!(matches!(args[0].kind, ExprKind::Bareword(ref value) if value == "status"));
            assert!(matches!(args[1].kind, ExprKind::Bareword(ref value) if value == "--short"));
            assert!(
                matches!(args[2].kind, ExprKind::Bareword(ref value) if value == "--color=never")
            );
        }
        other => panic!("unexpected expression: {other:?}"),
    }
}

#[test]
fn ignores_statement_end_inside_object_and_list() {
    let object = parse_expr("@{\nname: \"a\",\nage: 18\n}", SourceId(0));
    assert!(object.diagnostics.is_empty(), "{:?}", object.diagnostics);

    let list = parse_expr("[\n1,\n2\n]", SourceId(0));
    assert!(list.diagnostics.is_empty(), "{:?}", list.diagnostics);
}

#[test]
fn parses_env_vars() {
    let parsed = parse_expr("$$PATH", SourceId(0));
    assert!(parsed.diagnostics.is_empty(), "{:?}", parsed.diagnostics);
    assert!(matches!(
        parsed.expr.expect("expr").kind,
        ExprKind::EnvVar(ref value) if value == "PATH"
    ));
}
