use pulzar::{analyze_file, parse_file, DiagnosticKind, SourceId};

fn diagnostics(source: &str) -> Vec<DiagnosticKind> {
    let parsed = parse_file(source, SourceId(0));
    let result = analyze_file(&parsed.file);
    result
        .diagnostics
        .into_iter()
        .map(|diag| diag.kind)
        .collect()
}

#[test]
fn allows_reassignment_after_let() {
    let diags = diagnostics("let x = 1\n$x = 2");
    assert!(!diags.contains(&DiagnosticKind::AssignmentToUndeclaredName));
}

#[test]
fn rejects_assignment_without_binding() {
    let diags = diagnostics("$x = 2");
    assert!(diags.contains(&DiagnosticKind::AssignmentToUndeclaredName));
}

#[test]
fn rejects_duplicate_let_in_same_scope() {
    let diags = diagnostics("let x = 1\nlet x = 2");
    assert!(diags.contains(&DiagnosticKind::DuplicateBinding));
}

#[test]
fn allows_shadowing_in_inner_scope() {
    let diags = diagnostics("let x = 1\nfn f() { let x = 2 }");
    assert!(!diags.contains(&DiagnosticKind::DuplicateBinding));
}

#[test]
fn rejects_duplicate_parameters() {
    let diags = diagnostics("fn f(x, x) { $x }");
    assert!(diags.contains(&DiagnosticKind::DuplicateBinding));
}

#[test]
fn allows_return_in_function_and_block_lambda() {
    let function_diags = diagnostics("fn f() { return 1 }");
    assert!(!function_diags.contains(&DiagnosticKind::InvalidReturnContext));

    let lambda_diags = diagnostics("let f = x => { return $x }");
    assert!(!lambda_diags.contains(&DiagnosticKind::InvalidReturnContext));
}

#[test]
fn rejects_return_at_top_level() {
    let diags = diagnostics("return 1");
    assert!(diags.contains(&DiagnosticKind::InvalidReturnContext));
}

#[test]
fn allows_unresolved_command_like_names() {
    let diags = diagnostics("ps |> filter isAdult\nsend_email");
    assert!(diags.is_empty(), "{diags:?}");
}

#[test]
fn supports_recursive_function_name_binding() {
    let diags = diagnostics("fn f(x) => f($x)");
    assert!(diags.is_empty(), "{diags:?}");
}

#[test]
fn allows_env_assignment_without_local_binding() {
    let diags = diagnostics("$$PATH = 'abc'");
    assert!(!diags.contains(&DiagnosticKind::AssignmentToUndeclaredName));
}
