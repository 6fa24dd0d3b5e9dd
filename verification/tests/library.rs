use pulzar::builtins::split_words;
use pulzar::lexer::lex_with_positions;
use pulzar::literal::{cook_string_literal, is_f64_syntax, parse_i64};
use pulzar::text::{decimal_string, text_less};
use pulzar::{
    analyze_file, find_spec_by_id, format_usage, lex, parse_expr, parse_file, render_help,
    resolve_segments, specs, BuiltinId, BuiltinStyle, Diagnostic, DiagnosticKind, ExprKind,
    LineIndex, SourceId, Span, StmtKind, TextRange, TokenKind, ValueKind,
};

fn chars(text: &str) -> Vec<char> {
    text.chars().collect()
}

fn sema(source: &str) -> Vec<Diagnostic> {
    let parsed = parse_file(source, SourceId(0));
    analyze_file(&parsed.file).diagnostics
}

#[test]
fn line_index_maps_offsets() {
    let index = LineIndex::new("ab\ncd\n\nx");
    assert_eq!(index.line_col(0), (1, 1));
    assert_eq!(index.line_col(1), (1, 2));
    assert_eq!(index.line_col(3), (2, 1));
    assert_eq!(index.line_col(6), (3, 1));
    assert_eq!(index.line_col(7), (4, 1));
    assert_eq!(index.line_col(100), (4, 94));
    let wide = LineIndex::new("é\nz");
    assert_eq!(wide.line_col(3), (2, 1));
}

#[test]
fn ranges_and_spans() {
    let range = TextRange::new(2, 7);
    assert_eq!(range.len(), 5);
    assert!(!range.is_empty());
    assert_eq!(TextRange::new(7, 2).len(), 0);
    assert!(TextRange::new(4, 4).is_empty());
    let a = Span::new(SourceId(1), 3, 5);
    let b = Span::new(SourceId(1), 1, 4);
    let c = a.cover(b);
    assert_eq!((c.start(), c.end(), c.source_id), (1, 5, SourceId(1)));
}

#[test]
fn lexed_tokens_are_ordered_and_end_with_eof() {
    let file = lex("let x = 1 // note\n$x", SourceId(3));
    let tokens = &file.tokens;
    assert_eq!(tokens.last().map(|t| t.kind), Some(TokenKind::Eof));
    assert_eq!(tokens.iter().filter(|t| t.kind == TokenKind::Eof).count(), 1);
    for pair in tokens.windows(2) {
        assert!(pair[0].span.end() <= pair[1].span.start());
    }
    for token in tokens {
        assert_eq!(token.span.source_id, SourceId(3));
        assert!(token.span.start() <= token.span.end());
        assert!(token.span.end() <= 20);
    }
}

#[test]
fn lexer_positions_follow_characters() {
    let (file, positions) = lex_with_positions("é + 1", SourceId(0));
    assert_eq!(file.tokens.len(), positions.len());
    let source: Vec<char> = "é + 1".chars().collect();
    for (token, (from, to)) in file.tokens.iter().zip(positions.iter()) {
        let start: usize = source[..*from].iter().map(|c| c.len_utf8()).sum();
        let end: usize = source[..*to].iter().map(|c| c.len_utf8()).sum();
        assert_eq!((token.span.start(), token.span.end()), (start, end));
    }
}

#[test]
fn lexer_reports_unexpected_characters() {
    let file = lex("a ` b", SourceId(0));
    assert_eq!(file.diagnostics.len(), 1);
    assert_eq!(file.diagnostics[0].kind, DiagnosticKind::UnexpectedCharacter);
    assert_eq!(file.diagnostics[0].span, Span::new(SourceId(0), 2, 3));
}

#[test]
fn lexer_reads_single_quoted_strings_and_dollars() {
    let kinds: Vec<TokenKind> = lex("$$HOME 'a b'", SourceId(0))
        .tokens
        .into_iter()
        .map(|t| t.kind)
        .collect();
    assert_eq!(
        kinds,
        vec![
            TokenKind::Dollar,
            TokenKind::Dollar,
            TokenKind::Identifier,
            TokenKind::String,
            TokenKind::Eof
        ]
    );
}

#[test]
fn parser_keeps_lexer_diagnostics_first() {
    let parsed = parse_file("\"open", SourceId(0));
    assert!(!parsed.diagnostics.is_empty());
    assert_eq!(parsed.diagnostics[0].kind, DiagnosticKind::UnterminatedString);
    for diag in &parsed.diagnostics {
        assert!(diag.span.end() <= 5);
    }
}

#[test]
fn parse_expr_is_empty_only_for_blank_input() {
    assert!(parse_expr("\n;\n// only a comment", SourceId(0)).expr.is_none());
    assert!(parse_expr("", SourceId(0)).expr.is_none());
    assert!(parse_expr("1", SourceId(0)).expr.is_some());
    assert!(parse_expr(")", SourceId(0)).expr.is_some());
}

#[test]
fn parses_precedence_and_floats() {
    let parsed = parse_expr("1 + 2 * 3", SourceId(0));
    assert!(parsed.diagnostics.is_empty());
    match parsed.expr.expect("expr").kind {
        ExprKind::Binary { left, right, .. } => {
            assert!(matches!(left.kind, ExprKind::Integer(1)));
            assert!(matches!(right.kind, ExprKind::Binary { .. }));
        }
        other => panic!("unexpected expression: {other:?}"),
    }
    let float = parse_expr("2.5e3", SourceId(0));
    assert!(matches!(float.expr.expect("expr").kind, ExprKind::Float(ref t) if t == "2.5e3"));
}

#[test]
fn parser_reports_integer_overflow() {
    let parsed = parse_expr("99999999999999999999", SourceId(0));
    assert_eq!(parsed.diagnostics.len(), 1);
    assert_eq!(parsed.diagnostics[0].kind, DiagnosticKind::InvalidNumber);
}

#[test]
fn parses_statements() {
    let parsed = parse_file("let a = 1; $a = 2\nreturn", SourceId(0));
    assert!(parsed.diagnostics.is_empty(), "{:?}", parsed.diagnostics);
    let kinds: Vec<&StmtKind> = parsed.file.statements.iter().map(|s| &s.kind).collect();
    assert!(matches!(kinds[0], StmtKind::Let { .. }));
    assert!(matches!(kinds[1], StmtKind::Assign { .. }));
    assert!(matches!(kinds[2], StmtKind::Return { value: None }));
}

#[test]
fn top_level_return_is_reported_with_its_span() {
    let diags = sema("let a = 1\nreturn 2");
    assert_eq!(diags.len(), 1);
    assert_eq!(diags[0].kind, DiagnosticKind::InvalidReturnContext);
    assert_eq!(diags[0].span, Span::new(SourceId(0), 10, 18));
    assert_eq!(
        diags[0].message,
        "`return` is only valid inside functions or block-bodied lambdas"
    );
}

#[test]
fn duplicate_let_is_reported_with_later_span() {
    let diags = sema("let a = 1\nlet b = 2\nlet a = 3");
    assert_eq!(diags.len(), 1);
    assert_eq!(diags[0].kind, DiagnosticKind::DuplicateBinding);
    assert_eq!(diags[0].span, Span::new(SourceId(0), 20, 29));
    assert_eq!(diags[0].message, "duplicate binding in the same scope");
}

#[test]
fn undeclared_assignment_message_names_the_variable() {
    let diags = sema("$count = 1");
    assert_eq!(diags.len(), 1);
    assert_eq!(diags[0].kind, DiagnosticKind::AssignmentToUndeclaredName);
    assert_eq!(diags[0].message, "cannot assign to undeclared name `count`");
}

#[test]
fn nested_function_return_and_lambda_expression_body() {
    assert!(sema("fn f() { fn g() { return 1 } }").is_empty());
    let diags = sema("let f = x => $x\nreturn");
    assert_eq!(diags.len(), 1);
    assert_eq!(diags[0].kind, DiagnosticKind::InvalidReturnContext);
    let diags = sema("fn f(a) { $b = 1 }");
    assert_eq!(diags.len(), 1);
    assert_eq!(diags[0].kind, DiagnosticKind::AssignmentToUndeclaredName);
}

#[test]
fn resolves_the_longest_path_among_candidates() {
    let matched = resolve_segments(&["env", "set", "A", "1"]).expect("match");
    assert_eq!(matched.spec.id, BuiltinId::EnvSet);
    assert_eq!(matched.consumed, 2);
    assert!(resolve_segments(&["env"]).is_none());
    assert!(resolve_segments(&[]).is_none());
    assert!(resolve_segments(&["nothing"]).is_none());
    let pwd = resolve_segments(&["pwd"]).expect("alias");
    assert_eq!(pwd.spec.id, BuiltinId::FsPwd);
}

#[test]
fn registry_lookup_by_id() {
    let all = specs();
    assert_eq!(all.len(), 12);
    for spec in &all {
        assert_eq!(find_spec_by_id(spec.id).id, spec.id);
    }
    let map = find_spec_by_id(BuiltinId::MapEach);
    assert_eq!(map.path, &["map"]);
    assert_eq!(map.style, BuiltinStyle::Both);
    assert_eq!(map.input, ValueKind::List);
}

#[test]
fn formats_usage_and_help() {
    assert_eq!(
        format_usage(&find_spec_by_id(BuiltinId::EnvSet)),
        "usage: env set <name:env-name> <value:any>"
    );
    assert_eq!(
        format_usage(&find_spec_by_id(BuiltinId::Help)),
        "usage: help [builtin_path:string...]"
    );
    assert_eq!(
        format_usage(&find_spec_by_id(BuiltinId::FsLs)),
        "usage: fs ls [path:path]"
    );
    assert_eq!(
        render_help(Some(&find_spec_by_id(BuiltinId::FsRead))),
        "usage: fs read <path:path>\nRead a file into a string.\nstyle: command/function\ninput: none\noutput: string\naliases: cat\nmutates shell: no"
    );
    let overview = render_help(None);
    assert!(overview.starts_with("available builtins:\n  help             Show builtin help"));
    assert_eq!(overview.lines().count(), 13);
}

#[test]
fn splits_alias_words() {
    assert_eq!(split_words("  fs   read "), vec![chars("fs"), chars("read")]);
    assert!(split_words("   ").is_empty());
}

#[test]
fn cooks_literals() {
    assert_eq!(cook_string_literal(&chars("\"a\\nb\\\\c\"")), Ok("a\nb\\c".to_string()));
    assert_eq!(cook_string_literal(&chars("'x\\'y'")), Ok("x'y".to_string()));
    assert_eq!(cook_string_literal(&chars("")), Err("empty string literal"));
    assert_eq!(cook_string_literal(&chars("\"abc'")), Err("invalid string literal"));
    assert_eq!(cook_string_literal(&chars("\"")), Err("invalid string literal"));
    assert_eq!(
        cook_string_literal(&chars("\"a\\\"")),
        Err("unterminated escape sequence")
    );
}

#[test]
fn reads_integers_and_float_syntax() {
    assert_eq!(parse_i64(&chars("42")), Some(42));
    assert_eq!(parse_i64(&chars("9223372036854775807")), Some(i64::MAX));
    assert_eq!(parse_i64(&chars("9223372036854775808")), None);
    assert_eq!(parse_i64(&chars("")), None);
    assert_eq!(parse_i64(&chars("-3")), Some(-3));
    assert!(is_f64_syntax(&chars("2.5")));
    assert!(is_f64_syntax(&chars("1e10")));
    assert!(is_f64_syntax(&chars("inf")));
    assert!(is_f64_syntax(&chars("-NaN")));
    assert!(!is_f64_syntax(&chars("1.2.3")));
    assert!(!is_f64_syntax(&chars("e5")));
}

#[test]
fn text_helpers() {
    assert_eq!(decimal_string(0), "0");
    assert_eq!(decimal_string(1205), "1205");
    assert!(text_less("age", "name"));
    assert!(text_less("a", "ab"));
    assert!(!text_less("b", "ab"));
    assert!(!text_less("x", "x"));
    assert!(text_less("Z", "a"));
}

#[test]
fn kind_names_match_debug_forms() {
    assert_eq!(TokenKind::PipeForward.name(), format!("{:?}", TokenKind::PipeForward));
    assert_eq!(
        DiagnosticKind::InvalidLambdaParameterList.name(),
        format!("{:?}", DiagnosticKind::InvalidLambdaParameterList)
    );
}

#[test]
fn lexer_output_tiles_the_text() {
    let source = "let x = 1 ? é";
    let lexed = lex(source, SourceId(0));
    let unexpected: Vec<&Diagnostic> = lexed
        .diagnostics
        .iter()
        .filter(|d| d.kind == DiagnosticKind::UnexpectedCharacter)
        .collect();
    assert_eq!(unexpected.len(), 2);
    assert_eq!((unexpected[0].span.start(), unexpected[0].span.end()), (10, 11));
    assert_eq!((unexpected[1].span.start(), unexpected[1].span.end()), (12, 14));
    for (offset, ch) in source.char_indices() {
        let in_token = lexed
            .tokens
            .iter()
            .any(|t| t.span.start() <= offset && offset < t.span.end());
        let flagged = unexpected.iter().any(|d| d.span.start() == offset);
        assert!(in_token || flagged || ch == ' ' || ch == '\t', "offset {offset}");
        assert!(!(in_token && flagged));
    }
}

#[test]
fn line_col_past_the_first_line_at_the_last_offset() {
    let index = LineIndex::new("a\nb");
    assert!(index.can_locate(usize::MAX));
    assert_eq!(index.line_col(usize::MAX), (2, usize::MAX - 1));
    let single = LineIndex::new("ab");
    assert!(!single.can_locate(usize::MAX));
    assert!(single.can_locate(usize::MAX - 1));
}

#[test]
fn syntax_trees_clone_to_equal_trees() {
    let parsed = parse_file("let f = x => { return [$x, {a: 1}] }\nfn g(y) => f($y) |> lines", SourceId(0));
    let copy = parsed.clone();
    assert!(copy.file == parsed.file);
    assert_eq!(copy.diagnostics, parsed.diagnostics);
    let expr = parse_expr("1 + (2 * 3)", SourceId(0));
    assert!(expr.clone().expr == expr.expr);
    let lexed = lex("a ? 'b", SourceId(0));
    let lexed_copy = lexed.clone();
    assert!(lexed_copy.tokens == lexed.tokens);
    assert_eq!(lexed_copy.diagnostics, lexed.diagnostics);
}
