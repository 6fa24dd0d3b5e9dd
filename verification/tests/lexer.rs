use pulzar::{lex, DiagnosticKind, SourceId, TokenKind};

fn kinds(source: &str) -> Vec<TokenKind> {
    lex(source, SourceId(0))
        .tokens
        .into_iter()
        .map(|token| token.kind)
        .collect()
}

#[test]
fn lexes_simple_pipeline() {
    let kinds = kinds("ps |> filter p => @p.cpu > 10");
    assert_eq!(
        kinds,
        vec![
            TokenKind::Identifier,
            TokenKind::PipeForward,
            TokenKind::Identifier,
            TokenKind::Identifier,
            TokenKind::FatArrow,
            TokenKind::At,
            TokenKind::Identifier,
            TokenKind::Dot,
            TokenKind::Identifier,
            TokenKind::Greater,
            TokenKind::Integer,
            TokenKind::Eof,
        ]
    );
}

#[test]
fn lexes_newline_and_semicolon_statements() {
    let kinds = kinds("ls; pwd\nps");
    assert_eq!(
        kinds,
        vec![
            TokenKind::Identifier,
            TokenKind::StatementEnd,
            TokenKind::Identifier,
            TokenKind::StatementEnd,
            TokenKind::Identifier,
            TokenKind::Eof,
        ]
    );
}

#[test]
fn distinguishes_integer_float_and_property_access() {
    let kinds = kinds("1 2.5 @p.cpu");
    assert_eq!(
        kinds,
        vec![
            TokenKind::Integer,
            TokenKind::Float,
            TokenKind::At,
            TokenKind::Identifier,
            TokenKind::Dot,
            TokenKind::Identifier,
            TokenKind::Eof,
        ]
    );
}

#[test]
fn lexes_fn_list_object_and_types() {
    let kinds = kinds("fn isAdult(u) { [1, 2]; map p => { return @{ name: \"a\", age: 18 } } }");
    assert!(kinds.contains(&TokenKind::Fn));
    assert!(kinds.contains(&TokenKind::Return));
    assert!(kinds.contains(&TokenKind::At));
    assert!(kinds.contains(&TokenKind::LeftBracket));
    assert!(kinds.contains(&TokenKind::LeftBrace));
    assert!(kinds.contains(&TokenKind::Colon));
    assert!(kinds.contains(&TokenKind::FatArrow));
}

#[test]
fn lexes_full_operator_set() {
    let kinds = kinds(
        "a ** b ^ c << d >> e | f || g & h && !i == j != k >= l <= m + n - o * p / q % r ~s",
    );
    assert!(kinds.contains(&TokenKind::Power));
    assert!(kinds.contains(&TokenKind::Caret));
    assert!(kinds.contains(&TokenKind::ShiftLeft));
    assert!(kinds.contains(&TokenKind::ShiftRight));
    assert!(kinds.contains(&TokenKind::Pipe));
    assert!(kinds.contains(&TokenKind::PipePipe));
    assert!(kinds.contains(&TokenKind::Ampersand));
    assert!(kinds.contains(&TokenKind::AmpersandAmpersand));
    assert!(kinds.contains(&TokenKind::Bang));
    assert!(kinds.contains(&TokenKind::EqualEqual));
    assert!(kinds.contains(&TokenKind::BangEqual));
    assert!(kinds.contains(&TokenKind::GreaterEqual));
    assert!(kinds.contains(&TokenKind::LessEqual));
    assert!(kinds.contains(&TokenKind::Percent));
    assert!(kinds.contains(&TokenKind::Tilde));
}

#[test]
fn recovers_from_unterminated_string() {
    let file = lex("\"hello", SourceId(0));
    assert_eq!(file.diagnostics.len(), 1);
    assert_eq!(file.diagnostics[0].kind, DiagnosticKind::UnterminatedString);
    assert_eq!(
        file.tokens.last().map(|token| token.kind),
        Some(TokenKind::Eof)
    );
}

#[test]
fn reports_invalid_number_suffix() {
    let file = lex("10abc", SourceId(0));
    assert_eq!(file.diagnostics.len(), 1);
    assert_eq!(file.diagnostics[0].kind, DiagnosticKind::InvalidNumber);
}

#[test]
fn lexes_comments() {
    let kinds = kinds("ls // comment\n# next\nps");
    assert!(kinds.contains(&TokenKind::Comment));
    assert!(kinds.contains(&TokenKind::StatementEnd));
}
