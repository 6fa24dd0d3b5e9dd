use pulzar::{
    format_list, format_token_text, key_value_table, list_cell, object_cell, object_rows_table,
    render_row, render_separator, render_table, sanitize_cell, source_line, underline_len, Color,
    ColorMode, Diagnostic, DiagnosticKind, Reporter, SourceId, Span, StatusKind, TableItem,
    TokenKind,
};

fn s(text: &str) -> String {
    text.to_string()
}

fn record(fields: &[(&str, &str)]) -> TableItem {
    TableItem::Record(fields.iter().map(|(k, v)| (s(k), s(v))).collect())
}

#[test]
fn reporter_constructs_without_color() {
    let reporter = Reporter::new(ColorMode::Never, true, true);
    assert!(!reporter.color_enabled());
    assert_eq!(reporter.status_line(StatusKind::Info, "hello"), "info hello");
}

#[test]
fn diagnostic_snippet_uses_minimum_underline() {
    let reporter = Reporter::new(ColorMode::Never, false, false);
    let diag = Diagnostic::new(
        DiagnosticKind::UnexpectedToken,
        Span::new(SourceId(0), 3, 3),
        "problem",
    );
    let text = reporter.diagnostic_section("diagnostics", "<expr>", "abc", &[diag]);
    assert_eq!(
        text,
        "diagnostics\nerror[UnexpectedToken]: problem\n  --> <expr>:1:4\n  |\n1 | abc\n  |    ^\n\n"
    );
}

#[test]
fn formats_object_as_key_value_table() {
    let text = key_value_table(&[(s("age"), s("18")), (s("name"), s("alice"))]);
    assert!(text.contains("key"));
    assert!(text.contains("value"));
    assert!(text.contains("name"));
    assert!(text.contains("alice"));
}

#[test]
fn formats_scalar_list_as_indexed_table() {
    let text = format_list(&[TableItem::Plain(s("a")), TableItem::Plain(s("2"))]);
    assert!(text.contains("#"));
    assert!(text.contains("value"));
    assert!(text.contains("0"));
    assert!(text.contains("a"));
}

#[test]
fn formats_object_list_as_table() {
    let text = format_list(&[
        record(&[("age", "18"), ("name", "alice")]),
        record(&[("age", "22"), ("name", "bob")]),
    ]);
    assert!(text.contains("name"));
    assert!(text.contains("age"));
    assert!(text.contains("alice"));
    assert!(text.contains("bob"));
}

#[test]
fn auto_colors_only_when_both_streams_are_terminals() {
    assert!(Reporter::new(ColorMode::Auto, true, true).color_enabled());
    assert!(!Reporter::new(ColorMode::Auto, true, false).color_enabled());
    assert!(!Reporter::new(ColorMode::Auto, false, true).color_enabled());
    assert!(Reporter::new(ColorMode::Always, false, false).color_enabled());
}

#[test]
fn paints_with_ansi_codes() {
    let reporter = Reporter::new(ColorMode::Always, false, false);
    assert_eq!(reporter.paint("x", Color::Red, true), "\x1b[1;31mx\x1b[0m");
    assert_eq!(reporter.paint("x", Color::Cyan, false), "\x1b[36mx\x1b[0m");
    let plain = Reporter::new(ColorMode::Never, false, false);
    assert_eq!(plain.paint("x", Color::Red, true), "x");
    assert_eq!(
        reporter.status_line(StatusKind::Success, "done"),
        "\x1b[1;32mok\x1b[0m done"
    );
}

#[test]
fn summarises_parse_and_check() {
    let reporter = Reporter::new(ColorMode::Never, false, false);
    assert_eq!(reporter.parse_summary_line(3, false), "ok parsed 3 statement(s)");
    assert_eq!(
        reporter.parse_summary_line(12, true),
        "ok parsed 12 statement(s), debug AST enabled"
    );
    assert_eq!(
        reporter.check_summary_line(2, 0, 0),
        "ok check passed for 2 statement(s)"
    );
    assert_eq!(
        reporter.check_summary_line(2, 1, 30),
        "error check failed for 2 statement(s): 1 parse diagnostic(s), 30 semantic diagnostic(s)"
    );
}

#[test]
fn shell_and_prompt_texts() {
    let reporter = Reporter::new(ColorMode::Never, false, false);
    assert_eq!(reporter.shell_message_line("bye"), "pulzar bye");
    assert_eq!(reporter.prompt_text("/tmp"), "/tmp > ");
    assert_eq!(reporter.debug_ast_header("ast"), "ast");
}

#[test]
fn formats_token_texts() {
    assert_eq!(format_token_text(TokenKind::Eof, ""), "<eof>");
    assert_eq!(format_token_text(TokenKind::StatementEnd, "\n"), "\\n");
    assert_eq!(format_token_text(TokenKind::String, "\"a\tb\""), "\\\"a\\tb\\\"");
    assert_eq!(format_token_text(TokenKind::Identifier, "ps"), "ps");
    let reporter = Reporter::new(ColorMode::Never, false, false);
    assert_eq!(
        reporter.token_line(1, 5, TokenKind::Identifier, "ps"),
        "1:5\tIdentifier\tps"
    );
    assert_eq!(
        reporter.token_row(10, 2, TokenKind::Eof, "<eof>"),
        "10:2\tEof\t<eof>"
    );
}

#[test]
fn reads_source_lines() {
    assert_eq!(source_line("a\r\nb\n", 2), Some(s("b")));
    assert_eq!(source_line("a\r\r\n", 1), Some(s("a")));
    assert_eq!(source_line("x", 0), Some(s("x")));
    assert_eq!(source_line("", 1), None);
    assert_eq!(source_line("a\n", 2), None);
    assert_eq!(source_line("a\n\nc", 2), Some(s("")));
}

#[test]
fn underline_stays_within_the_line() {
    assert_eq!(underline_len("abc", 2, 10), 2);
    assert_eq!(underline_len("abc", 4, 0), 1);
    assert_eq!(underline_len("abcdef", 1, 3), 3);
}

#[test]
fn renders_snippet_on_later_line() {
    let reporter = Reporter::new(ColorMode::Never, false, false);
    let source = "let a = 1\nlet a = 2\n";
    let diag = Diagnostic::new(
        DiagnosticKind::DuplicateBinding,
        Span::new(SourceId(0), 10, 19),
        "duplicate binding in the same scope",
    );
    let text = reporter.diagnostic_section("semantic diagnostics", "f.pz", source, &[diag]);
    assert_eq!(
        text,
        "semantic diagnostics\nerror[DuplicateBinding]: duplicate binding in the same scope\n  --> f.pz:2:1\n  |\n2 | let a = 2\n  | ^^^^^^^^^\n\n"
    );
    assert_eq!(
        reporter.diagnostic_section("semantic diagnostics", "f.pz", source, &[]),
        ""
    );
}

#[test]
fn sanitizes_cells() {
    assert_eq!(sanitize_cell("a\r\nb\tc\n"), "a\\nb\\tc\\n");
    let long = "x".repeat(70);
    let cut = sanitize_cell(&long);
    assert_eq!(cut.chars().count(), 60);
    assert!(cut.ends_with('…'));
    assert_eq!(sanitize_cell(&"y".repeat(60)), "y".repeat(60));
}

#[test]
fn renders_tables() {
    assert_eq!(
        render_table(&[s("a"), s("bb")], &[vec![s("xxx"), s("y")]]),
        "a   | bb\n----+---\nxxx | y "
    );
    assert_eq!(render_row(&[s("a")], &[3, 4]), "a  ");
    assert_eq!(render_separator(&[1, 2]), "--+---");
    assert_eq!(render_separator(&[]), "");
}

#[test]
fn object_rows_use_sorted_key_union() {
    let text = object_rows_table(&[record(&[("b", "1")]), record(&[("a", "2")])]);
    assert_eq!(text, "a | b\n--+--\n  | 1\n2 |  ");
}

#[test]
fn lists_mixing_objects_use_index_table() {
    let text = format_list(&[record(&[("a", "1"), ("b", "2")]), TableItem::Plain(s("z"))]);
    assert_eq!(
        text,
        "# | value       \n--+-------------\n0 | {2 field(s)}\n1 | z           "
    );
    assert_eq!(format_list(&[]), "[]");
}

#[test]
fn compact_cells() {
    assert_eq!(list_cell(3), "[3 item(s)]");
    assert_eq!(object_cell(0), "{}");
    assert_eq!(object_cell(2), "{2 field(s)}");
}
