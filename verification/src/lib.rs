//! Pulzar language tooling: source positions, the lexer, the parser and the
//! grammar it follows, semantic checks, the builtin registry, the text
//! rendering used by the reporter and the decisions of the command-line
//! driver.
pub mod text;
pub mod source;
pub mod diagnostic;
pub mod token;
pub mod ast;
pub mod literal;
pub mod lexer;
pub mod parser;
pub mod grammar;
pub mod sema;
pub mod builtins;
pub mod output;
pub mod driver;

pub use ast::{
    BinaryOp, Block, Expr, ExprKind, File, FnBody, LambdaBody, ObjectField, Param, Stmt, StmtKind,
    UnaryOp,
};
pub use builtins::{
    find_spec_by_id, format_usage, render_help, resolve_segments, specs, BuiltinArgSpec, BuiltinId,
    BuiltinMatch, BuiltinSpec, BuiltinStyle, ValueKind,
};
pub use diagnostic::{Diagnostic, DiagnosticKind};
pub use driver::{
    classify_repl_line, select_input, InputSource, ReplLine, RunAction, RunEvent,
    EXPRESSION_SOURCE_NAME,
};
pub use lexer::lex;
pub use output::{
    format_list, format_token_text, index_table, key_value_table, list_cell, object_cell,
    object_rows_table, render_row, render_separator, render_table, sanitize_cell, source_line,
    underline_len, Color, ColorMode, Reporter, StatusKind, TableItem,
};
pub use parser::{parse_expr, parse_file, ParsedExpr, ParsedFile};
pub use sema::{analyze_file, SemanticResult};
pub use source::{LineIndex, SourceId, Span, TextRange};
pub use token::{LexedFile, Token, TokenKind};
