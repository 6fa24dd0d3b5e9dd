//! The parser: a recursive-descent parser with precedence climbing for
//! binary operators, juxtaposition for command-style calls, and recovery
//! that records a diagnostic and carries on instead of stopping.
use vstd::prelude::*;

use crate::ast::{
    BinaryOp, Block, Expr, ExprKind, File, FnBody, LambdaBody, ObjectField, Param, Stmt, StmtKind,
    UnaryOp,
};
use crate::diagnostic::{copy_diagnostics, Diagnostic, DiagnosticKind, DiagnosticView};
use crate::lexer::{
    diag_views, lemma_lex_diags_ok, lemma_lex_positions, lemma_lex_well_formed, lex_positions_from,
    lex_with_positions, pos_view, span_ok, spec_lex,
};
use crate::literal::{cook_string_literal, is_f64_syntax, parse_i64};
use crate::source::{SourceId, Span};
use crate::text::{byte_len, string_from_chars, to_chars};
use crate::token::{LexedFile, Token, TokenKind};
use crate::grammar::{
    adv, bare_loop, bin_loop, block_loop, block_m, bump, cur, expect, expect_ident, expr_m, exprs_m,
    fields_m, file_loop, file_m, flag_loop, items_loop, lambda_body_m, lemma_exprs_m_append,
    lemma_exprs_m_push, lemma_fields_m_push, lemma_stmts_m_push, names_m, obj_loop, opt_expr_m,
    p_application_arg, p_atom, p_bareword, p_binary, p_block, p_call_args, p_dollar, p_env_var,
    p_expr_entry, p_expr_or_assign, p_expression, p_file, p_float, p_fn, p_grouped, p_integer,
    p_lambda, p_let, p_list, p_object_expr, p_object_literal, p_params, p_pipeline, p_postfix,
    p_prefix, p_return, p_shell_flag, p_statement, p_string, p_variable, params_loop, params_m,
    parser_input, pipe_loop, post_loop, prev_span, push_call_args_m, report, significant_texts,
    skip, span_at, start_state, stmt_m, stmts_m, text_at, ExprKindM, ExprM, FieldM, Input, PS,
    ParamM, StmtM,
};

verus! {

broadcast use crate::source::group_text_range;

// ---------------------------------------------------------------------------
// Results
// ---------------------------------------------------------------------------

#[derive(Debug)]
pub struct ParsedFile {
    pub file: File,
    pub diagnostics: Vec<Diagnostic>,
}

impl Clone for ParsedFile {
    fn clone(&self) -> (r: Self)
        ensures
            file_m(r.file) == file_m(self.file),
            r.diagnostics@ == self.diagnostics@,
    {
        ParsedFile { file: self.file.clone(), diagnostics: copy_diagnostics(&self.diagnostics) }
    }
}

#[derive(Debug)]
pub struct ParsedExpr {
    pub expr: Option<Expr>,
    pub diagnostics: Vec<Diagnostic>,
}

impl Clone for ParsedExpr {
    fn clone(&self) -> (r: Self)
        ensures
            opt_expr_m(r.expr) == opt_expr_m(self.expr),
            r.diagnostics@ == self.diagnostics@,
    {
        let expr = match &self.expr {
            Some(e) => Some(e.clone()),
            None => None,
        };
        ParsedExpr { expr, diagnostics: copy_diagnostics(&self.diagnostics) }
    }
}

// ---------------------------------------------------------------------------
// Token streams seen by the parser
// ---------------------------------------------------------------------------

/// The tokens without comments.
pub open spec fn significant(ts: Seq<Token>) -> Seq<Token>
    decreases ts.len(),
{
    if ts.len() == 0 {
        seq![]
    } else if ts.last().kind == TokenKind::Comment {
        significant(ts.drop_last())
    } else {
        significant(ts.drop_last()).push(ts.last())
    }
}

/// Kind of the token at `i`, with `Eof` past the end.
pub open spec fn kind_at(ts: Seq<Token>, i: int) -> TokenKind {
    if 0 <= i < ts.len() {
        ts[i].kind
    } else {
        TokenKind::Eof
    }
}

/// First position at or after `i` that does not hold a statement end.
pub open spec fn skip_ends(ts: Seq<Token>, i: nat) -> nat
    decreases ts.len() - i,
{
    if i < ts.len() && ts[i as int].kind == TokenKind::StatementEnd {
        skip_ends(ts, i + 1)
    } else {
        i
    }
}

/// Whether an identifier followed by `=>`, or a parenthesised list of
/// identifiers (statement ends allowed) followed by `=>`, starts at `i`.
pub open spec fn lambda_start_at(ts: Seq<Token>, i: int) -> bool {
    (kind_at(ts, i) == TokenKind::Identifier && kind_at(ts, i + 1) == TokenKind::FatArrow) || (
    kind_at(ts, i) == TokenKind::LeftParen && param_list_then_arrow(ts, i + 1, true))
}

/// Scanning a parameter list from `i`: identifiers separated by commas,
/// statement ends skipped, closed by `)` and then `=>`.
pub open spec fn param_list_then_arrow(ts: Seq<Token>, i: int, expect_ident: bool) -> bool
    decreases ts.len() - i,
{
    if i < 0 || i >= ts.len() {
        false
    } else {
        let k = ts[i].kind;
        if k == TokenKind::StatementEnd {
            param_list_then_arrow(ts, i + 1, expect_ident)
        } else if k == TokenKind::RightParen {
            i + 1 < ts.len() && ts[i + 1].kind == TokenKind::FatArrow
        } else if k == TokenKind::Identifier && expect_ident {
            param_list_then_arrow(ts, i + 1, false)
        } else if k == TokenKind::Comma && !expect_ident {
            param_list_then_arrow(ts, i + 1, true)
        } else {
            false
        }
    }
}

/// Binary operator, precedence and right-associativity of a token kind.
pub open spec fn binary_op_of(k: TokenKind) -> Option<(BinaryOp, u8, bool)> {
    match k {
        TokenKind::Star => Some((BinaryOp::Multiply, 11u8, false)),
        TokenKind::Slash => Some((BinaryOp::Divide, 11u8, false)),
        TokenKind::Percent => Some((BinaryOp::Modulo, 11u8, false)),
        TokenKind::Power => Some((BinaryOp::Power, 12u8, true)),
        TokenKind::Plus => Some((BinaryOp::Add, 10u8, false)),
        TokenKind::Minus => Some((BinaryOp::Subtract, 10u8, false)),
        TokenKind::ShiftLeft => Some((BinaryOp::ShiftLeft, 9u8, false)),
        TokenKind::ShiftRight => Some((BinaryOp::ShiftRight, 9u8, false)),
        TokenKind::Less => Some((BinaryOp::Less, 8u8, false)),
        TokenKind::LessEqual => Some((BinaryOp::LessEqual, 8u8, false)),
        TokenKind::Greater => Some((BinaryOp::Greater, 8u8, false)),
        TokenKind::GreaterEqual => Some((BinaryOp::GreaterEqual, 8u8, false)),
        TokenKind::EqualEqual => Some((BinaryOp::Equal, 7u8, false)),
        TokenKind::BangEqual => Some((BinaryOp::NotEqual, 7u8, false)),
        TokenKind::Ampersand => Some((BinaryOp::BitAnd, 6u8, false)),
        TokenKind::Caret => Some((BinaryOp::BitXor, 5u8, false)),
        TokenKind::Pipe => Some((BinaryOp::BitOr, 4u8, false)),
        TokenKind::AmpersandAmpersand => Some((BinaryOp::LogicalAnd, 3u8, false)),
        TokenKind::PipePipe => Some((BinaryOp::LogicalOr, 2u8, false)),
        _ => None,
    }
}

/// Kinds that may begin a juxtaposed argument (a shell flag aside).
pub open spec fn starts_atom(k: TokenKind) -> bool {
    k == TokenKind::Identifier || k == TokenKind::Integer || k == TokenKind::Float || k
        == TokenKind::String || k == TokenKind::True || k == TokenKind::False || k
        == TokenKind::LeftParen || k == TokenKind::LeftBracket || k == TokenKind::At || k
        == TokenKind::Dollar
}

/// Kinds that may continue a shell flag such as `--color=never`.
pub open spec fn shell_flag_part(k: TokenKind) -> bool {
    k == TokenKind::Minus || k == TokenKind::Identifier || k == TokenKind::Integer || k
        == TokenKind::Dot || k == TokenKind::Assign
}

// ---------------------------------------------------------------------------
// The parser state
// ---------------------------------------------------------------------------

struct Parser {
    tokens: Vec<Token>,
    texts: Vec<Vec<char>>,
    diagnostics: Vec<Diagnostic>,
    index: usize,
    sid: Ghost<SourceId>,
    hi: Ghost<nat>,
}

impl Parser {
    spec fn ok(self, sp: Span) -> bool {
        span_ok(sp, self.sid@, self.hi@)
    }

    spec fn wf(self) -> bool {
        &&& self.tokens@.len() > 0
        &&& self.tokens@.len() <= usize::MAX
        &&& self.tokens@.last().kind == TokenKind::Eof
        &&& forall|k: int|
            0 <= k < self.tokens@.len() - 1 ==> (#[trigger] self.tokens@[k]).kind
                != TokenKind::Eof
        &&& self.texts@.len() == self.tokens@.len()
        &&& self.index < self.tokens@.len()
        &&& forall|k: int| 0 <= k < self.tokens@.len() ==> self.ok(#[trigger] self.tokens@[k].span)
        &&& forall|k: int|
            0 <= k < self.diagnostics@.len() ==> self.ok(#[trigger] self.diagnostics@[k].span)
    }

    spec fn cur(self) -> TokenKind {
        kind_at(self.tokens@, self.index as int)
    }

    /// Same tokens, diagnostics only appended, position only moved forward.
    spec fn evolves(self, old: Parser) -> bool {
        &&& self.wf()
        &&& self.tokens@ == old.tokens@
        &&& self.texts@ == old.texts@
        &&& self.sid == old.sid
        &&& self.hi == old.hi
        &&& old.index <= self.index
        &&& old.diagnostics@.len() <= self.diagnostics@.len()
        &&& forall|k: int|
            0 <= k < old.diagnostics@.len() ==> #[trigger] self.diagnostics@[k]
                == old.diagnostics@[k]
    }

    /// Moved past at least one token, unless there was none left.
    spec fn advanced(self, old: Parser) -> bool {
        self.index > old.index || old.cur() == TokenKind::Eof
    }

    /// The tokens and their texts.
    spec fn inp(self) -> Input {
        Input { tokens: self.tokens@, texts: self.texts@.map_values(|v: Vec<char>| v@) }
    }

    /// The position and the diagnostics so far.
    spec fn ps(self) -> PS {
        PS { i: self.index as nat, ds: diag_views(self.diagnostics@) }
    }

    fn report(&mut self, kind: DiagnosticKind, span: Span, message: &str)
        requires
            old(self).wf(),
            old(self).ok(span),
        ensures
            final(self).evolves(*old(self)),
            final(self).index == old(self).index,
            final(self).diagnostics@.len() == old(self).diagnostics@.len() + 1,
            final(self).ps() == report(old(self).ps(), kind, span, message@),
    {
        self.diagnostics.push(Diagnostic::new(kind, span, message));
        assert(diag_views(self.diagnostics@) =~= diag_views(old(self).diagnostics@).push(
            crate::diagnostic::diag(kind, span, message@),
        ));
    }

    fn current_kind(&self) -> (r: TokenKind)
        requires
            self.wf(),
        ensures
            r == self.cur(),
    {
        if self.index < self.tokens.len() {
            self.tokens[self.index].kind
        } else {
            TokenKind::Eof
        }
    }

    fn peek_kind(&self, offset: usize) -> (r: TokenKind)
        requires
            self.wf(),
            offset <= 1,
        ensures
            r == kind_at(self.tokens@, self.index + offset),
    {
        let i = self.index + offset;
        if i < self.tokens.len() {
            self.tokens[i].kind
        } else {
            TokenKind::Eof
        }
    }

    fn at(&self, kind: TokenKind) -> (r: bool)
        requires
            self.wf(),
        ensures
            r == (self.cur() == kind),
    {
        self.current_kind() == kind
    }

    fn current_span(&self) -> (r: Span)
        requires
            self.wf(),
        ensures
            r == self.tokens@[self.index as int].span,
            self.ok(r),
    {
        if self.index < self.tokens.len() {
            self.tokens[self.index].span
        } else {
            self.prev_span()
        }
    }

    fn prev_span(&self) -> (r: Span)
        requires
            self.wf(),
        ensures
            r == self.tokens@[if self.index > 0 {
                self.index - 1
            } else {
                0
            }].span,
            self.ok(r),
    {
        let i = if self.index > 0 {
            self.index - 1
        } else {
            0
        };
        if i < self.tokens.len() {
            self.tokens[i].span
        } else {
            Span::new(SourceId(0), 0, 0)
        }
    }

    fn current_text(&self) -> (r: &Vec<char>)
        requires
            self.wf(),
        ensures
            r == self.texts@[self.index as int],
            r@ == text_at(self.inp(), self.ps()),
    {
        &self.texts[self.index]
    }

    fn bump(&mut self)
        requires
            old(self).wf(),
        ensures
            final(self).evolves(*old(self)),
            final(self).diagnostics == old(self).diagnostics,
            final(self).index == if old(self).cur() == TokenKind::Eof {
                old(self).index as int
            } else {
                old(self).index + 1
            },
            final(self).ps() == bump(old(self).inp(), old(self).ps()),
    {
        if !self.at(TokenKind::Eof) {
            self.index = self.index + 1;
        }
    }

    fn match_kind(&mut self, kind: TokenKind) -> (r: bool)
        requires
            old(self).wf(),
        ensures
            final(self).evolves(*old(self)),
            final(self).diagnostics == old(self).diagnostics,
            r == (old(self).cur() == kind),
            r && kind != TokenKind::Eof ==> final(self).index == old(self).index + 1,
            !r ==> final(self).index == old(self).index,
            final(self).ps() == if r {
                bump(old(self).inp(), old(self).ps())
            } else {
                old(self).ps()
            },
    {
        if self.at(kind) {
            self.bump();
            true
        } else {
            false
        }
    }

    fn skip_statement_ends(&mut self)
        requires
            old(self).wf(),
        ensures
            final(self).evolves(*old(self)),
            final(self).diagnostics == old(self).diagnostics,
            final(self).index == skip_ends(old(self).tokens@, old(self).index as nat),
            final(self).ps() == skip(old(self).inp(), old(self).ps()),
    {
        let ghost target = skip_ends(self.tokens@, self.index as nat);
        while self.at(TokenKind::StatementEnd)
            invariant
                self.evolves(*old(self)),
                self.diagnostics == old(self).diagnostics,
                skip_ends(self.tokens@, self.index as nat) == target,
            decreases self.tokens@.len() - self.index,
        {
            self.bump();
        }
    }

    /// Consumes a token of `kind`, or reports `message` without consuming.
    fn expect(&mut self, kind: TokenKind, message: &str) -> (r: Span)
        requires
            old(self).wf(),
        ensures
            final(self).evolves(*old(self)),
            final(self).ok(r),
            r == old(self).tokens@[old(self).index as int].span,
            old(self).cur() == kind && kind != TokenKind::Eof ==> final(self).index == old(
                self,
            ).index + 1,
            old(self).cur() != kind ==> final(self).index == old(self).index,
            (r, final(self).ps()) == expect(old(self).inp(), old(self).ps(), kind, message@),
    {
        if self.at(kind) {
            let span = self.current_span();
            self.bump();
            span
        } else {
            let span = self.current_span();
            self.report(DiagnosticKind::MissingDelimiter, span, message);
            span
        }
    }

    /// Consumes an identifier and returns its text and span, or reports
    /// `message`, skips one token (not `Eof`) and returns `<error>`.
    fn expect_identifier(&mut self, message: &str) -> (r: (String, Span))
        requires
            old(self).wf(),
        ensures
            final(self).evolves(*old(self)),
            final(self).ok(r.1),
            final(self).advanced(*old(self)),
            old(self).cur() == TokenKind::Identifier ==> r.0@ == old(self).texts@[old(
                self,
            ).index as int]@,
            final(self).index <= old(self).index + 1,
            (r.0@, r.1, final(self).ps()) == expect_ident(old(self).inp(), old(self).ps(), message@),
    {
        if self.at(TokenKind::Identifier) {
            let span = self.current_span();
            let name = string_from_chars(self.current_text().as_slice());
            self.bump();
            (name, span)
        } else {
            let span = self.current_span();
            self.report(DiagnosticKind::UnexpectedToken, span, message);
            if !self.at(TokenKind::Eof) {
                self.bump();
            }
            let name = String::from_str("<error>");
            proof {
                reveal_strlit("<error>");
            }
            (name, span)
        }
    }

    fn is_statement_terminator(&self) -> (r: bool)
        requires
            self.wf(),
        ensures
            r == (self.cur() == TokenKind::StatementEnd || self.cur() == TokenKind::RightBrace
                || self.cur() == TokenKind::Eof),
    {
        let k = self.current_kind();
        k == TokenKind::StatementEnd || k == TokenKind::RightBrace || k == TokenKind::Eof
    }

    fn current_binary_op(&self) -> (r: Option<(BinaryOp, u8, bool)>)
        requires
            self.wf(),
        ensures
            r == binary_op_of(self.cur()),
    {
        match self.current_kind() {
            TokenKind::Star => Some((BinaryOp::Multiply, 11, false)),
            TokenKind::Slash => Some((BinaryOp::Divide, 11, false)),
            TokenKind::Percent => Some((BinaryOp::Modulo, 11, false)),
            TokenKind::Power => Some((BinaryOp::Power, 12, true)),
            TokenKind::Plus => Some((BinaryOp::Add, 10, false)),
            TokenKind::Minus => Some((BinaryOp::Subtract, 10, false)),
            TokenKind::ShiftLeft => Some((BinaryOp::ShiftLeft, 9, false)),
            TokenKind::ShiftRight => Some((BinaryOp::ShiftRight, 9, false)),
            TokenKind::Less => Some((BinaryOp::Less, 8, false)),
            TokenKind::LessEqual => Some((BinaryOp::LessEqual, 8, false)),
            TokenKind::Greater => Some((BinaryOp::Greater, 8, false)),
            TokenKind::GreaterEqual => Some((BinaryOp::GreaterEqual, 8, false)),
            TokenKind::EqualEqual => Some((BinaryOp::Equal, 7, false)),
            TokenKind::BangEqual => Some((BinaryOp::NotEqual, 7, false)),
            TokenKind::Ampersand => Some((BinaryOp::BitAnd, 6, false)),
            TokenKind::Caret => Some((BinaryOp::BitXor, 5, false)),
            TokenKind::Pipe => Some((BinaryOp::BitOr, 4, false)),
            TokenKind::AmpersandAmpersand => Some((BinaryOp::LogicalAnd, 3, false)),
            TokenKind::PipePipe => Some((BinaryOp::LogicalOr, 2, false)),
            _ => None,
        }
    }

    fn is_shell_flag_start(&self) -> (r: bool)
        requires
            self.wf(),
        ensures
            r == (self.cur() == TokenKind::Minus && (kind_at(self.tokens@, self.index + 1)
                == TokenKind::Minus || kind_at(self.tokens@, self.index + 1)
                == TokenKind::Identifier || kind_at(self.tokens@, self.index + 1)
                == TokenKind::Integer)),
    {
        if !self.at(TokenKind::Minus) {
            return false;
        }
        let next = self.peek_kind(1);
        next == TokenKind::Minus || next == TokenKind::Identifier || next == TokenKind::Integer
    }

    fn is_shell_flag_part(&self, kind: TokenKind) -> (r: bool)
        ensures
            r == shell_flag_part(kind),
    {
        kind == TokenKind::Minus || kind == TokenKind::Identifier || kind == TokenKind::Integer
            || kind == TokenKind::Dot || kind == TokenKind::Assign
    }

    fn can_start_application_arg(&self) -> (r: bool)
        requires
            self.wf(),
        ensures
            r == ((starts_atom(self.cur()) && self.cur() != TokenKind::StatementEnd) || (
            self.cur() == TokenKind::Minus && (kind_at(self.tokens@, self.index + 1)
                == TokenKind::Minus || kind_at(self.tokens@, self.index + 1)
                == TokenKind::Identifier || kind_at(self.tokens@, self.index + 1)
                == TokenKind::Integer))),
            r ==> self.cur() != TokenKind::Eof,
    {
        let k = self.current_kind();
        let atom = k == TokenKind::Identifier || k == TokenKind::Integer || k == TokenKind::Float
            || k == TokenKind::String || k == TokenKind::True || k == TokenKind::False || k
            == TokenKind::LeftParen || k == TokenKind::LeftBracket || k == TokenKind::At || k
            == TokenKind::Dollar;
        (atom && !self.at(TokenKind::StatementEnd)) || self.is_shell_flag_start()
    }

    fn is_lambda_start(&self) -> (r: bool)
        requires
            self.wf(),
        ensures
            r == lambda_start_at(self.tokens@, self.index as int),
            r ==> self.cur() == TokenKind::Identifier || self.cur() == TokenKind::LeftParen,
    {
        if self.at(TokenKind::Identifier) && self.peek_kind(1) == TokenKind::FatArrow {
            return true;
        }
        if !self.at(TokenKind::LeftParen) {
            return false;
        }
        let ghost ts = self.tokens@;
        let mut index = self.index + 1;
        let mut expect_ident = true;
        while index < self.tokens.len()
            invariant
                ts == self.tokens@,
                self.wf(),
                self.index + 1 <= index <= ts.len(),
                self.cur() == TokenKind::LeftParen,
                param_list_then_arrow(ts, self.index + 1, true) == param_list_then_arrow(
                    ts,
                    index as int,
                    expect_ident,
                ),
            decreases ts.len() - index,
        {
            let kind = self.tokens[index].kind;
            if kind == TokenKind::StatementEnd {
                index = index + 1;
            } else if kind == TokenKind::RightParen {
                return index + 1 < self.tokens.len() && self.tokens[index + 1].kind
                    == TokenKind::FatArrow;
            } else if kind == TokenKind::Identifier && expect_ident {
                expect_ident = false;
                index = index + 1;
            } else if kind == TokenKind::Comma && !expect_ident {
                expect_ident = true;
                index = index + 1;
            } else {
                return false;
            }
        }
        false
    }

    fn error_expr(&self, span: Span) -> (r: Expr)
        ensures
            r.span == span,
            r.kind is Error,
    {
        Expr { kind: ExprKind::Error, span }
    }

    // -----------------------------------------------------------------------
    // Entry points
    // -----------------------------------------------------------------------

    fn parse_file(&mut self) -> (r: File)
        requires
            old(self).wf(),
        ensures
            final(self).evolves(*old(self)),
            final(self).ok(r.span),
            (file_m(r), final(self).ps()) == p_file(old(self).inp(), old(self).ps()),
    {
        proof {
            reveal(file_loop);
        }
        let start = self.current_span();
        let mut statements: Vec<Stmt> = Vec::new();
        self.skip_statement_ends();
        let ghost inp = self.inp();
        let ghost target = file_loop(inp, seq![], self.ps());
        assert(stmts_m(statements@) =~= Seq::<StmtM>::empty());
        while !self.at(TokenKind::Eof)
            invariant
                self.evolves(*old(self)),
                inp == self.inp(),
                file_loop(inp, stmts_m(statements@), self.ps()) == target,
            decreases self.tokens@.len() - self.index,
        {
            proof {
                reveal(file_loop);
            }
            let stmt = self.parse_statement();
            let ghost before = statements@;
            statements.push(stmt);
            proof {
                lemma_stmts_m_push(before, stmt);
            }
            self.skip_statement_ends();
        }
        proof {
            reveal(file_loop);
        }
        File { statements, span: start.cover(self.current_span()) }
    }

    fn parse_expr_entry(&mut self) -> (r: Option<Expr>)
        requires
            old(self).wf(),
        ensures
            final(self).evolves(*old(self)),
            r is None <==> kind_at(old(self).tokens@, skip_ends(old(self).tokens@, old(self).index as nat) as int)
                == TokenKind::Eof,
            r matches Some(e) ==> final(self).ok(e.span),
            (opt_expr_m(r), final(self).ps()) == p_expr_entry(old(self).inp(), old(self).ps()),
    {
        self.skip_statement_ends();
        let expr = if self.at(TokenKind::Eof) {
            None
        } else {
            Some(self.parse_expression())
        };
        if !self.at(TokenKind::Eof) {
            let span = self.current_span();
            self.report(DiagnosticKind::UnexpectedToken, span, "unexpected token after expression");
        }
        expr
    }

    // -----------------------------------------------------------------------
    // Statements
    // -----------------------------------------------------------------------

    fn parse_statement(&mut self) -> (r: Stmt)
        requires
            old(self).wf(),
        ensures
            final(self).evolves(*old(self)),
            final(self).advanced(*old(self)),
            final(self).ok(r.span),
            (stmt_m(r), final(self).ps()) == p_statement(old(self).inp(), old(self).ps()),
        decreases old(self).tokens@.len() - old(self).index, 45nat,
    {
        proof {
            reveal(p_statement);
        }
        self.skip_statement_ends();
        let start = self.current_span();
        match self.current_kind() {
            TokenKind::Let => self.parse_let_statement(start),
            TokenKind::Fn => self.parse_fn_decl(start),
            TokenKind::Return => self.parse_return_statement(start),
            TokenKind::StatementEnd => {
                self.report(
                    DiagnosticKind::UnexpectedStatementEnd,
                    start,
                    "unexpected statement boundary",
                );
                self.bump();
                Stmt { kind: StmtKind::Expr(self.error_expr(start)), span: start }
            },
            _ => self.parse_expr_or_assign_statement(),
        }
    }

    fn parse_let_statement(&mut self, start: Span) -> (r: Stmt)
        requires
            old(self).wf(),
            old(self).ok(start),
            old(self).cur() == TokenKind::Let,
        ensures
            final(self).evolves(*old(self)),
            final(self).index > old(self).index,
            final(self).ok(r.span),
            (stmt_m(r), final(self).ps()) == p_let(old(self).inp(), old(self).ps(), start),
        decreases old(self).tokens@.len() - old(self).index, 44nat,
    {
        self.bump();
        let name = self.expect_identifier("expected identifier after `let`");
        self.expect(TokenKind::Assign, "expected `=` after let binding");
        let value = self.parse_expression();
        let span = start.cover(self.prev_span());
        Stmt { kind: StmtKind::Let { name: name.0, value }, span }
    }

    fn parse_fn_decl(&mut self, start: Span) -> (r: Stmt)
        requires
            old(self).wf(),
            old(self).ok(start),
            old(self).cur() == TokenKind::Fn,
        ensures
            final(self).evolves(*old(self)),
            final(self).index > old(self).index,
            final(self).ok(r.span),
            (stmt_m(r), final(self).ps()) == p_fn(old(self).inp(), old(self).ps(), start),
        decreases old(self).tokens@.len() - old(self).index, 44nat,
    {
        self.bump();
        let name = self.expect_identifier("expected function name after `fn`");
        let params = self.parse_parenthesized_params();
        let body = if self.at(TokenKind::LeftBrace) {
            FnBody::Block(self.parse_block())
        } else if self.match_kind(TokenKind::FatArrow) {
            FnBody::Expr(Box::new(self.parse_expression()))
        } else {
            let span = self.current_span();
            self.report(DiagnosticKind::ExpectedStatement, span, "expected function body");
            let span = self.current_span();
            FnBody::Expr(Box::new(self.error_expr(span)))
        };
        let span = start.cover(self.prev_span());
        Stmt { kind: StmtKind::FnDecl { name: name.0, params, body }, span }
    }

    fn parse_return_statement(&mut self, start: Span) -> (r: Stmt)
        requires
            old(self).wf(),
            old(self).ok(start),
            old(self).cur() == TokenKind::Return,
        ensures
            final(self).evolves(*old(self)),
            final(self).index > old(self).index,
            final(self).ok(r.span),
            (stmt_m(r), final(self).ps()) == p_return(old(self).inp(), old(self).ps(), start),
        decreases old(self).tokens@.len() - old(self).index, 44nat,
    {
        self.bump();
        let value = if self.is_statement_terminator() {
            None
        } else {
            Some(self.parse_expression())
        };
        let span = start.cover(self.prev_span());
        Stmt { kind: StmtKind::Return { value }, span }
    }

    fn parse_expr_or_assign_statement(&mut self) -> (r: Stmt)
        requires
            old(self).wf(),
        ensures
            final(self).evolves(*old(self)),
            final(self).advanced(*old(self)),
            final(self).ok(r.span),
            (stmt_m(r), final(self).ps()) == p_expr_or_assign(old(self).inp(), old(self).ps()),
        decreases old(self).tokens@.len() - old(self).index, 44nat,
    {
        let expr = self.parse_expression();
        let start = expr.span;
        if self.match_kind(TokenKind::Assign) {
            let rhs = self.parse_expression();
            let valid_target = match &expr.kind {
                ExprKind::Variable(_) => true,
                ExprKind::EnvVar(_) => true,
                _ => false,
            };
            if !valid_target {
                self.report(
                    DiagnosticKind::InvalidAssignmentTarget,
                    expr.span,
                    "invalid assignment target; use `$name = ...` or `$$NAME = ...`",
                );
            }
            let span = start.cover(self.prev_span());
            Stmt { kind: StmtKind::Assign { target: expr, value: rhs }, span }
        } else {
            Stmt { span: expr.span, kind: StmtKind::Expr(expr) }
        }
    }

    // -----------------------------------------------------------------------
    // Expressions
    // -----------------------------------------------------------------------

    fn parse_expression(&mut self) -> (r: Expr)
        requires
            old(self).wf(),
        ensures
            final(self).evolves(*old(self)),
            final(self).advanced(*old(self)),
            final(self).ok(r.span),
            (expr_m(r), final(self).ps()) == p_expression(old(self).inp(), old(self).ps()),
        decreases old(self).tokens@.len() - old(self).index, 20nat,
    {
        self.parse_pipeline(true)
    }

    fn parse_pipeline(&mut self, allow_juxtaposition: bool) -> (r: Expr)
        requires
            old(self).wf(),
        ensures
            final(self).evolves(*old(self)),
            final(self).advanced(*old(self)),
            final(self).ok(r.span),
            (expr_m(r), final(self).ps()) == p_pipeline(old(self).inp(), old(self).ps(), allow_juxtaposition),
        decreases old(self).tokens@.len() - old(self).index, 19nat,
    {
        proof {
            reveal(pipe_loop);
        }
        let mut expr = self.parse_lambda(allow_juxtaposition);
        let ghost inp = self.inp();
        let ghost target = pipe_loop(inp, expr_m(expr), self.ps());
        loop
            invariant_except_break
                self.evolves(*old(self)),
                self.advanced(*old(self)),
                self.ok(expr.span),
                inp == self.inp(),
                pipe_loop(inp, expr_m(expr), self.ps()) == target,
            ensures
                self.evolves(*old(self)),
                self.advanced(*old(self)),
                self.ok(expr.span),
                (expr_m(expr), self.ps()) == target,
            decreases self.tokens@.len() - self.index,
        {
            proof {
                reveal(pipe_loop);
            }
            if !self.match_kind(TokenKind::PipeForward) {
                break;
            }
            let right = self.parse_lambda(true);
            let span = expr.span.cover(right.span);
            expr = Expr { kind: ExprKind::Pipeline { left: Box::new(expr), right: Box::new(right) }, span };
        }
        expr
    }

    fn parse_lambda(&mut self, allow_juxtaposition: bool) -> (r: Expr)
        requires
            old(self).wf(),
        ensures
            final(self).evolves(*old(self)),
            final(self).advanced(*old(self)),
            final(self).ok(r.span),
            (expr_m(r), final(self).ps()) == p_lambda(old(self).inp(), old(self).ps(), allow_juxtaposition),
        decreases old(self).tokens@.len() - old(self).index, 18nat,
    {
        let ghost inp = self.inp();
        let ghost st0 = self.ps();
        if self.is_lambda_start() {
            let start = self.current_span();
            let params = if self.at(TokenKind::Identifier) {
                let (name, span) = self.expect_identifier("expected lambda parameter");
                let ghost pm = ParamM { name: name@, span };
                let mut params: Vec<Param> = Vec::new();
                params.push(Param { name, span });
                assert(params_m(params@) =~= seq![pm]);
                params
            } else {
                self.parse_parenthesized_params()
            };
            let ghost pms = params_m(params@);
            self.expect(TokenKind::FatArrow, "expected `=>` after lambda parameters");
            assert(adv(inp, st0, self.ps()));
            let body = if self.at(TokenKind::LeftBrace) {
                LambdaBody::Block(self.parse_block())
            } else {
                LambdaBody::Expr(Box::new(self.parse_pipeline(true)))
            };
            let span = start.cover(self.prev_span());
            assert(p_lambda(inp, st0, allow_juxtaposition).0.kind == ExprKindM::Lambda(
                pms,
                Box::new(lambda_body_m(body)),
            ));
            let r = Expr { kind: ExprKind::Lambda { params, body }, span };
            return r;
        }
        self.parse_binary(allow_juxtaposition, 0)
    }

    fn parse_binary(&mut self, allow_juxtaposition: bool, min_prec: u8) -> (r: Expr)
        requires
            old(self).wf(),
        ensures
            final(self).evolves(*old(self)),
            final(self).advanced(*old(self)),
            final(self).ok(r.span),
            (expr_m(r), final(self).ps()) == p_binary(old(self).inp(), old(self).ps(), allow_juxtaposition, min_prec),
        decreases old(self).tokens@.len() - old(self).index, 17nat,
    {
        proof {
            reveal(bin_loop);
        }
        let mut left = self.parse_prefix(allow_juxtaposition);
        let ghost inp = self.inp();
        let ghost target = bin_loop(inp, expr_m(left), self.ps(), allow_juxtaposition, min_prec);
        loop
            invariant_except_break
                self.evolves(*old(self)),
                self.advanced(*old(self)),
                self.ok(left.span),
                inp == self.inp(),
                bin_loop(inp, expr_m(left), self.ps(), allow_juxtaposition, min_prec) == target,
            ensures
                self.evolves(*old(self)),
                self.advanced(*old(self)),
                self.ok(left.span),
                (expr_m(left), self.ps()) == target,
            decreases self.tokens@.len() - self.index,
        {
            proof {
                reveal(bin_loop);
            }
            let op = self.current_binary_op();
            let (op, prec, right_assoc) = match op {
                Some(item) => item,
                None => break,
            };
            if prec < min_prec {
                break;
            }
            self.bump();
            let next_min = if right_assoc {
                prec
            } else {
                prec + 1
            };
            let right = self.parse_binary(allow_juxtaposition, next_min);
            let span = left.span.cover(right.span);
            left = Expr {
                kind: ExprKind::Binary { op, left: Box::new(left), right: Box::new(right) },
                span,
            };
        }

        left
    }

    fn parse_prefix(&mut self, allow_juxtaposition: bool) -> (r: Expr)
        requires
            old(self).wf(),
        ensures
            final(self).evolves(*old(self)),
            final(self).advanced(*old(self)),
            final(self).ok(r.span),
            (expr_m(r), final(self).ps()) == p_prefix(old(self).inp(), old(self).ps(), allow_juxtaposition),
        decreases old(self).tokens@.len() - old(self).index, 16nat,
    {
        let start = self.current_span();
        let op = match self.current_kind() {
            TokenKind::Minus => Some(UnaryOp::Negate),
            TokenKind::Bang => Some(UnaryOp::Not),
            TokenKind::Tilde => Some(UnaryOp::BitNot),
            _ => None,
        };
        match op {
            Some(op) => {
                self.bump();
                let expr = self.parse_prefix(allow_juxtaposition);
                Expr { span: start.cover(expr.span), kind: ExprKind::Unary { op, expr: Box::new(expr) } }
            },
            None => self.parse_postfix(allow_juxtaposition),
        }
    }

    fn parse_postfix(&mut self, allow_juxtaposition: bool) -> (r: Expr)
        requires
            old(self).wf(),
        ensures
            final(self).evolves(*old(self)),
            final(self).advanced(*old(self)),
            final(self).ok(r.span),
            (expr_m(r), final(self).ps()) == p_postfix(old(self).inp(), old(self).ps(), allow_juxtaposition),
        decreases old(self).tokens@.len() - old(self).index, 15nat,
    {
        proof {
            reveal(post_loop);
        }
        let mut expr = self.parse_atom();
        let ghost inp = self.inp();
        let ghost target = post_loop(inp, expr_m(expr), self.ps(), allow_juxtaposition);
        loop
            invariant_except_break
                self.evolves(*old(self)),
                self.advanced(*old(self)),
                self.ok(expr.span),
                inp == self.inp(),
                post_loop(inp, expr_m(expr), self.ps(), allow_juxtaposition) == target,
            ensures
                self.evolves(*old(self)),
                self.advanced(*old(self)),
                self.ok(expr.span),
                (expr_m(expr), self.ps()) == target,
            decreases self.tokens@.len() - self.index,
        {
            proof {
                reveal(post_loop);
            }
            let ghost e0 = expr_m(expr);
            if self.match_kind(TokenKind::Dot) {
                let is_env = match &expr.kind {
                    ExprKind::EnvVar(_) => true,
                    _ => false,
                };
                if is_env {
                    let span = self.current_span();
                    self.report(
                        DiagnosticKind::UnexpectedToken,
                        span,
                        "environment variables do not support member access",
                    );
                    break;
                }
                if self.at(TokenKind::Identifier) {
                    let field = string_from_chars(self.current_text().as_slice());
                    let field_span = self.current_span();
                    self.bump();
                    let span = expr.span.cover(field_span);
                    expr = match expr.kind {
                        ExprKind::Member { object, fields } => {
                            let mut fields = fields;
                            let ghost f0 = fields@;
                            fields.push(field);
                            assert(names_m(fields@) =~= names_m(f0).push(field@));
                            Expr { kind: ExprKind::Member { object, fields }, span }
                        },
                        other => {
                            let inner = Expr { kind: other, span: expr.span };
                            assert(expr_m(inner) == e0);
                            let mut fields: Vec<String> = Vec::new();
                            fields.push(field);
                            assert(names_m(fields@) =~= seq![field@]);
                            Expr { kind: ExprKind::Member { object: Box::new(inner), fields }, span }
                        },
                    };
                    continue;
                }
                let span = self.current_span();
                self.report(DiagnosticKind::UnexpectedToken, span, "expected field name after `.`");
                break;
            }
            if self.at(TokenKind::LeftParen) {
                let args = self.parse_call_args();
                expr = Self::push_call_args(expr, args);
                continue;
            }
            if allow_juxtaposition && self.can_start_application_arg() {
                let arg = self.parse_application_arg();
                let ghost am = expr_m(arg);
                let mut args: Vec<Expr> = Vec::new();
                args.push(arg);
                proof {
                    lemma_exprs_m_push(Seq::<Expr>::empty(), arg);
                    assert(Seq::<Expr>::empty().push(arg) =~= args@);
                    assert(exprs_m(Seq::<Expr>::empty()) =~= Seq::<ExprM>::empty());
                    assert(exprs_m(args@) =~= seq![am]);
                }
                expr = Self::push_call_args(expr, args);
                continue;
            }
            break;
        }
        expr
    }

    fn parse_atom(&mut self) -> (r: Expr)
        requires
            old(self).wf(),
        ensures
            final(self).evolves(*old(self)),
            final(self).advanced(*old(self)),
            final(self).ok(r.span),
            (expr_m(r), final(self).ps()) == p_atom(old(self).inp(), old(self).ps()),
        decreases old(self).tokens@.len() - old(self).index, 14nat,
    {
        self.skip_statement_ends();
        let start = self.current_span();
        match self.current_kind() {
            TokenKind::Identifier => self.parse_bareword(),
            TokenKind::Dollar => self.parse_dollar_expr(),
            TokenKind::Integer => {
                let value = self.parse_integer_literal(start);
                self.bump();
                Expr { kind: ExprKind::Integer(value), span: start }
            },
            TokenKind::Float => {
                let text = self.parse_float_literal(start);
                self.bump();
                Expr { kind: ExprKind::Float(text), span: start }
            },
            TokenKind::String => {
                let text = self.parse_string_literal(start);
                self.bump();
                Expr { kind: ExprKind::String(text), span: start }
            },
            TokenKind::True => {
                self.bump();
                Expr { kind: ExprKind::Bool(true), span: start }
            },
            TokenKind::False => {
                self.bump();
                Expr { kind: ExprKind::Bool(false), span: start }
            },
            TokenKind::LeftParen => self.parse_grouped(),
            TokenKind::LeftBracket => self.parse_list(),
            TokenKind::At => self.parse_object_expr(),
            _ => {
                self.report(DiagnosticKind::ExpectedExpression, start, "expected expression");
                self.bump();
                self.error_expr(start)
            },
        }
    }

    fn parse_bareword(&mut self) -> (r: Expr)
        requires
            old(self).wf(),
            old(self).cur() == TokenKind::Identifier,
        ensures
            final(self).evolves(*old(self)),
            final(self).index > old(self).index,
            final(self).ok(r.span),
            (expr_m(r), final(self).ps()) == p_bareword(old(self).inp(), old(self).ps()),
    {
        let start = self.current_span();
        let mut text = string_from_chars(self.current_text().as_slice());
        self.bump();
        let ghost inp = self.inp();
        let ghost target = bare_loop(inp, text@, self.ps());
        while self.at(TokenKind::Dot) && self.peek_kind(1) == TokenKind::Identifier
            invariant
                self.evolves(*old(self)),
                self.index > old(self).index,
                inp == self.inp(),
                bare_loop(inp, text@, self.ps()) == target,
            decreases self.tokens@.len() - self.index,
        {
            self.bump();
            let ghost before = text@;
            text.push('.');
            let part = string_from_chars(self.current_text().as_slice());
            text.append(part.as_str());
            self.bump();
        }
        Expr { kind: ExprKind::Bareword(text), span: start.cover(self.prev_span()) }
    }

    fn parse_dollar_expr(&mut self) -> (r: Expr)
        requires
            old(self).wf(),
            old(self).cur() == TokenKind::Dollar,
        ensures
            final(self).evolves(*old(self)),
            final(self).index > old(self).index,
            final(self).ok(r.span),
            (expr_m(r), final(self).ps()) == p_dollar(old(self).inp(), old(self).ps()),
    {
        if self.peek_kind(1) == TokenKind::Dollar {
            return self.parse_env_var();
        }
        self.parse_variable()
    }

    fn parse_variable(&mut self) -> (r: Expr)
        requires
            old(self).wf(),
            old(self).cur() == TokenKind::Dollar,
        ensures
            final(self).evolves(*old(self)),
            final(self).index > old(self).index,
            final(self).ok(r.span),
            (expr_m(r), final(self).ps()) == p_variable(old(self).inp(), old(self).ps()),
    {
        let start = self.expect(TokenKind::Dollar, "expected `$`");
        let (name, end) = self.expect_identifier("expected identifier after `$`");
        Expr { kind: ExprKind::Variable(name), span: start.cover(end) }
    }

    fn parse_env_var(&mut self) -> (r: Expr)
        requires
            old(self).wf(),
            old(self).cur() == TokenKind::Dollar,
        ensures
            final(self).evolves(*old(self)),
            final(self).index > old(self).index,
            final(self).ok(r.span),
            (expr_m(r), final(self).ps()) == p_env_var(old(self).inp(), old(self).ps()),
    {
        let start = self.expect(TokenKind::Dollar, "expected `$`");
        let _ = self.expect(TokenKind::Dollar, "expected second `$` for environment variable");
        let (name, end) = self.expect_identifier("expected environment variable name after `$$`");
        Expr { kind: ExprKind::EnvVar(name), span: start.cover(end) }
    }

    fn parse_grouped(&mut self) -> (r: Expr)
        requires
            old(self).wf(),
            old(self).cur() == TokenKind::LeftParen,
        ensures
            final(self).evolves(*old(self)),
            final(self).index > old(self).index,
            final(self).ok(r.span),
            (expr_m(r), final(self).ps()) == p_grouped(old(self).inp(), old(self).ps()),
        decreases old(self).tokens@.len() - old(self).index, 13nat,
    {
        let start = self.expect(TokenKind::LeftParen, "expected `(`");
        self.skip_statement_ends();
        let expr = self.parse_expression();
        self.skip_statement_ends();
        let end = self.expect(TokenKind::RightParen, "expected `)`");
        Expr { kind: ExprKind::Grouped(Box::new(expr)), span: start.cover(end) }
    }

    fn parse_list(&mut self) -> (r: Expr)
        requires
            old(self).wf(),
            old(self).cur() == TokenKind::LeftBracket,
        ensures
            final(self).evolves(*old(self)),
            final(self).index > old(self).index,
            final(self).ok(r.span),
            (expr_m(r), final(self).ps()) == p_list(old(self).inp(), old(self).ps()),
        decreases old(self).tokens@.len() - old(self).index, 13nat,
    {
        proof {
            reveal(items_loop);
        }
        let start = self.expect(TokenKind::LeftBracket, "expected `[`");
        let mut items: Vec<Expr> = Vec::new();
        self.skip_statement_ends();
        let ghost inp = self.inp();
        let ghost target = items_loop(
            inp,
            seq![],
            self.ps(),
            TokenKind::RightBracket,
            "expected `,` or `]` in list literal"@,
        );
        assert(exprs_m(items@) =~= Seq::<ExprM>::empty());
        loop
            invariant_except_break
                self.evolves(*old(self)),
                self.index > old(self).index,
                self.ok(start),
                inp == self.inp(),
                items_loop(
                    inp,
                    exprs_m(items@),
                    self.ps(),
                    TokenKind::RightBracket,
                    "expected `,` or `]` in list literal"@,
                ) == target,
            ensures
                self.evolves(*old(self)),
                self.index > old(self).index,
                self.ok(start),
                (exprs_m(items@), self.ps()) == target,
            decreases self.tokens@.len() - self.index,
        {
            proof {
                reveal(items_loop);
            }
            if self.at(TokenKind::RightBracket) || self.at(TokenKind::Eof) {
                break;
            }
            let e = self.parse_expression();
            let ghost before = items@;
            items.push(e);
            proof {
                lemma_exprs_m_push(before, e);
            }
            self.skip_statement_ends();
            if self.match_kind(TokenKind::Comma) {
                self.skip_statement_ends();
            } else if !self.at(TokenKind::RightBracket) {
                let span = self.current_span();
                self.report(DiagnosticKind::MissingDelimiter, span, "expected `,` or `]` in list literal");
                break;
            }
        }
        let end = self.expect(TokenKind::RightBracket, "expected `]`");
        Expr { kind: ExprKind::List(items), span: start.cover(end) }
    }

    fn parse_object_expr(&mut self) -> (r: Expr)
        requires
            old(self).wf(),
            old(self).cur() == TokenKind::At,
        ensures
            final(self).evolves(*old(self)),
            final(self).index > old(self).index,
            final(self).ok(r.span),
            (expr_m(r), final(self).ps()) == p_object_expr(old(self).inp(), old(self).ps()),
        decreases old(self).tokens@.len() - old(self).index, 13nat,
    {
        let start = self.expect(TokenKind::At, "expected `@`");
        if self.at(TokenKind::LeftBrace) {
            self.parse_object_literal(start)
        } else {
            self.report(DiagnosticKind::ExpectedExpression, start, "expected `{` after `@`");
            self.error_expr(start)
        }
    }

    fn parse_object_literal(&mut self, at_span: Span) -> (r: Expr)
        requires
            old(self).wf(),
            old(self).ok(at_span),
            old(self).cur() == TokenKind::LeftBrace,
        ensures
            final(self).evolves(*old(self)),
            final(self).index > old(self).index,
            final(self).ok(r.span),
            (expr_m(r), final(self).ps()) == p_object_literal(old(self).inp(), old(self).ps(), at_span),
        decreases old(self).tokens@.len() - old(self).index, 12nat,
    {
        proof {
            reveal(obj_loop);
        }
        let _ = self.expect(TokenKind::LeftBrace, "expected `{` after `@`");
        let mut fields: Vec<ObjectField> = Vec::new();
        self.skip_statement_ends();
        let ghost inp = self.inp();
        let ghost target = obj_loop(inp, seq![], self.ps());
        assert(fields_m(fields@) =~= Seq::<FieldM>::empty());
        loop
            invariant_except_break
                self.evolves(*old(self)),
                self.index > old(self).index,
                self.ok(at_span),
                inp == self.inp(),
                obj_loop(inp, fields_m(fields@), self.ps()) == target,
            ensures
                self.evolves(*old(self)),
                self.index > old(self).index,
                self.ok(at_span),
                (fields_m(fields@), self.ps()) == target,
            decreases self.tokens@.len() - self.index,
        {
            proof {
                reveal(obj_loop);
            }
            if self.at(TokenKind::RightBrace) || self.at(TokenKind::Eof) {
                break;
            }
            let field_start = self.current_span();
            let (name, _) = self.expect_identifier("expected object field name");
            self.skip_statement_ends();
            self.expect(TokenKind::Colon, "expected `:` after object field name");
            self.skip_statement_ends();
            let value = self.parse_expression();
            let span = field_start.cover(value.span);
            let field = ObjectField { name, span, value };
            let ghost before = fields@;
            fields.push(field);
            proof {
                lemma_fields_m_push(before, field);
            }
            self.skip_statement_ends();
            if self.match_kind(TokenKind::Comma) {
                self.skip_statement_ends();
            } else if !self.at(TokenKind::RightBrace) {
                let span = self.current_span();
                self.report(DiagnosticKind::MissingDelimiter, span, "expected `,` or `}` in object literal");
                break;
            }
        }
        let end = self.expect(TokenKind::RightBrace, "expected `}`");
        Expr { kind: ExprKind::Object(fields), span: at_span.cover(end) }
    }

    fn parse_block(&mut self) -> (r: Block)
        requires
            old(self).wf(),
            old(self).cur() == TokenKind::LeftBrace,
        ensures
            final(self).evolves(*old(self)),
            final(self).index > old(self).index,
            final(self).ok(r.span),
            (block_m(r), final(self).ps()) == p_block(old(self).inp(), old(self).ps()),
        decreases old(self).tokens@.len() - old(self).index, 50nat,
    {
        proof {
            reveal(block_loop);
        }
        let start = self.expect(TokenKind::LeftBrace, "expected `{`");
        let mut statements: Vec<Stmt> = Vec::new();
        self.skip_statement_ends();
        let ghost inp = self.inp();
        let ghost target = block_loop(inp, seq![], self.ps());
        assert(stmts_m(statements@) =~= Seq::<StmtM>::empty());
        while !self.at(TokenKind::RightBrace) && !self.at(TokenKind::Eof)
            invariant
                self.evolves(*old(self)),
                self.index > old(self).index,
                self.ok(start),
                inp == self.inp(),
                block_loop(inp, stmts_m(statements@), self.ps()) == target,
            decreases self.tokens@.len() - self.index,
        {
            proof {
                reveal(block_loop);
            }
            let ghost st0 = self.ps();
            let ghost acc0 = stmts_m(statements@);
            let stmt = self.parse_statement();
            let ghost sm = stmt_m(stmt);
            let ghost before = statements@;
            statements.push(stmt);
            proof {
                lemma_stmts_m_push(before, stmt);
            }
            self.skip_statement_ends();
            assert(adv(inp, st0, self.ps()));
            assert(block_loop(inp, acc0, st0) == block_loop(inp, acc0.push(sm), self.ps())) by {
                reveal(block_loop);
                reveal(p_statement);
            }
        }
        let end = self.expect(TokenKind::RightBrace, "expected `}`");
        Block { statements, span: start.cover(end) }
    }

    fn parse_call_args(&mut self) -> (r: Vec<Expr>)
        requires
            old(self).wf(),
            old(self).cur() == TokenKind::LeftParen,
        ensures
            final(self).evolves(*old(self)),
            final(self).index > old(self).index,
            forall|k: int| 0 <= k < r@.len() ==> final(self).ok(#[trigger] r@[k].span),
            (exprs_m(r@), final(self).ps()) == p_call_args(old(self).inp(), old(self).ps()),
        decreases old(self).tokens@.len() - old(self).index, 40nat,
    {
        proof {
            reveal(items_loop);
        }
        self.expect(TokenKind::LeftParen, "expected `(`");
        let mut args: Vec<Expr> = Vec::new();
        self.skip_statement_ends();
        let ghost inp = self.inp();
        let ghost target = items_loop(
            inp,
            seq![],
            self.ps(),
            TokenKind::RightParen,
            "expected `,` or `)` in argument list"@,
        );
        assert(exprs_m(args@) =~= Seq::<ExprM>::empty());
        loop
            invariant_except_break
                self.evolves(*old(self)),
                self.index > old(self).index,
                forall|k: int| 0 <= k < args@.len() ==> self.ok(#[trigger] args@[k].span),
                inp == self.inp(),
                items_loop(
                    inp,
                    exprs_m(args@),
                    self.ps(),
                    TokenKind::RightParen,
                    "expected `,` or `)` in argument list"@,
                ) == target,
            ensures
                self.evolves(*old(self)),
                self.index > old(self).index,
                forall|k: int| 0 <= k < args@.len() ==> self.ok(#[trigger] args@[k].span),
                (exprs_m(args@), self.ps()) == target,
            decreases self.tokens@.len() - self.index,
        {
            proof {
                reveal(items_loop);
            }
            if self.at(TokenKind::RightParen) || self.at(TokenKind::Eof) {
                break;
            }
            let e = self.parse_expression();
            let ghost before = args@;
            args.push(e);
            proof {
                lemma_exprs_m_push(before, e);
            }
            self.skip_statement_ends();
            if self.match_kind(TokenKind::Comma) {
                self.skip_statement_ends();
            } else if !self.at(TokenKind::RightParen) {
                let span = self.current_span();
                self.report(DiagnosticKind::MissingDelimiter, span, "expected `,` or `)` in argument list");
                break;
            }
        }
        self.expect(TokenKind::RightParen, "expected `)`");
        args
    }

    fn parse_application_arg(&mut self) -> (r: Expr)
        requires
            old(self).wf(),
            old(self).cur() != TokenKind::Eof,
        ensures
            final(self).evolves(*old(self)),
            final(self).index > old(self).index,
            final(self).ok(r.span),
            (expr_m(r), final(self).ps()) == p_application_arg(old(self).inp(), old(self).ps()),
        decreases old(self).tokens@.len() - old(self).index, 30nat,
    {
        if self.is_lambda_start() {
            return self.parse_lambda(false);
        }
        if self.is_shell_flag_start() {
            return self.parse_shell_flag_arg();
        }
        self.parse_postfix(false)
    }

    fn parse_shell_flag_arg(&mut self) -> (r: Expr)
        requires
            old(self).wf(),
            old(self).cur() == TokenKind::Minus,
        ensures
            final(self).evolves(*old(self)),
            final(self).index > old(self).index,
            final(self).ok(r.span),
            (expr_m(r), final(self).ps()) == p_shell_flag(old(self).inp(), old(self).ps()),
    {
        let start = self.current_span();
        let mut text = String::new();
        let mut last_end = start.start();
        let ghost inp = self.inp();
        let ghost target = flag_loop(inp, seq![], last_end, self.ps());
        assert(text@ =~= Seq::<char>::empty());
        while self.is_shell_flag_part(self.current_kind()) && self.current_span().start() == last_end
            invariant
                self.evolves(*old(self)),
                self.index > old(self).index || (self.index == old(self).index && last_end
                    == self.tokens@[self.index as int].span.spec_start()),
                inp == self.inp(),
                flag_loop(inp, text@, last_end, self.ps()) == target,
            decreases self.tokens@.len() - self.index,
        {
            let part = string_from_chars(self.current_text().as_slice());
            text.append(part.as_str());
            last_end = self.current_span().end();
            self.bump();
        }
        Expr { kind: ExprKind::Bareword(text), span: start.cover(self.prev_span()) }
    }

    fn parse_parenthesized_params(&mut self) -> (r: Vec<Param>)
        requires
            old(self).wf(),
        ensures
            final(self).evolves(*old(self)),
            final(self).advanced(*old(self)),
            (params_m(r@), final(self).ps()) == p_params(old(self).inp(), old(self).ps()),
        decreases old(self).tokens@.len() - old(self).index, 5nat,
    {
        self.expect(TokenKind::LeftParen, "expected `(`");
        let mut params: Vec<Param> = Vec::new();
        self.skip_statement_ends();
        let ghost inp = self.inp();
        let ghost target = params_loop(inp, seq![], self.ps());
        assert(params_m(params@) =~= Seq::<ParamM>::empty());
        loop
            invariant_except_break
                self.evolves(*old(self)),
                inp == self.inp(),
                params_loop(inp, params_m(params@), self.ps()) == target,
            ensures
                self.evolves(*old(self)),
                self.index > old(self).index || self.cur() == TokenKind::RightParen || self.cur()
                    == TokenKind::Eof,
                inp == self.inp(),
                (params_m(params@), self.ps()) == target,
            decreases self.tokens@.len() - self.index,
        {
            if self.at(TokenKind::RightParen) || self.at(TokenKind::Eof) {
                break;
            }
            let ghost st0 = self.ps();
            let ghost acc0 = params_m(params@);
            if self.at(TokenKind::Identifier) {
                let span = self.current_span();
                let name = string_from_chars(self.current_text().as_slice());
                self.bump();
                let ghost before = params@;
                params.push(Param { name, span });
                assert(params_m(params@) =~= acc0.push(ParamM { name: text_at(inp, st0), span: span_at(inp, st0) }));
            } else {
                let span = self.current_span();
                self.report(
                    DiagnosticKind::InvalidLambdaParameterList,
                    span,
                    "expected identifier in parameter list",
                );
                self.bump();
            }
            self.skip_statement_ends();
            if self.match_kind(TokenKind::Comma) {
                self.skip_statement_ends();
            } else if !self.at(TokenKind::RightParen) {
                let span = self.current_span();
                self.report(DiagnosticKind::MissingDelimiter, span, "expected `,` or `)` in parameter list");
                break;
            }
        }
        self.expect(TokenKind::RightParen, "expected `)`");
        params
    }

    /// Appends `args` to a call, or makes `callee` a call with `args`.
    fn push_call_args(callee: Expr, args: Vec<Expr>) -> (r: Expr)
        ensures
            r.span == callee.span.spec_cover(
                if args@.len() > 0 {
                    args@.last().span
                } else {
                    callee.span
                },
            ),
            expr_m(r) == push_call_args_m(expr_m(callee), exprs_m(args@)),
    {
        let arg_end = if args.len() > 0 {
            args[args.len() - 1].span
        } else {
            callee.span
        };
        let span = callee.span.cover(arg_end);
        let ghost cm = expr_m(callee);
        proof {
            if args@.len() > 0 {
                assert(args@.take(args@.len() - 1).push(args@.last()) =~= args@);
                lemma_exprs_m_push(args@.take(args@.len() - 1), args@.last());
            }
        }
        match callee.kind {
            ExprKind::Call { callee: inner_callee, args: existing_args } => {
                let mut existing_args = existing_args;
                let mut args = args;
                let ghost a0 = existing_args@;
                let ghost b0 = args@;
                existing_args.append(&mut args);
                proof {
                    lemma_exprs_m_append(a0, b0);
                }
                Expr { kind: ExprKind::Call { callee: inner_callee, args: existing_args }, span }
            },
            other => {
                let inner = Expr { kind: other, span: callee.span };
                assert(expr_m(inner) == cm);
                Expr { kind: ExprKind::Call { callee: Box::new(inner), args }, span }
            },
        }
    }

    // -----------------------------------------------------------------------
    // Literals
    // -----------------------------------------------------------------------

    fn parse_integer_literal(&mut self, span: Span) -> (r: i64)
        requires
            old(self).wf(),
            old(self).ok(span),
        ensures
            final(self).evolves(*old(self)),
            final(self).index == old(self).index,
            (r, final(self).ps()) == p_integer(old(self).inp(), old(self).ps(), span),
    {
        match parse_i64(self.current_text().as_slice()) {
            Some(value) => value,
            None => {
                self.report(DiagnosticKind::InvalidNumber, span, "invalid integer literal");
                0
            },
        }
    }

    /// The text of a float literal, reporting it when it is not one that
    /// the standard library can read.
    fn parse_float_literal(&mut self, span: Span) -> (r: String)
        requires
            old(self).wf(),
            old(self).ok(span),
        ensures
            final(self).evolves(*old(self)),
            final(self).index == old(self).index,
            (r@, final(self).ps()) == p_float(old(self).inp(), old(self).ps(), span),
    {
        let text = self.current_text();
        if !is_f64_syntax(text.as_slice()) {
            self.report(DiagnosticKind::InvalidNumber, span, "invalid float literal");
        }
        string_from_chars(self.current_text().as_slice())
    }

    fn parse_string_literal(&mut self, span: Span) -> (r: String)
        requires
            old(self).wf(),
            old(self).ok(span),
        ensures
            final(self).evolves(*old(self)),
            final(self).index == old(self).index,
            (r@, final(self).ps()) == p_string(old(self).inp(), old(self).ps(), span),
    {
        match cook_string_literal(self.current_text().as_slice()) {
            Ok(text) => text,
            Err(message) => {
                self.report(DiagnosticKind::UnexpectedToken, span, message);
                String::new()
            },
        }
    }
}

/// The characters `cs[a..b]`.
fn chars_between(cs: &Vec<char>, a: usize, b: usize) -> (r: Vec<char>)
    requires
        a <= b <= cs@.len(),
    ensures
        r@ == cs@.subrange(a as int, b as int),
{
    let mut r: Vec<char> = Vec::new();
    let mut i = a;
    while i < b
        invariant
            a <= i <= b <= cs@.len(),
            r@ == cs@.subrange(a as int, i as int),
        decreases b - i,
    {
        r.push(cs[i]);
        i = i + 1;
        assert(r@ =~= cs@.subrange(a as int, i as int));
    }
    r
}

impl Parser {
    /// A parser over the significant tokens of a lexed source text.
    fn new(
        cs: &Vec<char>,
        lexed: LexedFile,
        positions: Vec<(usize, usize)>,
        sid: Ghost<SourceId>,
        hi: Ghost<nat>,
    ) -> (r: Parser)
        requires
            crate::lexer::well_formed_stream(lexed.tokens@, sid@, 0, hi@),
            crate::lexer::positions_match(cs@, sid@, lexed.tokens@, pos_view(positions@), 0),
            forall|k: int|
                0 <= k < lexed.diagnostics@.len() ==> span_ok(
                    (#[trigger] lexed.diagnostics@[k]).span,
                    sid@,
                    hi@,
                ),
        ensures
            r.wf(),
            r.sid == sid,
            r.hi == hi,
            r.index == 0,
            r.tokens@ == significant(lexed.tokens@),
            r.diagnostics@ == lexed.diagnostics@,
            r.inp().texts == significant_texts(cs@, lexed.tokens@, pos_view(positions@)),
    {
        let ghost ts = lexed.tokens@;
        let n = lexed.tokens.len();
        let mut tokens: Vec<Token> = Vec::new();
        let mut texts: Vec<Vec<char>> = Vec::new();
        let mut k: usize = 0;
        assert(ts.take(0) =~= Seq::<Token>::empty());
        while k < n - 1
            invariant
                ts == lexed.tokens@,
                n == ts.len(),
                n >= 1,
                crate::lexer::well_formed_stream(ts, sid@, 0, hi@),
                crate::lexer::positions_match(cs@, sid@, ts, pos_view(positions@), 0),
                k <= n - 1,
                tokens@ == significant(ts.take(k as int)),
                texts@.len() == tokens@.len(),
                texts@.map_values(|v: Vec<char>| v@) == significant_texts(
                    cs@,
                    ts.take(k as int),
                    pos_view(positions@).take(k as int),
                ),
                forall|j: int| 0 <= j < tokens@.len() ==> (#[trigger] tokens@[j]).kind != TokenKind::Eof,
                forall|j: int| 0 <= j < tokens@.len() ==> span_ok((#[trigger] tokens@[j]).span, sid@, hi@),
            decreases n - 1 - k,
        {
            let token = lexed.tokens[k];
            assert(ts.take(k + 1).drop_last() =~= ts.take(k as int));
            assert(ts.take(k + 1).last() == ts[k as int]);
            assert(pos_view(positions@).take(k + 1).drop_last() =~= pos_view(positions@).take(k as int));
            assert(pos_view(positions@).take(k + 1).last() == pos_view(positions@)[k as int]);
            let ghost tv = texts@;
            if token.kind != TokenKind::Comment {
                let (a, b) = positions[k];
                assert(pos_view(positions@)[k as int] == (a as nat, b as nat));
                let text = chars_between(cs, a, b);
                tokens.push(token);
                texts.push(text);
                assert(texts@.map_values(|v: Vec<char>| v@) =~= tv.map_values(|v: Vec<char>| v@).push(
                    cs@.subrange(a as int, b as int),
                ));
            }
            k = k + 1;
        }
        let last = lexed.tokens[n - 1];
        let (a, b) = positions[n - 1];
        assert(pos_view(positions@)[n - 1] == (a as nat, b as nat));
        let ghost tv = texts@;
        tokens.push(last);
        texts.push(chars_between(cs, a, b));
        proof {
            let pv = pos_view(positions@);
            assert(pv.take((n - 1) as int) =~= pv.drop_last());
            assert(pv.len() == n);
            assert(texts@.map_values(|v: Vec<char>| v@) =~= tv.map_values(|v: Vec<char>| v@).push(
                cs@.subrange(a as int, b as int),
            ));
        }
        proof {
            assert(ts.take((n - 1) as int) =~= ts.drop_last());
            assert(ts[n - 1] == ts.last());
            assert(tokens@ == significant(ts));
            assert(tokens@.len() > 0);
            assert(tokens@.last().kind == TokenKind::Eof);
            assert(forall|k: int| 0 <= k < tokens@.len() - 1 ==> (#[trigger] tokens@[k]).kind != TokenKind::Eof);
            assert(span_ok(ts.last().span, sid@, hi@));
            assert(forall|k: int| 0 <= k < tokens@.len() ==> span_ok((#[trigger] tokens@[k]).span, sid@, hi@));
        }
        let r = Parser { tokens, texts, diagnostics: lexed.diagnostics, index: 0, sid, hi };
        let count = r.tokens.len();
        assert(count == r.tokens@.len());
        r
    }
}

/// Parses a whole source text into statements.
pub fn parse_file(source: &str, source_id: SourceId) -> (r: ParsedFile)
    requires
        byte_len(source@) <= usize::MAX,
    ensures
        diag_views(r.diagnostics@).len() >= spec_lex(source@, source_id).1.len(),
        diag_views(r.diagnostics@).take(spec_lex(source@, source_id).1.len() as int) == spec_lex(
            source@,
            source_id,
        ).1,
        forall|k: int|
            0 <= k < r.diagnostics@.len() ==> span_ok(
                (#[trigger] r.diagnostics@[k]).span,
                source_id,
                byte_len(source@),
            ),
        span_ok(r.file.span, source_id, byte_len(source@)),
        file_m(r.file) == p_file(parser_input(source@, source_id), start_state(source@, source_id)).0,
        diag_views(r.diagnostics@) == p_file(
            parser_input(source@, source_id),
            start_state(source@, source_id),
        ).1.ds,
{
    let (mut parser, lexed_diags) = start_parser(source, source_id);
    let file = parser.parse_file();
    proof {
        lemma_prefix_views(parser.diagnostics@, lexed_diags@);
    }
    ParsedFile { file, diagnostics: parser.diagnostics }
}

/// Parses a source text holding one expression.  There is no expression
/// exactly when the text holds nothing but statement ends and comments.
pub fn parse_expr(source: &str, source_id: SourceId) -> (r: ParsedExpr)
    requires
        byte_len(source@) <= usize::MAX,
    ensures
        diag_views(r.diagnostics@).len() >= spec_lex(source@, source_id).1.len(),
        diag_views(r.diagnostics@).take(spec_lex(source@, source_id).1.len() as int) == spec_lex(
            source@,
            source_id,
        ).1,
        forall|k: int|
            0 <= k < r.diagnostics@.len() ==> span_ok(
                (#[trigger] r.diagnostics@[k]).span,
                source_id,
                byte_len(source@),
            ),
        r.expr is None <==> kind_at(
            significant(spec_lex(source@, source_id).0),
            skip_ends(significant(spec_lex(source@, source_id).0), 0) as int,
        ) == TokenKind::Eof,
        r.expr matches Some(e) ==> span_ok(e.span, source_id, byte_len(source@)),
        opt_expr_m(r.expr) == p_expr_entry(
            parser_input(source@, source_id),
            start_state(source@, source_id),
        ).0,
        diag_views(r.diagnostics@) == p_expr_entry(
            parser_input(source@, source_id),
            start_state(source@, source_id),
        ).1.ds,
{
    let (mut parser, lexed_diags) = start_parser(source, source_id);
    let expr = parser.parse_expr_entry();
    proof {
        lemma_prefix_views(parser.diagnostics@, lexed_diags@);
    }
    ParsedExpr { expr, diagnostics: parser.diagnostics }
}

proof fn lemma_prefix_views(now: Seq<Diagnostic>, before: Seq<Diagnostic>)
    requires
        before.len() <= now.len(),
        forall|k: int| 0 <= k < before.len() ==> #[trigger] now[k] == before[k],
    ensures
        diag_views(now).take(before.len() as int) == diag_views(before),
{
    assert(diag_views(now).take(before.len() as int) =~= diag_views(before));
}

/// Lexes `source` and sets up a parser over its significant tokens.
fn start_parser(source: &str, source_id: SourceId) -> (r: (Parser, Ghost<Seq<Diagnostic>>))
    requires
        byte_len(source@) <= usize::MAX,
    ensures
        r.0.wf(),
        r.0.index == 0,
        r.0.sid@ == source_id,
        r.0.hi@ == byte_len(source@),
        r.0.tokens@ == significant(spec_lex(source@, source_id).0),
        r.0.diagnostics@ == r.1@,
        diag_views(r.1@) == spec_lex(source@, source_id).1,
        r.0.inp() == parser_input(source@, source_id),
        r.0.ps() == start_state(source@, source_id),
{
    let cs = to_chars(source);
    let (lexed, positions) = lex_with_positions(source, source_id);
    proof {
        lemma_lex_well_formed(source@, source_id);
        lemma_lex_positions(source@, source_id);
        lemma_lex_diags_ok(source@, source_id);
        assert forall|k: int| 0 <= k < lexed.diagnostics@.len() implies span_ok(
            (#[trigger] lexed.diagnostics@[k]).span,
            source_id,
            byte_len(source@),
        ) by {
            assert(diag_views(lexed.diagnostics@)[k] == lexed.diagnostics@[k]@);
        }
    }
    let ghost diags = lexed.diagnostics@;
    let parser = Parser::new(&cs, lexed, positions, Ghost(source_id), Ghost(byte_len(source@)));
    (parser, Ghost(diags))
}

} // verus!
