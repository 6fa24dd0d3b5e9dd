//! The parser's results as functions of the token stream.
//!
//! The syntax tree is described by a model with sequences in place of
//! vectors and boxes, and the parse of a token stream by spec functions that
//! follow the grammar: each takes the tokens (with their texts) and a parse
//! state (the current position and the diagnostics so far) and gives the
//! tree it builds with the state after it.  The executable parser is proved
//! to compute exactly these results.
use vstd::prelude::*;

use crate::ast::{
    BinaryOp, Block, Expr, ExprKind, File, FnBody, LambdaBody, ObjectField, Param, Stmt, StmtKind,
    UnaryOp,
};
use crate::diagnostic::{diag, DiagnosticKind, DiagnosticView};
use crate::literal::{cook_spec, f64_syntax, i64_from_text};
use crate::lexer::{lex_positions_from, spec_lex};
use crate::parser::{
    binary_op_of, kind_at, lambda_start_at, shell_flag_part, significant, skip_ends, starts_atom,
};
use crate::source::SourceId;
use crate::source::Span;
use crate::token::{Token, TokenKind};

verus! {

broadcast use crate::source::group_text_range;

// ---------------------------------------------------------------------------
// The model of the syntax tree
// ---------------------------------------------------------------------------

pub struct ExprM {
    pub kind: ExprKindM,
    pub span: Span,
}

pub enum ExprKindM {
    Bareword(Seq<char>),
    Variable(Seq<char>),
    EnvVar(Seq<char>),
    Integer(i64),
    Float(Seq<char>),
    Str(Seq<char>),
    Bool(bool),
    List(Seq<ExprM>),
    Object(Seq<FieldM>),
    Call(Box<ExprM>, Seq<ExprM>),
    Pipeline(Box<ExprM>, Box<ExprM>),
    Lambda(Seq<ParamM>, Box<BodyM>),
    Unary(UnaryOp, Box<ExprM>),
    Binary(BinaryOp, Box<ExprM>, Box<ExprM>),
    Member(Box<ExprM>, Seq<Seq<char>>),
    Grouped(Box<ExprM>),
    Error,
}

pub struct FieldM {
    pub name: Seq<char>,
    pub value: ExprM,
    pub span: Span,
}

pub struct ParamM {
    pub name: Seq<char>,
    pub span: Span,
}

/// The body of a function or a lambda.
pub enum BodyM {
    Block(BlockM),
    Expr(ExprM),
}

pub struct BlockM {
    pub statements: Seq<StmtM>,
    pub span: Span,
}

pub struct StmtM {
    pub kind: StmtKindM,
    pub span: Span,
}

pub enum StmtKindM {
    Let(Seq<char>, ExprM),
    Assign(ExprM, ExprM),
    FnDecl(Seq<char>, Seq<ParamM>, BodyM),
    Return(Option<ExprM>),
    Expr(ExprM),
}

pub struct FileM {
    pub statements: Seq<StmtM>,
    pub span: Span,
}

// ---------------------------------------------------------------------------
// The model of a syntax tree
// ---------------------------------------------------------------------------

pub open spec fn param_m(p: Param) -> ParamM {
    ParamM { name: p.name@, span: p.span }
}

pub open spec fn params_m(ps: Seq<Param>) -> Seq<ParamM> {
    ps.map_values(|p: Param| param_m(p))
}

pub open spec fn names_m(v: Seq<String>) -> Seq<Seq<char>> {
    v.map_values(|s: String| s@)
}

pub open spec fn expr_m(e: Expr) -> ExprM
    decreases e,
{
    ExprM {
        kind: match e.kind {
            ExprKind::Bareword(t) => ExprKindM::Bareword(t@),
            ExprKind::Variable(t) => ExprKindM::Variable(t@),
            ExprKind::EnvVar(t) => ExprKindM::EnvVar(t@),
            ExprKind::Integer(v) => ExprKindM::Integer(v),
            ExprKind::Float(t) => ExprKindM::Float(t@),
            ExprKind::String(t) => ExprKindM::Str(t@),
            ExprKind::Bool(b) => ExprKindM::Bool(b),
            ExprKind::List(items) => ExprKindM::List(exprs_m(items@)),
            ExprKind::Object(fields) => ExprKindM::Object(fields_m(fields@)),
            ExprKind::Call { callee, args } => ExprKindM::Call(
                Box::new(expr_m(*callee)),
                exprs_m(args@),
            ),
            ExprKind::Pipeline { left, right } => ExprKindM::Pipeline(
                Box::new(expr_m(*left)),
                Box::new(expr_m(*right)),
            ),
            ExprKind::Lambda { params, body } => ExprKindM::Lambda(
                params_m(params@),
                Box::new(lambda_body_m(body)),
            ),
            ExprKind::Unary { op, expr } => ExprKindM::Unary(op, Box::new(expr_m(*expr))),
            ExprKind::Binary { op, left, right } => ExprKindM::Binary(
                op,
                Box::new(expr_m(*left)),
                Box::new(expr_m(*right)),
            ),
            ExprKind::Member { object, fields } => ExprKindM::Member(
                Box::new(expr_m(*object)),
                names_m(fields@),
            ),
            ExprKind::Grouped(inner) => ExprKindM::Grouped(Box::new(expr_m(*inner))),
            ExprKind::Error => ExprKindM::Error,
        },
        span: e.span,
    }
}

pub open spec fn exprs_m(es: Seq<Expr>) -> Seq<ExprM>
    decreases es,
{
    if es.len() == 0 {
        seq![]
    } else {
        exprs_m(es.take(es.len() - 1)).push(expr_m(es[es.len() - 1]))
    }
}

pub open spec fn fields_m(fs: Seq<ObjectField>) -> Seq<FieldM>
    decreases fs,
{
    if fs.len() == 0 {
        seq![]
    } else {
        fields_m(fs.take(fs.len() - 1)).push(
            FieldM {
                name: fs[fs.len() - 1].name@,
                value: expr_m(fs[fs.len() - 1].value),
                span: fs[fs.len() - 1].span,
            },
        )
    }
}

pub open spec fn lambda_body_m(b: LambdaBody) -> BodyM
    decreases b,
{
    match b {
        LambdaBody::Block(bl) => BodyM::Block(block_m(bl)),
        LambdaBody::Expr(e) => BodyM::Expr(expr_m(*e)),
    }
}

pub open spec fn fn_body_m(b: FnBody) -> BodyM
    decreases b,
{
    match b {
        FnBody::Block(bl) => BodyM::Block(block_m(bl)),
        FnBody::Expr(e) => BodyM::Expr(expr_m(*e)),
    }
}

pub open spec fn block_m(b: Block) -> BlockM
    decreases b,
{
    BlockM { statements: stmts_m(b.statements@), span: b.span }
}

pub open spec fn stmts_m(ss: Seq<Stmt>) -> Seq<StmtM>
    decreases ss,
{
    if ss.len() == 0 {
        seq![]
    } else {
        stmts_m(ss.take(ss.len() - 1)).push(stmt_m(ss[ss.len() - 1]))
    }
}

pub open spec fn stmt_m(s: Stmt) -> StmtM
    decreases s,
{
    StmtM {
        kind: match s.kind {
            StmtKind::Let { name, value } => StmtKindM::Let(name@, expr_m(value)),
            StmtKind::Assign { target, value } => StmtKindM::Assign(expr_m(target), expr_m(value)),
            StmtKind::FnDecl { name, params, body } => StmtKindM::FnDecl(
                name@,
                params_m(params@),
                fn_body_m(body),
            ),
            StmtKind::Return { value } => StmtKindM::Return(
                match value {
                    Some(e) => Some(expr_m(e)),
                    None => None,
                },
            ),
            StmtKind::Expr(e) => StmtKindM::Expr(expr_m(e)),
        },
        span: s.span,
    }
}

pub open spec fn opt_expr_m(o: Option<Expr>) -> Option<ExprM> {
    match o {
        Some(e) => Some(expr_m(e)),
        None => None,
    }
}

pub open spec fn file_m(f: File) -> FileM {
    FileM { statements: stmts_m(f.statements@), span: f.span }
}

pub proof fn lemma_exprs_m_push(es: Seq<Expr>, e: Expr)
    ensures
        exprs_m(es.push(e)) == exprs_m(es).push(expr_m(e)),
{
    assert(es.push(e).take(es.len() as int) =~= es);
}

pub proof fn lemma_exprs_m_append(a: Seq<Expr>, b: Seq<Expr>)
    ensures
        exprs_m(a + b) == exprs_m(a) + exprs_m(b),
    decreases b.len(),
{
    if b.len() == 0 {
        assert(a + b =~= a);
        assert(exprs_m(b) =~= Seq::<ExprM>::empty());
        assert(exprs_m(a) + exprs_m(b) =~= exprs_m(a));
    } else {
        let b0 = b.take(b.len() - 1);
        lemma_exprs_m_append(a, b0);
        assert((a + b).take((a + b).len() - 1) =~= a + b0);
        assert((a + b)[(a + b).len() - 1] == b[b.len() - 1]);
        assert(exprs_m(a) + exprs_m(b) =~= (exprs_m(a) + exprs_m(b0)).push(expr_m(b[b.len() - 1])));
    }
}

pub proof fn lemma_fields_m_push(fs: Seq<ObjectField>, f: ObjectField)
    ensures
        fields_m(fs.push(f)) == fields_m(fs).push(FieldM { name: f.name@, value: expr_m(f.value), span: f.span }),
{
    assert(fs.push(f).take(fs.len() as int) =~= fs);
}

pub proof fn lemma_stmts_m_push(ss: Seq<Stmt>, s: Stmt)
    ensures
        stmts_m(ss.push(s)) == stmts_m(ss).push(stmt_m(s)),
{
    assert(ss.push(s).take(ss.len() as int) =~= ss);
}

// ---------------------------------------------------------------------------
// Parse states and their primitive steps
// ---------------------------------------------------------------------------

/// The significant tokens of a source text with the text of each.
pub struct Input {
    pub tokens: Seq<Token>,
    pub texts: Seq<Seq<char>>,
}

/// A parse state: the position of the current token and the diagnostics so
/// far.
pub struct PS {
    pub i: nat,
    pub ds: Seq<DiagnosticView>,
}

pub open spec fn cur(inp: Input, st: PS) -> TokenKind {
    kind_at(inp.tokens, st.i as int)
}

pub open spec fn span_at(inp: Input, st: PS) -> Span {
    inp.tokens[st.i as int].span
}

/// The span of the token before the current one (of the first one at the
/// start).
pub open spec fn prev_span(inp: Input, st: PS) -> Span {
    inp.tokens[if st.i > 0 {
        st.i - 1
    } else {
        0
    }].span
}

pub open spec fn text_at(inp: Input, st: PS) -> Seq<char> {
    inp.texts[st.i as int]
}

/// Moves past the current token, unless it is the end of input.
pub open spec fn bump(inp: Input, st: PS) -> PS {
    if cur(inp, st) == TokenKind::Eof {
        st
    } else {
        PS { i: st.i + 1, ..st }
    }
}

pub open spec fn report(st: PS, kind: DiagnosticKind, span: Span, message: Seq<char>) -> PS {
    PS { ds: st.ds.push(diag(kind, span, message)), ..st }
}

/// Moves past statement ends.
pub open spec fn skip(inp: Input, st: PS) -> PS {
    PS { i: skip_ends(inp.tokens, st.i), ..st }
}

/// Consumes a token of `kind`, or reports `message` (as a missing
/// delimiter) without moving; gives the current token's span either way.
pub open spec fn expect(inp: Input, st: PS, kind: TokenKind, message: Seq<char>) -> (Span, PS) {
    if cur(inp, st) == kind {
        (span_at(inp, st), bump(inp, st))
    } else {
        (span_at(inp, st), report(st, DiagnosticKind::MissingDelimiter, span_at(inp, st), message))
    }
}

/// Consumes an identifier, giving its text and span; otherwise reports
/// `message`, moves past the current token and gives `<error>`.
pub open spec fn expect_ident(inp: Input, st: PS, message: Seq<char>) -> (Seq<char>, Span, PS) {
    if cur(inp, st) == TokenKind::Identifier {
        (text_at(inp, st), span_at(inp, st), bump(inp, st))
    } else {
        (
            "<error>"@,
            span_at(inp, st),
            bump(inp, report(st, DiagnosticKind::UnexpectedToken, span_at(inp, st), message)),
        )
    }
}

/// `b` is at or after `a`, and inside the token stream when after it.
pub open spec fn fwd(inp: Input, a: PS, b: PS) -> bool {
    b.i == a.i || (a.i < b.i && b.i <= inp.tokens.len())
}

/// `b` is after `a`, inside the token stream.
pub open spec fn adv(inp: Input, a: PS, b: PS) -> bool {
    a.i < b.i && b.i <= inp.tokens.len()
}

pub proof fn lemma_skip_ends_fwd(ts: Seq<Token>, i: nat)
    ensures
        skip_ends(ts, i) == i || (i < skip_ends(ts, i) && skip_ends(ts, i) <= ts.len()),
        skip_ends(ts, i) >= ts.len() || ts[skip_ends(ts, i) as int].kind != TokenKind::StatementEnd,
    decreases ts.len() - i,
{
    if i < ts.len() && ts[i as int].kind == TokenKind::StatementEnd {
        lemma_skip_ends_fwd(ts, i + 1);
    }
}

pub open spec fn error_m(span: Span) -> ExprM {
    ExprM { kind: ExprKindM::Error, span }
}

pub open spec fn is_terminator(k: TokenKind) -> bool {
    k == TokenKind::StatementEnd || k == TokenKind::RightBrace || k == TokenKind::Eof
}

/// A minus sign directly followed by something a shell flag continues with.
pub open spec fn shell_flag_start_at(ts: Seq<Token>, i: int) -> bool {
    kind_at(ts, i) == TokenKind::Minus && (kind_at(ts, i + 1) == TokenKind::Minus || kind_at(ts, i + 1)
        == TokenKind::Identifier || kind_at(ts, i + 1) == TokenKind::Integer)
}

/// Whether a juxtaposed argument can start at `i`.
pub open spec fn app_arg_start_at(ts: Seq<Token>, i: int) -> bool {
    (starts_atom(kind_at(ts, i)) && kind_at(ts, i) != TokenKind::StatementEnd) || shell_flag_start_at(ts, i)
}

/// Appends `args` to a call, or makes `callee` a call with `args`.
pub open spec fn push_call_args_m(callee: ExprM, args: Seq<ExprM>) -> ExprM {
    let span = callee.span.spec_cover(
        if args.len() > 0 {
            args.last().span
        } else {
            callee.span
        },
    );
    match callee.kind {
        ExprKindM::Call(inner, existing) => ExprM { kind: ExprKindM::Call(inner, existing + args), span },
        _ => ExprM { kind: ExprKindM::Call(Box::new(callee), args), span },
    }
}

// ---------------------------------------------------------------------------
// Leaves: barewords, variables, shell flags, literals, parameter lists
// ---------------------------------------------------------------------------

/// Joins `.`-separated identifiers onto a bareword.
pub open spec fn bare_loop(inp: Input, text: Seq<char>, st: PS) -> (Seq<char>, PS)
    decreases inp.tokens.len() - st.i,
{
    if cur(inp, st) == TokenKind::Dot && kind_at(inp.tokens, st.i + 1int) == TokenKind::Identifier {
        let st1 = bump(inp, st);
        bare_loop(inp, text.push('.') + text_at(inp, st1), bump(inp, st1))
    } else {
        (text, st)
    }
}

pub open spec fn p_bareword(inp: Input, st: PS) -> (ExprM, PS) {
    let start = span_at(inp, st);
    let (t, st1) = bare_loop(inp, text_at(inp, st), bump(inp, st));
    (ExprM { kind: ExprKindM::Bareword(t), span: start.spec_cover(prev_span(inp, st1)) }, st1)
}

pub open spec fn p_variable(inp: Input, st: PS) -> (ExprM, PS) {
    let (start, st1) = expect(inp, st, TokenKind::Dollar, "expected `$`"@);
    let (name, end, st2) = expect_ident(inp, st1, "expected identifier after `$`"@);
    (ExprM { kind: ExprKindM::Variable(name), span: start.spec_cover(end) }, st2)
}

pub open spec fn p_env_var(inp: Input, st: PS) -> (ExprM, PS) {
    let (start, st1) = expect(inp, st, TokenKind::Dollar, "expected `$`"@);
    let (_, st2) = expect(inp, st1, TokenKind::Dollar, "expected second `$` for environment variable"@);
    let (name, end, st3) = expect_ident(inp, st2, "expected environment variable name after `$$`"@);
    (ExprM { kind: ExprKindM::EnvVar(name), span: start.spec_cover(end) }, st3)
}

pub open spec fn p_dollar(inp: Input, st: PS) -> (ExprM, PS) {
    if kind_at(inp.tokens, st.i + 1int) == TokenKind::Dollar {
        p_env_var(inp, st)
    } else {
        p_variable(inp, st)
    }
}

/// Joins the adjacent tokens of a shell flag such as `--color=never`.
pub open spec fn flag_loop(inp: Input, text: Seq<char>, last_end: usize, st: PS) -> (Seq<char>, PS)
    decreases inp.tokens.len() - st.i,
{
    if shell_flag_part(cur(inp, st)) && span_at(inp, st).spec_start() == last_end {
        flag_loop(inp, text + text_at(inp, st), span_at(inp, st).spec_end(), bump(inp, st))
    } else {
        (text, st)
    }
}

pub open spec fn p_shell_flag(inp: Input, st: PS) -> (ExprM, PS) {
    let start = span_at(inp, st);
    let (t, st1) = flag_loop(inp, seq![], start.spec_start(), st);
    (ExprM { kind: ExprKindM::Bareword(t), span: start.spec_cover(prev_span(inp, st1)) }, st1)
}

/// The parameters of a parenthesised list, from after `(`.
pub open spec fn params_loop(inp: Input, acc: Seq<ParamM>, st: PS) -> (Seq<ParamM>, PS)
    decreases inp.tokens.len() - st.i,
{
    if cur(inp, st) == TokenKind::RightParen || cur(inp, st) == TokenKind::Eof {
        (acc, st)
    } else {
        let acc1 = if cur(inp, st) == TokenKind::Identifier {
            acc.push(ParamM { name: text_at(inp, st), span: span_at(inp, st) })
        } else {
            acc
        };
        let st1 = if cur(inp, st) == TokenKind::Identifier {
            bump(inp, st)
        } else {
            bump(
                inp,
                report(
                    st,
                    DiagnosticKind::InvalidLambdaParameterList,
                    span_at(inp, st),
                    "expected identifier in parameter list"@,
                ),
            )
        };
        let st2 = skip(inp, st1);
        proof {
            lemma_skip_ends_fwd(inp.tokens, st1.i);
        }
        if cur(inp, st2) == TokenKind::Comma {
            let st3 = bump(inp, st2);
            let st4 = skip(inp, st3);
            proof {
                lemma_skip_ends_fwd(inp.tokens, st3.i);
            }
            params_loop(inp, acc1, st4)
        } else if cur(inp, st2) != TokenKind::RightParen {
            (
                acc1,
                report(
                    st2,
                    DiagnosticKind::MissingDelimiter,
                    span_at(inp, st2),
                    "expected `,` or `)` in parameter list"@,
                ),
            )
        } else {
            params_loop(inp, acc1, st2)
        }
    }
}

pub open spec fn p_params(inp: Input, st: PS) -> (Seq<ParamM>, PS) {
    let (_, st1) = expect(inp, st, TokenKind::LeftParen, "expected `(`"@);
    let (ps, st2) = params_loop(inp, seq![], skip(inp, st1));
    let (_, st3) = expect(inp, st2, TokenKind::RightParen, "expected `)`"@);
    (ps, st3)
}

/// An integer literal's value, or zero with a diagnostic.
pub open spec fn p_integer(inp: Input, st: PS, span: Span) -> (i64, PS) {
    match i64_from_text(text_at(inp, st)) {
        Some(v) => (v, st),
        None => (0, report(st, DiagnosticKind::InvalidNumber, span, "invalid integer literal"@)),
    }
}

/// A float literal's text, reported when it is not a float.
pub open spec fn p_float(inp: Input, st: PS, span: Span) -> (Seq<char>, PS) {
    if f64_syntax(text_at(inp, st)) {
        (text_at(inp, st), st)
    } else {
        (text_at(inp, st), report(st, DiagnosticKind::InvalidNumber, span, "invalid float literal"@))
    }
}

/// A string literal's value, or an empty text with a diagnostic.
pub open spec fn p_string(inp: Input, st: PS, span: Span) -> (Seq<char>, PS) {
    match cook_spec(text_at(inp, st)) {
        Ok(v) => (v, st),
        Err(m) => (seq![], report(st, DiagnosticKind::UnexpectedToken, span, m)),
    }
}

// ---------------------------------------------------------------------------
// Statements and expressions
// ---------------------------------------------------------------------------

pub open spec fn p_block(inp: Input, st: PS) -> (BlockM, PS)
    decreases inp.tokens.len() - st.i, 50nat,
{
    let (start, st1) = expect(inp, st, TokenKind::LeftBrace, "expected `{`"@);
    let st2 = skip(inp, st1);
    proof {
        lemma_skip_ends_fwd(inp.tokens, st1.i);
    }
    let (ss, st3) = block_loop(inp, seq![], st2);
    let (end, st4) = expect(inp, st3, TokenKind::RightBrace, "expected `}`"@);
    (BlockM { statements: ss, span: start.spec_cover(end) }, st4)
}

#[verifier::opaque]
pub open spec fn block_loop(inp: Input, acc: Seq<StmtM>, st: PS) -> (Seq<StmtM>, PS)
    decreases inp.tokens.len() - st.i, 46nat,
{
    if cur(inp, st) == TokenKind::RightBrace || cur(inp, st) == TokenKind::Eof {
        (acc, st)
    } else {
        let (s, st1) = p_statement(inp, st);
        let st2 = skip(inp, st1);
        if adv(inp, st, st2) {
            block_loop(inp, acc.push(s), st2)
        } else {
            (acc.push(s), st2)
        }
    }
}

#[verifier::opaque]
pub open spec fn p_statement(inp: Input, st: PS) -> (StmtM, PS)
    decreases inp.tokens.len() - st.i, 45nat,
{
    let st1 = skip(inp, st);
    proof {
        lemma_skip_ends_fwd(inp.tokens, st.i);
    }
    let start = span_at(inp, st1);
    match cur(inp, st1) {
        TokenKind::Let => p_let(inp, st1, start),
        TokenKind::Fn => p_fn(inp, st1, start),
        TokenKind::Return => p_return(inp, st1, start),
        TokenKind::StatementEnd => (
            StmtM { kind: StmtKindM::Expr(error_m(start)), span: start },
            bump(
                inp,
                report(st1, DiagnosticKind::UnexpectedStatementEnd, start, "unexpected statement boundary"@),
            ),
        ),
        _ => p_expr_or_assign(inp, st1),
    }
}

pub open spec fn p_let(inp: Input, st: PS, start: Span) -> (StmtM, PS)
    decreases inp.tokens.len() - st.i, 44nat,
{
    let st1 = bump(inp, st);
    let (name, _, st2) = expect_ident(inp, st1, "expected identifier after `let`"@);
    let (_, st3) = expect(inp, st2, TokenKind::Assign, "expected `=` after let binding"@);
    let (value, st4) = p_expression(inp, st3);
    (StmtM { kind: StmtKindM::Let(name, value), span: start.spec_cover(prev_span(inp, st4)) }, st4)
}

pub open spec fn p_fn(inp: Input, st: PS, start: Span) -> (StmtM, PS)
    decreases inp.tokens.len() - st.i, 44nat,
{
    let st1 = bump(inp, st);
    let (name, _, st2) = expect_ident(inp, st1, "expected function name after `fn`"@);
    let (params, st3) = p_params(inp, st2);
    let (body, st4) = if cur(inp, st3) == TokenKind::LeftBrace {
        if adv(inp, st, st3) {
            let (b, s) = p_block(inp, st3);
            (BodyM::Block(b), s)
        } else {
            (BodyM::Expr(error_m(span_at(inp, st3))), st3)
        }
    } else if cur(inp, st3) == TokenKind::FatArrow {
        let s1 = bump(inp, st3);
        if fwd(inp, st, s1) {
            let (e, s) = p_expression(inp, s1);
            (BodyM::Expr(e), s)
        } else {
            (BodyM::Expr(error_m(span_at(inp, s1))), s1)
        }
    } else {
        let s1 = report(st3, DiagnosticKind::ExpectedStatement, span_at(inp, st3), "expected function body"@);
        (BodyM::Expr(error_m(span_at(inp, s1))), s1)
    };
    (
        StmtM { kind: StmtKindM::FnDecl(name, params, body), span: start.spec_cover(prev_span(inp, st4)) },
        st4,
    )
}

pub open spec fn p_return(inp: Input, st: PS, start: Span) -> (StmtM, PS)
    decreases inp.tokens.len() - st.i, 44nat,
{
    let st1 = bump(inp, st);
    let (value, st2) = if is_terminator(cur(inp, st1)) {
        (None, st1)
    } else {
        let (e, s) = p_expression(inp, st1);
        (Some(e), s)
    };
    (StmtM { kind: StmtKindM::Return(value), span: start.spec_cover(prev_span(inp, st2)) }, st2)
}

pub open spec fn p_expr_or_assign(inp: Input, st: PS) -> (StmtM, PS)
    decreases inp.tokens.len() - st.i, 44nat,
{
    let (e, st1) = p_expression(inp, st);
    if cur(inp, st1) == TokenKind::Assign {
        let st2 = bump(inp, st1);
        if fwd(inp, st, st2) {
            let (rhs, st3) = p_expression(inp, st2);
            let valid = match e.kind {
                ExprKindM::Variable(_) => true,
                ExprKindM::EnvVar(_) => true,
                _ => false,
            };
            let st4 = if valid {
                st3
            } else {
                report(
                    st3,
                    DiagnosticKind::InvalidAssignmentTarget,
                    e.span,
                    "invalid assignment target; use `$name = ...` or `$$NAME = ...`"@,
                )
            };
            (StmtM { kind: StmtKindM::Assign(e, rhs), span: e.span.spec_cover(prev_span(inp, st4)) }, st4)
        } else {
            (StmtM { kind: StmtKindM::Expr(e), span: e.span }, st2)
        }
    } else {
        (StmtM { kind: StmtKindM::Expr(e), span: e.span }, st1)
    }
}

pub open spec fn p_expression(inp: Input, st: PS) -> (ExprM, PS)
    decreases inp.tokens.len() - st.i, 20nat,
{
    p_pipeline(inp, st, true)
}

pub open spec fn p_pipeline(inp: Input, st: PS, aj: bool) -> (ExprM, PS)
    decreases inp.tokens.len() - st.i, 19nat,
{
    let (e, st1) = p_lambda(inp, st, aj);
    if fwd(inp, st, st1) {
        pipe_loop(inp, e, st1)
    } else {
        (e, st1)
    }
}

#[verifier::opaque]
pub open spec fn pipe_loop(inp: Input, e: ExprM, st: PS) -> (ExprM, PS)
    decreases inp.tokens.len() - st.i, 18nat,
{
    if cur(inp, st) == TokenKind::PipeForward {
        let st1 = bump(inp, st);
        let (right, st2) = p_lambda(inp, st1, true);
        let e2 = ExprM {
            kind: ExprKindM::Pipeline(Box::new(e), Box::new(right)),
            span: e.span.spec_cover(right.span),
        };
        if adv(inp, st, st2) {
            pipe_loop(inp, e2, st2)
        } else {
            (e2, st2)
        }
    } else {
        (e, st)
    }
}

pub open spec fn p_lambda(inp: Input, st: PS, aj: bool) -> (ExprM, PS)
    decreases inp.tokens.len() - st.i, 18nat,
{
    if lambda_start_at(inp.tokens, st.i as int) {
        let start = span_at(inp, st);
        let (params, st1) = if cur(inp, st) == TokenKind::Identifier {
            let (name, sp, s) = expect_ident(inp, st, "expected lambda parameter"@);
            (seq![ParamM { name, span: sp }], s)
        } else {
            p_params(inp, st)
        };
        let (_, st2) = expect(inp, st1, TokenKind::FatArrow, "expected `=>` after lambda parameters"@);
        let (body, st3) = if adv(inp, st, st2) {
            if cur(inp, st2) == TokenKind::LeftBrace {
                let (b, s) = p_block(inp, st2);
                (BodyM::Block(b), s)
            } else {
                let (e, s) = p_pipeline(inp, st2, true);
                (BodyM::Expr(e), s)
            }
        } else {
            (BodyM::Expr(error_m(span_at(inp, st2))), st2)
        };
        (
            ExprM {
                kind: ExprKindM::Lambda(params, Box::new(body)),
                span: start.spec_cover(prev_span(inp, st3)),
            },
            st3,
        )
    } else {
        p_binary(inp, st, aj, 0)
    }
}

pub open spec fn p_binary(inp: Input, st: PS, aj: bool, min_prec: u8) -> (ExprM, PS)
    decreases inp.tokens.len() - st.i, 17nat,
{
    let (left, st1) = p_prefix(inp, st, aj);
    if fwd(inp, st, st1) {
        bin_loop(inp, left, st1, aj, min_prec)
    } else {
        (left, st1)
    }
}

#[verifier::opaque]
pub open spec fn bin_loop(inp: Input, left: ExprM, st: PS, aj: bool, min_prec: u8) -> (ExprM, PS)
    decreases inp.tokens.len() - st.i, 16nat,
{
    match binary_op_of(cur(inp, st)) {
        Some((op, prec, right_assoc)) => if prec < min_prec {
            (left, st)
        } else {
            let st1 = bump(inp, st);
            let next_min: u8 = if right_assoc {
                prec
            } else {
                (prec + 1) as u8
            };
            let (right, st2) = p_binary(inp, st1, aj, next_min);
            let e = ExprM {
                kind: ExprKindM::Binary(op, Box::new(left), Box::new(right)),
                span: left.span.spec_cover(right.span),
            };
            if adv(inp, st, st2) {
                bin_loop(inp, e, st2, aj, min_prec)
            } else {
                (e, st2)
            }
        },
        None => (left, st),
    }
}

pub open spec fn p_prefix(inp: Input, st: PS, aj: bool) -> (ExprM, PS)
    decreases inp.tokens.len() - st.i, 16nat,
{
    let start = span_at(inp, st);
    let op = match cur(inp, st) {
        TokenKind::Minus => Some(UnaryOp::Negate),
        TokenKind::Bang => Some(UnaryOp::Not),
        TokenKind::Tilde => Some(UnaryOp::BitNot),
        _ => None,
    };
    match op {
        Some(op) => {
            let (e, st1) = p_prefix(inp, bump(inp, st), aj);
            (ExprM { kind: ExprKindM::Unary(op, Box::new(e)), span: start.spec_cover(e.span) }, st1)
        },
        None => p_postfix(inp, st, aj),
    }
}

pub open spec fn p_postfix(inp: Input, st: PS, aj: bool) -> (ExprM, PS)
    decreases inp.tokens.len() - st.i, 15nat,
{
    let (e, st1) = p_atom(inp, st);
    if adv(inp, st, st1) {
        post_loop(inp, e, st1, aj)
    } else {
        (e, st1)
    }
}

#[verifier::opaque]
pub open spec fn post_loop(inp: Input, e: ExprM, st: PS, aj: bool) -> (ExprM, PS)
    decreases inp.tokens.len() - st.i, 41nat,
{
    if cur(inp, st) == TokenKind::Dot {
        let st1 = bump(inp, st);
        if e.kind is EnvVar {
            (
                e,
                report(
                    st1,
                    DiagnosticKind::UnexpectedToken,
                    span_at(inp, st1),
                    "environment variables do not support member access"@,
                ),
            )
        } else if cur(inp, st1) == TokenKind::Identifier {
            let field = text_at(inp, st1);
            let st2 = bump(inp, st1);
            let span = e.span.spec_cover(span_at(inp, st1));
            let e2 = match e.kind {
                ExprKindM::Member(object, fields) => ExprM { kind: ExprKindM::Member(object, fields.push(field)), span },
                _ => ExprM { kind: ExprKindM::Member(Box::new(e), seq![field]), span },
            };
            post_loop(inp, e2, st2, aj)
        } else {
            (
                e,
                report(st1, DiagnosticKind::UnexpectedToken, span_at(inp, st1), "expected field name after `.`"@),
            )
        }
    } else if cur(inp, st) == TokenKind::LeftParen {
        let (args, st1) = p_call_args(inp, st);
        let e2 = push_call_args_m(e, args);
        if adv(inp, st, st1) {
            post_loop(inp, e2, st1, aj)
        } else {
            (e2, st1)
        }
    } else if aj && app_arg_start_at(inp.tokens, st.i as int) {
        let (arg, st1) = p_application_arg(inp, st);
        let e2 = push_call_args_m(e, seq![arg]);
        if adv(inp, st, st1) {
            post_loop(inp, e2, st1, aj)
        } else {
            (e2, st1)
        }
    } else {
        (e, st)
    }
}

pub open spec fn p_atom(inp: Input, st: PS) -> (ExprM, PS)
    decreases inp.tokens.len() - st.i, 14nat,
{
    let st1 = skip(inp, st);
    proof {
        lemma_skip_ends_fwd(inp.tokens, st.i);
    }
    let start = span_at(inp, st1);
    match cur(inp, st1) {
        TokenKind::Identifier => p_bareword(inp, st1),
        TokenKind::Dollar => p_dollar(inp, st1),
        TokenKind::Integer => {
            let (v, s) = p_integer(inp, st1, start);
            (ExprM { kind: ExprKindM::Integer(v), span: start }, bump(inp, s))
        },
        TokenKind::Float => {
            let (t, s) = p_float(inp, st1, start);
            (ExprM { kind: ExprKindM::Float(t), span: start }, bump(inp, s))
        },
        TokenKind::String => {
            let (t, s) = p_string(inp, st1, start);
            (ExprM { kind: ExprKindM::Str(t), span: start }, bump(inp, s))
        },
        TokenKind::True => (ExprM { kind: ExprKindM::Bool(true), span: start }, bump(inp, st1)),
        TokenKind::False => (ExprM { kind: ExprKindM::Bool(false), span: start }, bump(inp, st1)),
        TokenKind::LeftParen => p_grouped(inp, st1),
        TokenKind::LeftBracket => p_list(inp, st1),
        TokenKind::At => p_object_expr(inp, st1),
        _ => (
            error_m(start),
            bump(inp, report(st1, DiagnosticKind::ExpectedExpression, start, "expected expression"@)),
        ),
    }
}

pub open spec fn p_grouped(inp: Input, st: PS) -> (ExprM, PS)
    decreases inp.tokens.len() - st.i, 13nat,
{
    let (start, st1) = expect(inp, st, TokenKind::LeftParen, "expected `(`"@);
    let st2 = skip(inp, st1);
    if adv(inp, st, st2) {
        let (e, st3) = p_expression(inp, st2);
        let st4 = skip(inp, st3);
        let (end, st5) = expect(inp, st4, TokenKind::RightParen, "expected `)`"@);
        (ExprM { kind: ExprKindM::Grouped(Box::new(e)), span: start.spec_cover(end) }, st5)
    } else {
        (error_m(start), st2)
    }
}

/// Comma-separated expressions up to `close`, from after the opening
/// bracket; `message` reports a missing separator.
#[verifier::opaque]
pub open spec fn items_loop(inp: Input, acc: Seq<ExprM>, st: PS, close: TokenKind, message: Seq<char>) -> (Seq<ExprM>, PS)
    decreases inp.tokens.len() - st.i, 21nat,
{
    if cur(inp, st) == close || cur(inp, st) == TokenKind::Eof {
        (acc, st)
    } else {
        let (e, st1) = p_expression(inp, st);
        let st2 = skip(inp, st1);
        if cur(inp, st2) == TokenKind::Comma {
            let st3 = skip(inp, bump(inp, st2));
            if adv(inp, st, st3) {
                items_loop(inp, acc.push(e), st3, close, message)
            } else {
                (acc.push(e), st3)
            }
        } else if cur(inp, st2) != close {
            (acc.push(e), report(st2, DiagnosticKind::MissingDelimiter, span_at(inp, st2), message))
        } else if adv(inp, st, st2) {
            items_loop(inp, acc.push(e), st2, close, message)
        } else {
            (acc.push(e), st2)
        }
    }
}

pub open spec fn p_list(inp: Input, st: PS) -> (ExprM, PS)
    decreases inp.tokens.len() - st.i, 13nat,
{
    let (start, st1) = expect(inp, st, TokenKind::LeftBracket, "expected `[`"@);
    let st2 = skip(inp, st1);
    if adv(inp, st, st2) {
        let (items, st3) = items_loop(
            inp,
            seq![],
            st2,
            TokenKind::RightBracket,
            "expected `,` or `]` in list literal"@,
        );
        let (end, st4) = expect(inp, st3, TokenKind::RightBracket, "expected `]`"@);
        (ExprM { kind: ExprKindM::List(items), span: start.spec_cover(end) }, st4)
    } else {
        (error_m(start), st2)
    }
}

pub open spec fn p_object_expr(inp: Input, st: PS) -> (ExprM, PS)
    decreases inp.tokens.len() - st.i, 13nat,
{
    let (start, st1) = expect(inp, st, TokenKind::At, "expected `@`"@);
    if cur(inp, st1) == TokenKind::LeftBrace {
        p_object_literal(inp, st1, start)
    } else {
        (error_m(start), report(st1, DiagnosticKind::ExpectedExpression, start, "expected `{` after `@`"@))
    }
}

#[verifier::opaque]
pub open spec fn obj_loop(inp: Input, acc: Seq<FieldM>, st: PS) -> (Seq<FieldM>, PS)
    decreases inp.tokens.len() - st.i, 21nat,
{
    if cur(inp, st) == TokenKind::RightBrace || cur(inp, st) == TokenKind::Eof {
        (acc, st)
    } else {
        let field_start = span_at(inp, st);
        let (name, _, st1) = expect_ident(inp, st, "expected object field name"@);
        let st2 = skip(inp, st1);
        let (_, st3) = expect(inp, st2, TokenKind::Colon, "expected `:` after object field name"@);
        let st4 = skip(inp, st3);
        proof {
            lemma_skip_ends_fwd(inp.tokens, st1.i);
            lemma_skip_ends_fwd(inp.tokens, st3.i);
        }
        let (value, st5) = p_expression(inp, st4);
        let f = FieldM { name, value, span: field_start.spec_cover(value.span) };
        let st6 = skip(inp, st5);
        if cur(inp, st6) == TokenKind::Comma {
            let st7 = skip(inp, bump(inp, st6));
            if adv(inp, st, st7) {
                obj_loop(inp, acc.push(f), st7)
            } else {
                (acc.push(f), st7)
            }
        } else if cur(inp, st6) != TokenKind::RightBrace {
            (
                acc.push(f),
                report(
                    st6,
                    DiagnosticKind::MissingDelimiter,
                    span_at(inp, st6),
                    "expected `,` or `}` in object literal"@,
                ),
            )
        } else if adv(inp, st, st6) {
            obj_loop(inp, acc.push(f), st6)
        } else {
            (acc.push(f), st6)
        }
    }
}

pub open spec fn p_object_literal(inp: Input, st: PS, at_span: Span) -> (ExprM, PS)
    decreases inp.tokens.len() - st.i, 12nat,
{
    let (_, st1) = expect(inp, st, TokenKind::LeftBrace, "expected `{` after `@`"@);
    let st2 = skip(inp, st1);
    if adv(inp, st, st2) {
        let (fields, st3) = obj_loop(inp, seq![], st2);
        let (end, st4) = expect(inp, st3, TokenKind::RightBrace, "expected `}`"@);
        (ExprM { kind: ExprKindM::Object(fields), span: at_span.spec_cover(end) }, st4)
    } else {
        (error_m(at_span), st2)
    }
}

pub open spec fn p_call_args(inp: Input, st: PS) -> (Seq<ExprM>, PS)
    decreases inp.tokens.len() - st.i, 40nat,
{
    let (_, st1) = expect(inp, st, TokenKind::LeftParen, "expected `(`"@);
    let st2 = skip(inp, st1);
    proof {
        lemma_skip_ends_fwd(inp.tokens, st1.i);
    }
    let (args, st3) = items_loop(
        inp,
        seq![],
        st2,
        TokenKind::RightParen,
        "expected `,` or `)` in argument list"@,
    );
    let (_, st4) = expect(inp, st3, TokenKind::RightParen, "expected `)`"@);
    (args, st4)
}

pub open spec fn p_application_arg(inp: Input, st: PS) -> (ExprM, PS)
    decreases inp.tokens.len() - st.i, 30nat,
{
    if lambda_start_at(inp.tokens, st.i as int) {
        p_lambda(inp, st, false)
    } else if shell_flag_start_at(inp.tokens, st.i as int) {
        p_shell_flag(inp, st)
    } else {
        p_postfix(inp, st, false)
    }
}

// ---------------------------------------------------------------------------
// Entry points
// ---------------------------------------------------------------------------

#[verifier::opaque]
pub open spec fn file_loop(inp: Input, acc: Seq<StmtM>, st: PS) -> (Seq<StmtM>, PS)
    decreases inp.tokens.len() - st.i,
{
    if cur(inp, st) == TokenKind::Eof {
        (acc, st)
    } else {
        let (s, st1) = p_statement(inp, st);
        let st2 = skip(inp, st1);
        if adv(inp, st, st2) {
            file_loop(inp, acc.push(s), st2)
        } else {
            (acc.push(s), st2)
        }
    }
}

/// The texts of the tokens that are not comments, where `ps` gives each
/// token's character positions in `cs`.
pub open spec fn significant_texts(cs: Seq<char>, ts: Seq<Token>, ps: Seq<(nat, nat)>) -> Seq<Seq<char>>
    decreases ts.len(),
{
    if ts.len() == 0 || ps.len() == 0 {
        seq![]
    } else if ts.last().kind == TokenKind::Comment {
        significant_texts(cs, ts.drop_last(), ps.drop_last())
    } else {
        significant_texts(cs, ts.drop_last(), ps.drop_last()).push(
            cs.subrange(ps.last().0 as int, ps.last().1 as int),
        )
    }
}

/// What the parser reads of a source text: its significant tokens with
/// their texts.
pub open spec fn parser_input(cs: Seq<char>, sid: SourceId) -> Input {
    Input {
        tokens: significant(spec_lex(cs, sid).0),
        texts: significant_texts(cs, spec_lex(cs, sid).0, lex_positions_from(cs, sid, 0)),
    }
}

/// The parser's state before the first token: the lexer's diagnostics.
pub open spec fn start_state(cs: Seq<char>, sid: SourceId) -> PS {
    PS { i: 0, ds: spec_lex(cs, sid).1 }
}

/// The statements of a whole token stream.
pub open spec fn p_file(inp: Input, st: PS) -> (FileM, PS) {
    let start = span_at(inp, st);
    let (ss, st1) = file_loop(inp, seq![], skip(inp, st));
    (FileM { statements: ss, span: start.spec_cover(span_at(inp, st1)) }, st1)
}

/// The one expression of a token stream, if it holds any.
pub open spec fn p_expr_entry(inp: Input, st: PS) -> (Option<ExprM>, PS) {
    let st1 = skip(inp, st);
    let (r, st2) = if cur(inp, st1) == TokenKind::Eof {
        (None, st1)
    } else {
        let (e, s) = p_expression(inp, st1);
        (Some(e), s)
    };
    if cur(inp, st2) != TokenKind::Eof {
        (r, report(st2, DiagnosticKind::UnexpectedToken, span_at(inp, st2), "unexpected token after expression"@))
    } else {
        (r, st2)
    }
}

} // verus!

verus! {

// ---------------------------------------------------------------------------
// How binary operators group
// ---------------------------------------------------------------------------

/// The operator a token stands for between two operands, and how tightly it
/// binds: `**` tightest, then `* / %`, `+ -`, `<< >>`, the comparisons,
/// `== !=`, `&`, `^`, `|`, `&&`, and `||` loosest.
pub open spec fn operator_meaning(k: TokenKind) -> Option<(BinaryOp, nat)> {
    match k {
        TokenKind::Power => Some((BinaryOp::Power, 11)),
        TokenKind::Star => Some((BinaryOp::Multiply, 10)),
        TokenKind::Slash => Some((BinaryOp::Divide, 10)),
        TokenKind::Percent => Some((BinaryOp::Modulo, 10)),
        TokenKind::Plus => Some((BinaryOp::Add, 9)),
        TokenKind::Minus => Some((BinaryOp::Subtract, 9)),
        TokenKind::ShiftLeft => Some((BinaryOp::ShiftLeft, 8)),
        TokenKind::ShiftRight => Some((BinaryOp::ShiftRight, 8)),
        TokenKind::Less => Some((BinaryOp::Less, 7)),
        TokenKind::LessEqual => Some((BinaryOp::LessEqual, 7)),
        TokenKind::Greater => Some((BinaryOp::Greater, 7)),
        TokenKind::GreaterEqual => Some((BinaryOp::GreaterEqual, 7)),
        TokenKind::EqualEqual => Some((BinaryOp::Equal, 6)),
        TokenKind::BangEqual => Some((BinaryOp::NotEqual, 6)),
        TokenKind::Ampersand => Some((BinaryOp::BitAnd, 5)),
        TokenKind::Caret => Some((BinaryOp::BitXor, 4)),
        TokenKind::Pipe => Some((BinaryOp::BitOr, 3)),
        TokenKind::AmpersandAmpersand => Some((BinaryOp::LogicalAnd, 2)),
        TokenKind::PipePipe => Some((BinaryOp::LogicalOr, 1)),
        _ => None,
    }
}

/// Tokens after which no operator continues an expression.
pub open spec fn closes_operands(k: TokenKind) -> bool {
    k == TokenKind::StatementEnd || k == TokenKind::Eof || k == TokenKind::RightParen || k
        == TokenKind::RightBrace || k == TokenKind::RightBracket || k == TokenKind::Comma
}

proof fn lemma_operator_table(k: TokenKind)
    requires
        operator_meaning(k) is Some,
    ensures
        binary_op_of(k) is Some,
        binary_op_of(k).unwrap().0 == operator_meaning(k).unwrap().0,
        binary_op_of(k).unwrap().1 == operator_meaning(k).unwrap().1 + 1,
        binary_op_of(k).unwrap().2 == (k == TokenKind::Power),
{
}

/// Grouping of `a op1 b op2 c`, where `a`, `b` and `c` are the operands
/// read at each place and nothing binary follows `c`: the operator that
/// binds tighter takes its operands first, and between operators that bind
/// equally the left one does (`a - b - c` is `(a - b) - c`), except for
/// `**`, which groups to the right (`a ** b ** c` is `a ** (b ** c)`).
pub proof fn lemma_binary_grouping(
    inp: Input,
    st: PS,
    aj: bool,
    a: ExprM,
    b: ExprM,
    c: ExprM,
    s1: PS,
    s3: PS,
    s5: PS,
)
    requires
        operator_meaning(cur(inp, s1)) is Some,
        operator_meaning(cur(inp, s3)) is Some,
        p_prefix(inp, st, aj) == (a, s1),
        adv(inp, st, s1),
        p_prefix(inp, bump(inp, s1), aj) == (b, s3),
        adv(inp, bump(inp, s1), s3),
        p_prefix(inp, bump(inp, s3), aj) == (c, s5),
        adv(inp, bump(inp, s3), s5),
        closes_operands(cur(inp, s5)),
    ensures
        ({
            let k1 = cur(inp, s1);
            let k2 = cur(inp, s3);
            let (op1, l1) = operator_meaning(k1).unwrap();
            let (op2, l2) = operator_meaning(k2).unwrap();
            let right = ExprM {
                kind: ExprKindM::Binary(
                    op1,
                    Box::new(a),
                    Box::new(
                        ExprM {
                            kind: ExprKindM::Binary(op2, Box::new(b), Box::new(c)),
                            span: b.span.spec_cover(c.span),
                        },
                    ),
                ),
                span: a.span.spec_cover(b.span.spec_cover(c.span)),
            };
            let left = ExprM {
                kind: ExprKindM::Binary(
                    op2,
                    Box::new(
                        ExprM {
                            kind: ExprKindM::Binary(op1, Box::new(a), Box::new(b)),
                            span: a.span.spec_cover(b.span),
                        },
                    ),
                    Box::new(c),
                ),
                span: a.span.spec_cover(b.span).spec_cover(c.span),
            };
            p_binary(inp, st, aj, 0) == (
                if l1 < l2 || (k1 == TokenKind::Power && k2 == TokenKind::Power) {
                    right
                } else {
                    left
                },
                s5,
            )
        }),
{
    reveal(bin_loop);
    let k1 = cur(inp, s1);
    let k2 = cur(inp, s3);
    lemma_operator_table(k1);
    lemma_operator_table(k2);
    let (op1, p1, ra1) = binary_op_of(k1).unwrap();
    let (op2, p2, ra2) = binary_op_of(k2).unwrap();
    let s2 = bump(inp, s1);
    let s4 = bump(inp, s3);
    assert(s2.i == s1.i + 1);
    assert(s4.i == s3.i + 1);
    assert(binary_op_of(cur(inp, s5)) is None);
    let nm1: u8 = if ra1 {
        p1
    } else {
        (p1 + 1) as u8
    };
    let nm2: u8 = if ra2 {
        p2
    } else {
        (p2 + 1) as u8
    };
    // The last operand stands alone.
    assert(bin_loop(inp, c, s5, aj, nm2) == (c, s5));
    assert(p_binary(inp, s4, aj, nm2) == (c, s5));
    let e1 = ExprM {
        kind: ExprKindM::Binary(op1, Box::new(a), Box::new(b)),
        span: a.span.spec_cover(b.span),
    };
    let e2 = ExprM {
        kind: ExprKindM::Binary(op2, Box::new(b), Box::new(c)),
        span: b.span.spec_cover(c.span),
    };
    assert(p_binary(inp, st, aj, 0) == bin_loop(inp, a, s1, aj, 0));
    if p2 >= nm1 {
        assert(bin_loop(inp, e2, s5, aj, nm1) == (e2, s5));
        assert(bin_loop(inp, b, s3, aj, nm1) == (e2, s5));
        assert(p_binary(inp, s2, aj, nm1) == (e2, s5));
        let e3 = ExprM {
            kind: ExprKindM::Binary(op1, Box::new(a), Box::new(e2)),
            span: a.span.spec_cover(e2.span),
        };
        assert(bin_loop(inp, e3, s5, aj, 0) == (e3, s5));
        assert(bin_loop(inp, a, s1, aj, 0) == (e3, s5));
    } else {
        assert(bin_loop(inp, b, s3, aj, nm1) == (b, s3));
        assert(p_binary(inp, s2, aj, nm1) == (b, s3));
        let e3 = ExprM {
            kind: ExprKindM::Binary(op2, Box::new(e1), Box::new(c)),
            span: e1.span.spec_cover(c.span),
        };
        assert(bin_loop(inp, e3, s5, aj, 0) == (e3, s5));
        assert(bin_loop(inp, e1, s3, aj, 0) == (e3, s5));
        assert(bin_loop(inp, a, s1, aj, 0) == (e3, s5));
    }
}

} // verus!
