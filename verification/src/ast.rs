//! The syntax tree produced by the parser.
use vstd::prelude::*;

use crate::grammar::{
    block_m, expr_m, exprs_m, fields_m, file_m, fn_body_m, lambda_body_m, lemma_exprs_m_push,
    lemma_fields_m_push, lemma_stmts_m_push, names_m, param_m, params_m, stmt_m, stmts_m,
};
use crate::source::Span;

verus! {

#[derive(Debug, PartialEq)]
pub struct File {
    pub statements: Vec<Stmt>,
    pub span: Span,
}

#[derive(Debug, PartialEq)]
pub struct Stmt {
    pub kind: StmtKind,
    pub span: Span,
}

#[derive(Debug, PartialEq)]
pub enum StmtKind {
    Let { name: String, value: Expr },
    Assign { target: Expr, value: Expr },
    FnDecl { name: String, params: Vec<Param>, body: FnBody },
    Return { value: Option<Expr> },
    Expr(Expr),
}

#[derive(Debug, PartialEq)]
pub struct Block {
    pub statements: Vec<Stmt>,
    pub span: Span,
}

#[derive(Debug, PartialEq)]
pub enum FnBody {
    Block(Block),
    Expr(Box<Expr>),
}

#[derive(Debug, PartialEq)]
pub enum LambdaBody {
    Block(Block),
    Expr(Box<Expr>),
}

#[derive(Debug, PartialEq)]
pub struct Param {
    pub name: String,
    pub span: Span,
}

#[derive(Debug, PartialEq)]
pub struct ObjectField {
    pub name: String,
    pub value: Expr,
    pub span: Span,
}

#[derive(Debug, PartialEq)]
pub struct Expr {
    pub kind: ExprKind,
    pub span: Span,
}

/// Expression forms.  A float literal keeps its source text; turning it
/// into a number is left to the evaluator.
#[derive(Debug, PartialEq)]
pub enum ExprKind {
    Bareword(String),
    Variable(String),
    EnvVar(String),
    Integer(i64),
    Float(String),
    String(String),
    Bool(bool),
    List(Vec<Expr>),
    Object(Vec<ObjectField>),
    Call { callee: Box<Expr>, args: Vec<Expr> },
    Pipeline { left: Box<Expr>, right: Box<Expr> },
    Lambda { params: Vec<Param>, body: LambdaBody },
    Unary { op: UnaryOp, expr: Box<Expr> },
    Binary { op: BinaryOp, left: Box<Expr>, right: Box<Expr> },
    Member { object: Box<Expr>, fields: Vec<String> },
    Grouped(Box<Expr>),
    Error,
}

#[derive(Debug, Clone, Copy, PartialEq, Eq, Structural)]
pub enum UnaryOp {
    Negate,
    Not,
    BitNot,
}

#[derive(Debug, Clone, Copy, PartialEq, Eq, Structural)]
pub enum BinaryOp {
    Multiply,
    Divide,
    Modulo,
    Power,
    Add,
    Subtract,
    ShiftLeft,
    ShiftRight,
    Less,
    LessEqual,
    Greater,
    GreaterEqual,
    Equal,
    NotEqual,
    BitAnd,
    BitXor,
    BitOr,
    LogicalAnd,
    LogicalOr,
}

} // verus!

verus! {

// ---------------------------------------------------------------------------
// Copies of syntax trees: a copy has the same model as the original
// ---------------------------------------------------------------------------

fn clone_strings(v: &Vec<String>) -> (r: Vec<String>)
    ensures
        names_m(r@) == names_m(v@),
{
    let mut r: Vec<String> = Vec::new();
    let mut i: usize = 0;
    while i < v.len()
        invariant
            i <= v@.len(),
            r@.len() == i,
            forall|k: int| 0 <= k < i ==> (#[trigger] r@[k])@ == v@[k]@,
        decreases v@.len() - i,
    {
        r.push(v[i].clone());
        i = i + 1;
    }
    assert(names_m(r@) =~= names_m(v@));
    r
}

fn clone_param(p: &Param) -> (r: Param)
    ensures
        param_m(r) == param_m(*p),
{
    Param { name: p.name.clone(), span: p.span }
}

fn clone_params(v: &Vec<Param>) -> (r: Vec<Param>)
    ensures
        params_m(r@) == params_m(v@),
{
    let mut r: Vec<Param> = Vec::new();
    let mut i: usize = 0;
    while i < v.len()
        invariant
            i <= v@.len(),
            r@.len() == i,
            forall|k: int| 0 <= k < i ==> param_m(#[trigger] r@[k]) == param_m(v@[k]),
        decreases v@.len() - i,
    {
        r.push(clone_param(&v[i]));
        i = i + 1;
    }
    assert(params_m(r@) =~= params_m(v@));
    r
}

fn clone_expr(e: &Expr) -> (r: Expr)
    ensures
        expr_m(r) == expr_m(*e),
    decreases e, 0nat,
{
    let kind = clone_expr_kind(&e.kind);
    Expr { kind, span: e.span }
}

fn clone_boxed(e: &Box<Expr>) -> (r: Box<Expr>)
    ensures
        expr_m(*r) == expr_m(**e),
    decreases e, 1nat,
{
    Box::new(clone_expr(e))
}

/// A copy of an expression form: with any span, both give the same model.
fn clone_expr_kind(k: &ExprKind) -> (r: ExprKind)
    ensures
        forall|sp: Span| #[trigger] expr_m(Expr { kind: r, span: sp }) == expr_m(Expr { kind: *k, span: sp }),
    decreases k, 0nat,
{
    match k {
        ExprKind::Bareword(t) => ExprKind::Bareword(t.clone()),
        ExprKind::Variable(t) => ExprKind::Variable(t.clone()),
        ExprKind::EnvVar(t) => ExprKind::EnvVar(t.clone()),
        ExprKind::Integer(v) => ExprKind::Integer(*v),
        ExprKind::Float(t) => ExprKind::Float(t.clone()),
        ExprKind::String(t) => ExprKind::String(t.clone()),
        ExprKind::Bool(b) => ExprKind::Bool(*b),
        ExprKind::List(items) => ExprKind::List(clone_exprs(items)),
        ExprKind::Object(fields) => ExprKind::Object(clone_fields(fields)),
        ExprKind::Call { callee, args } => ExprKind::Call {
            callee: clone_boxed(callee),
            args: clone_exprs(args),
        },
        ExprKind::Pipeline { left, right } => ExprKind::Pipeline {
            left: clone_boxed(left),
            right: clone_boxed(right),
        },
        ExprKind::Lambda { params, body } => ExprKind::Lambda {
            params: clone_params(params),
            body: clone_lambda_body(body),
        },
        ExprKind::Unary { op, expr } => ExprKind::Unary { op: *op, expr: clone_boxed(expr) },
        ExprKind::Binary { op, left, right } => ExprKind::Binary {
            op: *op,
            left: clone_boxed(left),
            right: clone_boxed(right),
        },
        ExprKind::Member { object, fields } => ExprKind::Member {
            object: clone_boxed(object),
            fields: clone_strings(fields),
        },
        ExprKind::Grouped(inner) => ExprKind::Grouped(clone_boxed(inner)),
        ExprKind::Error => ExprKind::Error,
    }
}

fn clone_exprs(v: &Vec<Expr>) -> (r: Vec<Expr>)
    ensures
        exprs_m(r@) == exprs_m(v@),
    decreases v@, 1nat,
{
    let mut r: Vec<Expr> = Vec::new();
    let mut i: usize = 0;
    while i < v.len()
        invariant
            i <= v@.len(),
            exprs_m(r@) == exprs_m(v@.take(i as int)),
        decreases v@.len() - i,
    {
        let c = clone_expr(&v[i]);
        proof {
            lemma_exprs_m_push(r@, c);
            lemma_exprs_m_push(v@.take(i as int), v@[i as int]);
            assert(v@.take(i + 1) =~= v@.take(i as int).push(v@[i as int]));
        }
        r.push(c);
        i = i + 1;
    }
    assert(v@.take(v@.len() as int) =~= v@);
    r
}

fn clone_fields(v: &Vec<ObjectField>) -> (r: Vec<ObjectField>)
    ensures
        fields_m(r@) == fields_m(v@),
    decreases v@, 1nat,
{
    let mut r: Vec<ObjectField> = Vec::new();
    let mut i: usize = 0;
    while i < v.len()
        invariant
            i <= v@.len(),
            fields_m(r@) == fields_m(v@.take(i as int)),
        decreases v@.len() - i,
    {
        let f = &v[i];
        let c = ObjectField { name: f.name.clone(), value: clone_expr(&f.value), span: f.span };
        proof {
            lemma_fields_m_push(r@, c);
            lemma_fields_m_push(v@.take(i as int), v@[i as int]);
            assert(v@.take(i + 1) =~= v@.take(i as int).push(v@[i as int]));
        }
        r.push(c);
        i = i + 1;
    }
    assert(v@.take(v@.len() as int) =~= v@);
    r
}

fn clone_lambda_body(b: &LambdaBody) -> (r: LambdaBody)
    ensures
        lambda_body_m(r) == lambda_body_m(*b),
    decreases b, 0nat,
{
    match b {
        LambdaBody::Block(bl) => LambdaBody::Block(clone_block(bl)),
        LambdaBody::Expr(e) => LambdaBody::Expr(clone_boxed(e)),
    }
}

fn clone_fn_body(b: &FnBody) -> (r: FnBody)
    ensures
        fn_body_m(r) == fn_body_m(*b),
    decreases b, 0nat,
{
    match b {
        FnBody::Block(bl) => FnBody::Block(clone_block(bl)),
        FnBody::Expr(e) => FnBody::Expr(clone_boxed(e)),
    }
}

fn clone_block(b: &Block) -> (r: Block)
    ensures
        block_m(r) == block_m(*b),
    decreases b, 0nat,
{
    Block { statements: clone_stmts(&b.statements), span: b.span }
}

fn clone_stmts(v: &Vec<Stmt>) -> (r: Vec<Stmt>)
    ensures
        stmts_m(r@) == stmts_m(v@),
    decreases v@, 1nat,
{
    let mut r: Vec<Stmt> = Vec::new();
    let mut i: usize = 0;
    while i < v.len()
        invariant
            i <= v@.len(),
            stmts_m(r@) == stmts_m(v@.take(i as int)),
        decreases v@.len() - i,
    {
        let c = clone_stmt(&v[i]);
        proof {
            lemma_stmts_m_push(r@, c);
            lemma_stmts_m_push(v@.take(i as int), v@[i as int]);
            assert(v@.take(i + 1) =~= v@.take(i as int).push(v@[i as int]));
        }
        r.push(c);
        i = i + 1;
    }
    assert(v@.take(v@.len() as int) =~= v@);
    r
}

fn clone_stmt(s: &Stmt) -> (r: Stmt)
    ensures
        stmt_m(r) == stmt_m(*s),
    decreases s, 0nat,
{
    let kind = clone_stmt_kind(&s.kind);
    Stmt { kind, span: s.span }
}

/// A copy of a statement form: with any span, both give the same model.
fn clone_stmt_kind(k: &StmtKind) -> (r: StmtKind)
    ensures
        forall|sp: Span| #[trigger] stmt_m(Stmt { kind: r, span: sp }) == stmt_m(Stmt { kind: *k, span: sp }),
    decreases k, 0nat,
{
    match k {
        StmtKind::Let { name, value } => StmtKind::Let { name: name.clone(), value: clone_expr(value) },
        StmtKind::Assign { target, value } => StmtKind::Assign {
            target: clone_expr(target),
            value: clone_expr(value),
        },
        StmtKind::FnDecl { name, params, body } => StmtKind::FnDecl {
            name: name.clone(),
            params: clone_params(params),
            body: clone_fn_body(body),
        },
        StmtKind::Return { value } => StmtKind::Return {
            value: match value {
                Some(e) => Some(clone_expr(e)),
                None => None,
            },
        },
        StmtKind::Expr(e) => StmtKind::Expr(clone_expr(e)),
    }
}

impl Clone for Expr {
    fn clone(&self) -> (r: Self)
        ensures
            expr_m(r) == expr_m(*self),
    {
        clone_expr(self)
    }
}

impl Clone for ExprKind {
    fn clone(&self) -> (r: Self)
        ensures
            forall|sp: Span| #[trigger] expr_m(Expr { kind: r, span: sp }) == expr_m(Expr { kind: *self, span: sp }),
    {
        clone_expr_kind(self)
    }
}

impl Clone for ObjectField {
    fn clone(&self) -> (r: Self)
        ensures
            r.name@ == self.name@,
            expr_m(r.value) == expr_m(self.value),
            r.span == self.span,
    {
        ObjectField { name: self.name.clone(), value: clone_expr(&self.value), span: self.span }
    }
}

impl Clone for Param {
    fn clone(&self) -> (r: Self)
        ensures
            param_m(r) == param_m(*self),
    {
        clone_param(self)
    }
}

impl Clone for LambdaBody {
    fn clone(&self) -> (r: Self)
        ensures
            lambda_body_m(r) == lambda_body_m(*self),
    {
        clone_lambda_body(self)
    }
}

impl Clone for FnBody {
    fn clone(&self) -> (r: Self)
        ensures
            fn_body_m(r) == fn_body_m(*self),
    {
        clone_fn_body(self)
    }
}

impl Clone for Block {
    fn clone(&self) -> (r: Self)
        ensures
            block_m(r) == block_m(*self),
    {
        clone_block(self)
    }
}

impl Clone for Stmt {
    fn clone(&self) -> (r: Self)
        ensures
            stmt_m(r) == stmt_m(*self),
    {
        clone_stmt(self)
    }
}

impl Clone for StmtKind {
    fn clone(&self) -> (r: Self)
        ensures
            forall|sp: Span| #[trigger] stmt_m(Stmt { kind: r, span: sp }) == stmt_m(Stmt { kind: *self, span: sp }),
    {
        clone_stmt_kind(self)
    }
}

impl Clone for File {
    fn clone(&self) -> (r: Self)
        ensures
            file_m(r) == file_m(*self),
    {
        File { statements: clone_stmts(&self.statements), span: self.span }
    }
}

} // verus!
