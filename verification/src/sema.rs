//! Semantic checks over the syntax tree: bindings declared twice in one
//! scope, assignments to names never declared, and `return` outside a
//! function or block-bodied lambda.
use vstd::prelude::*;

use crate::ast::{Block, Expr, ExprKind, File, FnBody, LambdaBody, ObjectField, Param, Stmt, StmtKind};
use crate::diagnostic::{copy_diagnostics, diag, Diagnostic, DiagnosticKind, DiagnosticView};
use crate::lexer::diag_views;
use crate::source::Span;

verus! {

/// The analyzer's state: the names bound in each open scope (innermost
/// last), how many function or block-lambda bodies enclose the current
/// point, and the diagnostics so far.
pub struct AState {
    pub scopes: Seq<Set<Seq<char>>>,
    pub ret: nat,
    pub diags: Seq<DiagnosticView>,
}

pub open spec fn initial_state() -> AState {
    AState { scopes: seq![Set::empty()], ret: 0, diags: seq![] }
}

pub open spec fn push_diag(st: AState, kind: DiagnosticKind, span: Span, msg: Seq<char>) -> AState {
    AState { diags: st.diags.push(diag(kind, span, msg)), ..st }
}

/// Binds `name` in the innermost scope, or reports it when it is already
/// bound there.
pub open spec fn declare(st: AState, name: Seq<char>, span: Span, msg: Seq<char>) -> AState {
    let top = st.scopes.last();
    if top.contains(name) {
        push_diag(st, DiagnosticKind::DuplicateBinding, span, msg)
    } else {
        AState { scopes: st.scopes.update(st.scopes.len() - 1, top.insert(name)), ..st }
    }
}

pub open spec fn is_declared(st: AState, name: Seq<char>) -> bool {
    exists|i: int| 0 <= i < st.scopes.len() && (#[trigger] st.scopes[i]).contains(name)
}

pub open spec fn push_scope(st: AState) -> AState {
    AState { scopes: st.scopes.push(Set::empty()), ..st }
}

pub open spec fn pop_scope(st: AState) -> AState {
    AState { scopes: st.scopes.drop_last(), ..st }
}

pub open spec fn enter_ret(st: AState) -> AState {
    AState {
        ret: if st.ret < usize::MAX {
            st.ret + 1
        } else {
            st.ret
        },
        ..st
    }
}

/// Leaves a function or block-lambda body: the nesting count is back to
/// `ret`, what it was on entry.
pub open spec fn exit_ret(st: AState, ret: nat) -> AState {
    AState { ret, ..st }
}

pub open spec fn dup_binding_msg() -> Seq<char> {
    "duplicate binding in the same scope"@
}

pub open spec fn dup_param_msg() -> Seq<char> {
    "duplicate parameter in the same scope"@
}

pub open spec fn return_context_msg() -> Seq<char> {
    "`return` is only valid inside functions or block-bodied lambdas"@
}

/// The message for an assignment to a name that was never declared.
pub open spec fn undeclared_msg(name: Seq<char>) -> Seq<char> {
    "cannot assign to undeclared name `"@ + name + "`"@
}

pub open spec fn a_params(ps: Seq<Param>, i: nat, st: AState) -> AState
    decreases ps.len() - i,
{
    if i >= ps.len() {
        st
    } else {
        a_params(ps, i + 1, declare(st, ps[i as int].name@, ps[i as int].span, dup_param_msg()))
    }
}

pub open spec fn check_target(target: Expr, st: AState) -> AState {
    match target.kind {
        ExprKind::Variable(name) => if is_declared(st, name@) {
            st
        } else {
            push_diag(st, DiagnosticKind::AssignmentToUndeclaredName, target.span, undeclared_msg(name@))
        },
        _ => st,
    }
}

pub open spec fn a_stmt(s: Stmt, st: AState) -> AState
    decreases s, 0nat,
{
    match s.kind {
        StmtKind::Let { name, value } => declare(a_expr(value, st), name@, s.span, dup_binding_msg()),
        StmtKind::Assign { target, value } => check_target(target, a_expr(value, st)),
        StmtKind::FnDecl { name, params, body } => {
            let st1 = enter_ret(a_params(params@, 0, push_scope(declare(st, name@, s.span, dup_binding_msg()))));
            let st2 = match body {
                FnBody::Block(b) => a_block(b, st1),
                FnBody::Expr(e) => a_expr(*e, st1),
            };
            pop_scope(exit_ret(st2, st.ret))
        },
        StmtKind::Return { value } => {
            let st1 = if st.ret == 0 {
                push_diag(st, DiagnosticKind::InvalidReturnContext, s.span, return_context_msg())
            } else {
                st
            };
            match value {
                Some(e) => a_expr(e, st1),
                None => st1,
            }
        },
        StmtKind::Expr(e) => a_expr(e, st),
    }
}

pub open spec fn a_stmts(ss: Seq<Stmt>, i: nat, st: AState) -> AState
    decreases ss, ss.len() - i,
{
    if i >= ss.len() {
        st
    } else {
        a_stmts(ss, i + 1, a_stmt(ss[i as int], st))
    }
}

pub open spec fn a_block(b: Block, st: AState) -> AState
    decreases b, 0nat,
{
    pop_scope(a_stmts(b.statements@, 0, push_scope(st)))
}

pub open spec fn a_expr(e: Expr, st: AState) -> AState
    decreases e, 0nat,
{
    match e.kind {
        ExprKind::Grouped(inner) => a_expr(*inner, st),
        ExprKind::List(items) => a_exprs(items@, 0, st),
        ExprKind::Object(fields) => a_fields(fields@, 0, st),
        ExprKind::Call { callee, args } => a_exprs(args@, 0, a_expr(*callee, st)),
        ExprKind::Pipeline { left, right } => a_expr(*right, a_expr(*left, st)),
        ExprKind::Lambda { params, body } => {
            let st1 = a_params(params@, 0, push_scope(st));
            let st2 = match body {
                LambdaBody::Block(b) => exit_ret(a_block(b, enter_ret(st1)), st.ret),
                LambdaBody::Expr(inner) => a_expr(*inner, st1),
            };
            pop_scope(st2)
        },
        ExprKind::Unary { op: _, expr } => a_expr(*expr, st),
        ExprKind::Binary { op: _, left, right } => a_expr(*right, a_expr(*left, st)),
        ExprKind::Member { object, fields: _ } => a_expr(*object, st),
        _ => st,
    }
}

pub open spec fn a_exprs(es: Seq<Expr>, i: nat, st: AState) -> AState
    decreases es, es.len() - i,
{
    if i >= es.len() {
        st
    } else {
        a_exprs(es, i + 1, a_expr(es[i as int], st))
    }
}

pub open spec fn a_fields(fs: Seq<ObjectField>, i: nat, st: AState) -> AState
    decreases fs, fs.len() - i,
{
    if i >= fs.len() {
        st
    } else {
        a_fields(fs, i + 1, a_expr(fs[i as int].value, st))
    }
}

/// The diagnostics of the semantic checks over a file.
pub open spec fn spec_analyze(file: File) -> Seq<DiagnosticView> {
    a_stmts(file.statements@, 0, initial_state()).diags
}

// ---------------------------------------------------------------------------
// The executable analyzer
// ---------------------------------------------------------------------------

#[derive(Debug)]
pub struct SemanticResult<'a> {
    pub file: &'a File,
    pub diagnostics: Vec<Diagnostic>,
}

impl<'a> Clone for SemanticResult<'a> {
    fn clone(&self) -> (r: Self)
        ensures
            r.file == self.file,
            r.diagnostics@ == self.diagnostics@,
    {
        SemanticResult { file: self.file, diagnostics: copy_diagnostics(&self.diagnostics) }
    }
}

/// Runs the semantic checks over `file`.
pub fn analyze_file(file: &File) -> (r: SemanticResult<'_>)
    ensures
        r.file == file,
        diag_views(r.diagnostics@) == spec_analyze(*file),
{
    let mut analyzer = Analyzer::new();
    analyzer.visit_file(file);
    SemanticResult { file, diagnostics: analyzer.diagnostics }
}

struct Analyzer {
    scopes: Vec<Vec<String>>,
    diagnostics: Vec<Diagnostic>,
    return_context: usize,
}

/// The names of one scope.
pub open spec fn scope_set(v: Vec<String>) -> Set<Seq<char>> {
    v@.map_values(|s: String| s@).to_set()
}

impl Analyzer {
    spec fn state(self) -> AState {
        AState {
            scopes: self.scopes@.map_values(|v: Vec<String>| scope_set(v)),
            ret: self.return_context as nat,
            diags: diag_views(self.diagnostics@),
        }
    }

    /// At least one scope is open and no scope names anything twice.
    spec fn wf(self) -> bool {
        &&& self.scopes@.len() > 0
        &&& forall|i: int|
            0 <= i < self.scopes@.len() ==> (#[trigger] self.scopes@[i])@.map_values(
                |s: String| s@,
            ).no_duplicates()
    }

    fn new() -> (r: Self)
        ensures
            r.wf(),
            r.state() == initial_state(),
    {
        let mut scopes: Vec<Vec<String>> = Vec::new();
        scopes.push(Vec::new());
        let r = Analyzer { scopes, diagnostics: Vec::new(), return_context: 0 };
        assert(r.state().scopes =~= seq![Set::<Seq<char>>::empty()]) by {
            assert(scope_set(r.scopes@[0]) =~= Set::<Seq<char>>::empty());
        }
        assert(r.state().diags =~= Seq::<DiagnosticView>::empty());
        assert(r.scopes@[0]@.map_values(|s: String| s@) =~= Seq::<Seq<char>>::empty());
        r
    }

    fn visit_file(&mut self, file: &File)
        requires
            old(self).wf(),
        ensures
            final(self).wf(),
            final(self).state() == a_stmts(file.statements@, 0, old(self).state()),
    {
        let mut i: usize = 0;
        while i < file.statements.len()
            invariant
                self.wf(),
                i <= file.statements@.len(),
                a_stmts(file.statements@, i as nat, self.state()) == a_stmts(
                    file.statements@,
                    0,
                    old(self).state(),
                ),
            decreases file.statements@.len() - i,
        {
            self.visit_stmt(&file.statements[i]);
            i = i + 1;
        }
    }

    fn push_diagnostic(&mut self, kind: DiagnosticKind, span: Span, message: String)
        requires
            old(self).wf(),
        ensures
            final(self).wf(),
            final(self).state() == push_diag(old(self).state(), kind, span, message@),
            final(self).scopes@.len() == old(self).scopes@.len(),
    {
        self.diagnostics.push(Diagnostic::with_message(kind, span, message));
        assert(self.state().diags =~= old(self).state().diags.push(diag(kind, span, message@)));
        assert(self.state().scopes =~= old(self).state().scopes);
    }

    fn visit_stmt(&mut self, stmt: &Stmt)
        requires
            old(self).wf(),
        ensures
            final(self).wf(),
            final(self).state() == a_stmt(*stmt, old(self).state()),
            final(self).scopes@.len() == old(self).scopes@.len(),
        decreases stmt, 0nat,
    {
        match &stmt.kind {
            StmtKind::Let { name, value } => {
                self.visit_expr(value);
                self.declare(name, stmt.span, "duplicate binding in the same scope");
            },
            StmtKind::Assign { target, value } => {
                self.visit_expr(value);
                self.check_assignment_target(target);
            },
            StmtKind::FnDecl { name, params, body } => {
                self.declare(name, stmt.span, "duplicate binding in the same scope");
                self.push_scope();
                self.declare_params(params);
                let outer = self.enter_return_context();
                match body {
                    FnBody::Block(block) => self.visit_block(block),
                    FnBody::Expr(expr) => self.visit_expr(expr),
                }
                self.exit_return_context(outer);
                self.pop_scope();
            },
            StmtKind::Return { value } => {
                if self.return_context == 0 {
                    self.push_diagnostic(
                        DiagnosticKind::InvalidReturnContext,
                        stmt.span,
                        String::from_str("`return` is only valid inside functions or block-bodied lambdas"),
                    );
                }
                match value {
                    Some(expr) => self.visit_expr(expr),
                    None => {},
                }
            },
            StmtKind::Expr(expr) => self.visit_expr(expr),
        }
        proof {
            lemma_stmt_balanced(*stmt, old(self).state());
        }
    }

    fn visit_block(&mut self, block: &Block)
        requires
            old(self).wf(),
        ensures
            final(self).wf(),
            final(self).state() == a_block(*block, old(self).state()),
            final(self).scopes@.len() == old(self).scopes@.len(),
        decreases block, 0nat,
    {
        self.push_scope();
        let ghost entry = self.state();
        let mut i: usize = 0;
        while i < block.statements.len()
            invariant
                self.wf(),
                self.scopes@.len() >= 2,
                i <= block.statements@.len(),
                entry == push_scope(old(self).state()),
                a_stmts(block.statements@, i as nat, self.state()) == a_stmts(
                    block.statements@,
                    0,
                    entry,
                ),
                self.state().scopes.len() == entry.scopes.len(),
            decreases block.statements@.len() - i,
        {
            self.visit_stmt(&block.statements[i]);
            proof {
                lemma_stmt_balanced(block.statements@[i as int], self.state());
            }
            i = i + 1;
        }
        self.pop_scope();
        proof {
            lemma_block_balanced(*block, old(self).state());
        }
    }

    fn visit_expr(&mut self, expr: &Expr)
        requires
            old(self).wf(),
        ensures
            final(self).wf(),
            final(self).state() == a_expr(*expr, old(self).state()),
            final(self).scopes@.len() == old(self).scopes@.len(),
        decreases expr, 0nat,
    {
        match &expr.kind {
            ExprKind::Grouped(inner) => self.visit_expr(inner),
            ExprKind::List(items) => self.visit_exprs(items),
            ExprKind::Object(fields) => self.visit_fields(fields),
            ExprKind::Call { callee, args } => {
                self.visit_expr(callee);
                self.visit_exprs(args);
            },
            ExprKind::Pipeline { left, right } => {
                self.visit_expr(left);
                self.visit_expr(right);
            },
            ExprKind::Lambda { params, body } => {
                self.push_scope();
                self.declare_params(params);
                match body {
                    LambdaBody::Block(block) => {
                        let outer = self.enter_return_context();
                        self.visit_block(block);
                        self.exit_return_context(outer);
                    },
                    LambdaBody::Expr(inner) => self.visit_expr(inner),
                }
                self.pop_scope();
            },
            ExprKind::Unary { op: _, expr: inner } => self.visit_expr(inner),
            ExprKind::Binary { op: _, left, right } => {
                self.visit_expr(left);
                self.visit_expr(right);
            },
            ExprKind::Member { object, fields: _ } => self.visit_expr(object),
            _ => {},
        }
        proof {
            lemma_expr_balanced(*expr, old(self).state());
        }
    }

    fn visit_exprs(&mut self, items: &Vec<Expr>)
        requires
            old(self).wf(),
        ensures
            final(self).wf(),
            final(self).state() == a_exprs(items@, 0, old(self).state()),
            final(self).scopes@.len() == old(self).scopes@.len(),
        decreases items@, 1nat,
    {
        let mut i: usize = 0;
        while i < items.len()
            invariant
                self.wf(),
                i <= items@.len(),
                a_exprs(items@, i as nat, self.state()) == a_exprs(items@, 0, old(self).state()),
            decreases items@.len() - i,
        {
            self.visit_expr(&items[i]);
            i = i + 1;
        }
        proof {
            lemma_exprs_balanced(items@, 0, old(self).state());
        }
    }

    fn visit_fields(&mut self, fields: &Vec<ObjectField>)
        requires
            old(self).wf(),
        ensures
            final(self).wf(),
            final(self).state() == a_fields(fields@, 0, old(self).state()),
            final(self).scopes@.len() == old(self).scopes@.len(),
        decreases fields@, 1nat,
    {
        let mut i: usize = 0;
        while i < fields.len()
            invariant
                self.wf(),
                i <= fields@.len(),
                a_fields(fields@, i as nat, self.state()) == a_fields(fields@, 0, old(self).state()),
            decreases fields@.len() - i,
        {
            self.visit_expr(&fields[i].value);
            i = i + 1;
        }
        proof {
            lemma_fields_balanced(fields@, 0, old(self).state());
        }
    }

    fn check_assignment_target(&mut self, target: &Expr)
        requires
            old(self).wf(),
        ensures
            final(self).wf(),
            final(self).state() == check_target(*target, old(self).state()),
            final(self).scopes@.len() == old(self).scopes@.len(),
    {
        match &target.kind {
            ExprKind::Variable(name) => {
                if !self.is_declared(name) {
                    let mut message = String::from_str("cannot assign to undeclared name `");
                    message.append(name.as_str());
                    message.append("`");
                    proof {
                        reveal_strlit("cannot assign to undeclared name `");
                        reveal_strlit("`");
                        assert(message@ =~= undeclared_msg(name@));
                    }
                    self.push_diagnostic(DiagnosticKind::AssignmentToUndeclaredName, target.span, message);
                }
            },
            _ => {},
        }
    }

    fn declare_params(&mut self, params: &Vec<Param>)
        requires
            old(self).wf(),
        ensures
            final(self).wf(),
            final(self).state() == a_params(params@, 0, old(self).state()),
            final(self).scopes@.len() == old(self).scopes@.len(),
            final(self).return_context == old(self).return_context,
    {
        let mut i: usize = 0;
        while i < params.len()
            invariant
                self.wf(),
                i <= params@.len(),
                a_params(params@, i as nat, self.state()) == a_params(params@, 0, old(self).state()),
            decreases params@.len() - i,
        {
            self.declare(&params[i].name, params[i].span, "duplicate parameter in the same scope");
            i = i + 1;
        }
        proof {
            lemma_params_balanced(params@, 0, old(self).state());
        }
    }

    fn declare(&mut self, name: &String, span: Span, message: &str)
        requires
            old(self).wf(),
        ensures
            final(self).wf(),
            final(self).state() == declare(old(self).state(), name@, span, message@),
            final(self).scopes@.len() == old(self).scopes@.len(),
            final(self).return_context == old(self).return_context,
    {
        let last = self.scopes.len() - 1;
        let mut found = false;
        let mut k: usize = 0;
        let ghost names = self.scopes@[last as int]@.map_values(|s: String| s@);
        while k < self.scopes[last].len()
            invariant
                last == self.scopes@.len() - 1,
                names == self.scopes@[last as int]@.map_values(|s: String| s@),
                k <= names.len(),
                found == (exists|j: int| 0 <= j < k && names[j] == name@),
            decreases names.len() - k,
        {
            assert(names[k as int] == self.scopes@[last as int]@[k as int]@);
            if self.scopes[last][k] == *name {
                found = true;
            }
            k = k + 1;
        }
        proof {
            assert(scope_set(self.scopes@[last as int]).contains(name@) == found) by {
                if found {
                    let j = choose|j: int| 0 <= j < k && names[j] == name@;
                    assert(names.contains(name@));
                } else {
                    if names.contains(name@) {
                        let j = choose|j: int| 0 <= j < names.len() && names[j] == name@;
                        assert(false);
                    }
                }
            }
        }
        if found {
            self.diagnostics.push(Diagnostic::new(DiagnosticKind::DuplicateBinding, span, message));
            assert(self.state().diags =~= old(self).state().diags.push(diag(DiagnosticKind::DuplicateBinding, span, message@)));
            assert(self.state().scopes =~= old(self).state().scopes);
        } else {
            let mut scope = self.scopes.pop().unwrap();
            let ghost before = scope@.map_values(|s: String| s@);
            scope.push(name.clone());
            proof {
                let after = scope@.map_values(|s: String| s@);
                assert(after =~= before.push(name@));
                assert forall|y: Seq<char>| after.to_set().contains(y) <==> before.to_set().insert(
                    name@,
                ).contains(y) by {
                    if after.contains(y) {
                        let t = choose|t: int| 0 <= t < after.len() && after[t] == y;
                        if t < before.len() {
                            assert(before[t] == y);
                        }
                    }
                    if before.contains(y) {
                        let t = choose|t: int| 0 <= t < before.len() && before[t] == y;
                        assert(after[t] == y);
                    }
                    if y == name@ {
                        assert(after[before.len() as int] == y);
                    }
                }
                assert(after.to_set() =~= before.to_set().insert(name@));
            }
            self.scopes.push(scope);
            assert(self.state().scopes =~= old(self).state().scopes.update(
                old(self).state().scopes.len() - 1,
                old(self).state().scopes.last().insert(name@),
            ));
        }
    }

    fn is_declared(&self, name: &String) -> (r: bool)
        requires
            self.wf(),
        ensures
            r == is_declared(self.state(), name@),
    {
        let mut i = self.scopes.len();
        while i > 0
            invariant
                i <= self.scopes@.len(),
                forall|j: int| i <= j < self.scopes@.len() ==> !scope_set(#[trigger] self.scopes@[j]).contains(name@),
            decreases i,
        {
            i = i - 1;
            let scope = &self.scopes[i];
            let mut k: usize = 0;
            while k < scope.len()
                invariant
                    i < self.scopes@.len(),
                    scope == self.scopes@[i as int],
                    k <= scope@.len(),
                    forall|j: int| 0 <= j < k ==> scope@[j]@ != name@,
                decreases scope@.len() - k,
            {
                if scope[k] == *name {
                    proof {
                        assert(scope@.map_values(|s: String| s@)[k as int] == name@);
                        assert(scope_set(*scope).contains(name@));
                        assert(self.state().scopes[i as int] == scope_set(self.scopes@[i as int]));
                    }
                    return true;
                }
                k = k + 1;
            }
            proof {
                let names = scope@.map_values(|s: String| s@);
                if names.contains(name@) {
                    let t = choose|t: int| 0 <= t < names.len() && #[trigger] names[t] == name@;
                    assert(scope@[t]@ == name@);
                }
                assert(!scope_set(*scope).contains(name@));
            }
        }
        proof {
            if is_declared(self.state(), name@) {
                let j = choose|j: int|
                    0 <= j < self.state().scopes.len() && (#[trigger] self.state().scopes[j]).contains(
                        name@,
                    );
                assert(self.state().scopes[j] == scope_set(self.scopes@[j]));
            }
        }
        false
    }

    fn push_scope(&mut self)
        requires
            old(self).wf(),
        ensures
            final(self).wf(),
            final(self).scopes@.len() == old(self).scopes@.len() + 1,
            final(self).state() == push_scope(old(self).state()),
            final(self).return_context == old(self).return_context,
    {
        self.scopes.push(Vec::new());
        assert(self.scopes@.last()@.map_values(|s: String| s@) =~= Seq::<Seq<char>>::empty());
        assert(scope_set(self.scopes@.last()) =~= Set::<Seq<char>>::empty());
        assert(self.state().scopes =~= old(self).state().scopes.push(Set::empty()));
    }

    fn pop_scope(&mut self)
        requires
            old(self).wf(),
            old(self).scopes@.len() >= 2,
        ensures
            final(self).wf(),
            final(self).state() == pop_scope(old(self).state()),
    {
        self.scopes.pop();
        assert(self.state().scopes =~= old(self).state().scopes.drop_last());
    }

    /// Enters a function or block-lambda body; returns the nesting count
    /// to restore on leaving it.
    fn enter_return_context(&mut self) -> (outer: usize)
        requires
            old(self).wf(),
        ensures
            final(self).wf(),
            final(self).scopes == old(self).scopes,
            final(self).state() == enter_ret(old(self).state()),
            outer == old(self).return_context,
    {
        let outer = self.return_context;
        self.return_context = self.return_context.saturating_add(1);
        outer
    }

    /// Leaves a function or block-lambda body, restoring the nesting count.
    fn exit_return_context(&mut self, outer: usize)
        requires
            old(self).wf(),
        ensures
            final(self).wf(),
            final(self).scopes == old(self).scopes,
            final(self).state() == exit_ret(old(self).state(), outer as nat),
    {
        self.return_context = outer;
    }
}

// ---------------------------------------------------------------------------
// Laws
// ---------------------------------------------------------------------------

/// `b` has as many open scopes as `a`, each binding at least the names it
/// bound in `a`, the same nesting count, and extends `a`'s diagnostics.
pub open spec fn balanced(a: AState, b: AState) -> bool {
    &&& b.scopes.len() == a.scopes.len()
    &&& forall|k: int| 0 <= k < a.scopes.len() ==> a.scopes[k].subset_of(#[trigger] b.scopes[k])
    &&& b.ret == a.ret
    &&& a.diags.len() <= b.diags.len()
    &&& forall|k: int| 0 <= k < a.diags.len() ==> #[trigger] b.diags[k] == a.diags[k]
}

proof fn lemma_declare_balanced(st: AState, name: Seq<char>, span: Span, msg: Seq<char>)
    requires
        st.scopes.len() > 0,
    ensures
        balanced(st, declare(st, name, span, msg)),
{
}

proof fn lemma_params_balanced(ps: Seq<Param>, i: nat, st: AState)
    requires
        st.scopes.len() > 0,
    ensures
        balanced(st, a_params(ps, i, st)),
    decreases ps.len() - i,
{
    if i < ps.len() {
        let st1 = declare(st, ps[i as int].name@, ps[i as int].span, dup_param_msg());
        lemma_declare_balanced(st, ps[i as int].name@, ps[i as int].span, dup_param_msg());
        lemma_params_balanced(ps, i + 1, st1);
    }
}

/// Every statement leaves as many scopes open as it found and only adds
/// diagnostics.
pub proof fn lemma_stmt_balanced(s: Stmt, st: AState)
    requires
        st.scopes.len() > 0,
    ensures
        balanced(st, a_stmt(s, st)),
    decreases s, 0nat,
{
    match s.kind {
        StmtKind::Let { name, value } => {
            lemma_expr_balanced(value, st);
            lemma_declare_balanced(a_expr(value, st), name@, s.span, dup_binding_msg());
        },
        StmtKind::Assign { target, value } => {
            lemma_expr_balanced(value, st);
        },
        StmtKind::FnDecl { name, params, body } => {
            let st0 = declare(st, name@, s.span, dup_binding_msg());
            lemma_declare_balanced(st, name@, s.span, dup_binding_msg());
            let stp = push_scope(st0);
            lemma_params_balanced(params@, 0, stp);
            let st1 = enter_ret(a_params(params@, 0, stp));
            match body {
                FnBody::Block(b) => lemma_block_balanced(b, st1),
                FnBody::Expr(e) => lemma_expr_balanced(*e, st1),
            }
        },
        StmtKind::Return { value } => {
            let st1 = if st.ret == 0 {
                push_diag(st, DiagnosticKind::InvalidReturnContext, s.span, return_context_msg())
            } else {
                st
            };
            match value {
                Some(e) => lemma_expr_balanced(e, st1),
                None => {},
            }
        },
        StmtKind::Expr(e) => lemma_expr_balanced(e, st),
    }
}

pub proof fn lemma_stmts_balanced(ss: Seq<Stmt>, i: nat, st: AState)
    requires
        st.scopes.len() > 0,
    ensures
        balanced(st, a_stmts(ss, i, st)),
    decreases ss, ss.len() - i,
{
    if i < ss.len() {
        lemma_stmt_balanced(ss[i as int], st);
        lemma_stmts_balanced(ss, i + 1, a_stmt(ss[i as int], st));
    }
}

pub proof fn lemma_block_balanced(b: Block, st: AState)
    requires
        st.scopes.len() > 0,
    ensures
        balanced(st, a_block(b, st)),
    decreases b, 0nat,
{
    lemma_stmts_balanced(b.statements@, 0, push_scope(st));
}

pub proof fn lemma_expr_balanced(e: Expr, st: AState)
    requires
        st.scopes.len() > 0,
    ensures
        balanced(st, a_expr(e, st)),
    decreases e, 0nat,
{
    match e.kind {
        ExprKind::Grouped(inner) => lemma_expr_balanced(*inner, st),
        ExprKind::List(items) => lemma_exprs_balanced(items@, 0, st),
        ExprKind::Object(fields) => lemma_fields_balanced(fields@, 0, st),
        ExprKind::Call { callee, args } => {
            lemma_expr_balanced(*callee, st);
            lemma_exprs_balanced(args@, 0, a_expr(*callee, st));
        },
        ExprKind::Pipeline { left, right } => {
            lemma_expr_balanced(*left, st);
            lemma_expr_balanced(*right, a_expr(*left, st));
        },
        ExprKind::Lambda { params, body } => {
            lemma_params_balanced(params@, 0, push_scope(st));
            let st1 = a_params(params@, 0, push_scope(st));
            match body {
                LambdaBody::Block(b) => lemma_block_balanced(b, enter_ret(st1)),
                LambdaBody::Expr(inner) => lemma_expr_balanced(*inner, st1),
            }
        },
        ExprKind::Unary { op: _, expr } => lemma_expr_balanced(*expr, st),
        ExprKind::Binary { op: _, left, right } => {
            lemma_expr_balanced(*left, st);
            lemma_expr_balanced(*right, a_expr(*left, st));
        },
        ExprKind::Member { object, fields: _ } => lemma_expr_balanced(*object, st),
        _ => {},
    }
}

pub proof fn lemma_exprs_balanced(es: Seq<Expr>, i: nat, st: AState)
    requires
        st.scopes.len() > 0,
    ensures
        balanced(st, a_exprs(es, i, st)),
    decreases es, es.len() - i,
{
    if i < es.len() {
        lemma_expr_balanced(es[i as int], st);
        lemma_exprs_balanced(es, i + 1, a_expr(es[i as int], st));
    }
}

pub proof fn lemma_fields_balanced(fs: Seq<ObjectField>, i: nat, st: AState)
    requires
        st.scopes.len() > 0,
    ensures
        balanced(st, a_fields(fs, i, st)),
    decreases fs, fs.len() - i,
{
    if i < fs.len() {
        lemma_expr_balanced(fs[i as int].value, st);
        lemma_fields_balanced(fs, i + 1, a_expr(fs[i as int].value, st));
    }
}

/// A `return` among a file's top-level statements is reported, with the
/// statement's span.
pub proof fn lemma_top_level_return_reported(file: File, i: int)
    requires
        0 <= i < file.statements@.len(),
        file.statements@[i].kind is Return,
    ensures
        spec_analyze(file).contains(
            diag(DiagnosticKind::InvalidReturnContext, file.statements@[i].span, return_context_msg()),
        ),
{
    lemma_stmts_report_return(file.statements@, 0, initial_state(), i);
}

proof fn lemma_stmts_report_return(ss: Seq<Stmt>, j: nat, st: AState, i: int)
    requires
        j <= i < ss.len(),
        ss[i].kind is Return,
        st.ret == 0,
        st.scopes.len() > 0,
    ensures
        a_stmts(ss, j, st).diags.contains(
            diag(DiagnosticKind::InvalidReturnContext, ss[i].span, return_context_msg()),
        ),
    decreases i - j,
{
    let d = diag(DiagnosticKind::InvalidReturnContext, ss[i].span, return_context_msg());
    if j < i {
        lemma_stmt_balanced(ss[j as int], st);
        lemma_stmts_report_return(ss, j + 1, a_stmt(ss[j as int], st), i);
    } else {
        let k = st.diags.len() as int;
        let st0 = push_diag(st, DiagnosticKind::InvalidReturnContext, ss[i].span, return_context_msg());
        assert(st0.diags[k] == d);
        match ss[i].kind {
            StmtKind::Return { value } => match value {
                Some(e) => lemma_expr_balanced(e, st0),
                None => {},
            },
            _ => {},
        }
        let st1 = a_stmt(ss[i], st);
        assert(st1.diags[k] == d);
        lemma_stmt_balanced(ss[i], st);
        lemma_stmts_balanced(ss, j + 1, st1);
        assert(a_stmts(ss, j + 1, st1).diags[k] == d);
    }
}

/// The name a `let` statement binds.
pub open spec fn let_name(s: Stmt) -> Seq<char> {
    match s.kind {
        StmtKind::Let { name, value: _ } => name@,
        _ => seq![],
    }
}

/// A top-level `let` of a name that an earlier top-level `let` already
/// bound is reported as a duplicate binding, with the later statement's
/// span.
pub proof fn lemma_top_level_duplicate_let_reported(file: File, i: int, j: int)
    requires
        0 <= i < j < file.statements@.len(),
        file.statements@[i].kind is Let,
        file.statements@[j].kind is Let,
        let_name(file.statements@[i]) == let_name(file.statements@[j]),
    ensures
        spec_analyze(file).contains(
            diag(DiagnosticKind::DuplicateBinding, file.statements@[j].span, dup_binding_msg()),
        ),
{
    lemma_stmts_report_duplicate(file.statements@, 0, initial_state(), i, j);
}

proof fn lemma_stmts_report_duplicate(ss: Seq<Stmt>, k: nat, st: AState, i: int, j: int)
    requires
        0 <= i < j < ss.len(),
        k <= j,
        ss[i].kind is Let,
        ss[j].kind is Let,
        let_name(ss[i]) == let_name(ss[j]),
        st.scopes.len() == 1,
        k > i ==> st.scopes[0].contains(let_name(ss[i])),
    ensures
        a_stmts(ss, k, st).diags.contains(
            diag(DiagnosticKind::DuplicateBinding, ss[j].span, dup_binding_msg()),
        ),
    decreases j - k,
{
    let n = let_name(ss[i]);
    let d = diag(DiagnosticKind::DuplicateBinding, ss[j].span, dup_binding_msg());
    let st1 = a_stmt(ss[k as int], st);
    lemma_stmt_balanced(ss[k as int], st);
    if k < j {
        if k == i {
            match ss[i].kind {
                StmtKind::Let { name, value } => {
                    lemma_expr_balanced(value, st);
                    let se = a_expr(value, st);
                    assert(se.scopes.len() == 1);
                    assert(st1 == declare(se, name@, ss[i].span, dup_binding_msg()));
                    if !se.scopes.last().contains(n) {
                        assert(st1.scopes[0] == se.scopes[0].insert(n));
                    }
                    assert(st1.scopes[0].contains(n));
                },
                _ => {},
            }
        } else if k > i {
            assert(st.scopes[0].subset_of(st1.scopes[0]));
        }
        lemma_stmts_report_duplicate(ss, k + 1, st1, i, j);
    } else {
        match ss[j].kind {
            StmtKind::Let { name, value } => {
                lemma_expr_balanced(value, st);
                let se = a_expr(value, st);
                assert(st.scopes[0].subset_of(se.scopes[0]));
                assert(se.scopes.last().contains(n));
                assert(st1 == declare(se, name@, ss[j].span, dup_binding_msg()));
                assert(st1.diags[se.diags.len() as int] == d);
                lemma_stmts_balanced(ss, k + 1, st1);
                assert(a_stmts(ss, k + 1, st1).diags[se.diags.len() as int] == d);
            },
            _ => {},
        }
    }
}

// ---------------------------------------------------------------------------
// How the analysis moves the scopes
// ---------------------------------------------------------------------------

/// The names a statement binds in the scope it stands in.
pub open spec fn stmt_binds(s: Stmt) -> Set<Seq<char>> {
    match s.kind {
        StmtKind::Let { name, value: _ } => set![name@],
        StmtKind::FnDecl { name, params: _, body: _ } => set![name@],
        _ => Set::empty(),
    }
}

/// `b` has as many scopes as `a` and the same ones below the innermost.
pub open spec fn same_below(a: AState, b: AState) -> bool {
    &&& b.scopes.len() == a.scopes.len()
    &&& forall|k: int| 0 <= k < a.scopes.len() - 1 ==> #[trigger] b.scopes[k] == a.scopes[k]
}

proof fn lemma_params_frame(ps: Seq<Param>, i: nat, st: AState)
    requires
        st.scopes.len() > 0,
    ensures
        same_below(st, a_params(ps, i, st)),
    decreases ps.len() - i,
{
    if i < ps.len() {
        let st1 = declare(st, ps[i as int].name@, ps[i as int].span, dup_param_msg());
        lemma_params_frame(ps, i + 1, st1);
    }
}

proof fn lemma_declare_scopes(st: AState, name: Seq<char>, span: Span, msg: Seq<char>)
    requires
        st.scopes.len() > 0,
    ensures
        declare(st, name, span, msg).scopes == st.scopes.update(
            st.scopes.len() - 1,
            st.scopes.last().union(set![name]),
        ),
{
    let top = st.scopes.last();
    if top.contains(name) {
        assert(top.union(set![name]) =~= top);
        assert(st.scopes.update(st.scopes.len() - 1, top) =~= st.scopes);
    } else {
        assert(top.insert(name) =~= top.union(set![name]));
    }
}

/// A statement adds the names it binds to the innermost scope and leaves
/// every other scope as it was.
proof fn lemma_stmt_frame(s: Stmt, st: AState)
    requires
        st.scopes.len() > 0,
    ensures
        a_stmt(s, st).scopes == st.scopes.update(
            st.scopes.len() - 1,
            st.scopes.last().union(stmt_binds(s)),
        ),
    decreases s, 0nat,
{
    let top = st.scopes.last();
    match s.kind {
        StmtKind::Let { name, value } => {
            lemma_expr_frame(value, st);
            lemma_declare_scopes(a_expr(value, st), name@, s.span, dup_binding_msg());
        },
        StmtKind::Assign { target, value } => {
            lemma_expr_frame(value, st);
            assert(top.union(Set::empty()) =~= top);
            assert(st.scopes.update(st.scopes.len() - 1, top) =~= st.scopes);
        },
        StmtKind::FnDecl { name, params, body } => {
            let st0 = declare(st, name@, s.span, dup_binding_msg());
            lemma_declare_scopes(st, name@, s.span, dup_binding_msg());
            let stp = push_scope(st0);
            lemma_params_frame(params@, 0, stp);
            let st1 = enter_ret(a_params(params@, 0, stp));
            let st2 = match body {
                FnBody::Block(b) => a_block(b, st1),
                FnBody::Expr(e) => a_expr(*e, st1),
            };
            match body {
                FnBody::Block(b) => lemma_block_frame(b, st1),
                FnBody::Expr(e) => lemma_expr_frame(*e, st1),
            }
            assert(st2.scopes == st1.scopes);
            assert(pop_scope(exit_ret(st2, st.ret)).scopes =~= st0.scopes);
        },
        StmtKind::Return { value } => {
            let st1 = if st.ret == 0 {
                push_diag(st, DiagnosticKind::InvalidReturnContext, s.span, return_context_msg())
            } else {
                st
            };
            match value {
                Some(e) => lemma_expr_frame(e, st1),
                None => {},
            }
            assert(top.union(Set::empty()) =~= top);
            assert(st.scopes.update(st.scopes.len() - 1, top) =~= st.scopes);
        },
        StmtKind::Expr(e) => {
            lemma_expr_frame(e, st);
            assert(top.union(Set::empty()) =~= top);
            assert(st.scopes.update(st.scopes.len() - 1, top) =~= st.scopes);
        },
    }
}

proof fn lemma_stmts_frame(ss: Seq<Stmt>, i: nat, st: AState)
    requires
        st.scopes.len() > 0,
    ensures
        same_below(st, a_stmts(ss, i, st)),
    decreases ss, ss.len() - i,
{
    if i < ss.len() {
        lemma_stmt_frame(ss[i as int], st);
        lemma_stmts_frame(ss, i + 1, a_stmt(ss[i as int], st));
    }
}

/// A block leaves the scopes exactly as it found them.
proof fn lemma_block_frame(b: Block, st: AState)
    requires
        st.scopes.len() > 0,
    ensures
        a_block(b, st).scopes == st.scopes,
    decreases b, 0nat,
{
    lemma_stmts_frame(b.statements@, 0, push_scope(st));
    assert(a_block(b, st).scopes =~= st.scopes);
}

/// An expression leaves the scopes exactly as it found them.
proof fn lemma_expr_frame(e: Expr, st: AState)
    requires
        st.scopes.len() > 0,
    ensures
        a_expr(e, st).scopes == st.scopes,
    decreases e, 0nat,
{
    match e.kind {
        ExprKind::Grouped(inner) => lemma_expr_frame(*inner, st),
        ExprKind::List(items) => lemma_exprs_frame(items@, 0, st),
        ExprKind::Object(fields) => lemma_fields_frame(fields@, 0, st),
        ExprKind::Call { callee, args } => {
            lemma_expr_frame(*callee, st);
            lemma_exprs_frame(args@, 0, a_expr(*callee, st));
        },
        ExprKind::Pipeline { left, right } => {
            lemma_expr_frame(*left, st);
            lemma_expr_frame(*right, a_expr(*left, st));
        },
        ExprKind::Lambda { params, body } => {
            lemma_params_frame(params@, 0, push_scope(st));
            let st1 = a_params(params@, 0, push_scope(st));
            let st2 = match body {
                LambdaBody::Block(b) => exit_ret(a_block(b, enter_ret(st1)), st.ret),
                LambdaBody::Expr(inner) => a_expr(*inner, st1),
            };
            match body {
                LambdaBody::Block(b) => lemma_block_frame(b, enter_ret(st1)),
                LambdaBody::Expr(inner) => lemma_expr_frame(*inner, st1),
            }
            assert(st2.scopes == st1.scopes);
            assert(pop_scope(st2).scopes =~= st.scopes);
        },
        ExprKind::Unary { op: _, expr } => lemma_expr_frame(*expr, st),
        ExprKind::Binary { op: _, left, right } => {
            lemma_expr_frame(*left, st);
            lemma_expr_frame(*right, a_expr(*left, st));
        },
        ExprKind::Member { object, fields: _ } => lemma_expr_frame(*object, st),
        _ => {},
    }
}

proof fn lemma_exprs_frame(es: Seq<Expr>, i: nat, st: AState)
    requires
        st.scopes.len() > 0,
    ensures
        a_exprs(es, i, st).scopes == st.scopes,
    decreases es, es.len() - i,
{
    if i < es.len() {
        lemma_expr_frame(es[i as int], st);
        lemma_exprs_frame(es, i + 1, a_expr(es[i as int], st));
    }
}

proof fn lemma_fields_frame(fs: Seq<ObjectField>, i: nat, st: AState)
    requires
        st.scopes.len() > 0,
    ensures
        a_fields(fs, i, st).scopes == st.scopes,
    decreases fs, fs.len() - i,
{
    if i < fs.len() {
        lemma_expr_frame(fs[i as int].value, st);
        lemma_fields_frame(fs, i + 1, a_expr(fs[i as int].value, st));
    }
}

/// Running a statement list from `k` is running its first `j` statements,
/// then the rest from `j`.
proof fn lemma_stmts_split(ss: Seq<Stmt>, k: nat, j: nat, st: AState)
    requires
        k <= j <= ss.len(),
    ensures
        a_stmts(ss, k, st) == a_stmts(ss, j, a_stmts(ss.take(j as int), k, st)),
    decreases j - k,
{
    if k < j {
        assert(ss.take(j as int)[k as int] == ss[k as int]);
        lemma_stmts_split(ss, k + 1, j, a_stmt(ss[k as int], st));
    }
}

/// The names bound by the statements of `ss` from `k` up to `j`.
pub open spec fn binds_between(ss: Seq<Stmt>, k: int, j: int, n: Seq<char>) -> bool {
    exists|m: int| k <= m < j && #[trigger] stmt_binds(ss[m]).contains(n)
}

/// After the first `j` statements of a list, the innermost scope binds `n`
/// exactly when it did before or one of the statements from `k` binds it.
proof fn lemma_prefix_top(ss: Seq<Stmt>, k: nat, j: nat, st: AState, n: Seq<char>)
    requires
        k <= j <= ss.len(),
        st.scopes.len() > 0,
    ensures
        a_stmts(ss.take(j as int), k, st).scopes.len() == st.scopes.len(),
        a_stmts(ss.take(j as int), k, st).scopes.last().contains(n) <==> (st.scopes.last().contains(n)
            || binds_between(ss, k as int, j as int, n)),
    decreases j - k,
{
    let t = ss.take(j as int);
    if k < j {
        assert(t[k as int] == ss[k as int]);
        let st1 = a_stmt(ss[k as int], st);
        lemma_stmt_frame(ss[k as int], st);
        lemma_prefix_top(ss, k + 1, j, st1, n);
        if binds_between(ss, (k + 1) as int, j as int, n) {
            let m = choose|m: int| k + 1 <= m < j && #[trigger] stmt_binds(ss[m]).contains(n);
            assert(binds_between(ss, k as int, j as int, n));
        }
        if binds_between(ss, k as int, j as int, n) {
            let m = choose|m: int| k <= m < j && #[trigger] stmt_binds(ss[m]).contains(n);
            if m > k {
                assert(binds_between(ss, (k + 1) as int, j as int, n));
            }
        }
    }
}

/// The state of the analysis just before statement `j` of a file.
pub open spec fn state_before(file: File, j: int) -> AState {
    a_stmts(file.statements@.take(j), 0, initial_state())
}

/// The name a statement assigns to, where its target is a `$name`.
pub open spec fn assigned_var(s: Stmt) -> Option<Seq<char>> {
    match s.kind {
        StmtKind::Assign { target, value: _ } => match target.kind {
            ExprKind::Variable(name) => Some(name@),
            _ => None,
        },
        _ => None,
    }
}

/// An assignment among a file's top-level statements to a name that an
/// earlier top-level `let` bound is not reported: it adds no diagnostic
/// beyond those of its right-hand side.
pub proof fn lemma_assignment_after_let_not_reported(file: File, i: int, j: int)
    requires
        0 <= i < j < file.statements@.len(),
        file.statements@[i].kind is Let,
        assigned_var(file.statements@[j]) == Some(let_name(file.statements@[i])),
    ensures
        spec_analyze(file) == a_stmts(file.statements@, j as nat, state_before(file, j)).diags,
        a_stmt(file.statements@[j], state_before(file, j)).diags == a_expr(
            file.statements@[j].kind->Assign_value,
            state_before(file, j),
        ).diags,
{
    let ss = file.statements@;
    let n = let_name(ss[i]);
    let sj = state_before(file, j);
    lemma_stmts_split(ss, 0, j as nat, initial_state());
    lemma_prefix_top(ss, 0, j as nat, initial_state(), n);
    assert(stmt_binds(ss[i]).contains(n));
    assert(binds_between(ss, 0, j, n));
    assert(sj.scopes.last().contains(n));
    match ss[j].kind {
        StmtKind::Assign { target, value } => {
            lemma_expr_frame(value, sj);
            let se = a_expr(value, sj);
            assert(se.scopes[se.scopes.len() - 1].contains(n));
            assert(is_declared(se, n));
        },
        _ => {},
    }
}

/// Shadowing: inside a block, a `let` of a name that no earlier statement
/// of the same block binds is not reported as a duplicate, whatever the
/// enclosing scopes bind; it adds no diagnostic beyond those of its
/// right-hand side.
pub proof fn lemma_block_let_shadows(b: Block, st: AState, j: int)
    requires
        st.scopes.len() > 0,
        0 <= j < b.statements@.len(),
        b.statements@[j].kind is Let,
        !binds_between(b.statements@, 0, j, let_name(b.statements@[j])),
    ensures
        a_block(b, st) == pop_scope(
            a_stmts(b.statements@, j as nat, a_stmts(b.statements@.take(j), 0, push_scope(st))),
        ),
        ({
            let sj = a_stmts(b.statements@.take(j), 0, push_scope(st));
            a_stmt(b.statements@[j], sj).diags == a_expr(b.statements@[j].kind->Let_value, sj).diags
        }),
{
    let ss = b.statements@;
    let n = let_name(ss[j]);
    let sp = push_scope(st);
    let sj = a_stmts(ss.take(j), 0, sp);
    lemma_stmts_split(ss, 0, j as nat, sp);
    lemma_prefix_top(ss, 0, j as nat, sp, n);
    assert(!sp.scopes.last().contains(n));
    assert(!sj.scopes.last().contains(n));
    match ss[j].kind {
        StmtKind::Let { name, value } => {
            lemma_expr_frame(value, sj);
        },
        _ => {},
    }
}

/// An assignment `$name = value` looks for `name` in every open scope, the
/// enclosing ones of a function body or block included.  If any of them
/// binds it, the assignment adds no diagnostic beyond those of `value`;
/// if none does, it adds exactly one, that the name is undeclared, at the
/// target's span.  An assignment to `$$NAME` is never reported.
pub proof fn lemma_assignment_checks_every_scope(target: Expr, value: Expr, span: Span, st: AState)
    requires
        st.scopes.len() > 0,
    ensures
        target.kind is Variable && (exists|k: int|
            0 <= k < st.scopes.len() && (#[trigger] st.scopes[k]).contains(target.kind->Variable_0@))
            ==> a_stmt(Stmt { kind: StmtKind::Assign { target, value }, span }, st).diags == a_expr(
            value,
            st,
        ).diags,
        target.kind is Variable && !(exists|k: int|
            0 <= k < st.scopes.len() && (#[trigger] st.scopes[k]).contains(target.kind->Variable_0@))
            ==> a_stmt(Stmt { kind: StmtKind::Assign { target, value }, span }, st).diags == a_expr(
            value,
            st,
        ).diags.push(
            diag(
                DiagnosticKind::AssignmentToUndeclaredName,
                target.span,
                undeclared_msg(target.kind->Variable_0@),
            ),
        ),
        target.kind is EnvVar ==> a_stmt(
            Stmt { kind: StmtKind::Assign { target, value }, span },
            st,
        ).diags == a_expr(value, st).diags,
{
    lemma_expr_frame(value, st);
}

} // verus!
