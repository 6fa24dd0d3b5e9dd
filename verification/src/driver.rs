//! The decisions of the command-line driver: where a program's source text
//! comes from, what a line typed at the interactive prompt asks for, and
//! what is reported around a run.  Reading files and terminals, running the
//! program and printing are left to the caller.
use vstd::prelude::*;

use crate::output::{status_text, Reporter, StatusKind};
use crate::text::{char_is_ws, decimal, is_ws, push_decimal, push_str, str_eq, string_from_chars, to_chars};

verus! {

/// The name under which a program given on the command line is reported.
pub const EXPRESSION_SOURCE_NAME: &'static str = "<expr>";

/// Where a program's source text comes from.
pub enum InputSource<P> {
    /// The text given with `--expr`.
    Expression(String),
    /// A file to read.
    File(P),
}

/// Exactly one of an `--expr` text and a source path must be given.
pub fn select_input<P>(expr: Option<String>, path: Option<P>) -> (r: Result<InputSource<P>, &'static str>)
    ensures
        match (expr, path) {
            (Some(e), None) => r matches Ok(InputSource::Expression(t)) && t == e,
            (None, Some(p)) => r matches Ok(InputSource::File(q)) && q == p,
            (None, None) => r matches Err(m) && m@ == "expected either a source path or --expr"@,
            (Some(_), Some(_)) => r matches Err(m) && m@
                == "use either a source path or --expr, not both"@,
        },
{
    match (expr, path) {
        (Some(e), None) => Ok(InputSource::Expression(e)),
        (None, Some(p)) => Ok(InputSource::File(p)),
        (None, None) => Err("expected either a source path or --expr"),
        (Some(_), Some(_)) => Err("use either a source path or --expr, not both"),
    }
}

// ---------------------------------------------------------------------------
// The interactive prompt
// ---------------------------------------------------------------------------

/// `s` without its leading white space.
pub open spec fn trim_start(s: Seq<char>) -> Seq<char>
    decreases s.len(),
{
    if s.len() > 0 && is_ws(s[0]) {
        trim_start(s.drop_first())
    } else {
        s
    }
}

/// `s` without its trailing white space.
pub open spec fn trim_end(s: Seq<char>) -> Seq<char>
    decreases s.len(),
{
    if s.len() > 0 && is_ws(s.last()) {
        trim_end(s.drop_last())
    } else {
        s
    }
}

/// `s` without its leading and trailing white space.
pub open spec fn trim(s: Seq<char>) -> Seq<char> {
    trim_end(trim_start(s))
}

/// `s` without its leading and trailing white space.
pub fn trim_text(s: &str) -> (r: String)
    ensures
        r@ == trim(s@),
{
    let cs = to_chars(s);
    let n = cs.len();
    let mut a: usize = 0;
    assert(cs@.subrange(0, n as int) =~= cs@);
    while a < n && char_is_ws(cs[a])
        invariant
            n == cs@.len(),
            a <= n,
            trim_start(cs@) == trim_start(cs@.subrange(a as int, n as int)),
        decreases n - a,
    {
        proof {
            let rest = cs@.subrange(a as int, n as int);
            assert(rest[0] == cs@[a as int]);
            assert(rest.drop_first() =~= cs@.subrange(a + 1, n as int));
        }
        a = a + 1;
    }
    proof {
        let rest = cs@.subrange(a as int, n as int);
        if a < n {
            assert(rest[0] == cs@[a as int]);
        }
        assert(trim_start(rest) == rest);
    }
    let mut b: usize = n;
    while b > a && char_is_ws(cs[b - 1])
        invariant
            n == cs@.len(),
            a <= b <= n,
            trim(cs@) == trim_end(cs@.subrange(a as int, b as int)),
        decreases b - a,
    {
        proof {
            let mid = cs@.subrange(a as int, b as int);
            assert(mid.last() == cs@[b - 1]);
            assert(mid.drop_last() =~= cs@.subrange(a as int, b - 1));
        }
        b = b - 1;
    }
    proof {
        let mid = cs@.subrange(a as int, b as int);
        if b > a {
            assert(mid.last() == cs@[b - 1]);
        }
        assert(trim_end(mid) == mid);
    }
    let mut kept: Vec<char> = Vec::new();
    let mut i: usize = a;
    while i < b
        invariant
            n == cs@.len(),
            a <= i <= b <= n,
            kept@ == cs@.subrange(a as int, i as int),
        decreases b - i,
    {
        kept.push(cs[i]);
        i = i + 1;
        assert(kept@ =~= cs@.subrange(a as int, i as int));
    }
    string_from_chars(kept.as_slice())
}

/// What a line typed at the prompt asks for.
pub enum ReplLine {
    /// Nothing but white space: prompt again.
    Blank,
    /// `exit` or `quit`: leave the prompt.
    Quit,
    /// A program to run: the line without its surrounding white space.
    Source(String),
}

/// What the line `line` asks for.
pub fn classify_repl_line(line: &str) -> (r: ReplLine)
    ensures
        r is Blank <==> trim(line@).len() == 0,
        r is Quit <==> (trim(line@) == "exit"@ || trim(line@) == "quit"@),
        r matches ReplLine::Source(t) ==> t@ == trim(line@),
{
    let t = trim_text(line);
    proof {
        reveal_strlit("exit");
        reveal_strlit("quit");
    }
    if to_chars(t.as_str()).len() == 0 {
        ReplLine::Blank
    } else if str_eq(t.as_str(), "exit") || str_eq(t.as_str(), "quit") {
        ReplLine::Quit
    } else {
        ReplLine::Source(t)
    }
}

// ---------------------------------------------------------------------------
// Running a program
// ---------------------------------------------------------------------------

/// What happened so far in running a program.
pub enum RunEvent {
    /// The program was parsed and checked.
    Checked { parse_diagnostics: usize, semantic_diagnostics: usize },
    /// The program ran; `has_value` tells whether it produced a value worth
    /// showing (one that is not `null`).
    Ran { runtime_diagnostics: usize, has_value: bool },
}

/// What the driver does next.
pub enum RunAction {
    /// Run the program.
    Execute,
    /// Print `status` when there is one and, when `show_value`, the
    /// program's value; then stop.
    Finish { status: Option<String>, show_value: bool },
}

/// The text after a program ran without diagnostics.
pub open spec fn ran_text(statement_count: nat) -> Seq<char> {
    "ran "@ + decimal(statement_count) + " statement(s)"@
}

/// The status line to print, if the run is announced.
pub open spec fn announced(announce: bool, line: Seq<char>) -> Option<Seq<char>> {
    if announce {
        Some(line)
    } else {
        None
    }
}

/// `r` finishes the run, printing `status` (if any) and the value when
/// `show_value`.
pub open spec fn finishes_with(r: RunAction, status: Option<Seq<char>>, show_value: bool) -> bool {
    match r {
        RunAction::Finish { status: s, show_value: v } => v == show_value && match (s, status) {
            (Some(a), Some(b)) => a@ == b,
            (None, None) => true,
            _ => false,
        },
        RunAction::Execute => false,
    }
}

impl Reporter {
    fn announce(&self, announce: bool, kind: StatusKind, message: &str) -> (r: Option<String>)
        ensures
            match (r, announced(announce, status_text(self.colors(), kind, message@))) {
                (Some(a), Some(b)) => a@ == b,
                (None, None) => true,
                _ => false,
            },
    {
        if announce {
            Some(self.status_line(kind, message))
        } else {
            None
        }
    }

    /// The next step of running a program of `statement_count` statements:
    /// run it only when neither the parser nor the checks reported
    /// anything; afterwards show its value when it ran cleanly.  Status
    /// lines are printed only when the run is `announce`d.
    pub fn run_action(&self, statement_count: usize, announce: bool, event: RunEvent) -> (r: RunAction)
        ensures
            match event {
                RunEvent::Checked { parse_diagnostics, semantic_diagnostics } => if parse_diagnostics
                    == 0 && semantic_diagnostics == 0 {
                    r is Execute
                } else {
                    finishes_with(
                        r,
                        announced(
                            announce,
                            status_text(
                                self.colors(),
                                StatusKind::Failure,
                                "run aborted due to parse/semantic diagnostics"@,
                            ),
                        ),
                        false,
                    )
                },
                RunEvent::Ran { runtime_diagnostics, has_value } => if runtime_diagnostics == 0 {
                    finishes_with(
                        r,
                        announced(
                            announce,
                            status_text(self.colors(), StatusKind::Success, ran_text(statement_count as nat)),
                        ),
                        has_value,
                    )
                } else {
                    finishes_with(
                        r,
                        announced(
                            announce,
                            status_text(self.colors(), StatusKind::Failure, "runtime execution failed"@),
                        ),
                        false,
                    )
                },
            },
    {
        match event {
            RunEvent::Checked { parse_diagnostics, semantic_diagnostics } => {
                if parse_diagnostics == 0 && semantic_diagnostics == 0 {
                    RunAction::Execute
                } else {
                    let status = self.announce(
                        announce,
                        StatusKind::Failure,
                        "run aborted due to parse/semantic diagnostics",
                    );
                    RunAction::Finish { status, show_value: false }
                }
            },
            RunEvent::Ran { runtime_diagnostics, has_value } => {
                if runtime_diagnostics == 0 {
                    let mut message = String::new();
                    push_str(&mut message, "ran ");
                    push_decimal(&mut message, statement_count);
                    push_str(&mut message, " statement(s)");
                    assert(message@ =~= ran_text(statement_count as nat));
                    let status = self.announce(announce, StatusKind::Success, message.as_str());
                    RunAction::Finish { status, show_value: has_value }
                } else {
                    let status = self.announce(announce, StatusKind::Failure, "runtime execution failed");
                    RunAction::Finish { status, show_value: false }
                }
            },
        }
    }
}

// ---------------------------------------------------------------------------
// Laws of trimming
// ---------------------------------------------------------------------------

proof fn lemma_trim_start_push(s: Seq<char>, c: char)
    ensures
        trim_start(s.push(c)) == if trim_start(s).len() == 0 && is_ws(c) {
            seq![]
        } else {
            trim_start(s).push(c)
        },
    decreases s.len(),
{
    if s.len() == 0 {
        assert(s.push(c) =~= seq![c]);
        assert(seq![c].drop_first() =~= Seq::<char>::empty());
        assert(trim_start(Seq::<char>::empty()) == Seq::<char>::empty());
        assert(trim_start(s) == s);
        if is_ws(c) {
            assert(trim_start(seq![c]) == trim_start(seq![c].drop_first()));
        } else {
            assert(trim_start(seq![c]) == seq![c]);
        }
    } else {
        assert(s.push(c)[0] == s[0]);
        if is_ws(s[0]) {
            assert(s.push(c).drop_first() =~= s.drop_first().push(c));
            lemma_trim_start_push(s.drop_first(), c);
            assert(trim_start(s.push(c)) == trim_start(s.drop_first().push(c)));
            assert(trim_start(s) == trim_start(s.drop_first()));
        } else {
            assert(trim_start(s) == s);
            assert(trim_start(s.push(c)) == s.push(c));
        }
    }
}

proof fn lemma_trim_end_prefix(s: Seq<char>)
    ensures
        trim_end(s).len() <= s.len(),
        trim_end(s) =~= s.take(trim_end(s).len() as int),
        trim_end(s).len() > 0 ==> !is_ws(trim_end(s).last()),
    decreases s.len(),
{
    if s.len() > 0 && is_ws(s.last()) {
        lemma_trim_end_prefix(s.drop_last());
    }
}

proof fn lemma_trim_start_suffix(s: Seq<char>)
    ensures
        trim_start(s).len() <= s.len(),
        trim_start(s) =~= s.skip(s.len() - trim_start(s).len()),
        trim_start(s).len() > 0 ==> !is_ws(trim_start(s)[0]),
    decreases s.len(),
{
    if s.len() > 0 && is_ws(s[0]) {
        lemma_trim_start_suffix(s.drop_first());
    }
}

/// Trimming removes exactly the white space at both ends: white space added
/// before or after a line does not change it, what it gives neither starts
/// nor ends with white space, and a line that neither starts nor ends with
/// white space is left as it is.  Line breaks, carriage returns, tabs and
/// spaces count as white space.  So `classify_repl_line`, whose result is
/// a function of the trimmed line, classifies `l` followed or preceded by
/// white space as it classifies `l`: `"exit\n"` quits.
pub proof fn lemma_trim_ignores_surrounding_ws(s: Seq<char>, w: char)
    ensures
        is_ws(w) ==> trim(s.push(w)) == trim(s),
        is_ws(w) ==> trim(seq![w] + s) == trim(s),
        trim(s).len() > 0 ==> !is_ws(trim(s)[0]) && !is_ws(trim(s).last()),
        (s.len() == 0 || (!is_ws(s[0]) && !is_ws(s.last()))) ==> trim(s) == s,
        is_ws('\n') && is_ws('\r') && is_ws('\t') && is_ws(' '),
{
    let t = trim_start(s);
    lemma_trim_start_push(s, w);
    if is_ws(w) {
        if t.len() == 0 {
            assert(trim_end(t) =~= Seq::<char>::empty());
        } else {
            assert(t.push(w).drop_last() =~= t);
        }
        assert((seq![w] + s)[0] == w);
        assert((seq![w] + s).drop_first() =~= s);
    }
    lemma_trim_start_suffix(s);
    lemma_trim_end_prefix(t);
    if trim(s).len() > 0 {
        assert(trim(s)[0] == t[0]);
    }
    if s.len() > 0 && !is_ws(s[0]) && !is_ws(s.last()) {
        assert(t == s);
    }
    assert(('\n' as u32) == 10);
    assert(('\r' as u32) == 13);
    assert(('\t' as u32) == 9);
    assert((' ' as u32) == 32);
}

} // verus!
