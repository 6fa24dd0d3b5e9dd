//! Text rendering for the command line: colored labels, status and summary
//! lines, token listings, diagnostic snippets and plain-text tables.  Every
//! function here builds the text; writing it to a terminal is left to the
//! caller.
use vstd::prelude::*;

use crate::diagnostic::{diagnostic_kind_name, Diagnostic, DiagnosticKind};
use crate::source::{line_col_ok, line_of, line_starts, LineIndex, Span};
use crate::text::{
    byte_len, decimal, join, lemma_join_push, lemma_text_lt_irreflexive, lemma_text_lt_total,
    lemma_text_lt_transitive, pad_right, push_decimal, push_repeat, push_str, repeat_char, text_less,
    text_lt, to_chars,
};
use crate::token::{token_kind_name, TokenKind};

verus! {

broadcast use crate::source::group_text_range;

#[derive(Debug, Clone, Copy, PartialEq, Eq, Structural)]
pub enum ColorMode {
    Auto,
    Always,
    Never,
}

#[derive(Debug, Clone, Copy, PartialEq, Eq, Structural)]
pub enum StatusKind {
    Success,
    Failure,
    Info,
}

#[derive(Debug, Clone, Copy, PartialEq, Eq, Structural)]
pub enum Color {
    Red,
    Green,
    Yellow,
    Blue,
    Magenta,
    Cyan,
}

/// The ANSI foreground code of a color.
pub open spec fn color_code(c: Color) -> Seq<char> {
    match c {
        Color::Red => "31"@,
        Color::Green => "32"@,
        Color::Yellow => "33"@,
        Color::Blue => "34"@,
        Color::Magenta => "35"@,
        Color::Cyan => "36"@,
    }
}

fn color_code_str(c: Color) -> (r: &'static str)
    ensures
        r@ == color_code(c),
{
    match c {
        Color::Red => "31",
        Color::Green => "32",
        Color::Yellow => "33",
        Color::Blue => "34",
        Color::Magenta => "35",
        Color::Cyan => "36",
    }
}

/// `text` wrapped in the ANSI escapes for `color` (and bold) when colors are
/// on, `text` itself when they are off.
pub open spec fn painted(colors: bool, text: Seq<char>, color: Color, bold: bool) -> Seq<char> {
    if !colors {
        text
    } else {
        "\x1b["@ + (if bold {
            "1;"@
        } else {
            seq![]
        }) + color_code(color) + "m"@ + text + "\x1b[0m"@
    }
}

/// Whether a reporter colors its output: always, never, or (in `Auto`
/// mode) only when both standard output and standard error are terminals.
pub open spec fn colors_for(mode: ColorMode, stdout_is_terminal: bool, stderr_is_terminal: bool) -> bool {
    match mode {
        ColorMode::Auto => stdout_is_terminal && stderr_is_terminal,
        ColorMode::Always => true,
        ColorMode::Never => false,
    }
}

/// The label and color of a status line.
pub open spec fn status_label(kind: StatusKind) -> Seq<char> {
    match kind {
        StatusKind::Success => "ok"@,
        StatusKind::Failure => "error"@,
        StatusKind::Info => "info"@,
    }
}

pub open spec fn status_color(kind: StatusKind) -> Color {
    match kind {
        StatusKind::Success => Color::Green,
        StatusKind::Failure => Color::Red,
        StatusKind::Info => Color::Blue,
    }
}

/// A status line: the bold colored label, a space, the message.
pub open spec fn status_text(colors: bool, kind: StatusKind, message: Seq<char>) -> Seq<char> {
    painted(colors, status_label(kind), status_color(kind), true) + " "@ + message
}

/// The message after a successful parse.
pub open spec fn parse_summary_text(statement_count: nat, debug_ast: bool) -> Seq<char> {
    "parsed "@ + decimal(statement_count) + " statement(s)"@ + if debug_ast {
        ", debug AST enabled"@
    } else {
        seq![]
    }
}

/// A check passes when neither the parser nor the semantic checks reported
/// anything.
pub open spec fn check_status(parse_diagnostics: nat, semantic_diagnostics: nat) -> StatusKind {
    if parse_diagnostics == 0 && semantic_diagnostics == 0 {
        StatusKind::Success
    } else {
        StatusKind::Failure
    }
}

/// The message after a check.
pub open spec fn check_summary_text(
    statement_count: nat,
    parse_diagnostics: nat,
    semantic_diagnostics: nat,
) -> Seq<char> {
    if parse_diagnostics == 0 && semantic_diagnostics == 0 {
        "check passed for "@ + decimal(statement_count) + " statement(s)"@
    } else {
        "check failed for "@ + decimal(statement_count) + " statement(s): "@ + decimal(
            parse_diagnostics,
        ) + " parse diagnostic(s), "@ + decimal(semantic_diagnostics)
            + " semantic diagnostic(s)"@
    }
}

/// Renders the reporter's texts, with or without ANSI colors.
pub struct Reporter {
    color_enabled: bool,
}

impl Reporter {
    /// Whether this reporter colors its texts.
    pub closed spec fn colors(self) -> bool {
        self.color_enabled
    }

    /// A reporter for `color_mode`, given whether standard output and
    /// standard error are terminals.
    pub fn new(color_mode: ColorMode, stdout_is_terminal: bool, stderr_is_terminal: bool) -> (r: Self)
        ensures
            r.colors() == colors_for(color_mode, stdout_is_terminal, stderr_is_terminal),
    {
        let color_enabled = match color_mode {
            ColorMode::Auto => stdout_is_terminal && stderr_is_terminal,
            ColorMode::Always => true,
            ColorMode::Never => false,
        };
        Reporter { color_enabled }
    }

    pub fn color_enabled(&self) -> (r: bool)
        ensures
            r == self.colors(),
    {
        self.color_enabled
    }

    fn push_painted(&self, out: &mut String, text: &str, color: Color, bold: bool)
        ensures
            final(out)@ == old(out)@ + painted(self.colors(), text@, color, bold),
    {
        if !self.color_enabled {
            push_str(out, text);
        } else {
            push_str(out, "\x1b[");
            if bold {
                push_str(out, "1;");
            }
            push_str(out, color_code_str(color));
            push_str(out, "m");
            push_str(out, text);
            push_str(out, "\x1b[0m");
        }
        assert(final(out)@ =~= old(out)@ + painted(self.colors(), text@, color, bold));
    }

    /// `text` in `color` (and bold) when colors are on.
    pub fn paint(&self, text: &str, color: Color, bold: bool) -> (r: String)
        ensures
            r@ == painted(self.colors(), text@, color, bold),
    {
        let mut out = String::new();
        self.push_painted(&mut out, text, color, bold);
        assert(out@ =~= painted(self.colors(), text@, color, bold));
        out
    }

    /// A status line such as `ok parsed 3 statement(s)`.
    pub fn status_line(&self, kind: StatusKind, message: &str) -> (r: String)
        ensures
            r@ == status_text(self.colors(), kind, message@),
    {
        let label = match kind {
            StatusKind::Success => "ok",
            StatusKind::Failure => "error",
            StatusKind::Info => "info",
        };
        let color = match kind {
            StatusKind::Success => Color::Green,
            StatusKind::Failure => Color::Red,
            StatusKind::Info => Color::Blue,
        };
        let mut out = String::new();
        self.push_painted(&mut out, label, color, true);
        push_str(&mut out, " ");
        push_str(&mut out, message);
        assert(out@ =~= status_text(self.colors(), kind, message@));
        out
    }

    /// The status line after a successful parse.
    pub fn parse_summary_line(&self, statement_count: usize, debug_ast: bool) -> (r: String)
        ensures
            r@ == status_text(
                self.colors(),
                StatusKind::Success,
                parse_summary_text(statement_count as nat, debug_ast),
            ),
    {
        let mut message = String::new();
        push_str(&mut message, "parsed ");
        push_decimal(&mut message, statement_count);
        push_str(&mut message, " statement(s)");
        if debug_ast {
            push_str(&mut message, ", debug AST enabled");
        }
        assert(message@ =~= parse_summary_text(statement_count as nat, debug_ast));
        self.status_line(StatusKind::Success, message.as_str())
    }

    /// The status line after a check: success when nothing was reported,
    /// failure with the counts otherwise.
    pub fn check_summary_line(
        &self,
        statement_count: usize,
        parse_diagnostics: usize,
        semantic_diagnostics: usize,
    ) -> (r: String)
        ensures
            r@ == status_text(
                self.colors(),
                check_status(parse_diagnostics as nat, semantic_diagnostics as nat),
                check_summary_text(
                    statement_count as nat,
                    parse_diagnostics as nat,
                    semantic_diagnostics as nat,
                ),
            ),
    {
        let mut message = String::new();
        if parse_diagnostics == 0 && semantic_diagnostics == 0 {
            push_str(&mut message, "check passed for ");
            push_decimal(&mut message, statement_count);
            push_str(&mut message, " statement(s)");
            assert(message@ =~= check_summary_text(
                statement_count as nat,
                parse_diagnostics as nat,
                semantic_diagnostics as nat,
            ));
            self.status_line(StatusKind::Success, message.as_str())
        } else {
            push_str(&mut message, "check failed for ");
            push_decimal(&mut message, statement_count);
            push_str(&mut message, " statement(s): ");
            push_decimal(&mut message, parse_diagnostics);
            push_str(&mut message, " parse diagnostic(s), ");
            push_decimal(&mut message, semantic_diagnostics);
            push_str(&mut message, " semantic diagnostic(s)");
            assert(message@ =~= check_summary_text(
                statement_count as nat,
                parse_diagnostics as nat,
                semantic_diagnostics as nat,
            ));
            self.status_line(StatusKind::Failure, message.as_str())
        }
    }

    /// The heading printed above a syntax tree dump.
    pub fn debug_ast_header(&self, label: &str) -> (r: String)
        ensures
            r@ == painted(self.colors(), label@, Color::Magenta, true),
    {
        self.paint(label, Color::Magenta, true)
    }

    /// A message of the interactive shell, prefixed with its name.
    pub fn shell_message_line(&self, message: &str) -> (r: String)
        ensures
            r@ == painted(self.colors(), "pulzar"@, Color::Blue, true) + " "@ + message@,
    {
        let mut out = String::new();
        self.push_painted(&mut out, "pulzar", Color::Blue, true);
        push_str(&mut out, " ");
        push_str(&mut out, message);
        assert(out@ =~= painted(self.colors(), "pulzar"@, Color::Blue, true) + " "@ + message@);
        out
    }

    /// The interactive prompt for the working directory `cwd`.
    pub fn prompt_text(&self, cwd: &str) -> (r: String)
        ensures
            r@ == painted(self.colors(), cwd@ + " >"@, Color::Blue, true) + " "@,
    {
        let mut label = String::new();
        push_str(&mut label, cwd);
        push_str(&mut label, " >");
        let mut out = String::new();
        self.push_painted(&mut out, label.as_str(), Color::Blue, true);
        push_str(&mut out, " ");
        assert(out@ =~= painted(self.colors(), cwd@ + " >"@, Color::Blue, true) + " "@);
        out
    }
}

// ---------------------------------------------------------------------------
// Token listings
// ---------------------------------------------------------------------------

/// What `str::escape_debug` makes of a text.
pub uninterp spec fn debug_escaped(text: Seq<char>) -> Seq<char>;

/// Calls `str::escape_debug`, which replaces each character by its escape as
/// the `Debug` form of a string shows it (`\n`, `\t`, `\"`, `\u{..}` for
/// unprintable ones); the result is stated only through `debug_escaped`.
#[verifier::external_body]
fn escape_debug(text: &str) -> (r: String)
    ensures
        r@ == debug_escaped(text@),
{
    text.escape_debug().to_string()
}

/// How a token's text is shown in a listing: `<eof>` for the end of input,
/// the escaped text otherwise.
pub open spec fn token_shown(kind: TokenKind, text: Seq<char>) -> Seq<char> {
    if kind == TokenKind::Eof {
        "<eof>"@
    } else {
        debug_escaped(text)
    }
}

/// The text of a token as a listing shows it.
pub fn format_token_text(kind: TokenKind, text: &str) -> (r: String)
    ensures
        r@ == token_shown(kind, text@),
{
    if kind == TokenKind::Eof {
        let mut out = String::new();
        push_str(&mut out, "<eof>");
        assert(out@ =~= "<eof>"@);
        out
    } else {
        escape_debug(text)
    }
}

/// One row of a token listing: `line:col`, the kind, the shown text,
/// separated by tabs.
pub open spec fn token_row_text(colors: bool, line: nat, col: nat, kind: TokenKind, shown: Seq<char>) -> Seq<char> {
    decimal(line) + ":"@ + decimal(col) + "\t"@ + painted(colors, token_kind_name(kind), Color::Cyan, true)
        + "\t"@ + shown
}

impl Reporter {
    /// A row of a token listing, given the text to show for the token.
    pub fn token_row(&self, line: usize, col: usize, kind: TokenKind, shown: &str) -> (r: String)
        ensures
            r@ == token_row_text(self.colors(), line as nat, col as nat, kind, shown@),
    {
        let mut out = String::new();
        push_decimal(&mut out, line);
        push_str(&mut out, ":");
        push_decimal(&mut out, col);
        push_str(&mut out, "\t");
        self.push_painted(&mut out, kind.name(), Color::Cyan, true);
        push_str(&mut out, "\t");
        push_str(&mut out, shown);
        assert(out@ =~= token_row_text(self.colors(), line as nat, col as nat, kind, shown@));
        out
    }

    /// The listing row of a token at `line:col` whose source text is `text`.
    pub fn token_line(&self, line: usize, col: usize, kind: TokenKind, text: &str) -> (r: String)
        ensures
            r@ == token_row_text(self.colors(), line as nat, col as nat, kind, token_shown(kind, text@)),
    {
        let shown = format_token_text(kind, text);
        self.token_row(line, col, kind, shown.as_str())
    }
}

// ---------------------------------------------------------------------------
// Source lines
// ---------------------------------------------------------------------------

/// The pieces of `s` between newline characters, in order: a text without
/// newlines is one piece, and a text ending in a newline ends with an empty
/// piece.
pub open spec fn newline_pieces(s: Seq<char>) -> Seq<Seq<char>>
    decreases s.len(),
{
    if s.len() == 0 {
        seq![seq![]]
    } else {
        let rest = newline_pieces(s.drop_last());
        if s.last() == '\n' {
            rest.push(seq![])
        } else {
            rest.update(rest.len() - 1, rest.last().push(s.last()))
        }
    }
}

/// The lines of a text: its newline pieces, without the empty piece that
/// follows a final newline (so an empty text has no lines).
pub open spec fn text_lines(s: Seq<char>) -> Seq<Seq<char>> {
    let p = newline_pieces(s);
    if p.last().len() == 0 {
        p.drop_last()
    } else {
        p
    }
}

/// `s` without its trailing carriage returns.
pub open spec fn trim_cr(s: Seq<char>) -> Seq<char>
    decreases s.len(),
{
    if s.len() > 0 && s.last() == '\r' {
        trim_cr(s.drop_last())
    } else {
        s
    }
}

/// Line `line_number` of `source` (one-based, zero read as one) without its
/// trailing carriage returns, if the text has that many lines.
pub open spec fn source_line_text(source: Seq<char>, line_number: nat) -> Option<Seq<char>> {
    let idx = if line_number > 0 {
        line_number - 1
    } else {
        0
    };
    let lines = text_lines(source);
    if idx < lines.len() {
        Some(trim_cr(lines[idx]))
    } else {
        None
    }
}

/// Line `line_number` of `source`, as [`source_line_text`] describes it.
pub fn source_line(source: &str, line_number: usize) -> (r: Option<String>)
    ensures
        r is Some <==> source_line_text(source@, line_number as nat) is Some,
        r matches Some(t) ==> source_line_text(source@, line_number as nat) == Some(t@),
{
    let cs = to_chars(source);
    let idx: usize = if line_number > 0 {
        line_number - 1
    } else {
        0
    };
    let mut k: usize = 0;
    let mut cur: Vec<char> = Vec::new();
    let mut last_empty = true;
    let mut i: usize = 0;
    proof {
        assert(cs@.take(0) =~= Seq::<char>::empty());
    }
    while i < cs.len()
        invariant
            cs@ == source@,
            i <= cs@.len(),
            k <= i,
            newline_pieces(cs@.take(i as int)).len() == k + 1,
            last_empty == (newline_pieces(cs@.take(i as int)).last().len() == 0),
            k >= idx ==> cur@ == newline_pieces(cs@.take(i as int))[idx as int],
            k < idx ==> cur@.len() == 0,
        decreases cs@.len() - i,
    {
        let c = cs[i];
        proof {
            assert(cs@.take(i + 1).drop_last() =~= cs@.take(i as int));
            assert(cs@.take(i + 1).last() == c);
        }
        if c == '\n' {
            k = k + 1;
            last_empty = true;
            proof {
                if k == idx {
                    assert(cur@ =~= newline_pieces(cs@.take(i + 1))[idx as int]);
                }
            }
        } else {
            if k == idx {
                cur.push(c);
            }
            last_empty = false;
        }
        i = i + 1;
    }
    proof {
        assert(cs@.take(i as int) =~= cs@);
    }
    if !(idx < k || (idx == k && !last_empty)) {
        return None;
    }
    while cur.len() > 0 && cur[cur.len() - 1] == '\r'
        invariant
            trim_cr(cur@) == trim_cr(newline_pieces(source@)[idx as int]),
        decreases cur@.len(),
    {
        let ghost before = cur@;
        cur.pop();
        assert(cur@ =~= before.drop_last());
    }
    let mut line = String::new();
    let mut j: usize = 0;
    while j < cur.len()
        invariant
            j <= cur@.len(),
            line@ == cur@.take(j as int),
        decreases cur@.len() - j,
    {
        line.push(cur[j]);
        j = j + 1;
        assert(line@ =~= cur@.take(j as int));
    }
    assert(cur@.take(j as int) =~= cur@);
    Some(line)
}

/// `n - 1`, or zero for zero.
pub open spec fn pred_sat(n: nat) -> nat {
    if n > 0 {
        (n - 1) as nat
    } else {
        0
    }
}

/// How many carets underline a diagnostic: the span's length, at least one,
/// and no more than the line has characters from the column on (but at
/// least one).
pub open spec fn underline_width(text_len: nat, column: nat, span_len: nat) -> nat {
    let available: nat = if text_len > pred_sat(column) {
        (text_len - pred_sat(column)) as nat
    } else {
        0
    };
    let wanted: nat = if span_len > 1 {
        span_len
    } else {
        1
    };
    let cap: nat = if available > 1 {
        available
    } else {
        1
    };
    if wanted < cap {
        wanted
    } else {
        cap
    }
}

/// The number of carets under a diagnostic in `line_text` at `column`.
pub fn underline_len(line_text: &str, column: usize, span_len: usize) -> (r: usize)
    ensures
        r == underline_width(line_text@.len(), column as nat, span_len as nat),
        1 <= r,
        r <= span_len || r == 1,
{
    let text_len = to_chars(line_text).len();
    let available = text_len.saturating_sub(column.saturating_sub(1));
    let wanted = if span_len > 1 {
        span_len
    } else {
        1
    };
    let cap = if available > 1 {
        available
    } else {
        1
    };
    if wanted < cap {
        wanted
    } else {
        cap
    }
}

// ---------------------------------------------------------------------------
// Diagnostics
// ---------------------------------------------------------------------------

/// The number of characters of the decimal rendering of `n`.
fn decimal_len(n: usize) -> (r: usize)
    ensures
        r == decimal(n as nat).len(),
        1 <= r <= n + 1,
    decreases n,
{
    if n < 10 {
        1
    } else {
        decimal_len(n / 10) + 1
    }
}

/// The number of bytes a span covers (none when it is reversed).
pub open spec fn span_length(span: Span) -> nat {
    if span.spec_end() >= span.spec_start() {
        (span.spec_end() - span.spec_start()) as nat
    } else {
        0
    }
}

/// The first line of a diagnostic snippet: `error[Kind]: message`.
pub open spec fn headline_text(colors: bool, kind: DiagnosticKind, message: Seq<char>) -> Seq<char> {
    painted(colors, "error"@, Color::Red, true) + "["@ + painted(
        colors,
        diagnostic_kind_name(kind),
        Color::Yellow,
        false,
    ) + "]: "@ + message + "\n"@
}

/// The location line (`--> name:line:col`) and an empty gutter line.
pub open spec fn location_text(colors: bool, gutter: Seq<char>, source_name: Seq<char>, line: nat, col: nat) -> Seq<char> {
    gutter + " "@ + painted(colors, "-->"@, Color::Blue, true) + " "@ + source_name + ":"@ + decimal(
        line,
    ) + ":"@ + decimal(col) + "\n"@ + gutter + " "@ + painted(colors, "|"@, Color::Blue, true) + "\n"@
}

/// The numbered source line.
pub open spec fn numbered_line_text(colors: bool, line: nat, line_text: Seq<char>) -> Seq<char> {
    decimal(line) + " "@ + painted(colors, "|"@, Color::Blue, true) + " "@ + line_text + "\n"@
}

/// The carets under the diagnosed text, indented to its column.
pub open spec fn caret_line_text(colors: bool, gutter: Seq<char>, col: nat, width: nat) -> Seq<char> {
    gutter + " "@ + painted(colors, "|"@, Color::Blue, true) + " "@ + repeat_char(' ', pred_sat(col))
        + painted(colors, repeat_char('^', width), Color::Red, true) + "\n"@
}

/// A diagnostic snippet: the headline, the location, the source line with
/// its number in a gutter as wide as that number, the carets under the
/// diagnosed text, and an empty line.  Each line ends with a newline.
pub open spec fn diagnostic_text(
    colors: bool,
    source_name: Seq<char>,
    line: nat,
    col: nat,
    line_text: Seq<char>,
    kind: DiagnosticKind,
    message: Seq<char>,
    span_len: nat,
) -> Seq<char> {
    let gutter = repeat_char(' ', decimal(line).len());
    headline_text(colors, kind, message) + location_text(colors, gutter, source_name, line, col)
        + numbered_line_text(colors, line, line_text) + caret_line_text(
        colors,
        gutter,
        col,
        underline_width(line_text.len(), col, span_len),
    ) + "\n"@
}

/// The snippet of diagnostic `d` in `source`, whose lines start at `starts`.
pub open spec fn diagnostic_block(
    colors: bool,
    source_name: Seq<char>,
    source: Seq<char>,
    starts: Seq<usize>,
    d: Diagnostic,
) -> Seq<char> {
    let offset = d.span.spec_start();
    let k = line_of(starts, offset);
    let line = (k + 1) as nat;
    let col = (offset - starts[k] + 1) as nat;
    let text = match source_line_text(source, line) {
        Some(t) => t,
        None => seq![],
    };
    diagnostic_text(colors, source_name, line, col, text, d.kind, d.message@, span_length(d.span))
}

/// A titled section of diagnostic snippets; nothing at all when there are
/// no diagnostics.
pub open spec fn diagnostic_section_text(
    colors: bool,
    title: Seq<char>,
    source_name: Seq<char>,
    source: Seq<char>,
    ds: Seq<Diagnostic>,
) -> Seq<char> {
    if ds.len() == 0 {
        seq![]
    } else {
        painted(colors, title, Color::Yellow, true) + "\n"@ + join(
            ds.map_values(|d: Diagnostic| diagnostic_block(colors, source_name, source, line_starts(source), d)),
            seq![],
        )
    }
}

impl Reporter {
    fn push_headline(&self, out: &mut String, kind: DiagnosticKind, message: &str)
        ensures
            final(out)@ == old(out)@ + headline_text(self.colors(), kind, message@),
    {
        self.push_painted(out, "error", Color::Red, true);
        push_str(out, "[");
        self.push_painted(out, kind.name(), Color::Yellow, false);
        push_str(out, "]: ");
        push_str(out, message);
        push_str(out, "\n");
        assert(final(out)@ =~= old(out)@ + headline_text(self.colors(), kind, message@));
    }

    fn push_location(&self, out: &mut String, gw: usize, source_name: &str, line: usize, col: usize)
        ensures
            final(out)@ == old(out)@ + location_text(
                self.colors(),
                repeat_char(' ', gw as nat),
                source_name@,
                line as nat,
                col as nat,
            ),
    {
        push_repeat(out, ' ', gw);
        push_str(out, " ");
        self.push_painted(out, "-->", Color::Blue, true);
        push_str(out, " ");
        push_str(out, source_name);
        push_str(out, ":");
        push_decimal(out, line);
        push_str(out, ":");
        push_decimal(out, col);
        push_str(out, "\n");
        push_repeat(out, ' ', gw);
        push_str(out, " ");
        self.push_painted(out, "|", Color::Blue, true);
        push_str(out, "\n");
        assert(final(out)@ =~= old(out)@ + location_text(
            self.colors(),
            repeat_char(' ', gw as nat),
            source_name@,
            line as nat,
            col as nat,
        ));
    }

    fn push_numbered_line(&self, out: &mut String, line: usize, line_text: &str)
        ensures
            final(out)@ == old(out)@ + numbered_line_text(self.colors(), line as nat, line_text@),
    {
        push_decimal(out, line);
        push_str(out, " ");
        self.push_painted(out, "|", Color::Blue, true);
        push_str(out, " ");
        push_str(out, line_text);
        push_str(out, "\n");
        assert(final(out)@ =~= old(out)@ + numbered_line_text(self.colors(), line as nat, line_text@));
    }

    fn push_caret_line(&self, out: &mut String, gw: usize, col: usize, width: usize)
        ensures
            final(out)@ == old(out)@ + caret_line_text(
                self.colors(),
                repeat_char(' ', gw as nat),
                col as nat,
                width as nat,
            ),
    {
        push_repeat(out, ' ', gw);
        push_str(out, " ");
        self.push_painted(out, "|", Color::Blue, true);
        push_str(out, " ");
        push_repeat(out, ' ', col.saturating_sub(1));
        let mut carets = String::new();
        push_repeat(&mut carets, '^', width);
        assert(carets@ =~= repeat_char('^', width as nat));
        self.push_painted(out, carets.as_str(), Color::Red, true);
        push_str(out, "\n");
        assert(final(out)@ =~= old(out)@ + caret_line_text(
            self.colors(),
            repeat_char(' ', gw as nat),
            col as nat,
            width as nat,
        ));
    }

    /// The snippet of one diagnostic.
    pub fn render_diagnostic(
        &self,
        source_name: &str,
        source: &str,
        line_index: &LineIndex,
        diagnostic: &Diagnostic,
    ) -> (r: String)
        requires
            line_col_ok(line_index.starts(), diagnostic.span.spec_start()),
        ensures
            r@ == diagnostic_block(self.colors(), source_name@, source@, line_index.starts(), *diagnostic),
    {
        let start = diagnostic.span.start();
        let (line, col) = line_index.line_col(start);
        let line_text = match source_line(source, line) {
            Some(t) => t,
            None => String::new(),
        };
        let gw = decimal_len(line);
        let span_len = diagnostic.span.range.len();
        let ulen = underline_len(line_text.as_str(), col, span_len);
        let ghost text_spec = match source_line_text(source@, line as nat) {
            Some(t) => t,
            None => seq![],
        };
        assert(line_text@ == text_spec);
        let mut out = String::new();
        self.push_headline(&mut out, diagnostic.kind, diagnostic.message.as_str());
        assert(out@ =~= headline_text(self.colors(), diagnostic.kind, diagnostic.message@));
        self.push_location(&mut out, gw, source_name, line, col);
        self.push_numbered_line(&mut out, line, line_text.as_str());
        self.push_caret_line(&mut out, gw, col, ulen);
        push_str(&mut out, "\n");
        assert(out@ == diagnostic_text(
            self.colors(),
            source_name@,
            line as nat,
            col as nat,
            text_spec,
            diagnostic.kind,
            diagnostic.message@,
            span_length(diagnostic.span),
        ));
        out
    }

    /// A titled section with the snippets of `diagnostics` in `source`; an
    /// empty text when there are none.
    pub fn diagnostic_section(
        &self,
        title: &str,
        source_name: &str,
        source: &str,
        diagnostics: &[Diagnostic],
    ) -> (r: String)
        requires
            byte_len(source@) <= usize::MAX,
            forall|k: int|
                0 <= k < diagnostics@.len() ==> line_col_ok(
                    line_starts(source@),
                    (#[trigger] diagnostics@[k]).span.spec_start(),
                ),
        ensures
            r@ == diagnostic_section_text(self.colors(), title@, source_name@, source@, diagnostics@),
    {
        if diagnostics.len() == 0 {
            let out = String::new();
            assert(out@ =~= Seq::<char>::empty());
            return out;
        }
        let mut out = self.paint(title, Color::Yellow, true);
        push_str(&mut out, "\n");
        let ghost head = out@;
        let line_index = LineIndex::new(source);
        let ghost blocks = diagnostics@.map_values(
            |d: Diagnostic| diagnostic_block(self.colors(), source_name@, source@, line_starts(source@), d),
        );
        let mut i: usize = 0;
        while i < diagnostics.len()
            invariant
                i <= diagnostics@.len(),
                line_index.starts() == line_starts(source@),
                blocks == diagnostics@.map_values(
                    |d: Diagnostic| diagnostic_block(self.colors(), source_name@, source@, line_starts(source@), d),
                ),
                forall|k: int|
                    0 <= k < diagnostics@.len() ==> line_col_ok(
                        line_starts(source@),
                        (#[trigger] diagnostics@[k]).span.spec_start(),
                    ),
                out@ == head + join(blocks.take(i as int), seq![]),
            decreases diagnostics@.len() - i,
        {
            let block = self.render_diagnostic(source_name, source, &line_index, &diagnostics[i]);
            proof {
                assert(block@ == blocks[i as int]);
                assert(blocks.take(i + 1) =~= blocks.take(i as int).push(blocks[i as int]));
                if i > 0 {
                    lemma_join_push(blocks.take(i as int), blocks[i as int], seq![]);
                } else {
                    assert(blocks.take(0) =~= Seq::<Seq<char>>::empty());
                }
            }
            push_str(&mut out, block.as_str());
            i = i + 1;
            assert(out@ =~= head + join(blocks.take(i as int), seq![]));
        }
        assert(blocks.take(i as int) =~= blocks);
        out
    }
}

// ---------------------------------------------------------------------------
// Tables
// ---------------------------------------------------------------------------

/// The larger of two naturals.
pub open spec fn nat_max(a: nat, b: nat) -> nat {
    if a >= b {
        a
    } else {
        b
    }
}

/// Column widths after taking one more row into account: as many columns as
/// the longer of the two, each as wide as its widest cell so far.
pub open spec fn widen(ws: Seq<nat>, row: Seq<Seq<char>>) -> Seq<nat> {
    Seq::new(
        nat_max(ws.len(), row.len()),
        |i: int|
            nat_max(
                if i < ws.len() {
                    ws[i]
                } else {
                    0
                },
                if i < row.len() {
                    row[i].len()
                } else {
                    0
                },
            ),
    )
}

/// The column widths of a table: one column per header or cell position,
/// each as wide (in characters) as its widest header or cell.
pub open spec fn table_widths(headers: Seq<Seq<char>>, rows: Seq<Seq<Seq<char>>>) -> Seq<nat>
    decreases rows.len(),
{
    if rows.len() == 0 {
        headers.map_values(|h: Seq<char>| h.len())
    } else {
        widen(table_widths(headers, rows.drop_last()), rows.last())
    }
}

/// A table row: each cell padded to its column's width, separated by ` | `.
pub open spec fn row_text(cells: Seq<Seq<char>>, widths: Seq<nat>) -> Seq<char> {
    join(Seq::new(cells.len(), |i: int| pad_right(cells[i], widths[i])), " | "@)
}

/// The rule under the header: dashes as wide as each column, joined by `-+-`.
pub open spec fn separator_text(widths: Seq<nat>) -> Seq<char> {
    join(widths.map_values(|w: nat| repeat_char('-', w)), "-+-"@)
}

/// Each row on a line of its own, each line started by a newline.
pub open spec fn rows_text(rows: Seq<Seq<Seq<char>>>, widths: Seq<nat>) -> Seq<char>
    decreases rows.len(),
{
    if rows.len() == 0 {
        seq![]
    } else {
        rows_text(rows.drop_last(), widths) + "\n"@ + row_text(rows.last(), widths)
    }
}

/// A table: the header row, the rule, then the rows.
pub open spec fn table_text(headers: Seq<Seq<char>>, rows: Seq<Seq<Seq<char>>>) -> Seq<char> {
    let ws = table_widths(headers, rows);
    row_text(headers, ws) + "\n"@ + separator_text(ws) + rows_text(rows, ws)
}

/// The texts of some strings.
pub open spec fn texts(v: Seq<String>) -> Seq<Seq<char>> {
    v.map_values(|s: String| s@)
}

/// The texts of the cells of some rows.
pub open spec fn row_texts(rows: Seq<Vec<String>>) -> Seq<Seq<Seq<char>>> {
    rows.map_values(|r: Vec<String>| texts(r@))
}

pub proof fn lemma_table_widths_cover(headers: Seq<Seq<char>>, rows: Seq<Seq<Seq<char>>>)
    ensures
        table_widths(headers, rows).len() >= headers.len(),
        forall|k: int| 0 <= k < rows.len() ==> table_widths(headers, rows).len() >= (#[trigger] rows[k]).len(),
    decreases rows.len(),
{
    if rows.len() > 0 {
        lemma_table_widths_cover(headers, rows.drop_last());
        assert forall|k: int| 0 <= k < rows.len() implies table_widths(headers, rows).len() >= (
        #[trigger] rows[k]).len() by {
            if k < rows.len() - 1 {
                assert(rows[k] == rows.drop_last()[k]);
            }
        }
    }
}

/// The number of characters of a string.
fn char_count(s: &str) -> (r: usize)
    ensures
        r == s@.len(),
{
    to_chars(s).len()
}

/// One row of a table, each cell padded to its column's width.
pub fn render_row(cells: &[String], widths: &[usize]) -> (r: String)
    requires
        cells@.len() <= widths@.len(),
    ensures
        r@ == row_text(texts(cells@), widths@.map_values(|w: usize| w as nat)),
{
    let ghost ws = widths@.map_values(|w: usize| w as nat);
    let ghost parts = Seq::new(cells@.len(), |i: int| pad_right(texts(cells@)[i], ws[i]));
    let mut out = String::new();
    let mut i: usize = 0;
    while i < cells.len()
        invariant
            cells@.len() <= widths@.len(),
            i <= cells@.len(),
            ws == widths@.map_values(|w: usize| w as nat),
            parts == Seq::new(cells@.len(), |i: int| pad_right(texts(cells@)[i], ws[i])),
            out@ == join(parts.take(i as int), " | "@),
        decreases cells@.len() - i,
    {
        let ghost before = out@;
        if i > 0 {
            push_str(&mut out, " | ");
        }
        let cs = to_chars(cells[i].as_str());
        crate::text::push_padded(&mut out, cs.as_slice(), widths[i]);
        proof {
            assert(parts[i as int] == pad_right(cells@[i as int]@, widths@[i as int] as nat));
            assert(parts.take(i + 1) =~= parts.take(i as int).push(parts[i as int]));
            if i > 0 {
                lemma_join_push(parts.take(i as int), parts[i as int], " | "@);
            } else {
                assert(parts.take(1) =~= seq![parts[0]]);
            }
        }
        i = i + 1;
        assert(out@ =~= join(parts.take(i as int), " | "@));
    }
    assert(parts.take(i as int) =~= parts);
    out
}

/// The rule under a table's header.
pub fn render_separator(widths: &[usize]) -> (r: String)
    ensures
        r@ == separator_text(widths@.map_values(|w: usize| w as nat)),
{
    let ghost parts = widths@.map_values(|w: usize| w as nat).map_values(|w: nat| repeat_char('-', w));
    let mut out = String::new();
    let mut i: usize = 0;
    while i < widths.len()
        invariant
            i <= widths@.len(),
            parts == widths@.map_values(|w: usize| w as nat).map_values(|w: nat| repeat_char('-', w)),
            out@ == join(parts.take(i as int), "-+-"@),
        decreases widths@.len() - i,
    {
        if i > 0 {
            push_str(&mut out, "-+-");
        }
        push_repeat(&mut out, '-', widths[i]);
        proof {
            assert(parts[i as int] == repeat_char('-', widths@[i as int] as nat));
            assert(parts.take(i + 1) =~= parts.take(i as int).push(parts[i as int]));
            if i > 0 {
                lemma_join_push(parts.take(i as int), parts[i as int], "-+-"@);
            } else {
                assert(parts.take(1) =~= seq![parts[0]]);
            }
        }
        i = i + 1;
        assert(out@ =~= join(parts.take(i as int), "-+-"@));
    }
    assert(parts.take(i as int) =~= parts);
    out
}

/// The widths after the first `n` cells of `row` were taken into account.
pub open spec fn widen_upto(ws: Seq<nat>, row: Seq<Seq<char>>, n: nat) -> Seq<nat> {
    Seq::new(
        nat_max(ws.len(), n),
        |i: int|
            nat_max(
                if i < ws.len() {
                    ws[i]
                } else {
                    0
                },
                if i < n {
                    row[i].len()
                } else {
                    0
                },
            ),
    )
}

/// The widths of `v`, as naturals.
pub open spec fn nats(v: Seq<usize>) -> Seq<nat> {
    v.map_values(|w: usize| w as nat)
}

/// Widens `widths` to take `row` into account.
fn widen_widths(widths: &mut Vec<usize>, row: &Vec<String>)
    ensures
        nats(final(widths)@) == widen(nats(old(widths)@), texts(row@)),
{
    let ghost w0 = nats(widths@);
    let ghost cells = texts(row@);
    let mut idx: usize = 0;
    while idx < row.len()
        invariant
            idx <= row@.len(),
            cells == texts(row@),
            w0.len() == old(widths)@.len(),
            forall|t: int| 0 <= t < w0.len() ==> #[trigger] w0[t] == old(widths)@[t] as nat,
            widths@.len() == nat_max(w0.len(), idx as nat),
            forall|t: int|
                0 <= t < widths@.len() ==> #[trigger] widths@[t] as nat == nat_max(
                    if t < w0.len() {
                        w0[t]
                    } else {
                        0
                    },
                    if t < idx {
                        cells[t].len()
                    } else {
                        0
                    },
                ),
        decreases row@.len() - idx,
    {
        if idx >= widths.len() {
            widths.push(0);
        }
        let c = char_count(row[idx].as_str());
        if c > widths[idx] {
            widths.set(idx, c);
        }
        proof {
            assert(cells[idx as int] == row@[idx as int]@);
        }
        idx = idx + 1;
    }
    assert(nats(widths@) =~= widen(w0, cells));
}

/// A table with a header row, a rule and the given rows, each column as
/// wide as its widest cell.
pub fn render_table(headers: &[String], rows: &[Vec<String>]) -> (r: String)
    ensures
        r@ == table_text(texts(headers@), row_texts(rows@)),
{
    let ghost hs = texts(headers@);
    let ghost rs = row_texts(rows@);
    let mut widths: Vec<usize> = Vec::new();
    let mut h: usize = 0;
    while h < headers.len()
        invariant
            h <= headers@.len(),
            hs == texts(headers@),
            widths@.len() == h,
            forall|t: int| 0 <= t < h ==> #[trigger] widths@[t] as nat == hs[t].len(),
        decreases headers@.len() - h,
    {
        let c = char_count(headers[h].as_str());
        widths.push(c);
        proof {
            assert(hs[h as int] == headers@[h as int]@);
        }
        h = h + 1;
    }
    assert(nats(widths@) =~= hs.map_values(|x: Seq<char>| x.len()));
    assert(rs.take(0) =~= Seq::<Seq<Seq<char>>>::empty());
    let mut k: usize = 0;
    while k < rows.len()
        invariant
            k <= rows@.len(),
            hs == texts(headers@),
            rs == row_texts(rows@),
            nats(widths@) == table_widths(hs, rs.take(k as int)),
        decreases rows@.len() - k,
    {
        widen_widths(&mut widths, &rows[k]);
        proof {
            assert(rs.take(k + 1).drop_last() =~= rs.take(k as int));
            assert(rs.take(k + 1).last() == rs[k as int]);
        }
        k = k + 1;
    }
    assert(rs.take(k as int) =~= rs);
    let ghost ws = table_widths(hs, rs);
    proof {
        lemma_table_widths_cover(hs, rs);
    }
    let mut out = render_row(headers, widths.as_slice());
    push_str(&mut out, "\n");
    let sep = render_separator(widths.as_slice());
    push_str(&mut out, sep.as_str());
    let ghost head = out@;
    assert(head == row_text(hs, ws) + "\n"@ + separator_text(ws));
    let mut j: usize = 0;
    while j < rows.len()
        invariant
            j <= rows@.len(),
            rs == row_texts(rows@),
            nats(widths@) == ws,
            forall|t: int| 0 <= t < rs.len() ==> ws.len() >= (#[trigger] rs[t]).len(),
            out@ == head + rows_text(rs.take(j as int), ws),
        decreases rows@.len() - j,
    {
        push_str(&mut out, "\n");
        assert(rs[j as int].len() == rows@[j as int]@.len());
        let line = render_row(rows[j].as_slice(), widths.as_slice());
        push_str(&mut out, line.as_str());
        proof {
            assert(rs.take(j + 1).drop_last() =~= rs.take(j as int));
            assert(rs.take(j + 1).last() == rs[j as int]);
        }
        j = j + 1;
        assert(out@ =~= head + rows_text(rs.take(j as int), ws));
    }
    assert(rs.take(j as int) =~= rs);
    out
}

/// The longest cell text, in characters, before it is cut short.
pub const MAX_CELL_WIDTH: usize = 60;

/// The text with line breaks and tabs written as the two characters `\n`
/// and `\t`; a `\r\n` pair becomes a single `\n`.  (This is what replacing
/// `\r\n`, then `\n`, then `\t` does.)
pub open spec fn escape_breaks(s: Seq<char>) -> Seq<char>
    decreases s.len(),
{
    if s.len() == 0 {
        seq![]
    } else if s.len() >= 2 && s[0] == '\r' && s[1] == '\n' {
        seq!['\\', 'n'] + escape_breaks(s.subrange(2, s.len() as int))
    } else if s[0] == '\n' {
        seq!['\\', 'n'] + escape_breaks(s.drop_first())
    } else if s[0] == '\t' {
        seq!['\\', 't'] + escape_breaks(s.drop_first())
    } else {
        seq![s[0]] + escape_breaks(s.drop_first())
    }
}

/// Escaping leaves no line feed and no tab.
pub proof fn lemma_escape_breaks_clean(s: Seq<char>)
    ensures
        forall|i: int|
            0 <= i < escape_breaks(s).len() ==> escape_breaks(s)[i] != '\n' && escape_breaks(s)[i]
                != '\t',
    decreases s.len(),
{
    if s.len() > 0 {
        let rest = if s.len() >= 2 && s[0] == '\r' && s[1] == '\n' {
            s.subrange(2, s.len() as int)
        } else {
            s.drop_first()
        };
        lemma_escape_breaks_clean(rest);
        let head = escape_breaks(s).len() - escape_breaks(rest).len();
        assert forall|i: int| 0 <= i < escape_breaks(s).len() implies escape_breaks(s)[i] != '\n'
            && escape_breaks(s)[i] != '\t' by {
            if i >= head {
                assert(escape_breaks(s)[i] == escape_breaks(rest)[i - head]);
            }
        }
    }
}

/// A cell's text: line breaks and tabs escaped, and cut to its first
/// `MAX_CELL_WIDTH - 1` characters followed by `…` when longer than
/// `MAX_CELL_WIDTH`.
pub open spec fn sanitized(s: Seq<char>) -> Seq<char> {
    let e = escape_breaks(s);
    if e.len() <= MAX_CELL_WIDTH {
        e
    } else {
        e.take(MAX_CELL_WIDTH - 1).push('…')
    }
}

/// The text of a string cell in a table.
pub fn sanitize_cell(text: &str) -> (r: String)
    ensures
        r@ == sanitized(text@),
        r@.len() <= MAX_CELL_WIDTH,
        forall|i: int| 0 <= i < r@.len() ==> r@[i] != '\n' && r@[i] != '\t',
{
    proof {
        lemma_escape_breaks_clean(text@);
    }
    let cs = to_chars(text);
    let n = cs.len();
    let mut out: Vec<char> = Vec::new();
    let mut i: usize = 0;
    assert(cs@.subrange(0, n as int) =~= cs@);
    assert(out@ + escape_breaks(cs@) =~= escape_breaks(cs@));
    while i < n
        invariant
            n == cs@.len(),
            i <= n,
            escape_breaks(cs@) == out@ + escape_breaks(cs@.subrange(i as int, n as int)),
        decreases n - i,
    {
        let ghost rest = cs@.subrange(i as int, n as int);
        let ghost before = out@;
        if cs[i] == '\r' && i + 1 < n && cs[i + 1] == '\n' {
            out.push('\\');
            out.push('n');
            proof {
                assert(rest.subrange(2, rest.len() as int) =~= cs@.subrange(i + 2, n as int));
                assert(out@ =~= before + seq!['\\', 'n']);
            }
            i = i + 2;
        } else {
            let c = cs[i];
            if c == '\n' {
                out.push('\\');
                out.push('n');
                assert(out@ =~= before + seq!['\\', 'n']);
            } else if c == '\t' {
                out.push('\\');
                out.push('t');
                assert(out@ =~= before + seq!['\\', 't']);
            } else {
                out.push(c);
                assert(out@ =~= before + seq![c]);
            }
            proof {
                assert(rest.drop_first() =~= cs@.subrange(i + 1, n as int));
            }
            i = i + 1;
        }
    }
    assert(cs@.subrange(i as int, n as int) =~= Seq::<char>::empty());
    assert(out@ =~= escape_breaks(cs@));
    let mut r = String::new();
    let keep = if out.len() <= MAX_CELL_WIDTH {
        out.len()
    } else {
        MAX_CELL_WIDTH - 1
    };
    let mut j: usize = 0;
    while j < keep
        invariant
            keep <= out@.len(),
            j <= keep,
            r@ == out@.take(j as int),
        decreases keep - j,
    {
        r.push(out[j]);
        j = j + 1;
        assert(r@ =~= out@.take(j as int));
    }
    if out.len() > MAX_CELL_WIDTH {
        r.push('…');
    } else {
        assert(out@.take(j as int) =~= out@);
    }
    r
}

/// The compact text of a list in a table cell.
pub open spec fn list_cell_text(len: nat) -> Seq<char> {
    "["@ + decimal(len) + " item(s)]"@
}

/// The compact text of an object in a table cell.
pub open spec fn object_cell_text(len: nat) -> Seq<char> {
    if len == 0 {
        "{}"@
    } else {
        "{"@ + decimal(len) + " field(s)}"@
    }
}

/// The cell text of a list of `len` items.
pub fn list_cell(len: usize) -> (r: String)
    ensures
        r@ == list_cell_text(len as nat),
{
    let mut out = String::new();
    push_str(&mut out, "[");
    push_decimal(&mut out, len);
    push_str(&mut out, " item(s)]");
    assert(out@ =~= list_cell_text(len as nat));
    out
}

/// The cell text of an object of `len` fields.
pub fn object_cell(len: usize) -> (r: String)
    ensures
        r@ == object_cell_text(len as nat),
{
    let mut out = String::new();
    if len == 0 {
        push_str(&mut out, "{}");
    } else {
        push_str(&mut out, "{");
        push_decimal(&mut out, len);
        push_str(&mut out, " field(s)}");
    }
    assert(out@ =~= object_cell_text(len as nat));
    out
}

/// A two-column table of `#` (the position) and `value`.
pub open spec fn index_table_text(values: Seq<Seq<char>>) -> Seq<char> {
    table_text(seq!["#"@, "value"@], Seq::new(values.len(), |i: int| seq![decimal(i as nat), values[i]]))
}

/// The table of a list: each value's position and its cell text.
pub fn index_table(values: &[String]) -> (r: String)
    ensures
        r@ == index_table_text(texts(values@)),
{
    let mut headers: Vec<String> = Vec::new();
    headers.push(String::from_str("#"));
    headers.push(String::from_str("value"));
    let mut rows: Vec<Vec<String>> = Vec::new();
    let mut i: usize = 0;
    while i < values.len()
        invariant
            i <= values@.len(),
            rows@.len() == i,
            forall|t: int|
                0 <= t < i ==> #[trigger] texts(rows@[t]@) == seq![decimal(t as nat), values@[t]@],
        decreases values@.len() - i,
    {
        let mut row: Vec<String> = Vec::new();
        row.push(crate::text::decimal_string(i));
        row.push(values[i].clone());
        assert(texts(row@) =~= seq![decimal(i as nat), values@[i as int]@]);
        rows.push(row);
        i = i + 1;
    }
    assert(texts(headers@) =~= seq!["#"@, "value"@]);
    assert(row_texts(rows@) =~= Seq::new(
        texts(values@).len(),
        |t: int| seq![decimal(t as nat), texts(values@)[t]],
    ));
    render_table(headers.as_slice(), rows.as_slice())
}

/// A two-column table of `key` and `value`, one row per pair.
pub open spec fn key_value_table_text(pairs: Seq<(Seq<char>, Seq<char>)>) -> Seq<char> {
    table_text(seq!["key"@, "value"@], Seq::new(pairs.len(), |i: int| seq![pairs[i].0, pairs[i].1]))
}

/// The texts of some pairs of strings.
pub open spec fn pair_texts(v: Seq<(String, String)>) -> Seq<(Seq<char>, Seq<char>)> {
    v.map_values(|p: (String, String)| (p.0@, p.1@))
}

/// The table of an object: each key and its value's cell text.
pub fn key_value_table(pairs: &[(String, String)]) -> (r: String)
    ensures
        r@ == key_value_table_text(pair_texts(pairs@)),
{
    let mut headers: Vec<String> = Vec::new();
    headers.push(String::from_str("key"));
    headers.push(String::from_str("value"));
    let mut rows: Vec<Vec<String>> = Vec::new();
    let mut i: usize = 0;
    while i < pairs.len()
        invariant
            i <= pairs@.len(),
            rows@.len() == i,
            forall|t: int|
                0 <= t < i ==> #[trigger] texts(rows@[t]@) == seq![pairs@[t].0@, pairs@[t].1@],
        decreases pairs@.len() - i,
    {
        let mut row: Vec<String> = Vec::new();
        row.push(pairs[i].0.clone());
        row.push(pairs[i].1.clone());
        assert(texts(row@) =~= seq![pairs@[i as int].0@, pairs@[i as int].1@]);
        rows.push(row);
        i = i + 1;
    }
    assert(texts(headers@) =~= seq!["key"@, "value"@]);
    assert(row_texts(rows@) =~= Seq::new(
        pair_texts(pairs@).len(),
        |t: int| seq![pair_texts(pairs@)[t].0, pair_texts(pairs@)[t].1],
    ));
    render_table(headers.as_slice(), rows.as_slice())
}

// ---------------------------------------------------------------------------
// Lists and objects as tables
// ---------------------------------------------------------------------------

/// An item of a list shown as a table: a value already rendered as its cell
/// text, or an object given as its fields (each key with the cell text of
/// its value), in key order.
pub enum TableItem {
    Plain(String),
    Record(Vec<(String, String)>),
}

/// The fields of an item; a plain item has none.
pub open spec fn item_fields(it: TableItem) -> Seq<(Seq<char>, Seq<char>)> {
    match it {
        TableItem::Plain(_) => seq![],
        TableItem::Record(fs) => pair_texts(fs@),
    }
}

/// The cell text of an item in a list table.
pub open spec fn item_cell(it: TableItem) -> Seq<char> {
    match it {
        TableItem::Plain(s) => s@,
        TableItem::Record(fs) => object_cell_text(fs@.len()),
    }
}

/// Texts in strictly increasing order, so none occurs twice.
pub open spec fn strictly_sorted(s: Seq<Seq<char>>) -> bool {
    forall|i: int, j: int| 0 <= i < j < s.len() ==> text_lt(#[trigger] s[i], #[trigger] s[j])
}

/// Whether `key` is the key of a field of one of the records.
pub open spec fn has_key(records: Seq<Seq<(Seq<char>, Seq<char>)>>, key: Seq<char>) -> bool {
    exists|r: int, f: int|
        0 <= r < records.len() && 0 <= f < records[r].len() && (#[trigger] records[r][f]).0 == key
}

/// The columns of a table of records: every key of every record, once each,
/// in the order of `String`s.
pub open spec fn is_key_columns(records: Seq<Seq<(Seq<char>, Seq<char>)>>, cols: Seq<Seq<char>>) -> bool {
    &&& strictly_sorted(cols)
    &&& forall|k: Seq<char>| cols.contains(k) <==> has_key(records, k)
}

pub open spec fn key_columns(records: Seq<Seq<(Seq<char>, Seq<char>)>>) -> Seq<Seq<char>> {
    choose|cols: Seq<Seq<char>>| is_key_columns(records, cols)
}

/// Two strictly sorted sequences with the same elements are equal.
pub proof fn lemma_sorted_unique(a: Seq<Seq<char>>, b: Seq<Seq<char>>)
    requires
        strictly_sorted(a),
        strictly_sorted(b),
        forall|k: Seq<char>| a.contains(k) <==> b.contains(k),
    ensures
        a == b,
    decreases a.len(),
{
    if a.len() == 0 {
        if b.len() > 0 {
            assert(b.contains(b[0]));
        }
        assert(a =~= b);
    } else {
        assert(a.contains(a[0]));
        assert(b.contains(a[0]));
        assert(b.len() > 0);
        assert(b.contains(b[0]));
        assert(a.contains(b[0]));
        let i = choose|i: int| 0 <= i < a.len() && a[i] == b[0];
        let j = choose|j: int| 0 <= j < b.len() && b[j] == a[0];
        if a[0] != b[0] {
            assert(i > 0 && j > 0);
            assert(text_lt(a[0], a[i]));
            assert(text_lt(b[0], b[j]));
            lemma_text_lt_transitive(a[0], b[0], a[0]);
            lemma_text_lt_irreflexive(a[0]);
        }
        let a1 = a.drop_first();
        let b1 = b.drop_first();
        assert forall|k: Seq<char>| a1.contains(k) <==> b1.contains(k) by {
            if a1.contains(k) {
                let t = choose|t: int| 0 <= t < a1.len() && a1[t] == k;
                assert(a[t + 1] == k);
                assert(text_lt(a[0], a[t + 1]));
                lemma_text_lt_irreflexive(k);
                assert(b.contains(k));
                let u = choose|u: int| 0 <= u < b.len() && b[u] == k;
                assert(u != 0);
                assert(b1[u - 1] == k);
            }
            if b1.contains(k) {
                let t = choose|t: int| 0 <= t < b1.len() && b1[t] == k;
                assert(b[t + 1] == k);
                assert(text_lt(b[0], b[t + 1]));
                lemma_text_lt_irreflexive(k);
                assert(a.contains(k));
                let u = choose|u: int| 0 <= u < a.len() && a[u] == k;
                assert(u != 0);
                assert(a1[u - 1] == k);
            }
        }
        lemma_sorted_unique(a1, b1);
        assert(a =~= seq![a[0]] + a1);
        assert(b =~= seq![b[0]] + b1);
    }
}

/// Adds `key` to the sorted `cols` unless it is there already.
fn insert_key(cols: &mut Vec<String>, key: &String)
    requires
        strictly_sorted(texts(old(cols)@)),
    ensures
        strictly_sorted(texts(final(cols)@)),
        forall|k: Seq<char>|
            texts(final(cols)@).contains(k) <==> (texts(old(cols)@).contains(k) || k == key@),
{
    let ghost before = texts(cols@);
    let mut p: usize = 0;
    while p < cols.len() && text_less(cols[p].as_str(), key.as_str())
        invariant
            p <= cols@.len(),
            before == texts(cols@),
            forall|j: int| 0 <= j < p ==> text_lt(#[trigger] before[j], key@),
        decreases cols@.len() - p,
    {
        p = p + 1;
    }
    if p < cols.len() && crate::text::str_eq(cols[p].as_str(), key.as_str()) {
        assert(before[p as int] == key@);
        return;
    }
    proof {
        if p < before.len() {
            assert(!text_lt(before[p as int], key@));
            lemma_text_lt_total(before[p as int], key@);
        }
    }
    cols.insert(p, key.clone());
    let ghost after = texts(cols@);
    assert(after =~= before.insert(p as int, key@));
    proof {
        assert forall|i: int, j: int| 0 <= i < j < after.len() implies text_lt(
            #[trigger] after[i],
            #[trigger] after[j],
        ) by {
            if j < p {
                assert(after[i] == before[i] && after[j] == before[j]);
            } else if j == p {
                assert(after[i] == before[i]);
            } else if i == p {
                assert(after[j] == before[j - 1]);
                if j - 1 > p {
                    assert(text_lt(before[p as int], before[j - 1]));
                    lemma_text_lt_transitive(key@, before[p as int], before[j - 1]);
                }
            } else if i < p {
                assert(after[i] == before[i] && after[j] == before[j - 1]);
                assert(text_lt(before[i], key@));
                if j - 1 > p {
                    assert(text_lt(before[p as int], before[j - 1]));
                    lemma_text_lt_transitive(key@, before[p as int], before[j - 1]);
                }
                lemma_text_lt_transitive(before[i], key@, before[j - 1]);
            } else {
                assert(after[i] == before[i - 1] && after[j] == before[j - 1]);
            }
        }
        assert forall|k: Seq<char>| after.contains(k) <==> (before.contains(k) || k == key@) by {
            if after.contains(k) {
                let t = choose|t: int| 0 <= t < after.len() && after[t] == k;
                if t < p {
                    assert(before[t] == k);
                } else if t > p {
                    assert(before[t - 1] == k);
                }
            }
            if before.contains(k) {
                let t = choose|t: int| 0 <= t < before.len() && before[t] == k;
                if t < p {
                    assert(after[t] == k);
                } else {
                    assert(after[t + 1] == k);
                }
            }
            if k == key@ {
                assert(after[p as int] == k);
            }
        }
    }
}

/// The projection of items to their fields.
pub open spec fn items_fields(items: Seq<TableItem>) -> Seq<Seq<(Seq<char>, Seq<char>)>> {
    items.map_values(|it: TableItem| item_fields(it))
}

/// Whether `key` is the key of a field that comes before field `f` of item
/// `r` (items and fields taken in order).
pub open spec fn key_seen(records: Seq<Seq<(Seq<char>, Seq<char>)>>, r: int, f: int, key: Seq<char>) -> bool {
    exists|a: int, b: int|
        0 <= a < records.len() && 0 <= b < records[a].len() && (a < r || (a == r && b < f))
            && (#[trigger] records[a][b]).0 == key
}

/// The columns of a table of the items' fields.
pub fn object_columns(items: &[TableItem]) -> (r: Vec<String>)
    ensures
        is_key_columns(items_fields(items@), texts(r@)),
        texts(r@) == key_columns(items_fields(items@)),
{
    let ghost recs = items_fields(items@);
    let mut cols: Vec<String> = Vec::new();
    let mut r: usize = 0;
    while r < items.len()
        invariant
            r <= items@.len(),
            recs == items_fields(items@),
            strictly_sorted(texts(cols@)),
            forall|k: Seq<char>| texts(cols@).contains(k) <==> key_seen(recs, r as int, 0, k),
        decreases items@.len() - r,
    {
        match &items[r] {
            TableItem::Plain(_) => {
                proof {
                    assert forall|k: Seq<char>| key_seen(recs, r as int, 0, k) <==> key_seen(
                        recs,
                        r + 1,
                        0,
                        k,
                    ) by {
                        if key_seen(recs, r + 1, 0, k) {
                            let (a, b) = choose|a: int, b: int|
                                0 <= a < recs.len() && 0 <= b < recs[a].len() && (a < r + 1 || (a
                                    == r + 1 && b < 0)) && (#[trigger] recs[a][b]).0 == k;
                            assert(a != r);
                        }
                    }
                }
            },
            TableItem::Record(fields) => {
                let mut f: usize = 0;
                while f < fields.len()
                    invariant
                        r < items@.len(),
                        items@[r as int] == TableItem::Record(*fields),
                        recs == items_fields(items@),
                        f <= fields@.len(),
                        strictly_sorted(texts(cols@)),
                        forall|k: Seq<char>|
                            texts(cols@).contains(k) <==> key_seen(recs, r as int, f as int, k),
                    decreases fields@.len() - f,
                {
                    let ghost old_cols = texts(cols@);
                    insert_key(&mut cols, &fields[f].0);
                    proof {
                        assert(recs[r as int] == pair_texts(fields@));
                        assert(recs[r as int][f as int].0 == fields@[f as int].0@);
                        assert forall|k: Seq<char>| texts(cols@).contains(k) <==> key_seen(
                            recs,
                            r as int,
                            f + 1,
                            k,
                        ) by {
                            if key_seen(recs, r as int, f + 1, k) {
                                let (a, b) = choose|a: int, b: int|
                                    0 <= a < recs.len() && 0 <= b < recs[a].len() && (a < r || (a
                                        == r && b < f + 1)) && (#[trigger] recs[a][b]).0 == k;
                                if !(a == r && b == f) {
                                    assert(key_seen(recs, r as int, f as int, k));
                                }
                            }
                            if k == fields@[f as int].0@ {
                                assert(recs[r as int][f as int].0 == k);
                            }
                        }
                    }
                    f = f + 1;
                }
                proof {
                    assert(recs[r as int].len() == fields@.len());
                    assert forall|k: Seq<char>| key_seen(recs, r as int, f as int, k) <==> key_seen(
                        recs,
                        r + 1,
                        0,
                        k,
                    ) by {
                        if key_seen(recs, r + 1, 0, k) {
                            let (a, b) = choose|a: int, b: int|
                                0 <= a < recs.len() && 0 <= b < recs[a].len() && (a < r + 1 || (a
                                    == r + 1 && b < 0)) && (#[trigger] recs[a][b]).0 == k;
                            assert(key_seen(recs, r as int, f as int, k));
                        }
                    }
                }
            },
        }
        r = r + 1;
    }
    proof {
        assert forall|k: Seq<char>| key_seen(recs, r as int, 0, k) <==> has_key(recs, k) by {
            if has_key(recs, k) {
                let (a, b) = choose|a: int, b: int|
                    0 <= a < recs.len() && 0 <= b < recs[a].len() && (#[trigger] recs[a][b]).0 == k;
                assert(key_seen(recs, r as int, 0, k));
            }
        }
        let c = texts(cols@);
        assert(is_key_columns(recs, c));
        let d = key_columns(recs);
        lemma_sorted_unique(c, d);
    }
    cols
}

/// The cell text of the first field of `fields` with key `key`, or an empty
/// text when there is none.
pub open spec fn field_value(fields: Seq<(Seq<char>, Seq<char>)>, key: Seq<char>) -> Seq<char>
    decreases fields.len(),
{
    if fields.len() == 0 {
        seq![]
    } else if fields[0].0 == key {
        fields[0].1
    } else {
        field_value(fields.drop_first(), key)
    }
}

/// The cell of an item under the column `key`.
fn field_cell(item: &TableItem, key: &String) -> (r: String)
    ensures
        r@ == field_value(item_fields(*item), key@),
{
    match item {
        TableItem::Plain(_) => String::new(),
        TableItem::Record(fields) => {
            let ghost all = pair_texts(fields@);
            assert(item_fields(*item) == all);
            let mut j: usize = 0;
            assert(all.skip(0) =~= all);
            while j < fields.len()
                invariant
                    j <= fields@.len(),
                    all == pair_texts(fields@),
                    item_fields(*item) == all,
                    field_value(all, key@) == field_value(all.skip(j as int), key@),
                decreases fields@.len() - j,
            {
                proof {
                    assert(all.skip(j as int)[0] == all[j as int]);
                    assert(all.skip(j as int).drop_first() =~= all.skip(j + 1));
                }
                if crate::text::str_eq(fields[j].0.as_str(), key.as_str()) {
                    assert(all[j as int] == (fields@[j as int].0@, fields@[j as int].1@));
                    let v = fields[j].1.clone();
                    assert(v@ == field_value(all.skip(j as int), key@));
                    return v;
                }
                j = j + 1;
            }
            assert(all.skip(j as int) =~= Seq::<(Seq<char>, Seq<char>)>::empty());
            String::new()
        },
    }
}

/// A table with one column per key of the records, in the order of
/// `String`s, and one row per record holding the cell texts of its fields
/// (empty where a record lacks a key).
pub open spec fn object_rows_text(records: Seq<Seq<(Seq<char>, Seq<char>)>>) -> Seq<char> {
    let cols = key_columns(records);
    table_text(
        cols,
        Seq::new(
            records.len(),
            |r: int| Seq::new(cols.len(), |c: int| field_value(records[r], cols[c])),
        ),
    )
}

/// The table of a list of objects; plain items count as objects without
/// fields.
pub fn object_rows_table(items: &[TableItem]) -> (r: String)
    ensures
        r@ == object_rows_text(items_fields(items@)),
{
    let ghost recs = items_fields(items@);
    let headers = object_columns(items);
    let ghost cols = texts(headers@);
    let mut rows: Vec<Vec<String>> = Vec::new();
    let mut i: usize = 0;
    while i < items.len()
        invariant
            i <= items@.len(),
            recs == items_fields(items@),
            cols == texts(headers@),
            rows@.len() == i,
            forall|t: int|
                0 <= t < i ==> #[trigger] texts(rows@[t]@) == Seq::new(
                    cols.len(),
                    |c: int| field_value(recs[t], cols[c]),
                ),
        decreases items@.len() - i,
    {
        let mut row: Vec<String> = Vec::new();
        let mut c: usize = 0;
        while c < headers.len()
            invariant
                i < items@.len(),
                recs == items_fields(items@),
                cols == texts(headers@),
                c <= headers@.len(),
                row@.len() == c,
                forall|u: int| 0 <= u < c ==> #[trigger] row@[u]@ == field_value(recs[i as int], cols[u]),
            decreases headers@.len() - c,
        {
            let cell = field_cell(&items[i], &headers[c]);
            row.push(cell);
            c = c + 1;
        }
        assert(texts(row@) =~= Seq::new(cols.len(), |u: int| field_value(recs[i as int], cols[u])));
        rows.push(row);
        i = i + 1;
    }
    assert(row_texts(rows@) =~= Seq::new(
        recs.len(),
        |t: int| Seq::new(cols.len(), |u: int| field_value(recs[t], cols[u])),
    ));
    render_table(headers.as_slice(), rows.as_slice())
}

/// Whether every item is an object.
pub open spec fn all_records(items: Seq<TableItem>) -> bool {
    forall|i: int| 0 <= i < items.len() ==> #[trigger] items[i] is Record
}

/// How a list is shown: `[]` when empty, a table of the objects' fields
/// when every item is an object, and otherwise a table of each item's
/// position and cell text.
pub open spec fn list_table_text(items: Seq<TableItem>) -> Seq<char> {
    if items.len() == 0 {
        "[]"@
    } else if all_records(items) {
        object_rows_text(items_fields(items))
    } else {
        index_table_text(items.map_values(|it: TableItem| item_cell(it)))
    }
}

/// The text of a list value.
pub fn format_list(items: &[TableItem]) -> (r: String)
    ensures
        r@ == list_table_text(items@),
{
    if items.len() == 0 {
        let mut out = String::new();
        push_str(&mut out, "[]");
        assert(out@ =~= "[]"@);
        return out;
    }
    let mut all = true;
    let mut i: usize = 0;
    while i < items.len()
        invariant
            i <= items@.len(),
            all == (forall|t: int| 0 <= t < i ==> #[trigger] items@[t] is Record),
        decreases items@.len() - i,
    {
        match &items[i] {
            TableItem::Plain(_) => {
                all = false;
            },
            TableItem::Record(_) => {},
        }
        i = i + 1;
    }
    if all {
        return object_rows_table(items);
    }
    let mut cells: Vec<String> = Vec::new();
    let mut j: usize = 0;
    while j < items.len()
        invariant
            j <= items@.len(),
            cells@.len() == j,
            forall|t: int| 0 <= t < j ==> #[trigger] cells@[t]@ == item_cell(items@[t]),
        decreases items@.len() - j,
    {
        let cell = match &items[j] {
            TableItem::Plain(text) => text.clone(),
            TableItem::Record(fields) => object_cell(fields.len()),
        };
        cells.push(cell);
        j = j + 1;
    }
    assert(texts(cells@) =~= items@.map_values(|it: TableItem| item_cell(it)));
    index_table(cells.as_slice())
}

} // verus!
