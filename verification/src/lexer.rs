//! The lexer: turns a source text into tokens and lexical diagnostics.
//!
//! Spans are byte offsets into the UTF-8 encoding of the source.  The token
//! grammar is stated by `lex_step`, which describes the token (if any) that
//! starts at a character position and where it ends; `spec_lex` applies it
//! from the start of the text and closes the stream with `Eof`.
use vstd::prelude::*;

use crate::diagnostic::{diag, Diagnostic, DiagnosticKind, DiagnosticView};
use crate::source::{SourceId, Span};
use crate::text::{
    byte_len, byte_offset, char_width, lemma_byte_offset_mono, lemma_byte_offset_step,
    lemma_byte_offset_strict, lemma_byte_offset_zero, to_chars,
};
use crate::token::{LexedFile, Token, TokenKind};

verus! {

broadcast use crate::source::group_text_range;

// ---------------------------------------------------------------------------
// Character classes
// ---------------------------------------------------------------------------

pub open spec fn is_digit(c: char) -> bool {
    '0' <= c && c <= '9'
}

pub open spec fn is_ident_start(c: char) -> bool {
    ('a' <= c && c <= 'z') || ('A' <= c && c <= 'Z') || c == '_'
}

pub open spec fn is_ident_char(c: char) -> bool {
    is_ident_start(c) || is_digit(c)
}

/// Whether position `i` of `cs` holds `c`.
pub open spec fn char_is(cs: Seq<char>, i: int, c: char) -> bool {
    0 <= i < cs.len() && cs[i] == c
}

/// The character at position `i`, if any.
pub open spec fn char_at(cs: Seq<char>, i: int) -> Option<char> {
    if 0 <= i < cs.len() {
        Some(cs[i])
    } else {
        None
    }
}

// ---------------------------------------------------------------------------
// Scanning
// ---------------------------------------------------------------------------

/// First position at or after `i` that is not a blank (space or tab).
pub open spec fn skip_blank(cs: Seq<char>, i: nat) -> nat
    decreases cs.len() - i,
{
    if i < cs.len() && (cs[i as int] == ' ' || cs[i as int] == '\t') {
        skip_blank(cs, i + 1)
    } else {
        i
    }
}

/// First position at or after `i` that is not a decimal digit.
pub open spec fn skip_digits(cs: Seq<char>, i: nat) -> nat
    decreases cs.len() - i,
{
    if i < cs.len() && is_digit(cs[i as int]) {
        skip_digits(cs, i + 1)
    } else {
        i
    }
}

/// First position at or after `i` that is not an identifier character.
pub open spec fn skip_ident(cs: Seq<char>, i: nat) -> nat
    decreases cs.len() - i,
{
    if i < cs.len() && is_ident_char(cs[i as int]) {
        skip_ident(cs, i + 1)
    } else {
        i
    }
}

/// First position at or after `i` that holds a line break (or the end).
pub open spec fn skip_to_eol(cs: Seq<char>, i: nat) -> nat
    decreases cs.len() - i,
{
    if i < cs.len() && cs[i as int] != '\r' && cs[i as int] != '\n' {
        skip_to_eol(cs, i + 1)
    } else {
        i
    }
}

/// End of a string literal whose body starts at `i`, and whether the closing
/// delimiter was found.  A backslash escapes the next character; a line break
/// or the end of the text leaves the literal unterminated.
pub open spec fn string_end(cs: Seq<char>, delim: char, i: nat) -> (nat, bool)
    decreases cs.len() - i,
{
    if i >= cs.len() {
        (i, false)
    } else if cs[i as int] == delim {
        ((i + 1) as nat, true)
    } else if cs[i as int] == '\\' {
        if i + 1 < cs.len() {
            string_end(cs, delim, i + 2)
        } else {
            ((i + 1) as nat, false)
        }
    } else if cs[i as int] == '\r' || cs[i as int] == '\n' {
        (i, false)
    } else {
        string_end(cs, delim, i + 1)
    }
}

pub proof fn lemma_skip_bounds(cs: Seq<char>, i: nat)
    requires
        i <= cs.len(),
    ensures
        i <= skip_blank(cs, i) <= cs.len(),
        i <= skip_digits(cs, i) <= cs.len(),
        i <= skip_ident(cs, i) <= cs.len(),
        i <= skip_to_eol(cs, i) <= cs.len(),
    decreases cs.len() - i,
{
    if i < cs.len() {
        lemma_skip_bounds(cs, i + 1);
    }
}

pub proof fn lemma_string_end_bounds(cs: Seq<char>, delim: char, i: nat)
    requires
        i <= cs.len(),
    ensures
        i <= string_end(cs, delim, i).0 <= cs.len(),
    decreases cs.len() - i,
{
    if i < cs.len() {
        if cs[i as int] == delim {
        } else if cs[i as int] == '\\' {
            if i + 1 < cs.len() {
                lemma_string_end_bounds(cs, delim, i + 2);
            }
        } else if cs[i as int] == '\r' || cs[i as int] == '\n' {
        } else {
            lemma_string_end_bounds(cs, delim, i + 1);
        }
    }
}

// ---------------------------------------------------------------------------
// One lexing step
// ---------------------------------------------------------------------------

/// What the lexer does at one position: where it continues, the token it
/// emits (if any) and the diagnostics it reports.
pub struct LexStep {
    pub end: nat,
    pub kind: Option<TokenKind>,
    pub diags: Seq<DiagnosticView>,
}

/// The span of `sid` from character position `i` to `j`.
pub open spec fn span_at(cs: Seq<char>, sid: SourceId, i: int, j: int) -> Span {
    Span::spec_new(sid, byte_offset(cs, i) as usize, byte_offset(cs, j) as usize)
}

/// Keyword or identifier kind of an identifier-shaped word.
pub open spec fn keyword_kind(word: Seq<char>) -> TokenKind {
    if word == seq!['l', 'e', 't'] {
        TokenKind::Let
    } else if word == seq!['f', 'n'] {
        TokenKind::Fn
    } else if word == seq!['r', 'e', 't', 'u', 'r', 'n'] {
        TokenKind::Return
    } else if word == seq!['t', 'r', 'u', 'e'] {
        TokenKind::True
    } else if word == seq!['f', 'a', 'l', 's', 'e'] {
        TokenKind::False
    } else {
        TokenKind::Identifier
    }
}

/// Tokens made of exactly one character, whatever follows it.
pub open spec fn single_char_kind(c: char) -> Option<TokenKind> {
    if c == '(' {
        Some(TokenKind::LeftParen)
    } else if c == ')' {
        Some(TokenKind::RightParen)
    } else if c == '{' {
        Some(TokenKind::LeftBrace)
    } else if c == '}' {
        Some(TokenKind::RightBrace)
    } else if c == '[' {
        Some(TokenKind::LeftBracket)
    } else if c == ']' {
        Some(TokenKind::RightBracket)
    } else if c == ',' {
        Some(TokenKind::Comma)
    } else if c == ':' {
        Some(TokenKind::Colon)
    } else if c == '.' {
        Some(TokenKind::Dot)
    } else if c == '@' {
        Some(TokenKind::At)
    } else if c == '$' {
        Some(TokenKind::Dollar)
    } else if c == ';' {
        Some(TokenKind::StatementEnd)
    } else if c == '+' {
        Some(TokenKind::Plus)
    } else if c == '-' {
        Some(TokenKind::Minus)
    } else if c == '%' {
        Some(TokenKind::Percent)
    } else if c == '~' {
        Some(TokenKind::Tilde)
    } else if c == '^' {
        Some(TokenKind::Caret)
    } else {
        None
    }
}

/// Operators of one or two characters: the kind when the first character is
/// followed by `next`, or `None` when `c` starts no such operator.  The
/// second component tells whether `next` belongs to the token.
pub open spec fn operator_kind(c: char, next: Option<char>) -> Option<(TokenKind, bool)> {
    if c == '*' {
        if next == Some('*') {
            Some((TokenKind::Power, true))
        } else {
            Some((TokenKind::Star, false))
        }
    } else if c == '|' {
        if next == Some('>') {
            Some((TokenKind::PipeForward, true))
        } else if next == Some('|') {
            Some((TokenKind::PipePipe, true))
        } else {
            Some((TokenKind::Pipe, false))
        }
    } else if c == '&' {
        if next == Some('&') {
            Some((TokenKind::AmpersandAmpersand, true))
        } else {
            Some((TokenKind::Ampersand, false))
        }
    } else if c == '=' {
        if next == Some('>') {
            Some((TokenKind::FatArrow, true))
        } else if next == Some('=') {
            Some((TokenKind::EqualEqual, true))
        } else {
            Some((TokenKind::Assign, false))
        }
    } else if c == '!' {
        if next == Some('=') {
            Some((TokenKind::BangEqual, true))
        } else {
            Some((TokenKind::Bang, false))
        }
    } else if c == '>' {
        if next == Some('=') {
            Some((TokenKind::GreaterEqual, true))
        } else if next == Some('>') {
            Some((TokenKind::ShiftRight, true))
        } else {
            Some((TokenKind::Greater, false))
        }
    } else if c == '<' {
        if next == Some('=') {
            Some((TokenKind::LessEqual, true))
        } else if next == Some('<') {
            Some((TokenKind::ShiftLeft, true))
        } else {
            Some((TokenKind::Less, false))
        }
    } else if c == '/' {
        Some((TokenKind::Slash, false))
    } else {
        None
    }
}

/// The message reported for a character that starts no token.
pub open spec fn unexpected_message(c: char) -> Seq<char> {
    seq!['u', 'n', 'e', 'x', 'p', 'e', 'c', 't', 'e', 'd', ' ', 'c', 'h', 'a', 'r', 'a', 'c', 't', 'e', 'r', ' ', '`']
        + seq![c] + seq!['`']
}

/// The number token starting with the digit at `i`: an integer, or a float
/// when the digits are followed by `.` and a digit; letters glued to the end
/// belong to the token and make it invalid.
pub open spec fn number_step(cs: Seq<char>, sid: SourceId, i: nat) -> LexStep {
    let j = skip_digits(cs, i);
    let is_float = char_is(cs, j as int, '.') && j + 1 < cs.len() && is_digit(cs[j + 1 as int]);
    let k = if is_float {
        skip_digits(cs, j + 1)
    } else {
        j
    };
    let bad_suffix = k < cs.len() && is_ident_start(cs[k as int]);
    let end = if bad_suffix {
        skip_ident(cs, k)
    } else {
        k
    };
    LexStep {
        end,
        kind: Some(
            if is_float {
                TokenKind::Float
            } else {
                TokenKind::Integer
            },
        ),
        diags: if bad_suffix {
            seq![diag(DiagnosticKind::InvalidNumber, span_at(cs, sid, i as int, end as int), "invalid number literal"@)]
        } else {
            seq![]
        },
    }
}

/// The string literal opened by the delimiter at `i`.
pub open spec fn string_step(cs: Seq<char>, sid: SourceId, i: nat) -> LexStep {
    let (end, terminated) = string_end(cs, cs[i as int], i + 1);
    LexStep {
        end,
        kind: Some(TokenKind::String),
        diags: if terminated {
            seq![]
        } else {
            seq![diag(DiagnosticKind::UnterminatedString, span_at(cs, sid, i as int, end as int), "unterminated string literal"@)]
        },
    }
}

/// The step the lexer takes at position `i` (which must be inside `cs`).
#[verifier::opaque]
pub open spec fn lex_step(cs: Seq<char>, sid: SourceId, i: nat) -> LexStep {
    let c = cs[i as int];
    let next = char_at(cs, i + 1 as int);
    if c == ' ' || c == '\t' {
        LexStep { end: skip_blank(cs, i), kind: None, diags: seq![] }
    } else if c == '\r' || c == '\n' {
        let j: nat = if c == '\r' {
            i + 1
        } else {
            i
        };
        let k: nat = if char_is(cs, j as int, '\n') {
            j + 1
        } else {
            j
        };
        LexStep { end: k, kind: Some(TokenKind::StatementEnd), diags: seq![] }
    } else if c == '#' {
        LexStep { end: skip_to_eol(cs, i + 1), kind: Some(TokenKind::Comment), diags: seq![] }
    } else if c == '/' && next == Some('/') {
        LexStep { end: skip_to_eol(cs, i + 2), kind: Some(TokenKind::Comment), diags: seq![] }
    } else if c == '"' || c == '\'' {
        string_step(cs, sid, i)
    } else if is_digit(c) {
        number_step(cs, sid, i)
    } else if is_ident_start(c) {
        let end = skip_ident(cs, i);
        LexStep {
            end,
            kind: Some(keyword_kind(cs.subrange(i as int, end as int))),
            diags: seq![],
        }
    } else if single_char_kind(c) is Some {
        LexStep { end: i + 1, kind: single_char_kind(c), diags: seq![] }
    } else if operator_kind(c, next) is Some {
        let (kind, two) = operator_kind(c, next).unwrap();
        LexStep {
            end: if two {
                (i + 2) as nat
            } else {
                i + 1
            },
            kind: Some(kind),
            diags: seq![],
        }
    } else {
        LexStep {
            end: i + 1,
            kind: None,
            diags: seq![diag(DiagnosticKind::UnexpectedCharacter, span_at(cs, sid, i as int, i + 1 as int), unexpected_message(c))],
        }
    }
}

/// Every step moves forward and stays inside the text.
pub proof fn lemma_step_progress(cs: Seq<char>, sid: SourceId, i: nat)
    requires
        i < cs.len(),
    ensures
        i < lex_step(cs, sid, i).end <= cs.len(),
{
    reveal(lex_step);    let c = cs[i as int];
    lemma_skip_bounds(cs, i);
    lemma_skip_bounds(cs, i + 1);
    if i + 2 <= cs.len() {
        lemma_skip_bounds(cs, (i + 2) as nat);
    }
    if c == '"' || c == '\'' {
        lemma_string_end_bounds(cs, c, i + 1);
    }
    if is_digit(c) {
        let j = skip_digits(cs, i);
        lemma_skip_bounds(cs, j);
        if j + 1 <= cs.len() {
            lemma_skip_bounds(cs, j + 1);
        }
        if j + 1 < cs.len() {
            lemma_skip_bounds(cs, skip_digits(cs, j + 1));
        }
    }
}

/// The tokens emitted by a step.
pub open spec fn step_tokens(cs: Seq<char>, sid: SourceId, i: nat, st: LexStep) -> Seq<Token> {
    match st.kind {
        Some(kind) => seq![Token { kind, span: span_at(cs, sid, i as int, st.end as int) }],
        None => seq![],
    }
}

/// The end-of-input token.
pub open spec fn eof_token(cs: Seq<char>, sid: SourceId) -> Token {
    Token { kind: TokenKind::Eof, span: span_at(cs, sid, cs.len() as int, cs.len() as int) }
}

/// Tokens and diagnostics produced from position `i` to the end.
pub open spec fn lex_from(cs: Seq<char>, sid: SourceId, i: nat) -> (Seq<Token>, Seq<DiagnosticView>)
    decreases cs.len() - i,
{
    if i >= cs.len() {
        (seq![eof_token(cs, sid)], seq![])
    } else {
        let st = lex_step(cs, sid, i);
        proof {
            lemma_step_progress(cs, sid, i);
        }
        let rest = lex_from(cs, sid, st.end);
        (step_tokens(cs, sid, i, st) + rest.0, st.diags + rest.1)
    }
}

/// Tokens and diagnostics of a whole source text.
pub open spec fn spec_lex(cs: Seq<char>, sid: SourceId) -> (Seq<Token>, Seq<DiagnosticView>) {
    lex_from(cs, sid, 0)
}

/// Character positions of the tokens emitted by a step.
pub open spec fn step_positions(i: nat, st: LexStep) -> Seq<(nat, nat)> {
    match st.kind {
        Some(_) => seq![(i, st.end)],
        None => seq![],
    }
}

/// Character positions of the tokens produced from position `i` to the end.
pub open spec fn lex_positions_from(cs: Seq<char>, sid: SourceId, i: nat) -> Seq<(nat, nat)>
    decreases cs.len() - i,
{
    if i >= cs.len() {
        seq![(cs.len(), cs.len())]
    } else {
        let st = lex_step(cs, sid, i);
        proof {
            lemma_step_progress(cs, sid, i);
        }
        step_positions(i, st) + lex_positions_from(cs, sid, st.end)
    }
}

/// Pairs of machine integers as pairs of naturals.
pub open spec fn pos_view(v: Seq<(usize, usize)>) -> Seq<(nat, nat)> {
    v.map_values(|p: (usize, usize)| (p.0 as nat, p.1 as nat))
}

/// Views of a sequence of diagnostics.
pub open spec fn diag_views(v: Seq<Diagnostic>) -> Seq<DiagnosticView> {
    v.map_values(|d: Diagnostic| d@)
}

// ---------------------------------------------------------------------------
// The executable lexer
// ---------------------------------------------------------------------------

/// Lexes `source`, identified by `source_id`.
pub fn lex(source: &str, source_id: SourceId) -> (r: LexedFile)
    requires
        byte_len(source@) <= usize::MAX,
    ensures
        r.view_parts() == spec_lex(source@, source_id),
{
    lex_with_positions(source, source_id).0
}

/// Lexes `source` and also returns the character positions `start..end` of
/// every token (the parser reads token texts through them).
pub fn lex_with_positions(source: &str, source_id: SourceId) -> (r: (LexedFile, Vec<(usize, usize)>))
    requires
        byte_len(source@) <= usize::MAX,
    ensures
        r.0.view_parts() == spec_lex(source@, source_id),
        pos_view(r.1@) == lex_positions_from(source@, source_id, 0),
{
    Lexer::new(source, source_id).lex_all()
}

struct Lexer {
    cs: Vec<char>,
    source_id: SourceId,
    pos: usize,
    offset: usize,
    tokens: Vec<Token>,
    diagnostics: Vec<Diagnostic>,
    /// Character positions `start..end` of each emitted token.
    positions: Vec<(usize, usize)>,
    /// Character position where the current step started.
    tok_start: usize,
}

impl Lexer {
    spec fn wf(self) -> bool {
        &&& self.pos <= self.cs@.len()
        &&& self.offset == byte_offset(self.cs@, self.pos as int)
        &&& byte_len(self.cs@) <= usize::MAX
    }

    /// The token emitted by a step, with its diagnostics, appended.
    spec fn stepped(self, old: Lexer, st: LexStep) -> bool {
        &&& self.wf()
        &&& self.cs == old.cs
        &&& self.source_id == old.source_id
        &&& self.pos == st.end
        &&& self.tokens@ == old.tokens@ + step_tokens(
            old.cs@,
            old.source_id,
            old.pos as nat,
            st,
        )
        &&& diag_views(self.diagnostics@) == diag_views(old.diagnostics@) + st.diags
        &&& pos_view(self.positions@) == pos_view(old.positions@) + step_positions(
            old.pos as nat,
            st,
        )
    }

    fn new(source: &str, source_id: SourceId) -> (r: Self)
        requires
            byte_len(source@) <= usize::MAX,
        ensures
            r.wf(),
            r.cs@ == source@,
            r.source_id == source_id,
            r.pos == 0,
            r.tokens@.len() == 0,
            r.diagnostics@.len() == 0,
            r.positions@.len() == 0,
    {
        let cs = to_chars(source);
        proof {
            lemma_byte_offset_zero(cs@);
        }
        Self {
            cs,
            source_id,
            pos: 0,
            offset: 0,
            tokens: Vec::new(),
            diagnostics: Vec::new(),
            positions: Vec::new(),
            tok_start: 0,
        }
    }

    fn lex_all(self) -> (r: (LexedFile, Vec<(usize, usize)>))
        requires
            self.wf(),
            self.pos == 0,
            self.tokens@.len() == 0,
            self.diagnostics@.len() == 0,
            self.positions@.len() == 0,
        ensures
            r.0.view_parts() == spec_lex(self.cs@, self.source_id),
            pos_view(r.1@) == lex_positions_from(self.cs@, self.source_id, 0),
    {
        let mut lx = self;
        let ghost cs = lx.cs@;
        let ghost sid = lx.source_id;
        assert(diag_views(lx.diagnostics@) =~= Seq::<DiagnosticView>::empty());
        assert(pos_view(lx.positions@) =~= Seq::<(nat, nat)>::empty());
        while lx.pos < lx.cs.len()
            invariant
                lx.wf(),
                lx.cs@ == cs,
                lx.source_id == sid,
                lx.tokens@ + lex_from(cs, sid, lx.pos as nat).0 == spec_lex(cs, sid).0,
                diag_views(lx.diagnostics@) + lex_from(cs, sid, lx.pos as nat).1 == spec_lex(
                    cs,
                    sid,
                ).1,
                pos_view(lx.positions@) + lex_positions_from(cs, sid, lx.pos as nat)
                    == lex_positions_from(cs, sid, 0),
            decreases cs.len() - lx.pos,
        {
            let ghost old_lx = lx;
            let ghost st = lex_step(cs, sid, lx.pos as nat);
            proof {
                lemma_step_progress(cs, sid, lx.pos as nat);
            }
            lx.lex_one();
            proof {
                let rest = lex_from(cs, sid, st.end);
                assert(lex_from(cs, sid, old_lx.pos as nat) == (step_tokens(
                    cs,
                    sid,
                    old_lx.pos as nat,
                    st,
                ) + rest.0, st.diags + rest.1));
                assert(lx.tokens@ + rest.0 =~= old_lx.tokens@ + lex_from(
                    cs,
                    sid,
                    old_lx.pos as nat,
                ).0);
                assert(diag_views(lx.diagnostics@) + rest.1 =~= diag_views(old_lx.diagnostics@)
                    + lex_from(cs, sid, old_lx.pos as nat).1);
                assert(pos_view(lx.positions@) + lex_positions_from(cs, sid, st.end)
                    =~= pos_view(old_lx.positions@) + lex_positions_from(cs, sid, old_lx.pos as nat));
            }
        }
        let eof = Token::new(TokenKind::Eof, Span::new(lx.source_id, lx.offset, lx.offset));
        lx.tokens.push(eof);
        lx.positions.push((lx.pos, lx.pos));
        proof {
            assert(lx.offset == byte_offset(cs, cs.len() as int));
            assert(lex_from(cs, sid, lx.pos as nat) == (seq![eof_token(cs, sid)], Seq::<
                DiagnosticView,
            >::empty()));
            assert(lx.tokens@ =~= spec_lex(cs, sid).0);
            assert(diag_views(lx.diagnostics@) =~= spec_lex(cs, sid).1);
            assert(pos_view(lx.positions@) =~= lex_positions_from(cs, sid, 0));
        }
        (LexedFile::new(lx.tokens, lx.diagnostics), lx.positions)
    }

    /// Takes one lexing step at the current position.
    fn lex_one(&mut self)
        requires
            old(self).wf(),
            old(self).pos < old(self).cs@.len(),
        ensures
            final(self).stepped(
                *old(self),
                lex_step(old(self).cs@, old(self).source_id, old(self).pos as nat),
            ),
    {
        proof {
            reveal(lex_step);
        }        let ghost cs = self.cs@;
        let ghost sid = self.source_id;
        let ghost i = self.pos as nat;
        self.tok_start = self.pos;
        let start = self.offset;
        let ch = self.cs[self.pos];
        let next = self.peek_next_char();
        if ch == ' ' || ch == '\t' {
            self.skip_whitespace();
        } else if ch == '\r' || ch == '\n' {
            self.lex_statement_end(start);
        } else if ch == '#' {
            self.lex_comment(start);
        } else if ch == '/' && next == Some('/') {
            self.lex_comment(start);
        } else if ch == '"' || ch == '\'' {
            self.lex_string(start);
        } else if '0' <= ch && ch <= '9' {
            self.lex_number(start);
        } else if ('a' <= ch && ch <= 'z') || ('A' <= ch && ch <= 'Z') || ch == '_' {
            self.lex_identifier(start);
        } else if let Some(kind) = single_char_token(ch) {
            self.bump_single(kind);
        } else if let Some((kind, two)) = operator_token(ch, next) {
            self.bump_char();
            if two {
                self.bump_char();
            }
            self.push_token(kind, start, self.offset);
        } else {
            self.bump_char();
            let span = Span::new(self.source_id, start, self.offset);
            let mut message = String::new();
            message.append("unexpected character `");
            message.push(ch);
            message.push('`');
            proof {
                reveal_strlit("unexpected character `");
                assert(message@ =~= unexpected_message(ch));
            }
            self.diagnostics.push(
                Diagnostic::with_message(DiagnosticKind::UnexpectedCharacter, span, message),
            );
            assert(diag_views(self.diagnostics@) =~= diag_views(old(self).diagnostics@)
                + lex_step(cs, sid, i).diags);
        }
        assert(self.tokens@ =~= old(self).tokens@ + step_tokens(cs, sid, i, lex_step(cs, sid, i)));
        assert(pos_view(self.positions@) =~= pos_view(old(self).positions@) + step_positions(i, lex_step(cs, sid, i)));
    }

    fn peek_char(&self) -> (r: Option<char>)
        requires
            self.wf(),
        ensures
            r == char_at(self.cs@, self.pos as int),
    {
        if self.pos < self.cs.len() {
            Some(self.cs[self.pos])
        } else {
            None
        }
    }

    fn peek_next_char(&self) -> (r: Option<char>)
        requires
            self.wf(),
        ensures
            r == char_at(self.cs@, self.pos + 1),
    {
        if self.pos < self.cs.len() && self.pos + 1 < self.cs.len() {
            Some(self.cs[self.pos + 1])
        } else {
            None
        }
    }

    fn bump_char(&mut self) -> (r: Option<char>)
        requires
            old(self).wf(),
        ensures
            final(self).wf(),
            r == char_at(old(self).cs@, old(self).pos as int),
            final(self).cs == old(self).cs,
            final(self).source_id == old(self).source_id,
            final(self).tokens == old(self).tokens,
            final(self).positions == old(self).positions,
            final(self).tok_start == old(self).tok_start,
            final(self).diagnostics == old(self).diagnostics,
            final(self).pos == if old(self).pos < old(self).cs@.len() {
                old(self).pos + 1
            } else {
                old(self).pos as int
            },
    {
        if self.pos >= self.cs.len() {
            return None;
        }
        let ch = self.cs[self.pos];
        proof {
            lemma_byte_offset_step(self.cs@, self.pos as int);
            lemma_byte_offset_mono(self.cs@, self.pos + 1, self.cs@.len() as int);
        }
        self.offset = self.offset + char_width(ch);
        self.pos = self.pos + 1;
        Some(ch)
    }

    fn push_token(&mut self, kind: TokenKind, start: usize, end: usize)
        ensures
            final(self).tokens@ == old(self).tokens@.push(
                Token { kind, span: Span::spec_new(old(self).source_id, start, end) },
            ),
            final(self).cs == old(self).cs,
            final(self).source_id == old(self).source_id,
            final(self).pos == old(self).pos,
            final(self).offset == old(self).offset,
            final(self).diagnostics == old(self).diagnostics,
            final(self).tok_start == old(self).tok_start,
            final(self).positions@ == old(self).positions@.push((old(self).tok_start, old(self).pos)),
    {
        self.tokens.push(Token::new(kind, Span::new(self.source_id, start, end)));
        self.positions.push((self.tok_start, self.pos));
    }

    fn bump_single(&mut self, kind: TokenKind)
        requires
            old(self).wf(),
            old(self).tok_start == old(self).pos,
            old(self).pos < old(self).cs@.len(),
        ensures
            final(self).stepped(
                *old(self),
                LexStep { end: (old(self).pos + 1) as nat, kind: Some(kind), diags: seq![] },
            ),
    {
        let start = self.offset;
        self.bump_char();
        self.push_token(kind, start, self.offset);
        assert(diag_views(self.diagnostics@) =~= diag_views(old(self).diagnostics@) + seq![]);
        assert(self.tokens@ =~= old(self).tokens@ + step_tokens(
            old(self).cs@,
            old(self).source_id,
            old(self).pos as nat,
            LexStep { end: (old(self).pos + 1) as nat, kind: Some(kind), diags: seq![] },
        ));
        assert(pos_view(self.positions@) =~= pos_view(old(self).positions@) + step_positions(
            old(self).pos as nat,
            LexStep { end: (old(self).pos + 1) as nat, kind: Some(kind), diags: seq![] },
        ));
    }

    fn skip_whitespace(&mut self)
        requires
            old(self).wf(),
        ensures
            final(self).stepped(
                *old(self),
                LexStep {
                    end: skip_blank(old(self).cs@, old(self).pos as nat),
                    kind: None,
                    diags: seq![],
                },
            ),
    {
        let ghost target = skip_blank(self.cs@, self.pos as nat);
        while self.pos < self.cs.len() && (self.cs[self.pos] == ' ' || self.cs[self.pos] == '\t')
            invariant
                self.wf(),
                self.cs == old(self).cs,
                self.source_id == old(self).source_id,
                self.tokens == old(self).tokens,
                self.positions == old(self).positions,
                self.tok_start == old(self).tok_start,
                self.diagnostics == old(self).diagnostics,
                skip_blank(self.cs@, self.pos as nat) == target,
            decreases self.cs@.len() - self.pos,
        {
            self.bump_char();
        }
        assert(self.tokens@ =~= old(self).tokens@ + Seq::<Token>::empty());
        assert(pos_view(self.positions@) =~= pos_view(old(self).positions@) + Seq::<(nat, nat)>::empty());
        assert(diag_views(self.diagnostics@) =~= diag_views(old(self).diagnostics@) + seq![]);
    }

    fn lex_statement_end(&mut self, start: usize)
        requires
            old(self).wf(),
            old(self).tok_start == old(self).pos,
            old(self).pos < old(self).cs@.len(),
            start == old(self).offset,
            old(self).cs@[old(self).pos as int] == '\r' || old(self).cs@[old(self).pos as int]
                == '\n',
        ensures
            final(self).stepped(
                *old(self),
                lex_step(old(self).cs@, old(self).source_id, old(self).pos as nat),
            ),
    {
        proof {
            reveal(lex_step);
        }        if self.peek_char() == Some('\r') {
            self.bump_char();
        }
        if self.peek_char() == Some('\n') {
            self.bump_char();
        }
        self.push_token(TokenKind::StatementEnd, start, self.offset);
        assert(diag_views(self.diagnostics@) =~= diag_views(old(self).diagnostics@) + seq![]);
        assert(self.tokens@ =~= old(self).tokens@ + step_tokens(
            old(self).cs@,
            old(self).source_id,
            old(self).pos as nat,
            lex_step(old(self).cs@, old(self).source_id, old(self).pos as nat),
        ));
        assert(pos_view(self.positions@) =~= pos_view(old(self).positions@) + step_positions(
            old(self).pos as nat,
            lex_step(old(self).cs@, old(self).source_id, old(self).pos as nat),
        ));
    }

    fn skip_line_rest(&mut self)
        requires
            old(self).wf(),
        ensures
            final(self).wf(),
            final(self).cs == old(self).cs,
            final(self).source_id == old(self).source_id,
            final(self).tokens == old(self).tokens,
            final(self).positions == old(self).positions,
            final(self).tok_start == old(self).tok_start,
            final(self).diagnostics == old(self).diagnostics,
            final(self).pos == skip_to_eol(old(self).cs@, old(self).pos as nat),
    {
        let ghost target = skip_to_eol(self.cs@, self.pos as nat);
        while self.pos < self.cs.len() && self.cs[self.pos] != '\r' && self.cs[self.pos] != '\n'
            invariant
                self.wf(),
                self.cs == old(self).cs,
                self.source_id == old(self).source_id,
                self.tokens == old(self).tokens,
                self.positions == old(self).positions,
                self.tok_start == old(self).tok_start,
                self.diagnostics == old(self).diagnostics,
                skip_to_eol(self.cs@, self.pos as nat) == target,
            decreases self.cs@.len() - self.pos,
        {
            self.bump_char();
        }
    }

    fn lex_comment(&mut self, start: usize)
        requires
            old(self).wf(),
            old(self).tok_start == old(self).pos,
            old(self).pos < old(self).cs@.len(),
            start == old(self).offset,
            old(self).cs@[old(self).pos as int] == '#' || (old(self).cs@[old(self).pos as int]
                == '/' && char_at(old(self).cs@, old(self).pos + 1) == Some('/')),
        ensures
            final(self).stepped(
                *old(self),
                lex_step(old(self).cs@, old(self).source_id, old(self).pos as nat),
            ),
    {
        proof {
            reveal(lex_step);
        }        if self.peek_char() == Some('/') && self.peek_next_char() == Some('/') {
            self.bump_char();
            self.bump_char();
        } else {
            self.bump_char();
        }
        self.skip_line_rest();
        self.push_token(TokenKind::Comment, start, self.offset);
        assert(diag_views(self.diagnostics@) =~= diag_views(old(self).diagnostics@) + seq![]);
        assert(self.tokens@ =~= old(self).tokens@ + step_tokens(
            old(self).cs@,
            old(self).source_id,
            old(self).pos as nat,
            lex_step(old(self).cs@, old(self).source_id, old(self).pos as nat),
        ));
        assert(pos_view(self.positions@) =~= pos_view(old(self).positions@) + step_positions(
            old(self).pos as nat,
            lex_step(old(self).cs@, old(self).source_id, old(self).pos as nat),
        ));
    }

    fn lex_string(&mut self, start: usize)
        requires
            old(self).wf(),
            old(self).tok_start == old(self).pos,
            old(self).pos < old(self).cs@.len(),
            start == old(self).offset,
            old(self).cs@[old(self).pos as int] == '"' || old(self).cs@[old(self).pos as int]
                == '\'',
        ensures
            final(self).stepped(
                *old(self),
                lex_step(old(self).cs@, old(self).source_id, old(self).pos as nat),
            ),
    {
        proof {
            reveal(lex_step);
        }        let ghost cs = self.cs@;
        let ghost i = self.pos as nat;
        let delim = self.cs[self.pos];
        let ghost target = string_end(cs, delim, i + 1);
        self.bump_char();
        let mut terminated = false;
        loop
            invariant_except_break
                self.wf(),
                self.cs@ == cs,
                cs.len() > i,
                self.cs == old(self).cs,
                self.source_id == old(self).source_id,
                self.tokens == old(self).tokens,
                self.positions == old(self).positions,
                self.tok_start == old(self).tok_start,
                self.diagnostics == old(self).diagnostics,
                string_end(cs, delim, self.pos as nat) == target,
                !terminated,
            ensures
                self.wf(),
                self.cs == old(self).cs,
                self.source_id == old(self).source_id,
                self.tokens == old(self).tokens,
                self.positions == old(self).positions,
                self.tok_start == old(self).tok_start,
                self.diagnostics == old(self).diagnostics,
                self.pos == target.0,
                terminated == target.1,
            decreases cs.len() - self.pos,
        {
            match self.peek_char() {
                Some(c) => {
                    let ghost p = self.pos as nat;
                    if c == delim {
                        assert(string_end(cs, delim, p) == ((p + 1) as nat, true));
                        self.bump_char();
                        terminated = true;
                        break;
                    } else if c == '\\' {
                        self.bump_char();
                        if self.peek_char().is_some() {
                            self.bump_char();
                        } else {
                            break;
                        }
                    } else if c == '\r' || c == '\n' {
                        break;
                    } else {
                        self.bump_char();
                    }
                },
                None => {
                    break;
                },
            }
        }
        if !terminated {
            self.diagnostics.push(
                Diagnostic::new(
                    DiagnosticKind::UnterminatedString,
                    Span::new(self.source_id, start, self.offset),
                    "unterminated string literal",
                ),
            );
        }
        self.push_token(TokenKind::String, start, self.offset);
        assert(diag_views(self.diagnostics@) =~= diag_views(old(self).diagnostics@) + lex_step(
            cs,
            old(self).source_id,
            i,
        ).diags);
        assert(self.tokens@ =~= old(self).tokens@ + step_tokens(
            old(self).cs@,
            old(self).source_id,
            old(self).pos as nat,
            lex_step(old(self).cs@, old(self).source_id, old(self).pos as nat),
        ));
        assert(pos_view(self.positions@) =~= pos_view(old(self).positions@) + step_positions(
            old(self).pos as nat,
            lex_step(old(self).cs@, old(self).source_id, old(self).pos as nat),
        ));
    }

    fn skip_digit_run(&mut self)
        requires
            old(self).wf(),
        ensures
            final(self).wf(),
            final(self).cs == old(self).cs,
            final(self).source_id == old(self).source_id,
            final(self).tokens == old(self).tokens,
            final(self).positions == old(self).positions,
            final(self).tok_start == old(self).tok_start,
            final(self).diagnostics == old(self).diagnostics,
            final(self).pos == skip_digits(old(self).cs@, old(self).pos as nat),
    {
        let ghost target = skip_digits(self.cs@, self.pos as nat);
        while self.pos < self.cs.len() && '0' <= self.cs[self.pos] && self.cs[self.pos] <= '9'
            invariant
                self.wf(),
                self.cs == old(self).cs,
                self.source_id == old(self).source_id,
                self.tokens == old(self).tokens,
                self.positions == old(self).positions,
                self.tok_start == old(self).tok_start,
                self.diagnostics == old(self).diagnostics,
                skip_digits(self.cs@, self.pos as nat) == target,
            decreases self.cs@.len() - self.pos,
        {
            self.bump_char();
        }
    }

    fn skip_ident_run(&mut self)
        requires
            old(self).wf(),
        ensures
            final(self).wf(),
            final(self).cs == old(self).cs,
            final(self).source_id == old(self).source_id,
            final(self).tokens == old(self).tokens,
            final(self).positions == old(self).positions,
            final(self).tok_start == old(self).tok_start,
            final(self).diagnostics == old(self).diagnostics,
            final(self).pos == skip_ident(old(self).cs@, old(self).pos as nat),
    {
        let ghost target = skip_ident(self.cs@, self.pos as nat);
        while self.pos < self.cs.len() && (('a' <= self.cs[self.pos] && self.cs[self.pos] <= 'z') || ('A' <= self.cs[self.pos] && self.cs[self.pos] <= 'Z') || self.cs[self.pos] == '_' || ('0' <= self.cs[self.pos] && self.cs[self.pos] <= '9'))
            invariant
                self.wf(),
                self.cs == old(self).cs,
                self.source_id == old(self).source_id,
                self.tokens == old(self).tokens,
                self.positions == old(self).positions,
                self.tok_start == old(self).tok_start,
                self.diagnostics == old(self).diagnostics,
                skip_ident(self.cs@, self.pos as nat) == target,
            decreases self.cs@.len() - self.pos,
        {
            self.bump_char();
        }
    }

    fn lex_number(&mut self, start: usize)
        requires
            old(self).wf(),
            old(self).tok_start == old(self).pos,
            old(self).pos < old(self).cs@.len(),
            start == old(self).offset,
            is_digit(old(self).cs@[old(self).pos as int]),
        ensures
            final(self).stepped(
                *old(self),
                lex_step(old(self).cs@, old(self).source_id, old(self).pos as nat),
            ),
    {
        proof {
            reveal(lex_step);
        }        let ghost cs = self.cs@;
        let ghost i = self.pos as nat;
        self.skip_digit_run();
        let mut kind = TokenKind::Integer;
        let next = self.peek_next_char();
        let next_is_digit = match next {
            Some(c) => '0' <= c && c <= '9',
            None => false,
        };
        let ghost j = self.pos as nat;
        proof {
            lemma_skip_bounds(cs, i);
        }
        if self.peek_char() == Some('.') && next_is_digit {
            kind = TokenKind::Float;
            self.bump_char();
            let frac_start = self.offset;
            proof {
                lemma_skip_bounds(cs, j + 2);
                assert(skip_digits(cs, j + 1) == skip_digits(cs, j + 2));
            }
            self.skip_digit_run();
            proof {
                lemma_byte_offset_strict(cs, j + 1 as int, self.pos as int);
            }
            if self.offset == frac_start {
                self.diagnostics.push(
                    Diagnostic::new(
                        DiagnosticKind::InvalidNumber,
                        Span::new(self.source_id, start, self.offset),
                        "expected digits after decimal point",
                    ),
                );
            }
        }
        let ghost k = self.pos;
        let suffix = match self.peek_char() {
            Some(c) => ('a' <= c && c <= 'z') || ('A' <= c && c <= 'Z') || c == '_',
            None => false,
        };
        proof {
            lemma_skip_bounds(cs, self.pos as nat);
        }
        if suffix {
            self.skip_ident_run();
            self.diagnostics.push(
                Diagnostic::new(
                    DiagnosticKind::InvalidNumber,
                    Span::new(self.source_id, start, self.offset),
                    "invalid number literal",
                ),
            );
        }
        self.push_token(kind, start, self.offset);
        assert(diag_views(self.diagnostics@) =~= diag_views(old(self).diagnostics@) + lex_step(
            cs,
            old(self).source_id,
            i,
        ).diags);
        assert(self.tokens@ =~= old(self).tokens@ + step_tokens(
            old(self).cs@,
            old(self).source_id,
            old(self).pos as nat,
            lex_step(old(self).cs@, old(self).source_id, old(self).pos as nat),
        ));
        assert(pos_view(self.positions@) =~= pos_view(old(self).positions@) + step_positions(
            old(self).pos as nat,
            lex_step(old(self).cs@, old(self).source_id, old(self).pos as nat),
        ));
    }

    fn lex_identifier(&mut self, start: usize)
        requires
            old(self).wf(),
            old(self).tok_start == old(self).pos,
            old(self).pos < old(self).cs@.len(),
            start == old(self).offset,
            is_ident_start(old(self).cs@[old(self).pos as int]),
        ensures
            final(self).stepped(
                *old(self),
                lex_step(old(self).cs@, old(self).source_id, old(self).pos as nat),
            ),
    {
        proof {
            reveal(lex_step);
        }        let begin = self.pos;
        proof {
            lemma_skip_bounds(self.cs@, self.pos as nat);
        }
        self.skip_ident_run();
        let kind = keyword_token(&self.cs, begin, self.pos);
        self.push_token(kind, start, self.offset);
        assert(diag_views(self.diagnostics@) =~= diag_views(old(self).diagnostics@) + seq![]);
        assert(self.tokens@ =~= old(self).tokens@ + step_tokens(
            old(self).cs@,
            old(self).source_id,
            old(self).pos as nat,
            lex_step(old(self).cs@, old(self).source_id, old(self).pos as nat),
        ));
        assert(pos_view(self.positions@) =~= pos_view(old(self).positions@) + step_positions(
            old(self).pos as nat,
            lex_step(old(self).cs@, old(self).source_id, old(self).pos as nat),
        ));
    }
}

/// Keyword or identifier kind of the word `cs[begin..end]`.
fn keyword_token(cs: &Vec<char>, begin: usize, end: usize) -> (r: TokenKind)
    requires
        begin <= end <= cs@.len(),
    ensures
        r == keyword_kind(cs@.subrange(begin as int, end as int)),
{
    let ghost w = cs@.subrange(begin as int, end as int);
    let n = end - begin;
    assert(w.len() == n);
    assert(forall|k: int| 0 <= k < w.len() ==> w[k] == cs@[begin + k]);
    if n == 3 && cs[begin] == 'l' && cs[begin + 1] == 'e' && cs[begin + 2] == 't' {
        assert(w =~= seq!['l', 'e', 't']);
        TokenKind::Let
    } else if n == 2 && cs[begin] == 'f' && cs[begin + 1] == 'n' {
        assert(w =~= seq!['f', 'n']);
        TokenKind::Fn
    } else if n == 6 && cs[begin] == 'r' && cs[begin + 1] == 'e' && cs[begin + 2] == 't'
        && cs[begin + 3] == 'u' && cs[begin + 4] == 'r' && cs[begin + 5] == 'n' {
        assert(w =~= seq!['r', 'e', 't', 'u', 'r', 'n']);
        TokenKind::Return
    } else if n == 4 && cs[begin] == 't' && cs[begin + 1] == 'r' && cs[begin + 2] == 'u'
        && cs[begin + 3] == 'e' {
        assert(w =~= seq!['t', 'r', 'u', 'e']);
        TokenKind::True
    } else if n == 5 && cs[begin] == 'f' && cs[begin + 1] == 'a' && cs[begin + 2] == 'l'
        && cs[begin + 3] == 's' && cs[begin + 4] == 'e' {
        assert(w =~= seq!['f', 'a', 'l', 's', 'e']);
        TokenKind::False
    } else {
        proof {
            if w == seq!['l', 'e', 't'] {
                assert(w[0] == 'l' && w[1] == 'e' && w[2] == 't');
            }
            if w == seq!['f', 'n'] {
                assert(w[0] == 'f' && w[1] == 'n');
            }
            if w == seq!['r', 'e', 't', 'u', 'r', 'n'] {
                assert(w[0] == 'r' && w[5] == 'n' && w[1] == 'e' && w[2] == 't' && w[3] == 'u'
                    && w[4] == 'r');
            }
            if w == seq!['t', 'r', 'u', 'e'] {
                assert(w[0] == 't' && w[1] == 'r' && w[2] == 'u' && w[3] == 'e');
            }
            if w == seq!['f', 'a', 'l', 's', 'e'] {
                assert(w[0] == 'f' && w[1] == 'a' && w[2] == 'l' && w[3] == 's' && w[4] == 'e');
            }
        }
        TokenKind::Identifier
    }
}

fn single_char_token(c: char) -> (r: Option<TokenKind>)
    ensures
        r == single_char_kind(c),
{
    if c == '(' {
        Some(TokenKind::LeftParen)
    } else if c == ')' {
        Some(TokenKind::RightParen)
    } else if c == '{' {
        Some(TokenKind::LeftBrace)
    } else if c == '}' {
        Some(TokenKind::RightBrace)
    } else if c == '[' {
        Some(TokenKind::LeftBracket)
    } else if c == ']' {
        Some(TokenKind::RightBracket)
    } else if c == ',' {
        Some(TokenKind::Comma)
    } else if c == ':' {
        Some(TokenKind::Colon)
    } else if c == '.' {
        Some(TokenKind::Dot)
    } else if c == '@' {
        Some(TokenKind::At)
    } else if c == '$' {
        Some(TokenKind::Dollar)
    } else if c == ';' {
        Some(TokenKind::StatementEnd)
    } else if c == '+' {
        Some(TokenKind::Plus)
    } else if c == '-' {
        Some(TokenKind::Minus)
    } else if c == '%' {
        Some(TokenKind::Percent)
    } else if c == '~' {
        Some(TokenKind::Tilde)
    } else if c == '^' {
        Some(TokenKind::Caret)
    } else {
        None
    }
}

fn operator_token(c: char, next: Option<char>) -> (r: Option<(TokenKind, bool)>)
    ensures
        r == operator_kind(c, next),
{
    if c == '*' {
        if next == Some('*') {
            Some((TokenKind::Power, true))
        } else {
            Some((TokenKind::Star, false))
        }
    } else if c == '|' {
        if next == Some('>') {
            Some((TokenKind::PipeForward, true))
        } else if next == Some('|') {
            Some((TokenKind::PipePipe, true))
        } else {
            Some((TokenKind::Pipe, false))
        }
    } else if c == '&' {
        if next == Some('&') {
            Some((TokenKind::AmpersandAmpersand, true))
        } else {
            Some((TokenKind::Ampersand, false))
        }
    } else if c == '=' {
        if next == Some('>') {
            Some((TokenKind::FatArrow, true))
        } else if next == Some('=') {
            Some((TokenKind::EqualEqual, true))
        } else {
            Some((TokenKind::Assign, false))
        }
    } else if c == '!' {
        if next == Some('=') {
            Some((TokenKind::BangEqual, true))
        } else {
            Some((TokenKind::Bang, false))
        }
    } else if c == '>' {
        if next == Some('=') {
            Some((TokenKind::GreaterEqual, true))
        } else if next == Some('>') {
            Some((TokenKind::ShiftRight, true))
        } else {
            Some((TokenKind::Greater, false))
        }
    } else if c == '<' {
        if next == Some('=') {
            Some((TokenKind::LessEqual, true))
        } else if next == Some('<') {
            Some((TokenKind::ShiftLeft, true))
        } else {
            Some((TokenKind::Less, false))
        }
    } else if c == '/' {
        Some((TokenKind::Slash, false))
    } else {
        None
    }
}

} // verus!

verus! {

/// Token streams whose spans lie inside `lo..=hi`, in order and without
/// overlap, end with `Eof`, and whose other tokens are non-empty and not `Eof`.
pub open spec fn well_formed_stream(ts: Seq<Token>, sid: SourceId, lo: nat, hi: nat) -> bool {
    &&& ts.len() >= 1
    &&& ts.last().kind == TokenKind::Eof
    &&& ts.last().span.spec_start() == hi && ts.last().span.spec_end() == hi
    &&& forall|k: int| 0 <= k < ts.len() ==> #[trigger] ts[k].span.source_id == sid
    &&& forall|k: int|
        0 <= k < ts.len() ==> lo <= (#[trigger] ts[k]).span.spec_start() <= ts[k].span.spec_end()
            <= hi
    &&& forall|k: int|
        0 <= k < ts.len() - 1 ==> (#[trigger] ts[k]).kind != TokenKind::Eof
            && ts[k].span.spec_start() < ts[k].span.spec_end()
    &&& forall|k: int, l: int|
        0 <= k < l < ts.len() ==> (#[trigger] ts[k]).span.spec_end() <= (#[trigger] ts[l]).span.spec_start()
}

proof fn lemma_stream_weaken(ts: Seq<Token>, sid: SourceId, lo: nat, lo2: nat, hi: nat)
    requires
        well_formed_stream(ts, sid, lo2, hi),
        lo <= lo2,
    ensures
        well_formed_stream(ts, sid, lo, hi),
{
}

proof fn lemma_stream_cons(t: Token, ts: Seq<Token>, sid: SourceId, lo: nat, mid: nat, hi: nat)
    requires
        well_formed_stream(ts, sid, mid, hi),
        t.kind != TokenKind::Eof,
        t.span.source_id == sid,
        lo <= t.span.spec_start() < t.span.spec_end() <= mid,
    ensures
        well_formed_stream(seq![t] + ts, sid, lo, hi),
{
    let r = seq![t] + ts;
    assert(r[0] == t);
    assert forall|k: int| 1 <= k < r.len() implies r[k] == ts[k - 1] by {}
    assert(r.last() == ts.last());
    assert forall|k: int| 0 <= k < r.len() implies #[trigger] r[k].span.source_id == sid by {
        if k > 0 {
            assert(r[k] == ts[k - 1]);
        }
    }
    assert forall|k: int| 0 <= k < r.len() implies lo <= (#[trigger] r[k]).span.spec_start()
        <= r[k].span.spec_end() <= hi by {
        if k > 0 {
            assert(r[k] == ts[k - 1]);
        }
    }
    assert forall|k: int| 0 <= k < r.len() - 1 implies (#[trigger] r[k]).kind != TokenKind::Eof
        && r[k].span.spec_start() < r[k].span.spec_end() by {
        if k > 0 {
            assert(r[k] == ts[k - 1]);
        }
    }
    assert forall|k: int, l: int| 0 <= k < l < r.len() implies (#[trigger] r[k]).span.spec_end()
        <= (#[trigger] r[l]).span.spec_start() by {
        assert(r[l] == ts[l - 1]);
        if k > 0 {
            assert(r[k] == ts[k - 1]);
        }
    }
}

#[verifier::spinoff_prover]
proof fn lemma_lex_from_well_formed(cs: Seq<char>, sid: SourceId, i: nat)
    requires
        i <= cs.len(),
        byte_len(cs) <= usize::MAX,
    ensures
        well_formed_stream(lex_from(cs, sid, i).0, sid, byte_offset(cs, i as int), byte_len(cs)),
    decreases cs.len() - i,
{
    broadcast use crate::source::group_text_range;

    lemma_byte_offset_mono(cs, i as int, cs.len() as int);
    assert(cs.take(cs.len() as int) =~= cs);
    if i >= cs.len() {
        let ts = lex_from(cs, sid, i).0;
        assert(ts == seq![eof_token(cs, sid)]);
        assert(ts.last().span.spec_start() == byte_len(cs));
    } else {
        let st = lex_step(cs, sid, i);
        lemma_step_progress(cs, sid, i);
        lemma_step_kind(cs, sid, i);
        lemma_lex_from_well_formed(cs, sid, st.end);
        lemma_byte_offset_strict(cs, i as int, st.end as int);
        lemma_byte_offset_mono(cs, st.end as int, cs.len() as int);
        let rest = lex_from(cs, sid, st.end).0;
        let head = step_tokens(cs, sid, i, st);
        assert(lex_from(cs, sid, i).0 == head + rest);
        if st.kind is Some {
            lemma_stream_cons(
                head[0],
                rest,
                sid,
                byte_offset(cs, i as int),
                byte_offset(cs, st.end as int),
                byte_len(cs),
            );
            assert(head =~= seq![head[0]]);
        } else {
            assert(head + rest =~= rest);
            lemma_stream_weaken(
                rest,
                sid,
                byte_offset(cs, i as int),
                byte_offset(cs, st.end as int),
                byte_len(cs),
            );
        }
    }
}

proof fn lemma_step_kind(cs: Seq<char>, sid: SourceId, i: nat)
    requires
        i < cs.len(),
    ensures
        lex_step(cs, sid, i).kind != Some(TokenKind::Eof),
{
    reveal(lex_step);
}

/// Lexing always yields a well-formed token stream over the whole text:
/// tokens in source order, without overlap, inside the text, every one but
/// the last non-empty, and a single `Eof` at the very end.
pub proof fn lemma_lex_well_formed(cs: Seq<char>, sid: SourceId)
    requires
        byte_len(cs) <= usize::MAX,
    ensures
        well_formed_stream(spec_lex(cs, sid).0, sid, 0, byte_len(cs)),
{
    lemma_byte_offset_zero(cs);
    lemma_lex_from_well_formed(cs, sid, 0);
}

} // verus!

verus! {

/// Token spans and character positions agree.
pub open spec fn positions_match(
    cs: Seq<char>,
    sid: SourceId,
    ts: Seq<Token>,
    ps: Seq<(nat, nat)>,
    lo: nat,
) -> bool {
    &&& ts.len() == ps.len()
    &&& forall|k: int|
        0 <= k < ps.len() ==> lo <= (#[trigger] ps[k]).0 <= ps[k].1 <= cs.len() && ts[k].span
            == span_at(cs, sid, ps[k].0 as int, ps[k].1 as int)
}

proof fn lemma_positions_from(cs: Seq<char>, sid: SourceId, i: nat)
    requires
        i <= cs.len(),
    ensures
        positions_match(cs, sid, lex_from(cs, sid, i).0, lex_positions_from(cs, sid, i), i),
    decreases cs.len() - i,
{
    if i < cs.len() {
        let st = lex_step(cs, sid, i);
        lemma_step_progress(cs, sid, i);
        lemma_positions_from(cs, sid, st.end);
        let ts = lex_from(cs, sid, st.end).0;
        let ps = lex_positions_from(cs, sid, st.end);
        let ht = step_tokens(cs, sid, i, st);
        let hp = step_positions(i, st);
        assert(lex_from(cs, sid, i).0 == ht + ts);
        assert(lex_positions_from(cs, sid, i) == hp + ps);
        assert forall|k: int| 0 <= k < (hp + ps).len() implies i <= (#[trigger] (hp + ps)[k]).0
            <= (hp + ps)[k].1 <= cs.len() && (ht + ts)[k].span == span_at(
            cs,
            sid,
            (hp + ps)[k].0 as int,
            (hp + ps)[k].1 as int,
        ) by {
            if k < hp.len() {
            } else {
                assert((hp + ps)[k] == ps[k - hp.len()]);
                assert((ht + ts)[k] == ts[k - ht.len()]);
            }
        }
    }
}

/// Every token's span covers exactly the characters at its recorded
/// positions, and the positions lie inside the text.
pub proof fn lemma_lex_positions(cs: Seq<char>, sid: SourceId)
    ensures
        positions_match(cs, sid, spec_lex(cs, sid).0, lex_positions_from(cs, sid, 0), 0),
{
    lemma_positions_from(cs, sid, 0);
}

} // verus!

verus! {

/// A span of `sid` that lies inside `0..=hi`.
pub open spec fn span_ok(sp: Span, sid: SourceId, hi: nat) -> bool {
    sp.source_id == sid && sp.spec_start() <= sp.spec_end() && sp.spec_end() <= hi
}

proof fn lemma_span_at_ok(cs: Seq<char>, sid: SourceId, i: int, j: int)
    requires
        0 <= i <= j <= cs.len(),
        byte_len(cs) <= usize::MAX,
    ensures
        span_ok(span_at(cs, sid, i, j), sid, byte_len(cs)),
{
    broadcast use crate::source::group_text_range;

    lemma_byte_offset_mono(cs, i, j);
    lemma_byte_offset_mono(cs, j, cs.len() as int);
}

proof fn lemma_step_diags_ok(cs: Seq<char>, sid: SourceId, i: nat)
    requires
        i < cs.len(),
        byte_len(cs) <= usize::MAX,
    ensures
        forall|k: int|
            0 <= k < lex_step(cs, sid, i).diags.len() ==> span_ok(
                (#[trigger] lex_step(cs, sid, i).diags[k]).span,
                sid,
                byte_len(cs),
            ),
{
    lemma_step_progress(cs, sid, i);
    let st = lex_step(cs, sid, i);
    lemma_span_at_ok(cs, sid, i as int, st.end as int);
    lemma_span_at_ok(cs, sid, i as int, i + 1 as int);
    reveal(lex_step);
}

proof fn lemma_lex_from_diags_ok(cs: Seq<char>, sid: SourceId, i: nat)
    requires
        i <= cs.len(),
        byte_len(cs) <= usize::MAX,
    ensures
        forall|k: int|
            0 <= k < lex_from(cs, sid, i).1.len() ==> span_ok(
                (#[trigger] lex_from(cs, sid, i).1[k]).span,
                sid,
                byte_len(cs),
            ),
    decreases cs.len() - i,
{
    if i < cs.len() {
        let st = lex_step(cs, sid, i);
        lemma_step_progress(cs, sid, i);
        lemma_step_diags_ok(cs, sid, i);
        lemma_lex_from_diags_ok(cs, sid, st.end);
        let ds = lex_from(cs, sid, i).1;
        let rest = lex_from(cs, sid, st.end).1;
        assert(ds == st.diags + rest);
        assert forall|k: int| 0 <= k < ds.len() implies span_ok(
            (#[trigger] ds[k]).span,
            sid,
            byte_len(cs),
        ) by {
            if k < st.diags.len() {
                assert(ds[k] == st.diags[k]);
            } else {
                assert(ds[k] == rest[k - st.diags.len()]);
            }
        }
    }
}

/// Every lexical diagnostic points into the source text.
pub proof fn lemma_lex_diags_ok(cs: Seq<char>, sid: SourceId)
    requires
        byte_len(cs) <= usize::MAX,
    ensures
        forall|k: int|
            0 <= k < spec_lex(cs, sid).1.len() ==> span_ok(
                (#[trigger] spec_lex(cs, sid).1[k]).span,
                sid,
                byte_len(cs),
            ),
{
    lemma_lex_from_diags_ok(cs, sid, 0);
}

} // verus!

verus! {

// ---------------------------------------------------------------------------
// How tokens and reports cover the text
// ---------------------------------------------------------------------------

pub open spec fn is_blank(c: char) -> bool {
    c == ' ' || c == '\t'
}

/// Whether character position `p` lies inside one of the token positions `ps`.
pub open spec fn in_token(ps: Seq<(nat, nat)>, p: int) -> bool {
    exists|k: int| 0 <= k < ps.len() && (#[trigger] ps[k]).0 <= p < ps[k].1
}

/// Whether `d` reports the single character at position `q` as unexpected.
pub open spec fn unexpected_at(cs: Seq<char>, sid: SourceId, d: DiagnosticView, q: int) -> bool {
    d.kind == DiagnosticKind::UnexpectedCharacter && d.span == span_at(cs, sid, q, q + 1)
}

/// Whether some diagnostic of `ds` reports the character at `p` as unexpected.
pub open spec fn flagged(cs: Seq<char>, sid: SourceId, ds: Seq<DiagnosticView>, p: int) -> bool {
    exists|m: int| 0 <= m < ds.len() && unexpected_at(cs, sid, #[trigger] ds[m], p)
}

proof fn lemma_skip_blank_all(cs: Seq<char>, i: nat)
    requires
        i <= cs.len(),
    ensures
        forall|p: int| i <= p < skip_blank(cs, i) ==> is_blank(#[trigger] cs[p]),
    decreases cs.len() - i,
{
    if i < cs.len() && (cs[i as int] == ' ' || cs[i as int] == '\t') {
        lemma_skip_blank_all(cs, i + 1);
    }
}

/// The shape of one step: a run of blanks, one unexpected character, or a
/// token whose only possible report has the token's own span.
proof fn lemma_step_shape(cs: Seq<char>, sid: SourceId, i: nat)
    requires
        i < cs.len(),
    ensures
        ({
            let st = lex_step(cs, sid, i);
            &&& st.kind is None ==> (st.diags.len() == 0 && forall|p: int|
                i <= p < st.end ==> is_blank(#[trigger] cs[p])) || (st.end == i + 1 && st.diags
                == seq![diag(DiagnosticKind::UnexpectedCharacter, span_at(cs, sid, i as int, i + 1 as int), unexpected_message(cs[i as int]))])
            &&& st.kind is Some ==> st.diags.len() <= 1 && forall|m: int|
                0 <= m < st.diags.len() ==> (#[trigger] st.diags[m]).span == span_at(
                    cs,
                    sid,
                    i as int,
                    st.end as int,
                ) && ((st.diags[m].kind == DiagnosticKind::UnterminatedString && st.kind == Some(
                    TokenKind::String,
                )) || (st.diags[m].kind == DiagnosticKind::InvalidNumber && (st.kind == Some(
                    TokenKind::Integer,
                ) || st.kind == Some(TokenKind::Float))))
        }),
{
    reveal(lex_step);
    lemma_skip_blank_all(cs, i);
}

/// Every character from `i` on lies inside a token, is reported as
/// unexpected, or is a blank.
proof fn lemma_cover_from(cs: Seq<char>, sid: SourceId, i: nat)
    requires
        i <= cs.len(),
    ensures
        forall|p: int|
            #![trigger cs[p]]
            i <= p < cs.len() ==> in_token(lex_positions_from(cs, sid, i), p) || flagged(
                cs,
                sid,
                lex_from(cs, sid, i).1,
                p,
            ) || is_blank(cs[p]),
    decreases cs.len() - i,
{
    if i < cs.len() {
        let st = lex_step(cs, sid, i);
        lemma_step_progress(cs, sid, i);
        lemma_step_shape(cs, sid, i);
        lemma_cover_from(cs, sid, st.end);
        let rps = lex_positions_from(cs, sid, st.end);
        let rds = lex_from(cs, sid, st.end).1;
        let hp = step_positions(i, st);
        let ps = lex_positions_from(cs, sid, i);
        let ds = lex_from(cs, sid, i).1;
        assert(ps == hp + rps);
        assert(ds == st.diags + rds);
        assert forall|p: int| #![trigger cs[p]] i <= p < cs.len() implies in_token(ps, p) || flagged(
            cs,
            sid,
            ds,
            p,
        ) || is_blank(cs[p]) by {
            if p >= st.end {
                if in_token(rps, p) {
                    let k = choose|k: int| 0 <= k < rps.len() && (#[trigger] rps[k]).0 <= p < rps[k].1;
                    assert(ps[k + hp.len()] == rps[k]);
                } else if flagged(cs, sid, rds, p) {
                    let m = choose|m: int| 0 <= m < rds.len() && unexpected_at(cs, sid, #[trigger] rds[m], p);
                    assert(ds[m + st.diags.len()] == rds[m]);
                }
            } else if st.kind is Some {
                assert(ps[0] == (i, st.end));
            } else if st.diags.len() != 0 {
                assert(ds[0] == st.diags[0]);
            }
        }
    }
}

/// Every unexpected-character report from `i` on holds one character at or
/// after `i` that lies inside no token, and the reports come in order.
proof fn lemma_unexpected_from(cs: Seq<char>, sid: SourceId, i: nat)
    requires
        i <= cs.len(),
        byte_len(cs) <= usize::MAX,
    ensures
        ({
            let ds = lex_from(cs, sid, i).1;
            let ps = lex_positions_from(cs, sid, i);
            &&& forall|m: int|
                0 <= m < ds.len() && (#[trigger] ds[m]).kind == DiagnosticKind::UnexpectedCharacter
                    ==> exists|q: int|
                    i <= q < cs.len() && #[trigger] unexpected_at(cs, sid, ds[m], q) && !in_token(ps, q)
            &&& forall|m: int, m2: int|
                0 <= m < m2 < ds.len() && (#[trigger] ds[m]).kind == DiagnosticKind::UnexpectedCharacter
                    && (#[trigger] ds[m2]).kind == DiagnosticKind::UnexpectedCharacter
                    ==> ds[m].span.spec_end() <= ds[m2].span.spec_start()
        }),
    decreases cs.len() - i,
{
    broadcast use crate::source::group_text_range;

    if i < cs.len() {
        let st = lex_step(cs, sid, i);
        lemma_step_progress(cs, sid, i);
        lemma_step_shape(cs, sid, i);
        lemma_unexpected_from(cs, sid, st.end);
        lemma_positions_from(cs, sid, st.end);
        let rps = lex_positions_from(cs, sid, st.end);
        let rds = lex_from(cs, sid, st.end).1;
        let hp = step_positions(i, st);
        let ps = lex_positions_from(cs, sid, i);
        let ds = lex_from(cs, sid, i).1;
        let h = st.diags.len() as int;
        assert(ps == hp + rps);
        assert(ds == st.diags + rds);
        assert forall|m: int|
            0 <= m < ds.len() && (#[trigger] ds[m]).kind == DiagnosticKind::UnexpectedCharacter
                implies exists|q: int|
            i <= q < cs.len() && #[trigger] unexpected_at(cs, sid, ds[m], q) && !in_token(ps, q) by {
            if m < h {
                assert(ds[m] == st.diags[m]);
                assert(st.kind is None);
                assert(unexpected_at(cs, sid, ds[m], i as int));
                assert(ps =~= rps);
                if in_token(ps, i as int) {
                    let k = choose|k: int| 0 <= k < ps.len() && (#[trigger] ps[k]).0 <= i < ps[k].1;
                    assert(rps[k].0 >= st.end);
                }
            } else {
                assert(ds[m] == rds[m - h]);
                let q = choose|q: int|
                    st.end <= q < cs.len() && #[trigger] unexpected_at(cs, sid, rds[m - h], q)
                        && !in_token(rps, q);
                assert(unexpected_at(cs, sid, ds[m], q));
                if in_token(ps, q) {
                    let k = choose|k: int| 0 <= k < ps.len() && (#[trigger] ps[k]).0 <= q < ps[k].1;
                    if k >= hp.len() {
                        assert(ps[k] == rps[k - hp.len()]);
                    }
                }
            }
        }
        assert forall|m: int, m2: int|
            0 <= m < m2 < ds.len() && (#[trigger] ds[m]).kind == DiagnosticKind::UnexpectedCharacter
                && (#[trigger] ds[m2]).kind == DiagnosticKind::UnexpectedCharacter
                implies ds[m].span.spec_end() <= ds[m2].span.spec_start() by {
            assert(ds[m2] == rds[m2 - h]);
            if m < h {
                assert(ds[m] == st.diags[m]);
                assert(st.kind is None);
                assert(st.diags.len() == 1);
                assert(st.end == i + 1);
                assert(m == 0);
                assert(st.diags[0].span == span_at(cs, sid, i as int, i + 1 as int));
                assert(rds[m2 - h].kind == DiagnosticKind::UnexpectedCharacter);
                let q = choose|q: int|
                    st.end <= q < cs.len() && #[trigger] unexpected_at(cs, sid, rds[m2 - h], q)
                        && !in_token(rps, q);
                assert(unexpected_at(cs, sid, rds[m2 - h], q));
                lemma_byte_offset_mono(cs, i + 1 as int, q);
                lemma_byte_offset_mono(cs, q, cs.len() as int);
                lemma_byte_offset_mono(cs, i as int, i + 1 as int);
                assert(ds[m].span.spec_start() == byte_offset(cs, i as int));
                assert(ds[m].span.spec_end() == byte_offset(cs, i + 1 as int));
                assert(ds[m2].span.spec_start() == byte_offset(cs, q));
            } else {
                assert(ds[m] == rds[m - h]);
            }
        }
    }
}

/// Each unterminated-string or invalid-number report from `i` on has the
/// span of a string or number token.
proof fn lemma_literal_diags_from(cs: Seq<char>, sid: SourceId, i: nat)
    requires
        i <= cs.len(),
    ensures
        ({
            let ts = lex_from(cs, sid, i).0;
            let ds = lex_from(cs, sid, i).1;
            &&& forall|m: int|
                0 <= m < ds.len() && (#[trigger] ds[m]).kind == DiagnosticKind::UnterminatedString
                    ==> exists|k: int|
                    0 <= k < ts.len() && (#[trigger] ts[k]).kind == TokenKind::String && ts[k].span
                        == ds[m].span
            &&& forall|m: int|
                0 <= m < ds.len() && (#[trigger] ds[m]).kind == DiagnosticKind::InvalidNumber
                    ==> exists|k: int|
                    0 <= k < ts.len() && ((#[trigger] ts[k]).kind == TokenKind::Integer || ts[k].kind
                        == TokenKind::Float) && ts[k].span == ds[m].span
        }),
    decreases cs.len() - i,
{
    if i < cs.len() {
        let st = lex_step(cs, sid, i);
        lemma_step_progress(cs, sid, i);
        lemma_step_shape(cs, sid, i);
        lemma_literal_diags_from(cs, sid, st.end);
        let rts = lex_from(cs, sid, st.end).0;
        let rds = lex_from(cs, sid, st.end).1;
        let ht = step_tokens(cs, sid, i, st);
        let ts = lex_from(cs, sid, i).0;
        let ds = lex_from(cs, sid, i).1;
        let h = st.diags.len() as int;
        assert(ts == ht + rts);
        assert(ds == st.diags + rds);
        assert forall|m: int|
            0 <= m < ds.len() && (#[trigger] ds[m]).kind == DiagnosticKind::UnterminatedString
                implies exists|k: int|
            0 <= k < ts.len() && (#[trigger] ts[k]).kind == TokenKind::String && ts[k].span
                == ds[m].span by {
            if m < h {
                assert(ds[m] == st.diags[m]);
                assert(ts[0] == ht[0]);
            } else {
                assert(ds[m] == rds[m - h]);
                let k = choose|k: int|
                    0 <= k < rts.len() && (#[trigger] rts[k]).kind == TokenKind::String && rts[k].span
                        == rds[m - h].span;
                assert(ts[k + ht.len()] == rts[k]);
            }
        }
        assert forall|m: int|
            0 <= m < ds.len() && (#[trigger] ds[m]).kind == DiagnosticKind::InvalidNumber
                implies exists|k: int|
            0 <= k < ts.len() && ((#[trigger] ts[k]).kind == TokenKind::Integer || ts[k].kind
                == TokenKind::Float) && ts[k].span == ds[m].span by {
            if m < h {
                assert(ds[m] == st.diags[m]);
                assert(ts[0] == ht[0]);
            } else {
                assert(ds[m] == rds[m - h]);
                let k = choose|k: int|
                    0 <= k < rts.len() && ((#[trigger] rts[k]).kind == TokenKind::Integer
                        || rts[k].kind == TokenKind::Float) && rts[k].span == rds[m - h].span;
                assert(ts[k + ht.len()] == rts[k]);
            }
        }
    }
}

/// Whether byte offset `b` lies inside the span of one of the tokens `ts`.
pub open spec fn in_token_span(ts: Seq<Token>, b: nat) -> bool {
    exists|k: int| 0 <= k < ts.len() && (#[trigger] ts[k]).span.spec_start() <= b < ts[k].span.spec_end()
}

/// Tokens and reports tile the text.  The first byte of every character
/// lies inside a token's span, or the character is reported as unexpected,
/// or it is a blank (space or tab).  Each unexpected-character report spans
/// exactly one character, overlaps no token, and the reports come in text
/// order without overlapping.  Each unterminated-string report has the span
/// of a string token, and each invalid-number report that of a number token.
/// (That token spans are ordered and disjoint is `lemma_lex_well_formed`.)
pub proof fn lemma_lex_tiling(cs: Seq<char>, sid: SourceId)
    requires
        byte_len(cs) <= usize::MAX,
    ensures
        ({
            let ts = spec_lex(cs, sid).0;
            let ds = spec_lex(cs, sid).1;
            &&& forall|p: int|
                #![trigger cs[p]]
                0 <= p < cs.len() ==> in_token_span(ts, byte_offset(cs, p)) || flagged(cs, sid, ds, p)
                    || is_blank(cs[p])
            &&& forall|m: int|
                0 <= m < ds.len() && (#[trigger] ds[m]).kind == DiagnosticKind::UnexpectedCharacter
                    ==> exists|q: int| 0 <= q < cs.len() && #[trigger] unexpected_at(cs, sid, ds[m], q)
            &&& forall|m: int, k: int|
                0 <= m < ds.len() && 0 <= k < ts.len() && (#[trigger] ds[m]).kind
                    == DiagnosticKind::UnexpectedCharacter ==> (#[trigger] ts[k]).span.spec_end()
                    <= ds[m].span.spec_start() || ds[m].span.spec_end() <= ts[k].span.spec_start()
            &&& forall|m: int, m2: int|
                0 <= m < m2 < ds.len() && (#[trigger] ds[m]).kind == DiagnosticKind::UnexpectedCharacter
                    && (#[trigger] ds[m2]).kind == DiagnosticKind::UnexpectedCharacter
                    ==> ds[m].span.spec_end() <= ds[m2].span.spec_start()
            &&& forall|m: int|
                0 <= m < ds.len() && (#[trigger] ds[m]).kind == DiagnosticKind::UnterminatedString
                    ==> exists|k: int|
                    0 <= k < ts.len() && (#[trigger] ts[k]).kind == TokenKind::String && ts[k].span
                        == ds[m].span
            &&& forall|m: int|
                0 <= m < ds.len() && (#[trigger] ds[m]).kind == DiagnosticKind::InvalidNumber
                    ==> exists|k: int|
                    0 <= k < ts.len() && ((#[trigger] ts[k]).kind == TokenKind::Integer || ts[k].kind
                        == TokenKind::Float) && ts[k].span == ds[m].span
        }),
{
    broadcast use crate::source::group_text_range;

    let ts = spec_lex(cs, sid).0;
    let ds = spec_lex(cs, sid).1;
    let ps = lex_positions_from(cs, sid, 0);
    lemma_cover_from(cs, sid, 0);
    lemma_unexpected_from(cs, sid, 0);
    lemma_literal_diags_from(cs, sid, 0);
    lemma_positions_from(cs, sid, 0);
    assert forall|p: int|
        #![trigger cs[p]]
        0 <= p < cs.len() implies in_token_span(ts, byte_offset(cs, p)) || flagged(cs, sid, ds, p)
            || is_blank(cs[p]) by {
        if in_token(ps, p) {
            let k = choose|k: int| 0 <= k < ps.len() && (#[trigger] ps[k]).0 <= p < ps[k].1;
            lemma_byte_offset_mono(cs, ps[k].0 as int, p);
            lemma_byte_offset_strict(cs, p, ps[k].1 as int);
            lemma_byte_offset_mono(cs, ps[k].1 as int, cs.len() as int);
            assert(ts[k].span == span_at(cs, sid, ps[k].0 as int, ps[k].1 as int));
            assert(ts[k].span.spec_start() == byte_offset(cs, ps[k].0 as int));
            assert(ts[k].span.spec_end() == byte_offset(cs, ps[k].1 as int));
        }
    }
    assert forall|m: int, k: int|
        0 <= m < ds.len() && 0 <= k < ts.len() && (#[trigger] ds[m]).kind
            == DiagnosticKind::UnexpectedCharacter implies (#[trigger] ts[k]).span.spec_end()
            <= ds[m].span.spec_start() || ds[m].span.spec_end() <= ts[k].span.spec_start() by {
        let q = choose|q: int|
            0 <= q < cs.len() && #[trigger] unexpected_at(cs, sid, ds[m], q) && !in_token(ps, q);
        let a = ps[k].0 as int;
        let b = ps[k].1 as int;
        assert(!(a <= q < b));
        lemma_byte_offset_mono(cs, q, q + 1);
        lemma_byte_offset_mono(cs, q + 1, cs.len() as int);
        lemma_byte_offset_mono(cs, a, b);
        lemma_byte_offset_mono(cs, b, cs.len() as int);
        assert(ts[k].span == span_at(cs, sid, a, b));
        assert(ts[k].span.spec_start() == byte_offset(cs, a));
        assert(ts[k].span.spec_end() == byte_offset(cs, b));
        assert(ds[m].span.spec_start() == byte_offset(cs, q));
        assert(ds[m].span.spec_end() == byte_offset(cs, q + 1));
        if q >= b {
            lemma_byte_offset_mono(cs, b, q);
        } else {
            lemma_byte_offset_mono(cs, q + 1, a);
        }
    }
}

} // verus!

verus! {

/// Lexing from position `i` starts with one token of `kind` covering the
/// `n` characters there, reports nothing for them, and goes on after them.
pub open spec fn lexes_as(cs: Seq<char>, sid: SourceId, i: nat, kind: TokenKind, n: nat) -> bool {
    lex_from(cs, sid, i) == (
        seq![Token { kind, span: span_at(cs, sid, i as int, (i + n) as int) }] + lex_from(cs, sid, i + n).0,
        lex_from(cs, sid, i + n).1,
    )
}

/// The token each operator or punctuation character makes wherever lexing
/// resumes (outside strings and comments): the two-character operators
/// `**`, `|>`, `||`, `&&`, `=>`, `==`, `!=`, `>=`, `>>`, `<=`, `<<` when
/// their second character follows, otherwise the one-character token of
/// the first character alone (`*` is `Star`, `/` is `Slash`, and so on).
pub proof fn lemma_operator_tokens(cs: Seq<char>, sid: SourceId, i: nat)
    requires
        i < cs.len(),
    ensures
        ({
            let c = cs[i as int];
            let next = char_at(cs, i + 1 as int);
            &&& c == '(' ==> lexes_as(cs, sid, i, TokenKind::LeftParen, 1)
            &&& c == ')' ==> lexes_as(cs, sid, i, TokenKind::RightParen, 1)
            &&& c == '{' ==> lexes_as(cs, sid, i, TokenKind::LeftBrace, 1)
            &&& c == '}' ==> lexes_as(cs, sid, i, TokenKind::RightBrace, 1)
            &&& c == '[' ==> lexes_as(cs, sid, i, TokenKind::LeftBracket, 1)
            &&& c == ']' ==> lexes_as(cs, sid, i, TokenKind::RightBracket, 1)
            &&& c == ',' ==> lexes_as(cs, sid, i, TokenKind::Comma, 1)
            &&& c == ':' ==> lexes_as(cs, sid, i, TokenKind::Colon, 1)
            &&& c == '.' ==> lexes_as(cs, sid, i, TokenKind::Dot, 1)
            &&& c == '@' ==> lexes_as(cs, sid, i, TokenKind::At, 1)
            &&& c == '$' ==> lexes_as(cs, sid, i, TokenKind::Dollar, 1)
            &&& c == ';' ==> lexes_as(cs, sid, i, TokenKind::StatementEnd, 1)
            &&& c == '+' ==> lexes_as(cs, sid, i, TokenKind::Plus, 1)
            &&& c == '-' ==> lexes_as(cs, sid, i, TokenKind::Minus, 1)
            &&& c == '%' ==> lexes_as(cs, sid, i, TokenKind::Percent, 1)
            &&& c == '~' ==> lexes_as(cs, sid, i, TokenKind::Tilde, 1)
            &&& c == '^' ==> lexes_as(cs, sid, i, TokenKind::Caret, 1)
            &&& c == '*' && next == Some('*') ==> lexes_as(cs, sid, i, TokenKind::Power, 2)
            &&& c == '*' && next != Some('*') ==> lexes_as(cs, sid, i, TokenKind::Star, 1)
            &&& c == '|' && next == Some('>') ==> lexes_as(cs, sid, i, TokenKind::PipeForward, 2)
            &&& c == '|' && next == Some('|') ==> lexes_as(cs, sid, i, TokenKind::PipePipe, 2)
            &&& c == '|' && next != Some('>') && next != Some('|') ==> lexes_as(cs, sid, i, TokenKind::Pipe, 1)
            &&& c == '&' && next == Some('&') ==> lexes_as(cs, sid, i, TokenKind::AmpersandAmpersand, 2)
            &&& c == '&' && next != Some('&') ==> lexes_as(cs, sid, i, TokenKind::Ampersand, 1)
            &&& c == '=' && next == Some('>') ==> lexes_as(cs, sid, i, TokenKind::FatArrow, 2)
            &&& c == '=' && next == Some('=') ==> lexes_as(cs, sid, i, TokenKind::EqualEqual, 2)
            &&& c == '=' && next != Some('>') && next != Some('=') ==> lexes_as(cs, sid, i, TokenKind::Assign, 1)
            &&& c == '!' && next == Some('=') ==> lexes_as(cs, sid, i, TokenKind::BangEqual, 2)
            &&& c == '!' && next != Some('=') ==> lexes_as(cs, sid, i, TokenKind::Bang, 1)
            &&& c == '>' && next == Some('=') ==> lexes_as(cs, sid, i, TokenKind::GreaterEqual, 2)
            &&& c == '>' && next == Some('>') ==> lexes_as(cs, sid, i, TokenKind::ShiftRight, 2)
            &&& c == '>' && next != Some('=') && next != Some('>') ==> lexes_as(cs, sid, i, TokenKind::Greater, 1)
            &&& c == '<' && next == Some('=') ==> lexes_as(cs, sid, i, TokenKind::LessEqual, 2)
            &&& c == '<' && next == Some('<') ==> lexes_as(cs, sid, i, TokenKind::ShiftLeft, 2)
            &&& c == '<' && next != Some('=') && next != Some('<') ==> lexes_as(cs, sid, i, TokenKind::Less, 1)
            &&& c == '/' && next != Some('/') ==> lexes_as(cs, sid, i, TokenKind::Slash, 1)
        }),
{
    reveal(lex_step);
    lemma_step_progress(cs, sid, i);
    let st = lex_step(cs, sid, i);
    let rest = lex_from(cs, sid, st.end);
    assert(Seq::<DiagnosticView>::empty() + rest.1 =~= rest.1);
    assert(lex_from(cs, sid, i) == (step_tokens(cs, sid, i, st) + rest.0, st.diags + rest.1));
}

} // verus!
