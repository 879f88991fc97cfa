//! The scanner: source text, read as a sequence of grapheme clusters, to tokens.
use crate::number::{is_digit_char, is_number_text, numeral_split, numeral_value, Numeric};
use crate::token::{decimal, decimal_text, opt_model, token_text, LiteralModel, LiteralValue, NumberLiteral, StringLiteral, Token, TokenModel};
use crate::{keyword, keyword_kind, TokenType};
use unicode_segmentation::UnicodeSegmentation;
use vstd::prelude::*;
use vstd::string::*;

verus! {

/// The extended grapheme clusters of a text, in order.
pub uninterp spec fn grapheme_clusters(s: Seq<char>) -> Seq<Seq<char>>;

/// Relies on `UnicodeSegmentation::graphemes` (extended clusters) to split
/// the source into the text elements that the scanner reads; the clusters
/// are consecutive slices of the source, so together they spell it.
#[verifier::external_body]
fn graphemes(source: &str) -> (r: Vec<String>)
    ensures
        texts(r@) == grapheme_clusters(source@),
        texts(r@).flatten() == source@,
{
    source.graphemes(true).map(|g| g.to_string()).collect()
}

/// An ASCII letter.
pub open spec fn is_ascii_letter(c: char) -> bool {
    ('a' <= c && c <= 'z') || ('A' <= c && c <= 'Z')
}

/// Whether a text element holds an ASCII letter.
pub open spec fn has_ascii_letter(g: Seq<char>) -> bool {
    exists|i: int| 0 <= i < g.len() && is_ascii_letter(#[trigger] g[i])
}

/// Relies on `regex::Regex::is_match` with the class `[a-zA-Z]`: true if and
/// only if the class matches somewhere in the text.
#[verifier::external_body]
fn is_alphabetic(grapheme: &str) -> (r: bool)
    ensures
        r == has_ascii_letter(grapheme@),
{
    regex::Regex::new(r"[a-zA-Z]").unwrap().is_match(grapheme)
}

/// The views of a sequence of strings.
pub open spec fn texts(v: Seq<String>) -> Seq<Seq<char>> {
    v.map_values(|g: String| g@)
}

pub open spec fn views<N>(v: Seq<Token<N>>) -> Seq<TokenModel<N>> {
    v.map_values(|t: Token<N>| t@)
}

pub open spec fn error_views(v: Seq<ScanError>) -> Seq<(int, Seq<char>)> {
    v.map_values(|e: ScanError| e@)
}

/// A line ending: a newline, or a carriage return and newline, which form
/// one text element.
pub open spec fn is_newline_g(g: Seq<char>) -> bool {
    g == seq!['\n'] || g == seq!['\r', '\n']
}

/// A text element that is the single digit.
pub open spec fn is_digit_g(g: Seq<char>) -> bool {
    g.len() == 1 && is_digit_char(g[0])
}

/// The kinds of runs the scanner reads to their end.
pub enum Run {
    /// Digits.
    Digits,
    /// Letters, digits and underscores.
    Word,
    /// Anything but a newline.
    Line,
    /// Anything but a double quote.
    Quoted,
}

pub open spec fn in_run(g: Seq<char>, run: Run) -> bool {
    match run {
        Run::Digits => is_digit_g(g),
        Run::Word => has_ascii_letter(g) || is_digit_g(g) || g == seq!['_'],
        Run::Line => !is_newline_g(g),
        Run::Quoted => g != seq!['"'],
    }
}

/// The first position at or after `i` whose element does not belong to the run.
pub open spec fn run_end(gs: Seq<Seq<char>>, i: int, run: Run) -> int
    decreases gs.len() - i,
{
    if 0 <= i < gs.len() && in_run(gs[i], run) {
        run_end(gs, i + 1, run)
    } else {
        i
    }
}

pub proof fn lemma_run_end(gs: Seq<Seq<char>>, i: int, run: Run)
    requires
        0 <= i <= gs.len(),
    ensures
        i <= run_end(gs, i, run) <= gs.len(),
        forall|k: int| i <= k < run_end(gs, i, run) ==> in_run(#[trigger] gs[k], run),
        run_end(gs, i, run) == gs.len() || !in_run(gs[run_end(gs, i, run)], run),
    decreases gs.len() - i,
{
    if i < gs.len() && in_run(gs[i], run) {
        lemma_run_end(gs, i + 1, run);
    }
}

/// The number of newline elements in `gs[a..b]`.
pub open spec fn newlines(gs: Seq<Seq<char>>, a: int, b: int) -> int
    decreases b - a,
{
    if b <= a {
        0
    } else {
        newlines(gs, a, b - 1) + if is_newline_g(gs[b - 1]) {
            1int
        } else {
            0
        }
    }
}

/// A line counter advanced by `k`, held at the largest `usize`.
pub open spec fn bump(line: int, k: int) -> int {
    if line + k <= usize::MAX {
        line + k
    } else {
        usize::MAX as int
    }
}

/// The text of the elements `gs[a..b]`.
pub open spec fn joined(gs: Seq<Seq<char>>, a: int, b: int) -> Seq<char> {
    gs.subrange(a, b).flatten_alt()
}

/// The end of a numeral that starts at `p`: digits, then optionally `.` and
/// at least one further digit.
pub open spec fn number_end(gs: Seq<Seq<char>>, p: int) -> int {
    let d = run_end(gs, p + 1, Run::Digits);
    if d + 1 < gs.len() && gs[d] == seq!['.'] && is_digit_g(gs[d + 1]) {
        run_end(gs, d + 2, Run::Digits)
    } else {
        d
    }
}

/// One step of the scanner: where it goes on, its line counter after the
/// step, and the token or the error the step yields.
pub struct LexStep<N> {
    pub next: int,
    pub line: int,
    pub token: Option<TokenModel<N>>,
    pub error: Option<(int, Seq<char>)>,
}

pub open spec fn simple_token<N>(
    gs: Seq<Seq<char>>,
    p: int,
    len: int,
    kind: TokenType,
    line: int,
) -> LexStep<N> {
    LexStep {
        next: p + len,
        line,
        token: Some(TokenModel { token_type: kind, lexeme: joined(gs, p, p + len), literal: None, line }),
        error: None,
    }
}

/// A one- or two-element operator: `two` when the next element is `=`.
pub open spec fn operator_token<N>(
    gs: Seq<Seq<char>>,
    p: int,
    one: TokenType,
    two: TokenType,
    line: int,
) -> LexStep<N> {
    if p + 1 < gs.len() && gs[p + 1] == seq!['='] {
        simple_token(gs, p, 2, two, line)
    } else {
        simple_token(gs, p, 1, one, line)
    }
}

pub open spec fn skip<N>(p: int, line: int) -> LexStep<N> {
    LexStep { next: p + 1, line, token: None, error: None }
}

/// The scanner's step at position `p` (which holds an element).
pub open spec fn lex_step<N: Numeric>(gs: Seq<Seq<char>>, p: int, line: int) -> LexStep<N> {
    let c = gs[p];
    if c == seq!['('] {
        simple_token(gs, p, 1, TokenType::LeftParen, line)
    } else if c == seq![')'] {
        simple_token(gs, p, 1, TokenType::RightParen, line)
    } else if c == seq!['{'] {
        simple_token(gs, p, 1, TokenType::LeftBrace, line)
    } else if c == seq!['}'] {
        simple_token(gs, p, 1, TokenType::RightBrace, line)
    } else if c == seq![','] {
        simple_token(gs, p, 1, TokenType::Comma, line)
    } else if c == seq!['.'] {
        simple_token(gs, p, 1, TokenType::Dot, line)
    } else if c == seq!['-'] {
        simple_token(gs, p, 1, TokenType::Minus, line)
    } else if c == seq!['+'] {
        simple_token(gs, p, 1, TokenType::Plus, line)
    } else if c == seq![';'] {
        simple_token(gs, p, 1, TokenType::Semicolon, line)
    } else if c == seq!['*'] {
        simple_token(gs, p, 1, TokenType::Star, line)
    } else if c == seq!['!'] {
        operator_token(gs, p, TokenType::Bang, TokenType::BangEqual, line)
    } else if c == seq!['='] {
        operator_token(gs, p, TokenType::Equal, TokenType::EqualEqual, line)
    } else if c == seq!['<'] {
        operator_token(gs, p, TokenType::Less, TokenType::LessEqual, line)
    } else if c == seq!['>'] {
        operator_token(gs, p, TokenType::Greater, TokenType::GreaterEqual, line)
    } else if c == seq!['/'] {
        if p + 1 < gs.len() && gs[p + 1] == seq!['/'] {
            // a comment runs to the end of the line
            LexStep { next: run_end(gs, p + 2, Run::Line), line, token: None, error: None }
        } else {
            simple_token(gs, p, 1, TokenType::Slash, line)
        }
    } else if c == seq!['"'] {
        let e = run_end(gs, p + 1, Run::Quoted);
        if e >= gs.len() {
            LexStep { next: gs.len() as int, line, token: None, error: Some((line, "Unterminated string."@)) }
        } else {
            let l = bump(line, newlines(gs, p + 1, e));
            LexStep {
                next: e + 1,
                line: l,
                token: Some(
                    TokenModel {
                        token_type: TokenType::String,
                        lexeme: joined(gs, p, e + 1),
                        literal: Some(LiteralModel::Str(joined(gs, p + 1, e))),
                        line: l,
                    },
                ),
                error: None,
            }
        }
    } else if is_digit_g(c) {
        let e = number_end(gs, p);
        LexStep {
            next: e,
            line,
            token: Some(
                TokenModel {
                    token_type: TokenType::Number,
                    lexeme: joined(gs, p, e),
                    literal: Some(LiteralModel::Number(numeral_value::<N>(joined(gs, p, e)))),
                    line,
                },
            ),
            error: None,
        }
    } else if is_newline_g(c) {
        skip(p, bump(line, 1))
    } else if c == seq![' '] || c == seq!['\r'] || c == seq!['\t'] {
        skip(p, line)
    } else if has_ascii_letter(c) || c == seq!['_'] {
        let e = run_end(gs, p + 1, Run::Word);
        let word = joined(gs, p, e);
        let kind = match keyword_kind(word) {
            Some(k) => k,
            None => TokenType::Identifier,
        };
        LexStep {
            next: e,
            line,
            token: Some(TokenModel { token_type: kind, lexeme: word, literal: None, line }),
            error: None,
        }
    } else {
        LexStep { next: p + 1, line, token: None, error: Some((line, "Unexpected character: "@ + c)) }
    }
}

pub proof fn lemma_step_advances<N: Numeric>(gs: Seq<Seq<char>>, p: int, line: int)
    requires
        0 <= p < gs.len(),
    ensures
        p < lex_step::<N>(gs, p, line).next <= gs.len(),
{
    lemma_run_end(gs, p + 1, Run::Digits);
    lemma_run_end(gs, p + 1, Run::Word);
    lemma_run_end(gs, p + 1, Run::Quoted);
    if p + 2 <= gs.len() {
        lemma_run_end(gs, p + 2, Run::Line);
    }
    let d = run_end(gs, p + 1, Run::Digits);
    if d + 2 <= gs.len() {
        lemma_run_end(gs, d + 2, Run::Digits);
    }
}

pub open spec fn opt_seq<T>(o: Option<T>) -> Seq<T> {
    match o {
        Some(x) => seq![x],
        None => seq![],
    }
}

#[via_fn]
proof fn scan_from_decreases<N: Numeric>(gs: Seq<Seq<char>>, p: int, line: int) {
    if 0 <= p < gs.len() {
        lemma_step_advances::<N>(gs, p, line);
    }
}

/// The tokens and errors of a scan from position `p` with line counter `line`,
/// ending in the end-of-input token.
pub open spec fn scan_from<N: Numeric>(gs: Seq<Seq<char>>, p: int, line: int) -> (Seq<TokenModel<N>>, Seq<(int, Seq<char>)>)
    decreases gs.len() - p,
    via scan_from_decreases::<N>
{
    if p < 0 || p >= gs.len() {
        (seq![TokenModel { token_type: TokenType::Eof, lexeme: seq![], literal: None, line }], seq![])
    } else {
        let s = lex_step::<N>(gs, p, line);
        let rest = scan_from::<N>(gs, s.next, s.line);
        (opt_seq(s.token) + rest.0, opt_seq(s.error) + rest.1)
    }
}

/// Reads source text into tokens, one pass, left to right.
pub struct Scanner<N> {
    /// The text elements of the source.
    pub graphemes: Vec<String>,
    pub tokens: Vec<Token<N>>,
    pub errors: Vec<ScanError>,
    /// Where the token being read starts.
    pub start: usize,
    /// The next element to read.
    pub current: usize,
    pub line: usize,
    pub has_error: bool,
}

/// A lexical error: the line it was found on and its message.
pub struct ScanError {
    pub line: usize,
    pub message: String,
}

impl View for ScanError {
    type V = (int, Seq<char>);

    open spec fn view(&self) -> (int, Seq<char>) {
        (self.line as int, self.message@)
    }
}


/// Whether a text element is the single character `c`.
fn is_g(g: &String, c: char) -> (r: bool)
    ensures
        r == (g@ == seq![c]),
{
    let s = g.as_str();
    if s.unicode_len() == 1 {
        let d = s.get_char(0);
        if d == c {
            assert(s@ =~= seq![c]);
            true
        } else {
            false
        }
    } else {
        false
    }
}

/// Whether a text element is a line ending.
fn is_newline(g: &String) -> (r: bool)
    ensures
        r == is_newline_g(g@),
{
    let s = g.as_str();
    let n = s.unicode_len();
    if n == 1 {
        let d = s.get_char(0);
        if d == '\n' {
            assert(s@ =~= seq!['\n']);
            return true;
        }
        return false;
    }
    if n == 2 {
        let d0 = s.get_char(0);
        let d1 = s.get_char(1);
        if d0 == '\r' && d1 == '\n' {
            assert(s@ =~= seq!['\r', '\n']);
            return true;
        }
        return false;
    }
    false
}

/// Whether a text element is a single digit.
pub fn is_digit(g: &String) -> (r: bool)
    ensures
        r == is_digit_g(g@),
{
    let s = g.as_str();
    if s.unicode_len() == 1 {
        let d = s.get_char(0);
        '0' <= d && d <= '9'
    } else {
        false
    }
}

/// The text of elements that are each one character, read character by character.
pub proof fn lemma_joined_singles(gs: Seq<Seq<char>>, a: int, b: int)
    requires
        0 <= a <= b <= gs.len(),
        forall|k: int| a <= k < b ==> (#[trigger] gs[k]).len() == 1,
    ensures
        joined(gs, a, b).len() == b - a,
        forall|i: int| 0 <= i < b - a ==> #[trigger] joined(gs, a, b)[i] == gs[a + i][0],
    decreases b - a,
{
    if a < b {
        lemma_joined_singles(gs, a, b - 1);
        assert(gs.subrange(a, b).drop_last() =~= gs.subrange(a, b - 1));
    } else {
        assert(gs.subrange(a, b) =~= Seq::<Seq<char>>::empty());
    }
}

impl<N: Numeric> Scanner<N> {
    /// The text elements being scanned.
    pub open spec fn elements(&self) -> Seq<Seq<char>> {
        texts(self.graphemes@)
    }

    /// The position of the next element to read.
    pub open spec fn position(&self) -> int {
        self.current as int
    }

    /// The line counter.
    pub open spec fn line_number(&self) -> int {
        self.line as int
    }

    pub open spec fn wf(&self) -> bool {
        self.current <= self.graphemes.len()
    }

    /// A scanner that has read nothing yet.
    pub open spec fn fresh(&self) -> bool {
        &&& self.wf()
        &&& self.current == 0
        &&& self.line == 1
    }

    /// A scanner over the grapheme clusters of `source`.
    pub fn new(source: String) -> (r: Self)
        ensures
            r.fresh(),
            r.elements() == grapheme_clusters(source@),
            r.elements().flatten() == source@,
            r.position() == 0,
            r.start == 0,
            r.line_number() == 1,
            r.wf(),
            r.tokens@.len() == 0,
            r.errors@.len() == 0,
            !r.has_error,
    {
        let g = graphemes(source.as_str());
        Self::from_graphemes(g)
    }

    /// A scanner over text elements that have been split already.
    pub fn from_graphemes(graphemes: Vec<String>) -> (r: Self)
        ensures
            r.fresh(),
            r.elements() == texts(graphemes@),
            r.position() == 0,
            r.start == 0,
            r.line_number() == 1,
            r.wf(),
            r.tokens@.len() == 0,
            r.errors@.len() == 0,
            !r.has_error,
    {
        Scanner {
            graphemes,
            tokens: Vec::new(),
            errors: Vec::new(),
            start: 0,
            current: 0,
            line: 1,
            has_error: false,
        }
    }

    /// Scans to the end of the input and appends the end-of-input token;
    /// errors are collected and scanning goes on after each.
    pub fn scan_tokens(&mut self)
        requires
            old(self).wf(),
        ensures
            final(self).wf(),
            final(self).elements() == old(self).elements(),
            views(final(self).tokens@) == views(old(self).tokens@) + scan_from::<N>(
                old(self).elements(),
                old(self).position(),
                old(self).line_number(),
            ).0,
            error_views(final(self).errors@) == error_views(old(self).errors@) + scan_from::<N>(
                old(self).elements(),
                old(self).position(),
                old(self).line_number(),
            ).1,
            final(self).has_error == (old(self).has_error || scan_from::<N>(
                old(self).elements(),
                old(self).position(),
                old(self).line_number(),
            ).1.len() > 0),
    {
        let ghost gs = self.elements();
        let ghost whole = scan_from::<N>(gs, self.position(), self.line_number());
        let ghost toks0 = views(self.tokens@);
        let ghost errs0 = error_views(self.errors@);
        let ghost err0 = self.has_error;
        while !self.is_at_end()
            invariant
                self.wf(),
                self.elements() == gs,
                toks0 + whole.0 == views(self.tokens@) + scan_from::<N>(gs, self.position(), self.line_number()).0,
                errs0 + whole.1 == error_views(self.errors@) + scan_from::<N>(gs, self.position(), self.line_number()).1,
                self.has_error == (err0 || error_views(self.errors@).len() > errs0.len()),
                error_views(self.errors@).len() >= errs0.len(),
            decreases gs.len() - self.position(),
        {
            self.start = self.current;
            let ghost p = self.position();
            let ghost l = self.line_number();
            let ghost before = views(self.tokens@);
            let ghost errs_before = error_views(self.errors@);
            let ghost st = lex_step::<N>(gs, p, l);
            proof {
                lemma_step_advances::<N>(gs, p, l);
            }
            match self.scan_token() {
                Ok(_) => {},
                Err(e) => {
                    self.has_error = true;
                    self.errors.push(e);
                },
            }
            assert(views(self.tokens@) =~= before + opt_seq(st.token));
            assert(error_views(self.errors@) =~= errs_before + opt_seq(st.error));
        }
        let eof = Token::new(TokenType::Eof, String::new(), None, self.line);
        self.tokens.push(eof);
        proof {
            let rest = scan_from::<N>(gs, self.position(), self.line_number());
            assert(views(self.tokens@) =~= views(self.tokens@.drop_last()) + rest.0);
            assert(error_views(self.errors@) =~= error_views(self.errors@) + rest.1);
        }
    }

    fn is_at_end(&self) -> (r: bool)
        ensures
            r == (self.current >= self.graphemes.len()),
    {
        self.current >= self.graphemes.len()
    }

    fn advance(&mut self)
        requires
            old(self).current < old(self).graphemes.len(),
        ensures
            final(self).current == old(self).current + 1,
            final(self).graphemes == old(self).graphemes,
            final(self).tokens == old(self).tokens,
            final(self).errors == old(self).errors,
            final(self).has_error == old(self).has_error,
            final(self).start == old(self).start,
            final(self).line == old(self).line,
    {
        self.current = self.current + 1;
    }

    /// Consumes the next element if it is `expected`.
    fn match_next(&mut self, expected: char) -> (r: bool)
        requires
            old(self).wf(),
        ensures
            r == (old(self).current < old(self).graphemes.len() && old(self).elements()[old(self).current as int] == seq![expected]),
            final(self).current == old(self).current + if r { 1usize } else { 0 },
            final(self).graphemes == old(self).graphemes,
            final(self).tokens == old(self).tokens,
            final(self).errors == old(self).errors,
            final(self).has_error == old(self).has_error,
            final(self).start == old(self).start,
            final(self).line == old(self).line,
    {
        if self.is_at_end() {
            return false;
        }
        if !is_g(&self.graphemes[self.current], expected) {
            return false;
        }
        self.current = self.current + 1;
        true
    }

    /// Whether the next element is `c`.
    fn peek(&self, c: char) -> (r: bool)
        requires
            self.wf(),
        ensures
            r == (self.current < self.graphemes.len() && self.elements()[self.current as int] == seq![c]),
    {
        if self.is_at_end() {
            return false;
        }
        is_g(&self.graphemes[self.current], c)
    }

    /// Whether the next element is a line ending.
    fn peek_newline(&self) -> (r: bool)
        requires
            self.wf(),
        ensures
            r == (self.current < self.graphemes.len() && is_newline_g(self.elements()[self.current as int])),
    {
        if self.is_at_end() {
            return false;
        }
        is_newline(&self.graphemes[self.current])
    }

    /// Whether the element after the next one is a digit.
    fn peek_next(&self) -> (r: bool)
        requires
            self.wf(),
        ensures
            r == (self.current + 1 < self.graphemes.len() && is_digit_g(self.elements()[self.current + 1])),
    {
        if self.graphemes.len() > 1 && self.current < self.graphemes.len() - 1 {
            is_digit(&self.graphemes[self.current + 1])
        } else {
            false
        }
    }

    /// Whether the next element is a digit.
    fn peek_digit(&self) -> (r: bool)
        requires
            self.wf(),
        ensures
            r == (self.current < self.graphemes.len() && is_digit_g(self.elements()[self.current as int])),
    {
        if self.is_at_end() {
            return false;
        }
        is_digit(&self.graphemes[self.current])
    }

    /// The text of the elements `a..b`.
    fn text_between(&self, a: usize, b: usize) -> (r: String)
        requires
            a <= b <= self.graphemes.len(),
        ensures
            r@ == joined(self.elements(), a as int, b as int),
    {
        let ghost gs = self.elements();
        let mut out = String::new();
        let mut i = a;
        assert(gs.subrange(a as int, a as int) =~= Seq::<Seq<char>>::empty());
        while i < b
            invariant
                a <= i <= b <= self.graphemes.len(),
                gs == self.elements(),
                out@ == joined(gs, a as int, i as int),
            decreases b - i,
        {
            out.append(self.graphemes[i].as_str());
            assert(gs.subrange(a as int, i + 1).drop_last() =~= gs.subrange(a as int, i as int));
            i = i + 1;
        }
        out
    }

    fn add_token(&mut self, token_type: TokenType)
        requires
            old(self).start <= old(self).current <= old(self).graphemes.len(),
        ensures
            final(self).current == old(self).current,
            final(self).graphemes == old(self).graphemes,
            final(self).errors == old(self).errors,
            final(self).has_error == old(self).has_error,
            final(self).start == old(self).start,
            final(self).line == old(self).line,
            views(final(self).tokens@) == views(old(self).tokens@) + seq![
                TokenModel {
                    token_type,
                    lexeme: joined(old(self).elements(), old(self).start as int, old(self).current as int),
                    literal: None,
                    line: old(self).line as int,
                },
            ],
    {
        self.add_literal_token(token_type, None);
    }

    fn add_literal_token(&mut self, token_type: TokenType, literal: Option<LiteralValue<N>>)
        requires
            old(self).start <= old(self).current <= old(self).graphemes.len(),
        ensures
            final(self).current == old(self).current,
            final(self).graphemes == old(self).graphemes,
            final(self).errors == old(self).errors,
            final(self).has_error == old(self).has_error,
            final(self).start == old(self).start,
            final(self).line == old(self).line,
            views(final(self).tokens@) == views(old(self).tokens@) + seq![
                TokenModel {
                    token_type,
                    lexeme: joined(old(self).elements(), old(self).start as int, old(self).current as int),
                    literal: opt_model(literal),
                    line: old(self).line as int,
                },
            ],
    {
        let text = self.text_between(self.start, self.current);
        let ghost before = views(self.tokens@);
        self.tokens.push(Token::new(token_type, text, literal, self.line));
        assert(views(self.tokens@) =~= before + seq![self.tokens@.last()@]);
    }

    /// Reads a numeral whose first digit has been consumed.
    fn number(&mut self)
        requires
            old(self).wf(),
            old(self).current == old(self).start + 1,
            is_digit_g(old(self).elements()[old(self).start as int]),
        ensures
            final(self).wf(),
            final(self).graphemes == old(self).graphemes,
            final(self).errors == old(self).errors,
            final(self).has_error == old(self).has_error,
            final(self).start == old(self).start,
            final(self).line == old(self).line,
            final(self).current == number_end(old(self).elements(), old(self).start as int),
            views(final(self).tokens@) == views(old(self).tokens@) + seq![
                TokenModel {
                    token_type: TokenType::Number,
                    lexeme: joined(old(self).elements(), old(self).start as int, final(self).current as int),
                    literal: Some(LiteralModel::Number(numeral_value::<N>(joined(old(self).elements(), old(self).start as int, final(self).current as int)))),
                    line: old(self).line as int,
                },
            ],
    {
        let ghost gs = self.elements();
        let ghost p = self.start as int;
        proof {
            lemma_run_end(gs, p + 1, Run::Digits);
        }
        while self.peek_digit()
            invariant
                self.wf(),
                gs == self.elements(),
                p == self.start,
                p + 1 <= self.current,
                run_end(gs, self.current as int, Run::Digits) == run_end(gs, p + 1, Run::Digits),
                self.graphemes == old(self).graphemes,
                self.errors == old(self).errors,
                self.has_error == old(self).has_error,
                self.tokens == old(self).tokens,
                self.line == old(self).line,
            decreases gs.len() - self.current,
        {
            self.advance();
        }
        let ghost d = self.current as int;
        let ghost mut frac = false;
        if self.peek('.') && self.peek_next() {
            proof {
                frac = true;
            }
            self.advance();
            self.advance();
            proof {
                lemma_run_end(gs, d + 2, Run::Digits);
            }
            while self.peek_digit()
                invariant
                    self.wf(),
                    gs == self.elements(),
                    p == self.start,
                    d + 2 <= self.current,
                    run_end(gs, self.current as int, Run::Digits) == run_end(gs, d + 2, Run::Digits),
                self.graphemes == old(self).graphemes,
                self.errors == old(self).errors,
                self.has_error == old(self).has_error,
                self.tokens == old(self).tokens,
                self.line == old(self).line,
                decreases gs.len() - self.current,
            {
                self.advance();
            }
        }
        let text = self.text_between(self.start, self.current);
        proof {
            let e = self.current as int;
            assert forall|k: int| p <= k < e implies (#[trigger] gs[k]).len() == 1 by {
                if k == p {
                } else if k < d {
                    assert(in_run(gs[k], Run::Digits));
                } else if k == d {
                } else if k == d + 1 {
                } else {
                    lemma_run_end(gs, d + 2, Run::Digits);
                    assert(in_run(gs[k], Run::Digits));
                }
            }
            lemma_joined_singles(gs, p, e);
            let t = joined(gs, p, e);
            assert forall|i: int| 0 <= i < d - p implies is_digit_char(#[trigger] t[i]) by {
                assert(t[i] == gs[p + i][0]);
            }
            if frac {
                assert forall|i: int| d - p < i < t.len() implies is_digit_char(#[trigger] t[i]) by {
                    assert(t[i] == gs[p + i][0]);
                }
                assert(t[d - p] == gs[d][0]);
            }
            assert(t[0] == gs[p][0]);
            if frac {
                assert(t[d - p] == '.');
                assert(numeral_split(t, d - p));
            } else {
                assert(e == d);
                let k = d - p;
                assert(numeral_split(t, k));
            }
        }
        let value = N::from_numeral(text.as_str());
        self.add_literal_token(TokenType::Number, Some(LiteralValue::Number(NumberLiteral { value })));
    }

    /// Reads a word whose first element has been consumed, and classifies it.
    fn identifier(&mut self)
        requires
            old(self).wf(),
            old(self).current == old(self).start + 1,
        ensures
            final(self).wf(),
            final(self).graphemes == old(self).graphemes,
            final(self).errors == old(self).errors,
            final(self).has_error == old(self).has_error,
            final(self).start == old(self).start,
            final(self).line == old(self).line,
            final(self).current == run_end(old(self).elements(), old(self).start + 1, Run::Word),
            views(final(self).tokens@) == views(old(self).tokens@) + seq![
                TokenModel {
                    token_type: match keyword_kind(joined(old(self).elements(), old(self).start as int, final(self).current as int)) {
                        Some(k) => k,
                        None => TokenType::Identifier,
                    },
                    lexeme: joined(old(self).elements(), old(self).start as int, final(self).current as int),
                    literal: None,
                    line: old(self).line as int,
                },
            ],
    {
        let ghost gs = self.elements();
        let ghost p = self.start as int;
        loop
            invariant
                self.wf(),
                gs == self.elements(),
                p + 1 <= self.current,
                run_end(gs, self.current as int, Run::Word) == run_end(gs, p + 1, Run::Word),
                self.graphemes == old(self).graphemes,
                self.errors == old(self).errors,
                self.has_error == old(self).has_error,
                self.tokens == old(self).tokens,
                self.line == old(self).line,
                self.start == old(self).start,
            ensures
                self.wf(),
                self.current == run_end(gs, p + 1, Run::Word),
            decreases gs.len() - self.current,
        {
            if self.is_at_end() {
                break;
            }
            let g = &self.graphemes[self.current];
            assert(g@ == gs[self.current as int]);
            if !(is_alphabetic(g.as_str()) || is_digit(g) || is_g(g, '_')) {
                break;
            }
            self.advance();
        }
        let word = self.text_between(self.start, self.current);
        let kind = match keyword(&word) {
            Some(k) => k,
            None => TokenType::Identifier,
        };
        self.add_token(kind);
    }

    /// Reads a string literal whose opening quote has been consumed.
    fn string(&mut self) -> (r: Result<(), ScanError>)
        requires
            old(self).wf(),
            old(self).current == old(self).start + 1,
        ensures
            final(self).wf(),
            final(self).graphemes == old(self).graphemes,
            final(self).errors == old(self).errors,
            final(self).has_error == old(self).has_error,
            final(self).start == old(self).start,
            ({
                let gs = old(self).elements();
                let p = old(self).start as int;
                let e = run_end(gs, p + 1, Run::Quoted);
                let l = bump(old(self).line as int, newlines(gs, p + 1, e));
                if e >= gs.len() {
                    &&& final(self).current == gs.len()
                    &&& final(self).line == old(self).line
                    &&& final(self).tokens == old(self).tokens
                    &&& r is Err
                    &&& r->Err_0@ == (old(self).line as int, "Unterminated string."@)
                } else {
                    &&& final(self).current == e + 1
                    &&& final(self).line == l
                    &&& r is Ok
                    &&& views(final(self).tokens@) == views(old(self).tokens@) + seq![
                        TokenModel {
                            token_type: TokenType::String,
                            lexeme: joined(gs, p, e + 1),
                            literal: Some(LiteralModel::Str(joined(gs, p + 1, e))),
                            line: l,
                        },
                    ]
                }
            }),
    {
        let ghost gs = self.elements();
        let ghost p = self.start as int;
        let mut lines: usize = 0;
        while !self.peek('"') && !self.is_at_end()
            invariant
                self.wf(),
                gs == self.elements(),
                p + 1 <= self.current,
                lines == newlines(gs, p + 1, self.current as int),
                lines <= self.current - (p + 1),
                p == self.start,
                run_end(gs, self.current as int, Run::Quoted) == run_end(gs, p + 1, Run::Quoted),
                self.graphemes == old(self).graphemes,
                self.errors == old(self).errors,
                self.has_error == old(self).has_error,
                self.tokens == old(self).tokens,
                self.line == old(self).line,
                self.start == old(self).start,
            decreases gs.len() - self.current,
        {
            if self.peek_newline() {
                lines = lines + 1;
            }
            self.advance();
        }
        if self.is_at_end() {
            return Err(ScanError { line: self.line, message: String::from_str("Unterminated string.") });
        }
        self.advance();
        self.line = if lines <= usize::MAX - self.line {
            self.line + lines
        } else {
            usize::MAX
        };
        let value = self.text_between(self.start + 1, self.current - 1);
        self.add_literal_token(TokenType::String, Some(LiteralValue::String(StringLiteral { value })));
        Ok(())
    }

    /// Reads one token, or skips one stretch of text that yields none.
    fn scan_token(&mut self) -> (r: Result<(), ScanError>)
        requires
            old(self).wf(),
            old(self).current < old(self).graphemes.len(),
            old(self).start == old(self).current,
        ensures
            final(self).wf(),
            final(self).graphemes == old(self).graphemes,
            final(self).errors == old(self).errors,
            final(self).has_error == old(self).has_error,
            ({
                let st = lex_step::<N>(old(self).elements(), old(self).current as int, old(self).line as int);
                &&& final(self).current == st.next
                &&& final(self).line == st.line
                &&& views(final(self).tokens@) == views(old(self).tokens@) + opt_seq(st.token)
                &&& match r {
                    Ok(_) => st.error is None,
                    Err(e) => st.error == Some(e@),
                }
            }),
    {
        let ghost gs = self.elements();
        let ghost p = self.current as int;
        let c = self.graphemes[self.current].clone();
        assert(c@ == gs[p]);
        self.advance();
        if is_g(&c, '(') {
            self.add_token(TokenType::LeftParen);
            return Ok(());
        }
        if is_g(&c, ')') {
            self.add_token(TokenType::RightParen);
            return Ok(());
        }
        if is_g(&c, '{') {
            self.add_token(TokenType::LeftBrace);
            return Ok(());
        }
        if is_g(&c, '}') {
            self.add_token(TokenType::RightBrace);
            return Ok(());
        }
        if is_g(&c, ',') {
            self.add_token(TokenType::Comma);
            return Ok(());
        }
        if is_g(&c, '.') {
            self.add_token(TokenType::Dot);
            return Ok(());
        }
        if is_g(&c, '-') {
            self.add_token(TokenType::Minus);
            return Ok(());
        }
        if is_g(&c, '+') {
            self.add_token(TokenType::Plus);
            return Ok(());
        }
        if is_g(&c, ';') {
            self.add_token(TokenType::Semicolon);
            return Ok(());
        }
        if is_g(&c, '*') {
            self.add_token(TokenType::Star);
            return Ok(());
        }
        if is_g(&c, '!') {
            let t = if self.match_next('=') {
                TokenType::BangEqual
            } else {
                TokenType::Bang
            };
            self.add_token(t);
            return Ok(());
        }
        if is_g(&c, '=') {
            let t = if self.match_next('=') {
                TokenType::EqualEqual
            } else {
                TokenType::Equal
            };
            self.add_token(t);
            return Ok(());
        }
        if is_g(&c, '<') {
            let t = if self.match_next('=') {
                TokenType::LessEqual
            } else {
                TokenType::Less
            };
            self.add_token(t);
            return Ok(());
        }
        if is_g(&c, '>') {
            let t = if self.match_next('=') {
                TokenType::GreaterEqual
            } else {
                TokenType::Greater
            };
            self.add_token(t);
            return Ok(());
        }
        if is_g(&c, '/') {
            if self.match_next('/') {
                proof {
                    lemma_run_end(gs, p + 2, Run::Line);
                }
                while !self.peek_newline() && !self.is_at_end()
                    invariant
                        self.wf(),
                        gs == self.elements(),
                        p + 2 <= self.current,
                        run_end(gs, self.current as int, Run::Line) == run_end(gs, p + 2, Run::Line),
                        self.graphemes == old(self).graphemes,
                        self.errors == old(self).errors,
                        self.has_error == old(self).has_error,
                        self.tokens == old(self).tokens,
                        self.line == old(self).line,
                    decreases gs.len() - self.current,
                {
                    self.advance();
                }
                assert(views(self.tokens@) =~= views(old(self).tokens@) + opt_seq(None::<TokenModel<N>>));
                return Ok(());
            }
            self.add_token(TokenType::Slash);
            return Ok(());
        }
        if is_g(&c, '"') {
            return self.string();
        }
        if is_digit(&c) {
            self.number();
            return Ok(());
        }
        if is_newline(&c) {
            if self.line < usize::MAX {
                self.line = self.line + 1;
            }
            assert(views(self.tokens@) =~= views(old(self).tokens@) + opt_seq(None::<TokenModel<N>>));
            return Ok(());
        }
        if is_g(&c, ' ') || is_g(&c, '\r') || is_g(&c, '\t') {
            assert(views(self.tokens@) =~= views(old(self).tokens@) + opt_seq(None::<TokenModel<N>>));
            return Ok(());
        }
        if is_alphabetic(c.as_str()) || is_g(&c, '_') {
            self.identifier();
            return Ok(());
        }
        let mut message = String::from_str("Unexpected character: ");
        message.append(c.as_str());
        assert(views(self.tokens@) =~= views(old(self).tokens@) + opt_seq(None::<TokenModel<N>>));
        Err(ScanError { line: self.line, message })
    }
}

/// Scans source text to the end: `Ok` when no lexical error was found,
/// `Err` otherwise, the scanner holding the tokens and errors either way.
pub fn tokenize<N: Numeric>(source: String) -> (r: Result<Scanner<N>, Scanner<N>>)
    ensures
        ({
            let s = match r {
                Ok(s) => s,
                Err(s) => s,
            };
            let gs = grapheme_clusters(source@);
            &&& s.elements() == gs
            &&& views(s.tokens@) == scan_from::<N>(gs, 0, 1).0
            &&& error_views(s.errors@) == scan_from::<N>(gs, 0, 1).1
            &&& (r is Err <==> scan_from::<N>(gs, 0, 1).1.len() > 0)
        }),
{
    let mut scanner = Scanner::new(source);
    scanner.scan_tokens();
    assert(views(scanner.tokens@) =~= scan_from::<N>(scanner.elements(), 0, 1).0);
    assert(error_views(scanner.errors@) =~= scan_from::<N>(scanner.elements(), 0, 1).1);
    if scanner.has_error {
        Err(scanner)
    } else {
        Ok(scanner)
    }
}

/// A run of digits ends exactly where the digits stop.
proof fn lemma_digits_end_at(gs: Seq<Seq<char>>, i: int, j: int)
    requires
        0 <= i <= j <= gs.len(),
        forall|k: int| i <= k < j ==> is_digit_g(#[trigger] gs[k]),
        j == gs.len() || !is_digit_g(gs[j]),
    ensures
        run_end(gs, i, Run::Digits) == j,
{
    lemma_run_end(gs, i, Run::Digits);
    let e = run_end(gs, i, Run::Digits);
    if e < j {
        assert(is_digit_g(gs[e]));
    }
    if e > j {
        assert(in_run(gs[j], Run::Digits));
    }
}

/// Scanning a numeral (text elements of one character each that spell a
/// run of digits, optionally with `.` and further digits) yields exactly one
/// number token, whose lexeme is the numeral and whose value is the number
/// the numeral denotes, then the end-of-input token; there is no error.
pub proof fn lemma_numeral_scans<N: Numeric>(gs: Seq<Seq<char>>)
    requires
        forall|k: int| 0 <= k < gs.len() ==> (#[trigger] gs[k]).len() == 1,
        is_number_text(joined(gs, 0, gs.len() as int)),
    ensures
        scan_from::<N>(gs, 0, 1).0 == seq![
            TokenModel {
                token_type: TokenType::Number,
                lexeme: joined(gs, 0, gs.len() as int),
                literal: Some(LiteralModel::Number(numeral_value::<N>(joined(gs, 0, gs.len() as int)))),
                line: 1,
            },
            TokenModel { token_type: TokenType::Eof, lexeme: Seq::empty(), literal: None, line: 1 },
        ],
        scan_from::<N>(gs, 0, 1).1.len() == 0,
{
    let n = gs.len() as int;
    let t = joined(gs, 0, n);
    lemma_joined_singles(gs, 0, n);
    let k = choose|k: int| numeral_split(t, k);
    assert forall|i: int| 0 <= i < k implies is_digit_g(#[trigger] gs[i]) by {
        assert(t[i] == gs[i][0]);
    }
    if k == n {
        lemma_digits_end_at(gs, 1, n);
    } else {
        assert(t[k] == gs[k][0]);
        assert(gs[k] =~= seq!['.']);
        lemma_digits_end_at(gs, 1, k);
        assert forall|i: int| k < i < n implies is_digit_g(#[trigger] gs[i]) by {
            assert(t[i] == gs[i][0]);
        }
        assert(is_digit_g(gs[k + 1]));
        lemma_digits_end_at(gs, k + 2, n);
    }
    assert(number_end(gs, 0) == n);
    assert(is_digit_g(gs[0]));
    let c = gs[0];
    assert(c[0] == t[0]);
    assert(c != seq!['(']) by { assert(seq!['('][0] == '('); }
    assert(c != seq![')']) by { assert(seq![')'][0] == ')'); }
    assert(c != seq!['{']) by { assert(seq!['{'][0] == '{'); }
    assert(c != seq!['}']) by { assert(seq!['}'][0] == '}'); }
    assert(c != seq![',']) by { assert(seq![','][0] == ','); }
    assert(c != seq!['.']) by { assert(seq!['.'][0] == '.'); }
    assert(c != seq!['-']) by { assert(seq!['-'][0] == '-'); }
    assert(c != seq!['+']) by { assert(seq!['+'][0] == '+'); }
    assert(c != seq![';']) by { assert(seq![';'][0] == ';'); }
    assert(c != seq!['*']) by { assert(seq!['*'][0] == '*'); }
    assert(c != seq!['!']) by { assert(seq!['!'][0] == '!'); }
    assert(c != seq!['=']) by { assert(seq!['='][0] == '='); }
    assert(c != seq!['<']) by { assert(seq!['<'][0] == '<'); }
    assert(c != seq!['>']) by { assert(seq!['>'][0] == '>'); }
    assert(c != seq!['/']) by { assert(seq!['/'][0] == '/'); }
    assert(c != seq!['"']) by { assert(seq!['"'][0] == '"'); }
    let st = lex_step::<N>(gs, 0, 1);
    assert(st.next == n);
    assert(scan_from::<N>(gs, n, 1).0 == seq![TokenModel::<N> { token_type: TokenType::Eof, lexeme: Seq::empty(), literal: None, line: 1 }]);
    assert(scan_from::<N>(gs, 0, 1).0 =~= seq![st.token->Some_0] + scan_from::<N>(gs, n, 1).0);
}

impl ScanError {
    /// The report line: `[line N] Error: message`.
    pub fn report(&self) -> (r: String)
        ensures
            r@ == "[line "@ + decimal(self.line as nat) + "] Error: "@ + self.message@,
    {
        let mut out = String::from_str("[line ");
        out.append(decimal_text(self.line).as_str());
        out.append("] Error: ");
        out.append(self.message.as_str());
        out
    }
}

/// The listing of tokens: each token's printed form on a line of its own.
pub open spec fn listing<N: Numeric>(ts: Seq<TokenModel<N>>) -> Seq<char>
    decreases ts.len(),
{
    if ts.len() == 0 {
        Seq::empty()
    } else {
        listing(ts.drop_last()) + token_text(ts.last()) + "\n"@
    }
}

impl<N: Numeric> Scanner<N> {
    /// The tokens read so far, one per line.
    pub fn to_string(&self) -> (r: String)
        ensures
            r@ == listing(views(self.tokens@)),
    {
        let ghost ts = views(self.tokens@);
        let mut out = String::new();
        let mut i: usize = 0;
        assert(ts.subrange(0, 0) =~= Seq::<TokenModel<N>>::empty());
        while i < self.tokens.len()
            invariant
                i <= self.tokens@.len(),
                ts == views(self.tokens@),
                out@ == listing(ts.subrange(0, i as int)),
            decreases self.tokens.len() - i,
        {
            out.append(self.tokens[i].to_string().as_str());
            out.append("\n");
            assert(ts.subrange(0, i + 1).drop_last() =~= ts.subrange(0, i as int));
            i = i + 1;
        }
        assert(ts.subrange(0, i as int) =~= ts);
        out
    }
}

} // verus!
