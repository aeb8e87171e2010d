use vstd::prelude::*;
use vstd::slice::slice_subrange;
use vstd::string::StringSliceAdditionalSpecFns;

verus! {

/// A `Token` is a copyable enum, with no data attached, to make it easy to match
/// against and pass around. `Error` stands for a byte that starts no token.
#[derive(Clone, Copy, Debug, PartialEq, Eq, Structural)]
pub enum Token {
    Eof,
    // items
    Ident,
    Num,
    Unit,
    // delims
    Lam,
    Dot,
    Comma,
    Semi,
    LParen,
    RParen,
    // operators
    Plus,
    Minus,
    Star,
    Slash,
    Eq,
    EqEq,
    Bang,
    BangEq,
    Gt,
    GtEq,
    Lt,
    LtEq,
    Arrow,
    Pipe,
    // keywords
    True,
    False,
    And,
    Or,
    If,
    Then,
    Else,
    Let,
    Rec,
    In,
    Match,
    With,
    // a byte that starts no token
    Error,
}

// ---------------------------------------------------------------------------
// Byte classes
// ---------------------------------------------------------------------------

/// ASCII whitespace as `u8::is_ascii_whitespace` defines it.
pub open spec fn is_ws(c: u8) -> bool {
    c == 0x20u8 || c == 0x09u8 || c == 0x0au8 || c == 0x0cu8 || c == 0x0du8
}

pub open spec fn is_alpha(c: u8) -> bool {
    (0x41u8 <= c && c <= 0x5au8) || (0x61u8 <= c && c <= 0x7au8)
}

pub open spec fn is_digit(c: u8) -> bool {
    0x30u8 <= c && c <= 0x39u8
}

pub open spec fn is_ident_start(c: u8) -> bool {
    is_alpha(c) || c == 0x5fu8
}

pub open spec fn is_ident_continue(c: u8) -> bool {
    is_alpha(c) || is_digit(c) || c == 0x5fu8 || c == 0x27u8
}

/// The classes of bytes over which the lexer can skip a run.
#[derive(Clone, Copy, Debug, PartialEq, Eq, Structural)]
pub enum CharClass {
    Whitespace,
    NotNewline,
    IdentContinue,
    Digit,
}

impl CharClass {
    pub open spec fn holds(self, c: u8) -> bool {
        match self {
            CharClass::Whitespace => is_ws(c),
            CharClass::NotNewline => c != 0x0au8,
            CharClass::IdentContinue => is_ident_continue(c),
            CharClass::Digit => is_digit(c),
        }
    }

    pub fn test(self, c: u8) -> (res: bool)
        ensures
            res == self.holds(c),
    {
        match self {
            CharClass::Whitespace => c == 0x20u8 || c == 0x09u8 || c == 0x0au8 || c == 0x0cu8
                || c == 0x0du8,
            CharClass::NotNewline => c != 0x0au8,
            CharClass::IdentContinue => (0x41u8 <= c && c <= 0x5au8) || (0x61u8 <= c && c
                <= 0x7au8) || (0x30u8 <= c && c <= 0x39u8) || c == 0x5fu8 || c == 0x27u8,
            CharClass::Digit => 0x30u8 <= c && c <= 0x39u8,
        }
    }
}

// ---------------------------------------------------------------------------
// The lexical grammar
// ---------------------------------------------------------------------------

/// The end of the run of bytes in `class` that starts at `i`.
pub open spec fn run_end(s: Seq<u8>, i: int, class: CharClass) -> int
    decreases s.len() - i,
{
    if 0 <= i < s.len() && class.holds(s[i]) {
        run_end(s, i + 1, class)
    } else {
        i
    }
}

/// `s[i..]` starts with a line comment.
pub open spec fn starts_comment(s: Seq<u8>, i: int) -> bool {
    0 <= i && i + 1 < s.len() && s[i] == 0x2fu8 && s[i + 1] == 0x2fu8
}

/// The position of the first token at or after `i`: whitespace and `//` line
/// comments (up to and including their newline) are skipped.
pub open spec fn skip_trivia(s: Seq<u8>, i: int) -> int
    decreases s.len() - i,
{
    if 0 <= i < s.len() && is_ws(s[i]) {
        skip_trivia(s, i + 1)
    } else if starts_comment(s, i) {
        let j = run_end(s, i, CharClass::NotNewline);
        proof {
            lemma_run_end_bounds(s, i, CharClass::NotNewline);
        }
        if j < s.len() {
            skip_trivia(s, j + 1)
        } else {
            j
        }
    } else {
        i
    }
}

/// The byte after position `i` is `c`.
pub open spec fn followed_by(s: Seq<u8>, i: int, c: u8) -> bool {
    i + 1 < s.len() && s[i + 1] == c
}

pub open spec fn word_true() -> Seq<u8> { seq![0x74u8, 0x72u8, 0x75u8, 0x65u8] }
pub open spec fn word_false() -> Seq<u8> { seq![0x66u8, 0x61u8, 0x6cu8, 0x73u8, 0x65u8] }
pub open spec fn word_and() -> Seq<u8> { seq![0x61u8, 0x6eu8, 0x64u8] }
pub open spec fn word_or() -> Seq<u8> { seq![0x6fu8, 0x72u8] }
pub open spec fn word_if() -> Seq<u8> { seq![0x69u8, 0x66u8] }
pub open spec fn word_then() -> Seq<u8> { seq![0x74u8, 0x68u8, 0x65u8, 0x6eu8] }
pub open spec fn word_else() -> Seq<u8> { seq![0x65u8, 0x6cu8, 0x73u8, 0x65u8] }
pub open spec fn word_let() -> Seq<u8> { seq![0x6cu8, 0x65u8, 0x74u8] }
pub open spec fn word_rec() -> Seq<u8> { seq![0x72u8, 0x65u8, 0x63u8] }
pub open spec fn word_in() -> Seq<u8> { seq![0x69u8, 0x6eu8] }
pub open spec fn word_match() -> Seq<u8> { seq![0x6du8, 0x61u8, 0x74u8, 0x63u8, 0x68u8] }
pub open spec fn word_with() -> Seq<u8> { seq![0x77u8, 0x69u8, 0x74u8, 0x68u8] }

/// The token of an identifier-shaped lexeme: a keyword or `Ident`.
pub open spec fn keyword(w: Seq<u8>) -> Token {
    if w == word_true() {
        Token::True
    } else if w == word_false() {
        Token::False
    } else if w == word_and() {
        Token::And
    } else if w == word_or() {
        Token::Or
    } else if w == word_if() {
        Token::If
    } else if w == word_then() {
        Token::Then
    } else if w == word_else() {
        Token::Else
    } else if w == word_let() {
        Token::Let
    } else if w == word_rec() {
        Token::Rec
    } else if w == word_in() {
        Token::In
    } else if w == word_match() {
        Token::Match
    } else if w == word_with() {
        Token::With
    } else {
        Token::Ident
    }
}

/// A one- or two-byte token starting with `c`: the longer one when the next
/// byte is `second`.
pub open spec fn pick(s: Seq<u8>, i: int, second: u8, long: Token, short: Token) -> (Token, int) {
    if followed_by(s, i, second) {
        (long, i + 2)
    } else {
        (short, i + 1)
    }
}

/// The token that starts at `i` (a position inside `s`) and where it ends.
pub open spec fn token_at(s: Seq<u8>, i: int) -> (Token, int) {
    let c = s[i];
    if c == 0x5cu8 {
        (Token::Lam, i + 1)
    } else if c == 0x2eu8 {
        (Token::Dot, i + 1)
    } else if c == 0x2cu8 {
        (Token::Comma, i + 1)
    } else if c == 0x3bu8 {
        (Token::Semi, i + 1)
    } else if c == 0x28u8 {
        pick(s, i, 0x29u8, Token::Unit, Token::LParen)
    } else if c == 0x29u8 {
        (Token::RParen, i + 1)
    } else if c == 0x2bu8 {
        (Token::Plus, i + 1)
    } else if c == 0x2du8 {
        pick(s, i, 0x3eu8, Token::Arrow, Token::Minus)
    } else if c == 0x2au8 {
        (Token::Star, i + 1)
    } else if c == 0x2fu8 {
        (Token::Slash, i + 1)
    } else if c == 0x3du8 {
        pick(s, i, 0x3du8, Token::EqEq, Token::Eq)
    } else if c == 0x21u8 {
        pick(s, i, 0x3du8, Token::BangEq, Token::Bang)
    } else if c == 0x3eu8 {
        pick(s, i, 0x3du8, Token::GtEq, Token::Gt)
    } else if c == 0x3cu8 {
        pick(s, i, 0x3du8, Token::LtEq, Token::Lt)
    } else if c == 0x7cu8 {
        (Token::Pipe, i + 1)
    } else if is_ident_start(c) {
        let e = run_end(s, i + 1, CharClass::IdentContinue);
        (keyword(s.subrange(i, e)), e)
    } else if is_digit(c) {
        (Token::Num, run_end(s, i + 1, CharClass::Digit))
    } else {
        (Token::Error, i + 1)
    }
}

/// The next token after `cursor`, with its start and end, or `None` at the end
/// of the input.
pub open spec fn next_token(s: Seq<u8>, cursor: int) -> Option<(Token, int, int)> {
    let i = skip_trivia(s, cursor);
    if i >= s.len() {
        None
    } else {
        let (t, e) = token_at(s, i);
        Some((t, i, e))
    }
}

pub proof fn lemma_run_end_bounds(s: Seq<u8>, i: int, class: CharClass)
    requires
        0 <= i <= s.len(),
    ensures
        i <= run_end(s, i, class) <= s.len(),
        forall|k: int| i <= k < run_end(s, i, class) ==> class.holds(#[trigger] s[k]),
        run_end(s, i, class) < s.len() ==> !class.holds(s[run_end(s, i, class)]),
    decreases s.len() - i,
{
    if i < s.len() && class.holds(s[i]) {
        lemma_run_end_bounds(s, i + 1, class);
    }
}

pub proof fn lemma_skip_trivia_bounds(s: Seq<u8>, i: int)
    requires
        0 <= i <= s.len(),
    ensures
        i <= skip_trivia(s, i) <= s.len(),
    decreases s.len() - i,
{
    if i < s.len() && is_ws(s[i]) {
        lemma_skip_trivia_bounds(s, i + 1);
    } else if starts_comment(s, i) {
        lemma_run_end_bounds(s, i, CharClass::NotNewline);
        let j = run_end(s, i, CharClass::NotNewline);
        if j < s.len() {
            lemma_skip_trivia_bounds(s, j + 1);
        }
    }
}

/// A token is never empty and never reaches past the input.
/// Every token from `cursor` on starts with a byte that starts a token.
pub open spec fn clean_from(s: Seq<u8>, cursor: int) -> bool
    decreases s.len() - cursor,
{
    match next_token(s, cursor) {
        None => true,
        Some((t, _, e)) => t != Token::Error && (cursor < e <= s.len() ==> clean_from(s, e)),
    }
}

pub proof fn lemma_next_token_bounds(s: Seq<u8>, cursor: int)
    requires
        0 <= cursor <= s.len(),
    ensures
        next_token(s, cursor) matches Some((t, st, e)) ==> cursor <= st < e <= s.len() && t
            != Token::Eof,
        next_token(s, cursor) is None ==> skip_trivia(s, cursor) == s.len(),
{
    lemma_skip_trivia_bounds(s, cursor);
    let i = skip_trivia(s, cursor);
    if i < s.len() {
        lemma_run_end_bounds(s, i + 1, CharClass::IdentContinue);
        lemma_run_end_bounds(s, i + 1, CharClass::Digit);
        let c = s[i];
        if is_ident_start(c) {
            let e = run_end(s, i + 1, CharClass::IdentContinue);
            let w = s.subrange(i, e);
            assert(keyword(w) != Token::Eof);
        }
    }
}

/// A number token is made of digits.
pub proof fn lemma_num_digits(s: Seq<u8>, cursor: int)
    requires
        0 <= cursor <= s.len(),
        next_token(s, cursor) matches Some((t, _, _)) && t == Token::Num,
    ensures
        next_token(s, cursor) matches Some((_, a, b)) && forall|k: int|
            a <= k < b ==> is_digit(#[trigger] s[k]),
{
    lemma_skip_trivia_bounds(s, cursor);
    let i = skip_trivia(s, cursor);
    lemma_run_end_bounds(s, i + 1, CharClass::Digit);
    let c = s[i];
    if is_ident_start(c) {
        let e = run_end(s, i + 1, CharClass::IdentContinue);
        let w = s.subrange(i, e);
        assert(keyword(w) != Token::Num);
    }
}

// ---------------------------------------------------------------------------
// Spans
// ---------------------------------------------------------------------------

/// A copyable byte range of the source text.
///
/// To join spans use [Span::union]: the joined span starts where the first one
/// starts and ends where the second one ends.
#[derive(Clone, Copy, Debug, PartialEq, Eq, Structural)]
pub struct Span {
    pub start: usize,
    pub end: usize,
}

impl Span {
    pub fn new(start: usize, end: usize) -> (res: Span)
        ensures
            res.start == start,
            res.end == end,
    {
        Span { start, end }
    }

    pub fn range(&self) -> (res: std::ops::Range<usize>)
        ensures
            res.start == self.start,
            res.end == self.end,
    {
        self.start..self.end
    }

    pub fn union(&self, other: Span) -> (res: Span)
        ensures
            res.start == self.start,
            res.end == other.end,
    {
        Span { start: self.start, end: other.end }
    }
}

/// `a | b` joins two spans, as [Span::union] does.
impl std::ops::BitOr for Span {
    type Output = Span;

    fn bitor(self, rhs: Span) -> (res: Span) {
        self.union(rhs)
    }
}

impl vstd::std_specs::ops::BitOrSpecImpl for Span {
    open spec fn obeys_bitor_spec() -> bool {
        true
    }

    open spec fn bitor_req(self, rhs: Span) -> bool {
        true
    }

    open spec fn bitor_spec(self, rhs: Span) -> Span {
        Span { start: self.start, end: rhs.end }
    }
}

/// A span covers the same positions as the range it is made from.
impl From<std::ops::Range<usize>> for Span {
    fn from(range: std::ops::Range<usize>) -> (res: Span) {
        Span { start: range.start, end: range.end }
    }
}

impl vstd::std_specs::convert::FromSpecImpl<std::ops::Range<usize>> for Span {
    open spec fn obeys_from_spec() -> bool {
        true
    }

    open spec fn from_spec(v: std::ops::Range<usize>) -> Span {
        Span { start: v.start, end: v.end }
    }
}

// ---------------------------------------------------------------------------
// The lexer
// ---------------------------------------------------------------------------

/// Iterates over the source text and yields [Token]s.
///
/// The `Parser` uses [Lexer::scan_token], [Lexer::span] and [Lexer::lexeme] to
/// retrieve all the information needed to construct the `AST`.
pub struct Lexer<'a> {
    src: &'a [u8],
    start: usize,
    cursor: usize,
}

impl<'a> Lexer<'a> {
    /// The source bytes.
    pub closed spec fn bytes(&self) -> Seq<u8> {
        self.src@
    }

    /// Where the last scanned token starts.
    pub closed spec fn start_pos(&self) -> int {
        self.start as int
    }

    /// Where scanning continues.
    pub closed spec fn cursor_pos(&self) -> int {
        self.cursor as int
    }

    pub open spec fn wf(&self) -> bool {
        0 <= self.start_pos() <= self.cursor_pos() <= self.bytes().len()
    }

    pub fn new(src: &'a str) -> (res: Self)
        ensures
            res.bytes() == src.spec_bytes(),
            res.start_pos() == 0,
            res.cursor_pos() == 0,
            res.wf(),
    {
        Lexer { src: src.as_bytes(), start: 0, cursor: 0 }
    }

    /// The span of the last scanned token.
    pub fn span(&self) -> (res: Span)
        ensures
            res.start == self.start_pos(),
            res.end == self.cursor_pos(),
    {
        Span { start: self.start, end: self.cursor }
    }

    /// The bytes of the last scanned token.
    pub fn lexeme(&self) -> (res: &'a [u8])
        requires
            self.wf(),
        ensures
            res@ == self.bytes().subrange(self.start_pos(), self.cursor_pos()),
    {
        slice_subrange(self.src, self.start, self.cursor)
    }

    fn peek(&self) -> (res: Option<u8>)
        requires
            self.wf(),
        ensures
            self.cursor_pos() < self.bytes().len() ==> res == Some(
                self.bytes()[self.cursor_pos()],
            ),
            self.cursor_pos() >= self.bytes().len() ==> res is None,
    {
        if self.cursor < self.src.len() {
            Some(self.src[self.cursor])
        } else {
            None
        }
    }

    fn peek2(&self) -> (res: Option<u8>)
        requires
            self.wf(),
        ensures
            self.cursor_pos() + 1 < self.bytes().len() ==> res == Some(
                self.bytes()[self.cursor_pos() + 1],
            ),
            self.cursor_pos() + 1 >= self.bytes().len() ==> res is None,
    {
        if self.cursor < self.src.len() && self.cursor + 1 < self.src.len() {
            Some(self.src[self.cursor + 1])
        } else {
            None
        }
    }

    fn advance(&mut self) -> (res: Option<u8>)
        requires
            old(self).wf(),
        ensures
            final(self).wf(),
            final(self).bytes() == old(self).bytes(),
            final(self).start_pos() == old(self).start_pos(),
            old(self).cursor_pos() < old(self).bytes().len() ==> res == Some(
                old(self).bytes()[old(self).cursor_pos()],
            ) && final(self).cursor_pos() == old(self).cursor_pos() + 1,
            old(self).cursor_pos() >= old(self).bytes().len() ==> res is None
                && final(self).cursor_pos() == old(self).cursor_pos(),
    {
        if self.cursor < self.src.len() {
            let c = self.src[self.cursor];
            self.cursor = self.cursor + 1;
            Some(c)
        } else {
            None
        }
    }

    /// Moves the cursor past the run of bytes in `class`.
    fn seek(&mut self, class: CharClass)
        requires
            old(self).wf(),
        ensures
            final(self).wf(),
            final(self).bytes() == old(self).bytes(),
            final(self).start_pos() == old(self).start_pos(),
            final(self).cursor_pos() == run_end(
                old(self).bytes(),
                old(self).cursor_pos(),
                class,
            ),
    {
        while self.cursor < self.src.len() && class.test(self.src[self.cursor])
            invariant
                self.wf(),
                self.bytes() == old(self).bytes(),
                self.start_pos() == old(self).start_pos(),
                run_end(self.bytes(), self.cursor_pos(), class) == run_end(
                    old(self).bytes(),
                    old(self).cursor_pos(),
                    class,
                ),
            decreases self.bytes().len() - self.cursor_pos(),
        {
            self.cursor = self.cursor + 1;
        }
    }

    /// Consumes the next byte when it is `m`.
    fn matches(&mut self, m: u8) -> (res: bool)
        requires
            old(self).wf(),
        ensures
            final(self).wf(),
            final(self).bytes() == old(self).bytes(),
            final(self).start_pos() == old(self).start_pos(),
            res == (old(self).cursor_pos() < old(self).bytes().len() && old(self).bytes()[old(
                self,
            ).cursor_pos()] == m),
            res ==> final(self).cursor_pos() == old(self).cursor_pos() + 1,
            !res ==> final(self).cursor_pos() == old(self).cursor_pos(),
    {
        if self.cursor < self.src.len() && self.src[self.cursor] == m {
            self.cursor = self.cursor + 1;
            return true;
        }
        false
    }

    /// Skips whitespace and line comments.
    fn skip_whitespace(&mut self)
        requires
            old(self).wf(),
        ensures
            final(self).wf(),
            final(self).bytes() == old(self).bytes(),
            final(self).start_pos() == old(self).start_pos(),
            final(self).cursor_pos() == skip_trivia(old(self).bytes(), old(self).cursor_pos()),
    {
        loop
            invariant
                self.wf(),
                self.bytes() == old(self).bytes(),
                self.start_pos() == old(self).start_pos(),
                skip_trivia(self.bytes(), self.cursor_pos()) == skip_trivia(
                    old(self).bytes(),
                    old(self).cursor_pos(),
                ),
            decreases self.bytes().len() - self.cursor_pos(),
        {
            let ghost s = self.bytes();
            let ghost i = self.cursor_pos();
            match self.peek() {
                Some(c) => {
                    if CharClass::Whitespace.test(c) {
                        proof {
                            lemma_skip_ws_run(s, i);
                            lemma_run_end_bounds(s, i, CharClass::Whitespace);
                            assert(run_end(s, i, CharClass::Whitespace) == run_end(s, i + 1, CharClass::Whitespace));
                            lemma_run_end_bounds(s, i + 1, CharClass::Whitespace);
                        }
                        self.seek(CharClass::Whitespace);
                    } else if c == 0x2fu8 && self.peek2() == Some(0x2fu8) {
                        proof {
                            assert(starts_comment(s, i));
                            lemma_run_end_bounds(s, i, CharClass::NotNewline);
                            assert(run_end(s, i, CharClass::NotNewline) == run_end(s, i + 1, CharClass::NotNewline));
                            lemma_run_end_bounds(s, i + 1, CharClass::NotNewline);
                        }
                        self.seek(CharClass::NotNewline);
                        self.advance();
                    } else {
                        proof {
                            assert(!starts_comment(s, i));
                        }
                        return ;
                    }
                },
                None => {
                    return ;
                },
            }
        }
    }

    /// Scans the next token, or returns `None` at the end of the input; a
    /// byte that starts no token gives `Error`.
    fn scan_any(&mut self) -> (res: Option<Token>)
        requires
            old(self).wf(),
        ensures
            final(self).wf(),
            final(self).bytes() == old(self).bytes(),
            match next_token(old(self).bytes(), old(self).cursor_pos()) {
                None => res is None && final(self).start_pos() == old(self).bytes().len()
                    && final(self).cursor_pos() == old(self).bytes().len(),
                Some((t, st, e)) => res == Some(t) && final(self).start_pos() == st
                    && final(self).cursor_pos() == e,
            },
    {
        self.skip_whitespace();
        self.start = self.cursor;
        let ghost s = self.bytes();
        let ghost i = self.cursor_pos();
        let c = match self.advance() {
            Some(c) => c,
            None => {
                return None;
            },
        };
        proof {
            lemma_run_end_bounds(s, i + 1, CharClass::IdentContinue);
            lemma_run_end_bounds(s, i + 1, CharClass::Digit);
        }
        let token = if c == 0x5cu8 {
            Token::Lam
        } else if c == 0x2eu8 {
            Token::Dot
        } else if c == 0x2cu8 {
            Token::Comma
        } else if c == 0x3bu8 {
            Token::Semi
        } else if c == 0x28u8 {
            if self.matches(0x29u8) {
                Token::Unit
            } else {
                Token::LParen
            }
        } else if c == 0x29u8 {
            Token::RParen
        } else if c == 0x2bu8 {
            Token::Plus
        } else if c == 0x2du8 {
            if self.matches(0x3eu8) {
                Token::Arrow
            } else {
                Token::Minus
            }
        } else if c == 0x2au8 {
            Token::Star
        } else if c == 0x2fu8 {
            Token::Slash
        } else if c == 0x3du8 {
            if self.matches(0x3du8) {
                Token::EqEq
            } else {
                Token::Eq
            }
        } else if c == 0x21u8 {
            if self.matches(0x3du8) {
                Token::BangEq
            } else {
                Token::Bang
            }
        } else if c == 0x3eu8 {
            if self.matches(0x3du8) {
                Token::GtEq
            } else {
                Token::Gt
            }
        } else if c == 0x3cu8 {
            if self.matches(0x3du8) {
                Token::LtEq
            } else {
                Token::Lt
            }
        } else if c == 0x7cu8 {
            Token::Pipe
        } else if (0x41u8 <= c && c <= 0x5au8) || (0x61u8 <= c && c <= 0x7au8) || c == 0x5fu8 {
            self.seek(CharClass::IdentContinue);
            lookup_ident(self.lexeme())
        } else if 0x30u8 <= c && c <= 0x39u8 {
            self.seek(CharClass::Digit);
            Token::Num
        } else {
            Token::Error
        };
        Some(token)
    }
}

/// Skipping a whitespace run then the trivia after it skips the same trivia.
proof fn lemma_skip_ws_run(s: Seq<u8>, i: int)
    requires
        0 <= i < s.len(),
        is_ws(s[i]),
    ensures
        skip_trivia(s, run_end(s, i, CharClass::Whitespace)) == skip_trivia(s, i),
    decreases s.len() - i,
{
    assert(run_end(s, i, CharClass::Whitespace) == run_end(s, i + 1, CharClass::Whitespace));
    if i + 1 < s.len() && is_ws(s[i + 1]) {
        lemma_skip_ws_run(s, i + 1);
    } else {
        assert(run_end(s, i + 1, CharClass::Whitespace) == i + 1);
    }
}

/// Compares `w` with the bytes of a keyword.
fn is_word(w: &[u8], k: &[u8]) -> (res: bool)
    ensures
        res == (w@ == k@),
{
    crate::interner::bytes_eq(w, k)
}

/// The keyword token for an identifier-shaped lexeme, or `Ident`.
pub fn lookup_ident(lexeme: &[u8]) -> (res: Token)
    ensures
        res == keyword(lexeme@),
{
    let w = lexeme;
    if is_word(w, &[0x74u8, 0x72u8, 0x75u8, 0x65u8]) {
        assert(word_true() =~= seq![0x74u8, 0x72u8, 0x75u8, 0x65u8]);
        Token::True
    } else if is_word(w, &[0x66u8, 0x61u8, 0x6cu8, 0x73u8, 0x65u8]) {
        assert(word_false() =~= seq![0x66u8, 0x61u8, 0x6cu8, 0x73u8, 0x65u8]);
        Token::False
    } else if is_word(w, &[0x61u8, 0x6eu8, 0x64u8]) {
        assert(word_and() =~= seq![0x61u8, 0x6eu8, 0x64u8]);
        Token::And
    } else if is_word(w, &[0x6fu8, 0x72u8]) {
        assert(word_or() =~= seq![0x6fu8, 0x72u8]);
        Token::Or
    } else if is_word(w, &[0x69u8, 0x66u8]) {
        assert(word_if() =~= seq![0x69u8, 0x66u8]);
        Token::If
    } else if is_word(w, &[0x74u8, 0x68u8, 0x65u8, 0x6eu8]) {
        assert(word_then() =~= seq![0x74u8, 0x68u8, 0x65u8, 0x6eu8]);
        Token::Then
    } else if is_word(w, &[0x65u8, 0x6cu8, 0x73u8, 0x65u8]) {
        assert(word_else() =~= seq![0x65u8, 0x6cu8, 0x73u8, 0x65u8]);
        Token::Else
    } else if is_word(w, &[0x6cu8, 0x65u8, 0x74u8]) {
        assert(word_let() =~= seq![0x6cu8, 0x65u8, 0x74u8]);
        Token::Let
    } else if is_word(w, &[0x72u8, 0x65u8, 0x63u8]) {
        assert(word_rec() =~= seq![0x72u8, 0x65u8, 0x63u8]);
        Token::Rec
    } else if is_word(w, &[0x69u8, 0x6eu8]) {
        assert(word_in() =~= seq![0x69u8, 0x6eu8]);
        Token::In
    } else if is_word(w, &[0x6du8, 0x61u8, 0x74u8, 0x63u8, 0x68u8]) {
        assert(word_match() =~= seq![0x6du8, 0x61u8, 0x74u8, 0x63u8, 0x68u8]);
        Token::Match
    } else if is_word(w, &[0x77u8, 0x69u8, 0x74u8, 0x68u8]) {
        assert(word_with() =~= seq![0x77u8, 0x69u8, 0x74u8, 0x68u8]);
        Token::With
    } else {
        proof {
            assert(word_true() =~= seq![0x74u8, 0x72u8, 0x75u8, 0x65u8]);
            assert(word_false() =~= seq![0x66u8, 0x61u8, 0x6cu8, 0x73u8, 0x65u8]);
            assert(word_and() =~= seq![0x61u8, 0x6eu8, 0x64u8]);
            assert(word_or() =~= seq![0x6fu8, 0x72u8]);
            assert(word_if() =~= seq![0x69u8, 0x66u8]);
            assert(word_then() =~= seq![0x74u8, 0x68u8, 0x65u8, 0x6eu8]);
            assert(word_else() =~= seq![0x65u8, 0x6cu8, 0x73u8, 0x65u8]);
            assert(word_let() =~= seq![0x6cu8, 0x65u8, 0x74u8]);
            assert(word_rec() =~= seq![0x72u8, 0x65u8, 0x63u8]);
            assert(word_in() =~= seq![0x69u8, 0x6eu8]);
            assert(word_match() =~= seq![0x6du8, 0x61u8, 0x74u8, 0x63u8, 0x68u8]);
            assert(word_with() =~= seq![0x77u8, 0x69u8, 0x74u8, 0x68u8]);
        }
        Token::Ident
    }
}

impl<'a> Lexer<'a> {
    /// Scans the next token, or returns `None` at the end of the input. Every
    /// token from here on must start with a byte that starts a token.
    pub fn scan_token(&mut self) -> (res: Option<Token>)
        requires
            old(self).wf(),
            clean_from(old(self).bytes(), old(self).cursor_pos()),
        ensures
            final(self).wf(),
            final(self).bytes() == old(self).bytes(),
            clean_from(final(self).bytes(), final(self).cursor_pos()),
            res != Some(Token::Error),
            match next_token(old(self).bytes(), old(self).cursor_pos()) {
                None => res is None && final(self).start_pos() == old(self).bytes().len()
                    && final(self).cursor_pos() == old(self).bytes().len(),
                Some((t, st, e)) => res == Some(t) && final(self).start_pos() == st
                    && final(self).cursor_pos() == e,
            },
    {
        proof {
            lemma_next_token_bounds(self.bytes(), self.cursor_pos());
            let s = self.bytes();
            if next_token(s, self.cursor_pos()) is None {
                lemma_skip_trivia_bounds(s, s.len() as int);
                assert(next_token(s, s.len() as int) is None);
            }
        }
        self.scan_any()
    }
}

/// Whether every token of `source` starts with a byte that starts a token.
pub fn lexable(source: &str) -> (res: bool)
    ensures
        res == clean_from(source.spec_bytes(), 0),
{
    let mut lexer = Lexer::new(source);
    let ghost s = source.spec_bytes();
    loop
        invariant
            lexer.wf(),
            lexer.bytes() == s,
            s == source.spec_bytes(),
            0 <= lexer.cursor_pos() <= s.len(),
            clean_from(s, 0) == clean_from(s, lexer.cursor_pos()),
        decreases s.len() - lexer.cursor_pos(),
    {
        let ghost c = lexer.cursor_pos();
        proof {
            lemma_next_token_bounds(s, c);
        }
        let r = lexer.scan_any();
        proof {
            assert(clean_from(s, c) == match next_token(s, c) {
                None => true,
                Some((t, _, e)) => t != Token::Error && (c < e <= s.len() ==> clean_from(s, e)),
            });
        }
        match r {
            None => {
                return true;
            },
            Some(Token::Error) => {
                return false;
            },
            Some(_) => {},
        }
    }
}

/// The tokens of a lexer, each with its span.
pub struct SpannedIter<'a> {
    lexer: Lexer<'a>,
}

impl<'a> SpannedIter<'a> {
    pub closed spec fn lexer(&self) -> Lexer<'a> {
        self.lexer
    }

    /// The next token and its span, or `None` at the end of the source.
    /// Every token from here on must start with a byte that starts a token.
    pub fn next(&mut self) -> (res: Option<(Token, Span)>)
        requires
            old(self).lexer().wf(),
            clean_from(old(self).lexer().bytes(), old(self).lexer().cursor_pos()),
        ensures
            final(self).lexer().wf(),
            final(self).lexer().bytes() == old(self).lexer().bytes(),
            clean_from(final(self).lexer().bytes(), final(self).lexer().cursor_pos()),
            match next_token(old(self).lexer().bytes(), old(self).lexer().cursor_pos()) {
                None => res is None,
                Some((t, st, e)) => res == Some((t, Span { start: st as usize, end: e as usize })),
            },
    {
        match self.lexer.scan_token() {
            Some(token) => Some((token, self.lexer.span())),
            None => None,
        }
    }
}

impl<'a> Lexer<'a> {
    /// The tokens from here on, each with its span.
    pub fn spanned(self) -> (res: SpannedIter<'a>)
        ensures
            res.lexer() == self,
    {
        SpannedIter { lexer: self }
    }
}

} // verus!
