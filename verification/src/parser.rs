//! A recursive descent parser.
//!
//! Language grammar:
//! ```txt
//! expr     := or ;
//! or       := and ('or' and)* ;
//! and      := eq ('and' eq)* ;
//! eq       := cmp (('==' | '!=') cmp)* ;
//! cmp      := term (('>' | '>=' | '<' | '<=') term)* ;
//! term     := factor (('+' | '-') factor)* ;
//! factor   := operand (('*' | '/') operand)* ;
//! operand  :=  bind | cond | match | app ;
//! bind     := 'let' 'rec'? ID+ '=' expr 'in' expr ;
//! cond     := 'if' expr 'then' expr 'else' expr ;
//! app      := atom atom* ;
//! atom     := ID | LIT | '(' expr ')' | fun ;
//! fun      := '\' ID+ '.' expr ;
//! ```
use vstd::prelude::*;
use vstd::string::StringSliceAdditionalSpecFns;

use crate::ast::{
    children_before, dummy_term, lemma_term_of_frame, nodes_symbols_below, nodes_wf, symbols_below, term_of, Ast, Expr, ExprId, Lit,
    Node, Term, TermKind,
};
use crate::diagnostic::{Diagnostic, Severity};
use crate::interner::{Interner, Symbol};
use crate::lexer::{clean_from, is_digit, lemma_next_token_bounds, lemma_num_digits, next_token, Lexer, Span, Token};

verus! {

/// What went wrong while parsing.
#[derive(Clone, Copy, Debug, PartialEq, Eq, Structural)]
pub enum ParseErrorKind {
    ExpectedIdentAfterLet,
    ExpectedEqAfterLet,
    ExpectedInAfterLet,
    ExpectedThen,
    ExpectedElse,
    ExpectedRParen,
    ExpectedExpression,
    ExpectedIdentAfterLam,
    ExpectedDotAfterParams,
    IntegerTooLarge,
    UnexpectedCharacter,
    MatchUnsupported,
}

impl ParseErrorKind {
    pub open spec fn spec_message(self) -> Seq<char> {
        match self {
            ParseErrorKind::ExpectedIdentAfterLet => "expected ident after 'let'"@,
            ParseErrorKind::ExpectedEqAfterLet => "expected '=' after let binding"@,
            ParseErrorKind::ExpectedInAfterLet => "expected 'in' after let initializer"@,
            ParseErrorKind::ExpectedThen => "expected 'then' after condition"@,
            ParseErrorKind::ExpectedElse => "expected 'else' after 'then' body"@,
            ParseErrorKind::ExpectedRParen => "expected ')' after grouping"@,
            ParseErrorKind::ExpectedExpression => "expected expression"@,
            ParseErrorKind::ExpectedIdentAfterLam => "expected ident after '\\'"@,
            ParseErrorKind::ExpectedDotAfterParams => "expected '.' after lambda param(s)"@,
            ParseErrorKind::IntegerTooLarge => "integer literal does not fit in 32 bits"@,
            ParseErrorKind::UnexpectedCharacter => "unexpected character"@,
            ParseErrorKind::MatchUnsupported => "'match' expressions are not supported"@,
        }
    }

    pub fn message(&self) -> (res: &'static str)
        ensures
            res@ == self.spec_message(),
    {
        match self {
            ParseErrorKind::ExpectedIdentAfterLet => "expected ident after 'let'",
            ParseErrorKind::ExpectedEqAfterLet => "expected '=' after let binding",
            ParseErrorKind::ExpectedInAfterLet => "expected 'in' after let initializer",
            ParseErrorKind::ExpectedThen => "expected 'then' after condition",
            ParseErrorKind::ExpectedElse => "expected 'else' after 'then' body",
            ParseErrorKind::ExpectedRParen => "expected ')' after grouping",
            ParseErrorKind::ExpectedExpression => "expected expression",
            ParseErrorKind::ExpectedIdentAfterLam => "expected ident after '\\'",
            ParseErrorKind::ExpectedDotAfterParams => "expected '.' after lambda param(s)",
            ParseErrorKind::IntegerTooLarge => "integer literal does not fit in 32 bits",
            ParseErrorKind::UnexpectedCharacter => "unexpected character",
            ParseErrorKind::MatchUnsupported => "'match' expressions are not supported",
        }
    }
}

/// A parse error and the span of the token where it was found.
#[derive(Clone, Copy, Debug, PartialEq, Eq, Structural)]
pub struct ParseError {
    pub kind: ParseErrorKind,
    pub span: Span,
}

// ---------------------------------------------------------------------------
// The grammar, over lexer states
// ---------------------------------------------------------------------------

/// A parser state: the current token, its start and its end.
pub type PState = (Token, int, int);

pub type PResult = Result<(Term, PState), ParseError>;

pub open spec fn ps_valid(s: Seq<u8>, st: PState) -> bool {
    0 <= st.1 <= st.2 <= s.len()
}

/// Decreases each time a token other than `Eof` is consumed.
pub open spec fn measure(s: Seq<u8>, st: PState) -> int {
    s.len() - st.2 + if st.0 == Token::Eof {
        0int
    } else {
        1int
    }
}

/// The state after consuming the current token.
pub open spec fn adv(s: Seq<u8>, st: PState) -> PState {
    match next_token(s, st.2) {
        None => (Token::Eof, s.len() as int, s.len() as int),
        Some((t, a, b)) => (t, a, b),
    }
}

pub open spec fn cur_span(st: PState) -> Span {
    Span { start: st.1 as usize, end: st.2 as usize }
}

pub open spec fn lexeme_of(s: Seq<u8>, st: PState) -> Seq<u8> {
    s.subrange(st.1, st.2)
}

/// `st2` is a valid state no later in the input than `st`.
pub open spec fn no_later(s: Seq<u8>, st2: PState, st: PState) -> bool {
    ps_valid(s, st2) && measure(s, st2) <= measure(s, st)
}

pub open spec fn fail(kind: ParseErrorKind, st: PState) -> PResult {
    Err(ParseError { kind, span: cur_span(st) })
}

pub proof fn lemma_adv(s: Seq<u8>, st: PState)
    requires
        ps_valid(s, st),
    ensures
        ps_valid(s, adv(s, st)),
        adv(s, st).2 >= st.2,
        measure(s, adv(s, st)) <= measure(s, st),
        st.0 != Token::Eof ==> measure(s, adv(s, st)) < measure(s, st),
{
    lemma_next_token_bounds(s, st.2);
}

/// The value of a string of decimal digits.
pub open spec fn decimal(d: Seq<u8>) -> int
    decreases d.len(),
{
    if d.len() == 0 {
        0
    } else {
        decimal(d.drop_last()) * 10 + (d.last() - 0x30u8)
    }
}

/// The operators of binary level `level` (6: `or`, 5: `and`, 4: equality,
/// 3: comparison, 2: terms, 1: factors).
pub open spec fn spec_level_op(level: int, t: Token) -> bool {
    if level == 6 {
        t == Token::Or
    } else if level == 5 {
        t == Token::And
    } else if level == 4 {
        t == Token::EqEq || t == Token::BangEq
    } else if level == 3 {
        t == Token::Gt || t == Token::GtEq || t == Token::Lt || t == Token::LtEq
    } else if level == 2 {
        t == Token::Plus || t == Token::Minus
    } else {
        t == Token::Star || t == Token::Slash
    }
}

/// The tokens that can start an argument of an application.
pub open spec fn starts_argument(t: Token) -> bool {
    t == Token::Ident || t == Token::Num || t == Token::True || t == Token::False || t
        == Token::LParen || t == Token::Lam
}

/// `\p1 p2 .. pn. body`, or `let f p1 .. pn = body`: nested abstractions whose
/// spans start at `start`.
pub open spec fn wrap(params: Seq<Seq<u8>>, body: Term, start: Span) -> Term
    decreases params.len(),
{
    if params.len() == 0 {
        body
    } else {
        let inner = wrap(params.drop_first(), body, start);
        Term {
            kind: TermKind::Abs(params[0], Box::new(inner)),
            span: Span { start: start.start, end: inner.span.end },
        }
    }
}

/// The identifiers at `st` and the state after them.
pub open spec fn p_params(s: Seq<u8>, st: PState) -> (Seq<Seq<u8>>, PState)
    decreases measure(s, st),
{
    if ps_valid(s, st) && st.0 == Token::Ident {
        proof {
            lemma_adv(s, st);
        }
        let (rest, st2) = p_params(s, adv(s, st));
        (seq![lexeme_of(s, st)] + rest, st2)
    } else {
        (Seq::empty(), st)
    }
}

pub proof fn lemma_params(s: Seq<u8>, st: PState)
    requires
        ps_valid(s, st),
    ensures
        no_later(s, p_params(s, st).1, st),
        p_params(s, st).1.0 != Token::Ident,
    decreases measure(s, st),
{
    if st.0 == Token::Ident {
        lemma_adv(s, st);
        lemma_params(s, adv(s, st));
    }
}

/// expr := or
pub open spec fn p_expr(s: Seq<u8>, st: PState) -> PResult
    decreases measure(s, st), 40int,
{
    p_bin(s, st, 6)
}

/// One operand of binary level `level`.
pub open spec fn p_sub(s: Seq<u8>, st: PState, level: int) -> PResult
    decreases measure(s, st), 20 + 2 * level - 1,
{
    if level == 1 {
        p_operand(s, st)
    } else if level > 1 {
        p_bin(s, st, level - 1)
    } else {
        fail(ParseErrorKind::ExpectedExpression, st)
    }
}

/// A left-associated chain of level-`level` operators.
pub open spec fn p_bin(s: Seq<u8>, st: PState, level: int) -> PResult
    decreases measure(s, st), 20 + 2 * level,
{
    if level < 1 || level > 6 {
        fail(ParseErrorKind::ExpectedExpression, st)
    } else {
        match p_sub(s, st, level) {
            Err(e) => Err(e),
            Ok((lhs, st2)) => if no_later(s, st2, st) {
                p_bin_rest(s, st2, level, lhs)
            } else {
                fail(ParseErrorKind::ExpectedExpression, st)
            },
        }
    }
}

pub open spec fn p_bin_rest(s: Seq<u8>, st: PState, level: int, lhs: Term) -> PResult
    decreases measure(s, st), 20 + 2 * level - 1,
{
    if !ps_valid(s, st) || level < 1 || level > 6 {
        fail(ParseErrorKind::ExpectedExpression, st)
    } else if !spec_level_op(level, st.0) {
        Ok((lhs, st))
    } else {
        proof {
            lemma_adv(s, st);
        }
        let op = st.0;
        match p_sub(s, adv(s, st), level) {
            Err(e) => Err(e),
            Ok((rhs, st2)) => if no_later(s, st2, adv(s, st)) {
                p_bin_rest(
                    s,
                    st2,
                    level,
                    Term {
                        kind: TermKind::Bin(Box::new(lhs), op, Box::new(rhs)),
                        span: Span { start: lhs.span.start, end: rhs.span.end },
                    },
                )
            } else {
                fail(ParseErrorKind::ExpectedExpression, st)
            },
        }
    }
}

/// operand := bind | cond | match | app
pub open spec fn p_operand(s: Seq<u8>, st: PState) -> PResult
    decreases measure(s, st), 10int,
{
    if st.0 == Token::Let {
        p_bind(s, st)
    } else if st.0 == Token::If {
        p_cond(s, st)
    } else if st.0 == Token::Match {
        fail(ParseErrorKind::MatchUnsupported, st)
    } else {
        p_app(s, st)
    }
}

/// bind := 'let' 'rec'? ID+ '=' expr 'in' expr
pub open spec fn p_bind(s: Seq<u8>, st: PState) -> PResult
    decreases measure(s, st), 9int,
{
    if !ps_valid(s, st) || st.0 != Token::Let {
        fail(ParseErrorKind::ExpectedExpression, st)
    } else {
        proof {
            lemma_adv(s, st);
        }
        let start = cur_span(st);
        let st1 = adv(s, st);
        proof {
            lemma_adv(s, st1);
        }
        let is_recursive = st1.0 == Token::Rec;
        let st2 = if is_recursive {
            adv(s, st1)
        } else {
            st1
        };
        if st2.0 != Token::Ident {
            fail(ParseErrorKind::ExpectedIdentAfterLet, st2)
        } else {
            let name = lexeme_of(s, st2);
            proof {
                lemma_adv(s, st2);
            }
            let st3 = adv(s, st2);
            proof {
                lemma_params(s, st3);
            }
            let (params, st4) = p_params(s, st3);
            if st4.0 != Token::Eq {
                fail(ParseErrorKind::ExpectedEqAfterLet, st4)
            } else {
                proof {
                    lemma_adv(s, st4);
                }
                p_let_body(s, adv(s, st4), start, is_recursive, name, params)
            }
        }
    }
}

/// The rest of a binding after its `=`: `expr 'in' expr`.
pub open spec fn p_let_body(
    s: Seq<u8>,
    st5: PState,
    start: Span,
    is_recursive: bool,
    name: Seq<u8>,
    params: Seq<Seq<u8>>,
) -> PResult
    decreases measure(s, st5), 41int,
{
    match p_expr(s, st5) {
        Err(e) => Err(e),
        Ok((init, st6)) => if !no_later(s, st6, st5) {
            fail(ParseErrorKind::ExpectedExpression, st5)
        } else if st6.0 != Token::In {
            fail(ParseErrorKind::ExpectedInAfterLet, st6)
        } else {
            proof {
                lemma_adv(s, st6);
            }
            let st7 = adv(s, st6);
            match p_expr(s, st7) {
                Err(e) => Err(e),
                Ok((body, st8)) => Ok(
                    (
                        Term {
                            kind: TermKind::Bind(
                                is_recursive,
                                name,
                                Box::new(wrap(params, init, start)),
                                Box::new(body),
                            ),
                            span: Span { start: start.start, end: st8.2 as usize },
                        },
                        st8,
                    ),
                ),
            }
        },
    }
}

/// cond := 'if' expr 'then' expr 'else' expr
pub open spec fn p_cond(s: Seq<u8>, st: PState) -> PResult
    decreases measure(s, st), 9int,
{
    if !ps_valid(s, st) || st.0 != Token::If {
        fail(ParseErrorKind::ExpectedExpression, st)
    } else {
        proof {
            lemma_adv(s, st);
        }
        let start = cur_span(st);
        let st1 = adv(s, st);
        match p_expr(s, st1) {
            Err(e) => Err(e),
            Ok((c, st2)) => if !no_later(s, st2, st1) {
                fail(ParseErrorKind::ExpectedExpression, st)
            } else if st2.0 != Token::Then {
                fail(ParseErrorKind::ExpectedThen, st2)
            } else {
                proof {
                    lemma_adv(s, st2);
                }
                let st3 = adv(s, st2);
                match p_expr(s, st3) {
                    Err(e) => Err(e),
                    Ok((t, st4)) => if !no_later(s, st4, st3) {
                        fail(ParseErrorKind::ExpectedExpression, st)
                    } else if st4.0 != Token::Else {
                        fail(ParseErrorKind::ExpectedElse, st4)
                    } else {
                        proof {
                            lemma_adv(s, st4);
                        }
                        let st5 = adv(s, st4);
                        match p_expr(s, st5) {
                            Err(e) => Err(e),
                            Ok((e, st6)) => Ok(
                                (
                                    Term {
                                        kind: TermKind::Cond(
                                            Box::new(c),
                                            Box::new(t),
                                            Box::new(e),
                                        ),
                                        span: Span { start: start.start, end: st6.2 as usize },
                                    },
                                    st6,
                                ),
                            ),
                        }
                    },
                }
            },
        }
    }
}

/// app := atom atom*
pub open spec fn p_app(s: Seq<u8>, st: PState) -> PResult
    decreases measure(s, st), 9int,
{
    match p_atom(s, st) {
        Err(e) => Err(e),
        Ok((f, st2)) => if no_later(s, st2, st) {
            p_app_rest(s, st2, f)
        } else {
            fail(ParseErrorKind::ExpectedExpression, st)
        },
    }
}

pub open spec fn p_app_rest(s: Seq<u8>, st: PState, f: Term) -> PResult
    decreases measure(s, st), 8int,
{
    if !ps_valid(s, st) {
        fail(ParseErrorKind::ExpectedExpression, st)
    } else if !starts_argument(st.0) {
        Ok((f, st))
    } else {
        match p_atom(s, st) {
            Err(e) => Err(e),
            Ok((a, st2)) => if ps_valid(s, st2) && measure(s, st2) < measure(s, st) {
                p_app_rest(
                    s,
                    st2,
                    Term {
                        kind: TermKind::App(Box::new(f), Box::new(a)),
                        span: Span { start: f.span.start, end: a.span.end },
                    },
                )
            } else {
                fail(ParseErrorKind::ExpectedExpression, st)
            },
        }
    }
}

/// atom := ID | LIT | '(' expr ')' | fun
pub open spec fn p_atom(s: Seq<u8>, st: PState) -> PResult
    decreases measure(s, st), 5int,
{
    if !ps_valid(s, st) {
        fail(ParseErrorKind::ExpectedExpression, st)
    } else {
        proof {
            lemma_adv(s, st);
        }
        let leaf = |k: TermKind| Term { kind: k, span: cur_span(st) };
        if st.0 == Token::Ident {
            Ok((leaf(TermKind::Var(lexeme_of(s, st))), adv(s, st)))
        } else if st.0 == Token::Num {
            let v = decimal(lexeme_of(s, st));
            if v <= i32::MAX {
                Ok((leaf(TermKind::Lit(Lit::Int(v as i32))), adv(s, st)))
            } else {
                fail(ParseErrorKind::IntegerTooLarge, st)
            }
        } else if st.0 == Token::True {
            Ok((leaf(TermKind::Lit(Lit::Bool(true))), adv(s, st)))
        } else if st.0 == Token::False {
            Ok((leaf(TermKind::Lit(Lit::Bool(false))), adv(s, st)))
        } else if st.0 == Token::Unit {
            Ok((leaf(TermKind::Lit(Lit::Unit)), adv(s, st)))
        } else if st.0 == Token::LParen {
            let st1 = adv(s, st);
            match p_expr(s, st1) {
                Err(e) => Err(e),
                Ok((e, st2)) => if !no_later(s, st2, st1) {
                    fail(ParseErrorKind::ExpectedExpression, st)
                } else if st2.0 != Token::RParen {
                    fail(ParseErrorKind::ExpectedRParen, st2)
                } else {
                    Ok((e, adv(s, st2)))
                },
            }
        } else if st.0 == Token::Lam {
            p_fun(s, st)
        } else if st.0 == Token::Error {
            fail(ParseErrorKind::UnexpectedCharacter, st)
        } else {
            fail(ParseErrorKind::ExpectedExpression, st)
        }
    }
}

/// fun := '\' ID+ '.' expr
pub open spec fn p_fun(s: Seq<u8>, st: PState) -> PResult
    decreases measure(s, st), 4int,
{
    if !ps_valid(s, st) || st.0 != Token::Lam {
        fail(ParseErrorKind::ExpectedExpression, st)
    } else {
        proof {
            lemma_adv(s, st);
        }
        let start = cur_span(st);
        let st1 = adv(s, st);
        if st1.0 != Token::Ident {
            fail(ParseErrorKind::ExpectedIdentAfterLam, st1)
        } else {
            proof {
                lemma_adv(s, st1);
            }
            let first = lexeme_of(s, st1);
            let st2 = adv(s, st1);
            proof {
                lemma_params(s, st2);
            }
            let (rest, st3) = p_params(s, st2);
            if st3.0 != Token::Dot {
                fail(ParseErrorKind::ExpectedDotAfterParams, st3)
            } else {
                proof {
                    lemma_adv(s, st3);
                }
                let st4 = adv(s, st3);
                match p_expr(s, st4) {
                    Err(e) => Err(e),
                    Ok((body, st5)) => Ok((wrap(seq![first] + rest, body, start), st5)),
                }
            }
        }
    }
}

/// What `parse` makes of the bytes `s`: nothing when there is no token, else
/// one expression or the first error.
pub open spec fn parse_spec(s: Seq<u8>) -> Result<Option<Term>, ParseError> {
    parse_from(s, (Token::Eof, 0, 0))
}


// ---------------------------------------------------------------------------
// The parser
// ---------------------------------------------------------------------------

/// The value of a string of decimal digits, or `None` when it exceeds `i32::MAX`.
pub fn parse_int(d: &[u8]) -> (res: Option<i32>)
    requires
        forall|i: int| 0 <= i < d@.len() ==> is_digit(#[trigger] d@[i]),
    ensures
        res matches Some(v) ==> v == decimal(d@) && decimal(d@) <= i32::MAX,
        res is None ==> decimal(d@) > i32::MAX,
{
    let mut acc: i64 = 0;
    let mut i: usize = 0;
    proof {
        assert(d@.take(0) =~= Seq::<u8>::empty());
    }
    while i < d.len()
        invariant
            i <= d@.len(),
            forall|k: int| 0 <= k < d@.len() ==> is_digit(#[trigger] d@[k]),
            acc == decimal(d@.take(i as int)),
            0 <= acc <= i32::MAX,
        decreases d@.len() - i,
    {
        assert(d@.take(i + 1).drop_last() =~= d@.take(i as int));
        let digit = d[i] - 0x30u8;
        acc = acc * 10 + digit as i64;
        i = i + 1;
        if acc > 0x7fff_ffffi64 {
            proof {
                lemma_decimal_prefix(d@, i as int);
            }
            return None;
        }
    }
    assert(d@.take(d@.len() as int) =~= d@);
    Some(acc as i32)
}

pub open spec fn all_digits(d: Seq<u8>) -> bool {
    forall|i: int| 0 <= i < d.len() ==> is_digit(#[trigger] d[i])
}

/// A prefix of a digit string is worth no more than the whole string.
pub proof fn lemma_decimal_prefix(d: Seq<u8>, i: int)
    requires
        0 <= i <= d.len(),
        all_digits(d),
    ensures
        0 <= decimal(d.take(i)) <= decimal(d),
    decreases d.len() - i,
{
    lemma_decimal_nonneg(d);
    if i < d.len() {
        let e = d.drop_last();
        assert(all_digits(e));
        assert(d.take(i) =~= e.take(i));
        lemma_decimal_prefix(e, i);
        lemma_decimal_nonneg(e);
    } else {
        assert(d.take(i) =~= d);
    }
}

pub proof fn lemma_decimal_nonneg(d: Seq<u8>)
    requires
        all_digits(d),
    ensures
        decimal(d) >= 0,
    decreases d.len(),
{
    if d.len() > 0 {
        assert(all_digits(d.drop_last()));
        lemma_decimal_nonneg(d.drop_last());
    }
}

// ---------------------------------------------------------------------------
// Precedence
// ---------------------------------------------------------------------------

/// A token that stands alone as an operand: a name, `true`, `false`, or a
/// number that fits in an `i32`.
pub open spec fn simple_atom(s: Seq<u8>, st: PState) -> bool {
    &&& ps_valid(s, st)
    &&& (st.0 == Token::Ident || st.0 == Token::True || st.0 == Token::False || (st.0 == Token::Num
        && decimal(lexeme_of(s, st)) <= i32::MAX))
}

/// The term of the atom at `st`.
pub open spec fn atom_at(s: Seq<u8>, st: PState) -> Term {
    match p_atom(s, st) {
        Ok((t, _)) => t,
        Err(_) => dummy_term(),
    }
}

/// `lhs op rhs` as the parser builds it.
pub open spec fn bin_term(lhs: Term, op: Token, rhs: Term) -> Term {
    Term {
        kind: TermKind::Bin(Box::new(lhs), op, Box::new(rhs)),
        span: Span { start: lhs.span.start, end: rhs.span.end },
    }
}

proof fn lemma_atom_operand(s: Seq<u8>, st: PState)
    requires
        simple_atom(s, st),
        !starts_argument(adv(s, st).0),
    ensures
        p_sub(s, st, 1) == Ok::<(Term, PState), ParseError>((atom_at(s, st), adv(s, st))),
        no_later(s, adv(s, st), st),
        ps_valid(s, adv(s, st)),
{
    lemma_adv(s, st);
    let a = atom_at(s, st);
    assert(p_atom(s, st) == Ok::<(Term, PState), ParseError>((a, adv(s, st))));
    assert(p_app_rest(s, adv(s, st), a) == Ok::<(Term, PState), ParseError>((a, adv(s, st))));
    assert(p_app(s, st) == Ok::<(Term, PState), ParseError>((a, adv(s, st))));
    assert(p_operand(s, st) == p_app(s, st));
}

proof fn lemma_rest_stops(s: Seq<u8>, st: PState, level: int, lhs: Term)
    requires
        ps_valid(s, st),
        1 <= level <= 6,
        !spec_level_op(level, st.0),
    ensures
        p_bin_rest(s, st, level, lhs) == Ok::<(Term, PState), ParseError>((lhs, st)),
{
}

/// A chain of level `level - 1` followed by no operator of level `level` is
/// also the whole chain of level `level`.
proof fn lemma_lift(s: Seq<u8>, st: PState, level: int, t: Term, st2: PState)
    requires
        2 <= level <= 6,
        p_bin(s, st, level - 1) == Ok::<(Term, PState), ParseError>((t, st2)),
        no_later(s, st2, st),
        !spec_level_op(level, st2.0),
    ensures
        p_bin(s, st, level) == Ok::<(Term, PState), ParseError>((t, st2)),
{
    assert(p_sub(s, st, level) == p_bin(s, st, level - 1));
    lemma_rest_stops(s, st2, level, t);
}

/// A term that ends the input is the whole expression.
proof fn lemma_lift_from_terms(s: Seq<u8>, st: PState, t: Term, st2: PState)
    requires
        p_bin(s, st, 2) == Ok::<(Term, PState), ParseError>((t, st2)),
        no_later(s, st2, st),
        st2.0 == Token::Eof,
    ensures
        p_expr(s, st) == Ok::<(Term, PState), ParseError>((t, st2)),
{
    lemma_lift(s, st, 3, t, st2);
    lemma_lift(s, st, 4, t, st2);
    lemma_lift(s, st, 5, t, st2);
    lemma_lift(s, st, 6, t, st2);
}

/// `*` and `/` bind tighter than `+` and `-`: `a + b * c` (with `-` or `/` in
/// place of either operator) is `a + (b * c)`.
pub proof fn lemma_factor_binds_tighter_right(
    s: Seq<u8>,
    st0: PState,
    st1: PState,
    st2: PState,
    st3: PState,
    st4: PState,
    st5: PState,
)
    requires
        simple_atom(s, st0),
        st1 == adv(s, st0),
        st1.0 == Token::Plus || st1.0 == Token::Minus,
        st2 == adv(s, st1),
        simple_atom(s, st2),
        st3 == adv(s, st2),
        st3.0 == Token::Star || st3.0 == Token::Slash,
        st4 == adv(s, st3),
        simple_atom(s, st4),
        st5 == adv(s, st4),
        st5.0 == Token::Eof,
    ensures
        p_expr(s, st0) == Ok::<(Term, PState), ParseError>(
            (
                bin_term(
                    atom_at(s, st0),
                    st1.0,
                    bin_term(atom_at(s, st2), st3.0, atom_at(s, st4)),
                ),
                st5,
            ),
        ),
{
    let a = atom_at(s, st0);
    let b = atom_at(s, st2);
    let c = atom_at(s, st4);
    let bc = bin_term(b, st3.0, c);
    lemma_atom_operand(s, st0);
    lemma_atom_operand(s, st2);
    lemma_atom_operand(s, st4);
    lemma_adv(s, st1);
    lemma_adv(s, st3);
    // b * c at the factor level
    lemma_rest_stops(s, st5, 1, bc);
    assert(p_bin_rest(s, st3, 1, b) == p_bin_rest(s, st5, 1, bc));
    assert(p_bin(s, st2, 1) == Ok::<(Term, PState), ParseError>((bc, st5)));
    // a alone at the factor level
    lemma_rest_stops(s, st1, 1, a);
    assert(p_bin(s, st0, 1) == Ok::<(Term, PState), ParseError>((a, st1)));
    // a + (b * c) at the term level
    let t = bin_term(a, st1.0, bc);
    assert(p_sub(s, st2, 2) == p_bin(s, st2, 1));
    lemma_rest_stops(s, st5, 2, t);
    assert(p_bin_rest(s, st1, 2, a) == p_bin_rest(s, st5, 2, t));
    assert(p_sub(s, st0, 2) == p_bin(s, st0, 1));
    assert(p_bin(s, st0, 2) == Ok::<(Term, PState), ParseError>((t, st5)));
    lemma_lift_from_terms(s, st0, t, st5);
}

/// `*` and `/` bind tighter than `+` and `-`: `a * b + c` (with `/` or `-` in
/// place of either operator) is `(a * b) + c`.
pub proof fn lemma_factor_binds_tighter_left(
    s: Seq<u8>,
    st0: PState,
    st1: PState,
    st2: PState,
    st3: PState,
    st4: PState,
    st5: PState,
)
    requires
        simple_atom(s, st0),
        st1 == adv(s, st0),
        st1.0 == Token::Star || st1.0 == Token::Slash,
        st2 == adv(s, st1),
        simple_atom(s, st2),
        st3 == adv(s, st2),
        st3.0 == Token::Plus || st3.0 == Token::Minus,
        st4 == adv(s, st3),
        simple_atom(s, st4),
        st5 == adv(s, st4),
        st5.0 == Token::Eof,
    ensures
        p_expr(s, st0) == Ok::<(Term, PState), ParseError>(
            (
                bin_term(
                    bin_term(atom_at(s, st0), st1.0, atom_at(s, st2)),
                    st3.0,
                    atom_at(s, st4),
                ),
                st5,
            ),
        ),
{
    let a = atom_at(s, st0);
    let b = atom_at(s, st2);
    let c = atom_at(s, st4);
    let ab = bin_term(a, st1.0, b);
    lemma_atom_operand(s, st0);
    lemma_atom_operand(s, st2);
    lemma_atom_operand(s, st4);
    lemma_adv(s, st1);
    lemma_adv(s, st3);
    // a * b at the factor level, stopping at the `+`
    lemma_rest_stops(s, st3, 1, ab);
    assert(p_bin_rest(s, st1, 1, a) == p_bin_rest(s, st3, 1, ab));
    assert(p_bin(s, st0, 1) == Ok::<(Term, PState), ParseError>((ab, st3)));
    // c alone at the factor level
    lemma_rest_stops(s, st5, 1, c);
    assert(p_bin(s, st4, 1) == Ok::<(Term, PState), ParseError>((c, st5)));
    // (a * b) + c at the term level
    let t = bin_term(ab, st3.0, c);
    assert(p_sub(s, st4, 2) == p_bin(s, st4, 1));
    lemma_rest_stops(s, st5, 2, t);
    assert(p_bin_rest(s, st3, 2, ab) == p_bin_rest(s, st5, 2, t));
    assert(p_sub(s, st0, 2) == p_bin(s, st0, 1));
    assert(p_bin(s, st0, 2) == Ok::<(Term, PState), ParseError>((t, st5)));
    lemma_lift_from_terms(s, st0, t, st5);
}

/// `+` and `-` associate to the left: `a - b - c` (with `+` in place of
/// either operator) is `(a - b) - c`.
pub proof fn lemma_terms_associate_left(
    s: Seq<u8>,
    st0: PState,
    st1: PState,
    st2: PState,
    st3: PState,
    st4: PState,
    st5: PState,
)
    requires
        simple_atom(s, st0),
        st1 == adv(s, st0),
        st1.0 == Token::Plus || st1.0 == Token::Minus,
        st2 == adv(s, st1),
        simple_atom(s, st2),
        st3 == adv(s, st2),
        st3.0 == Token::Plus || st3.0 == Token::Minus,
        st4 == adv(s, st3),
        simple_atom(s, st4),
        st5 == adv(s, st4),
        st5.0 == Token::Eof,
    ensures
        p_expr(s, st0) == Ok::<(Term, PState), ParseError>(
            (
                bin_term(
                    bin_term(atom_at(s, st0), st1.0, atom_at(s, st2)),
                    st3.0,
                    atom_at(s, st4),
                ),
                st5,
            ),
        ),
{
    let a = atom_at(s, st0);
    let b = atom_at(s, st2);
    let c = atom_at(s, st4);
    lemma_atom_operand(s, st0);
    lemma_atom_operand(s, st2);
    lemma_atom_operand(s, st4);
    lemma_adv(s, st1);
    lemma_adv(s, st3);
    // each atom alone at the factor level
    lemma_rest_stops(s, st1, 1, a);
    lemma_rest_stops(s, st3, 1, b);
    lemma_rest_stops(s, st5, 1, c);
    assert(p_bin(s, st0, 1) == Ok::<(Term, PState), ParseError>((a, st1)));
    assert(p_bin(s, st2, 1) == Ok::<(Term, PState), ParseError>((b, st3)));
    assert(p_bin(s, st4, 1) == Ok::<(Term, PState), ParseError>((c, st5)));
    assert(p_sub(s, st0, 2) == p_bin(s, st0, 1));
    assert(p_sub(s, st2, 2) == p_bin(s, st2, 1));
    assert(p_sub(s, st4, 2) == p_bin(s, st4, 1));
    // the chain folds from the left
    let ab = bin_term(a, st1.0, b);
    let t = bin_term(ab, st3.0, c);
    lemma_rest_stops(s, st5, 2, t);
    assert(p_bin_rest(s, st3, 2, ab) == p_bin_rest(s, st5, 2, t));
    assert(p_bin_rest(s, st1, 2, a) == p_bin_rest(s, st3, 2, ab));
    assert(p_bin(s, st0, 2) == Ok::<(Term, PState), ParseError>((t, st5)));
    lemma_lift_from_terms(s, st0, t, st5);
}

/// `*` and `/` associate to the left: `a / b / c` (with `*` in place of
/// either operator) is `(a / b) / c`.
pub proof fn lemma_factors_associate_left(
    s: Seq<u8>,
    st0: PState,
    st1: PState,
    st2: PState,
    st3: PState,
    st4: PState,
    st5: PState,
)
    requires
        simple_atom(s, st0),
        st1 == adv(s, st0),
        st1.0 == Token::Star || st1.0 == Token::Slash,
        st2 == adv(s, st1),
        simple_atom(s, st2),
        st3 == adv(s, st2),
        st3.0 == Token::Star || st3.0 == Token::Slash,
        st4 == adv(s, st3),
        simple_atom(s, st4),
        st5 == adv(s, st4),
        st5.0 == Token::Eof,
    ensures
        p_expr(s, st0) == Ok::<(Term, PState), ParseError>(
            (
                bin_term(
                    bin_term(atom_at(s, st0), st1.0, atom_at(s, st2)),
                    st3.0,
                    atom_at(s, st4),
                ),
                st5,
            ),
        ),
{
    let a = atom_at(s, st0);
    let b = atom_at(s, st2);
    let c = atom_at(s, st4);
    lemma_atom_operand(s, st0);
    lemma_atom_operand(s, st2);
    lemma_atom_operand(s, st4);
    lemma_adv(s, st1);
    lemma_adv(s, st3);
    let ab = bin_term(a, st1.0, b);
    let t = bin_term(ab, st3.0, c);
    lemma_rest_stops(s, st5, 1, t);
    assert(p_bin_rest(s, st3, 1, ab) == p_bin_rest(s, st5, 1, t));
    assert(p_bin_rest(s, st1, 1, a) == p_bin_rest(s, st3, 1, ab));
    assert(p_bin(s, st0, 1) == Ok::<(Term, PState), ParseError>((t, st5)));
    lemma_rest_stops(s, st5, 2, t);
    assert(p_sub(s, st0, 2) == p_bin(s, st0, 1));
    assert(p_bin(s, st0, 2) == Ok::<(Term, PState), ParseError>((t, st5)));
    lemma_lift_from_terms(s, st0, t, st5);
}

pub fn is_level_op(level: u8, t: Token) -> (res: bool)
    ensures
        res == spec_level_op(level as int, t),
{
    if level == 6 {
        t == Token::Or
    } else if level == 5 {
        t == Token::And
    } else if level == 4 {
        t == Token::EqEq || t == Token::BangEq
    } else if level == 3 {
        t == Token::Gt || t == Token::GtEq || t == Token::Lt || t == Token::LtEq
    } else if level == 2 {
        t == Token::Plus || t == Token::Minus
    } else {
        t == Token::Star || t == Token::Slash
    }
}

pub fn starts_argument_token(t: Token) -> (res: bool)
    ensures
        res == starts_argument(t),
{
    match t {
        Token::Ident | Token::Num | Token::True | Token::False | Token::LParen | Token::Lam => true,
        _ => false,
    }
}

pub struct Parser<'a> {
    ast: Ast,
    lexer: Lexer<'a>,
    interner: Interner,
    current: Token,
    previous: Token,
}

impl<'a> Parser<'a> {
    pub closed spec fn src(&self) -> Seq<u8> {
        self.lexer.bytes()
    }

    pub closed spec fn st(&self) -> PState {
        (self.current, self.lexer.start_pos(), self.lexer.cursor_pos())
    }

    pub closed spec fn nodes(&self) -> Seq<Node> {
        self.ast@
    }

    pub closed spec fn names(&self) -> Seq<Seq<u8>> {
        self.interner.names()
    }

    pub open spec fn pmeasure(&self) -> int {
        measure(self.src(), self.st())
    }

    pub closed spec fn pwf(&self) -> bool {
        &&& self.lexer.wf()
        &&& clean_from(self.lexer.bytes(), self.lexer.cursor_pos())
        &&& self.interner.wf()
        &&& nodes_wf(self.ast@)
        &&& nodes_symbols_below(self.ast@, self.interner.names().len() as int)
        &&& self.current == Token::Num ==> all_digits(lexeme_of(self.src(), self.st()))
    }

    /// `self` is `old` with more nodes and names, whose old nodes mean what they meant.
    pub open spec fn extends(&self, old: Parser<'a>) -> bool {
        &&& self.src() == old.src()
        &&& old.nodes().len() <= self.nodes().len()
        &&& forall|i: int| 0 <= i < old.nodes().len() ==> self.nodes()[i] == old.nodes()[i]
        &&& old.names().len() <= self.names().len()
        &&& forall|i: int| 0 <= i < old.names().len() ==> self.names()[i] == old.names()[i]
        &&& forall|i: int|
            0 <= i < old.nodes().len() ==> term_of(self.nodes(), self.names(), i) == term_of(
                old.nodes(),
                old.names(),
                i,
            )
    }

    /// What a parsing method returns, given what the grammar says of the state it
    /// started from.
    pub open spec fn post(
        old: Parser<'a>,
        new: Parser<'a>,
        sp: PResult,
        res: Result<ExprId, ParseError>,
    ) -> bool {
        &&& new.pwf()
        &&& new.extends(old)
        &&& match sp {
            Ok((t, st2)) => (res matches Ok(id) && id.0 < new.nodes().len() && term_of(
                new.nodes(),
                new.names(),
                id.0 as int,
            ) == t && new.st() == st2),
            Err(e) => res == Err::<ExprId, ParseError>(e),
        }
        &&& res is Ok ==> no_later(old.src(), new.st(), old.st())
    }

    pub proof fn lemma_extends_trans(a: Parser<'a>, b: Parser<'a>, c: Parser<'a>)
        requires
            b.extends(a),
            c.extends(b),
        ensures
            c.extends(a),
    {
        assert forall|i: int| 0 <= i < a.nodes().len() implies term_of(
            c.nodes(),
            c.names(),
            i,
        ) == term_of(a.nodes(), a.names(), i) by {
            assert(term_of(c.nodes(), c.names(), i) == term_of(b.nodes(), b.names(), i));
        }
    }

    pub fn new(lexer: Lexer<'a>, interner: Interner) -> (res: Self)
        requires
            lexer.wf(),
            clean_from(lexer.bytes(), lexer.cursor_pos()),
            interner.wf(),
        ensures
            res.pwf(),
            res.src() == lexer.bytes(),
            res.st() == (Token::Eof, lexer.start_pos(), lexer.cursor_pos()),
            res.nodes().len() == 0,
            res.names() == interner.names(),
    {
        Parser { ast: Ast::new(), lexer, interner, current: Token::Eof, previous: Token::Eof }
    }

    fn advance(&mut self)
        requires
            old(self).pwf(),
        ensures
            final(self).pwf(),
            final(self).src() == old(self).src(),
            final(self).st() == adv(old(self).src(), old(self).st()),
            final(self).nodes() == old(self).nodes(),
            final(self).names() == old(self).names(),
            final(self).previous == old(self).current,
    {
        self.previous = self.current;
        proof {
            let o = *old(self);
            if next_token(o.src(), o.st().2) matches Some((t, _, _)) && t == Token::Num {
                lemma_num_digits(o.src(), o.st().2);
            }
        }
        match self.lexer.scan_token() {
            Some(token) => self.current = token,
            None => self.current = Token::Eof,
        }
    }

    fn matches(&mut self, token: Token) -> (res: bool)
        requires
            old(self).pwf(),
        ensures
            final(self).pwf(),
            final(self).src() == old(self).src(),
            res == (old(self).st().0 == token),
            res ==> final(self).st() == adv(old(self).src(), old(self).st()),
            !res ==> final(self).st() == old(self).st(),
            final(self).nodes() == old(self).nodes(),
            final(self).names() == old(self).names(),
    {
        if self.current == token {
            self.advance();
            return true;
        }
        false
    }

    fn intern_current(&mut self) -> (sym: Symbol)
        requires
            old(self).pwf(),
        ensures
            final(self).pwf(),
            final(self).extends(*old(self)),
            final(self).st() == old(self).st(),
            final(self).nodes() == old(self).nodes(),
            sym.0 < final(self).names().len(),
            final(self).names()[sym.0 as int] == lexeme_of(old(self).src(), old(self).st()),
    {
        let sym = self.interner.intern(self.lexer.lexeme());
        proof {
            let o = *old(self);
            assert forall|i: int| 0 <= i < o.nodes().len() implies term_of(
                self.nodes(),
                self.names(),
                i,
            ) == term_of(o.nodes(), o.names(), i) by {
                lemma_term_of_frame(o.nodes(), o.names(), self.nodes(), self.names(), i);
            }
        }
        sym
    }

    fn consume(&mut self, token: Token, kind: ParseErrorKind) -> (res: Result<(), ParseError>)
        requires
            old(self).pwf(),
        ensures
            final(self).pwf(),
            final(self).src() == old(self).src(),
            final(self).nodes() == old(self).nodes(),
            final(self).names() == old(self).names(),
            old(self).st().0 == token ==> res is Ok && final(self).st() == adv(
                old(self).src(),
                old(self).st(),
            ),
            old(self).st().0 != token ==> res == Err::<(), ParseError>(
                ParseError { kind, span: cur_span(old(self).st()) },
            ),
    {
        if self.current != token {
            return Err(ParseError { kind, span: self.lexer.span() });
        }
        self.advance();
        Ok(())
    }

    fn consume_ident(&mut self, kind: ParseErrorKind) -> (res: Result<Symbol, ParseError>)
        requires
            old(self).pwf(),
        ensures
            final(self).pwf(),
            final(self).extends(*old(self)),
            final(self).nodes() == old(self).nodes(),
            old(self).st().0 == Token::Ident ==> (res matches Ok(sym) && sym.0 < final(self).names().len()
                && final(self).names()[sym.0 as int] == lexeme_of(old(self).src(), old(self).st())
                && final(self).st() == adv(old(self).src(), old(self).st())),
            old(self).st().0 != Token::Ident ==> res == Err::<Symbol, ParseError>(
                ParseError { kind, span: cur_span(old(self).st()) },
            ),
    {
        if self.current != Token::Ident {
            return Err(ParseError { kind, span: self.lexer.span() });
        }
        let sym = self.intern_current();
        self.advance();
        Ok(sym)
    }

    /// Adds a node whose children and symbols already exist.
    fn alloc_node(&mut self, expr: Expr, span: Span) -> (id: ExprId)
        requires
            old(self).pwf(),
            children_before(expr, old(self).nodes().len() as int),
            symbols_below(expr, old(self).names().len() as int),
        ensures
            final(self).pwf(),
            final(self).extends(*old(self)),
            final(self).nodes() == old(self).nodes().push(Node { expr, span }),
            final(self).names() == old(self).names(),
            final(self).st() == old(self).st(),
            id.0 == old(self).nodes().len(),
    {
        let id = self.ast.allocate(expr, span);
        proof {
            let o = *old(self);
            assert forall|i: int| 0 <= i < o.nodes().len() implies term_of(
                self.nodes(),
                self.names(),
                i,
            ) == term_of(o.nodes(), o.names(), i) by {
                lemma_term_of_frame(o.nodes(), o.names(), self.nodes(), self.names(), i);
            }
        }
        id
    }

    /// The names of the identifiers at the current position.
    fn params(&mut self) -> (res: Vec<Symbol>)
        requires
            old(self).pwf(),
        ensures
            final(self).pwf(),
            final(self).extends(*old(self)),
            final(self).nodes() == old(self).nodes(),
            final(self).st() == p_params(old(self).src(), old(self).st()).1,
            forall|i: int| 0 <= i < res@.len() ==> (#[trigger] res@[i]).0 < final(self).names().len(),
            Seq::new(res@.len(), |i: int| final(self).names()[res@[i].0 as int]) == p_params(
                old(self).src(),
                old(self).st(),
            ).0,
    {
        let ghost s = self.src();
        let ghost st0 = self.st();
        let mut res: Vec<Symbol> = Vec::new();
        while self.current == Token::Ident
            invariant
                self.pwf(),
                self.extends(*old(self)),
                self.nodes() == old(self).nodes(),
                self.src() == s,
                ps_valid(s, self.st()),
                forall|i: int| 0 <= i < res@.len() ==> (#[trigger] res@[i]).0 < self.names().len(),
                p_params(s, st0).1 == p_params(s, self.st()).1,
                p_params(s, st0).0 == Seq::new(
                    res@.len(),
                    |i: int| self.names()[res@[i].0 as int],
                ) + p_params(s, self.st()).0,
            decreases self.pmeasure(),
        {
            let ghost before = *self;
            proof {
                lemma_adv(s, self.st());
            }
            let sym = self.intern_current();
            self.advance();
            let ghost prev = Seq::new(res@.len(), |i: int| before.names()[res@[i].0 as int]);
            res.push(sym);
            proof {
                assert(Seq::new(res@.len(), |i: int| self.names()[res@[i].0 as int]) =~= prev.push(
                    lexeme_of(s, before.st()),
                ));
                assert(p_params(s, before.st()).0 =~= seq![lexeme_of(s, before.st())] + p_params(
                    s,
                    self.st(),
                ).0);
            }
        }
        proof {
            assert(p_params(s, self.st()).0 =~= Seq::<Seq<u8>>::empty());
        }
        res
    }

    /// Nests `body` in one abstraction per parameter, the first parameter outermost.
    fn wrap_params(&mut self, params: &Vec<Symbol>, body: ExprId, start: Span) -> (res: ExprId)
        requires
            old(self).pwf(),
            body.0 < old(self).nodes().len(),
            forall|i: int| 0 <= i < params@.len() ==> (#[trigger] params@[i]).0 < old(self).names().len(),
        ensures
            final(self).pwf(),
            final(self).extends(*old(self)),
            final(self).st() == old(self).st(),
            final(self).names() == old(self).names(),
            res.0 < final(self).nodes().len(),
            term_of(final(self).nodes(), final(self).names(), res.0 as int) == wrap(
                Seq::new(params@.len(), |i: int| old(self).names()[params@[i].0 as int]),
                term_of(old(self).nodes(), old(self).names(), body.0 as int),
                start,
            ),
    {
        let ghost ps = Seq::new(params@.len(), |i: int| old(self).names()[params@[i].0 as int]);
        let ghost body_t = term_of(old(self).nodes(), old(self).names(), body.0 as int);
        let mut cur = body;
        let mut k = params.len();
        proof {
            assert(ps.subrange(k as int, ps.len() as int) =~= Seq::<Seq<u8>>::empty());
        }
        while k > 0
            invariant
                self.pwf(),
                self.extends(*old(self)),
                self.st() == old(self).st(),
                self.names() == old(self).names(),
                k <= params@.len(),
                ps.len() == params@.len(),
                ps == Seq::new(params@.len(), |i: int| old(self).names()[params@[i].0 as int]),
                forall|i: int| 0 <= i < params@.len() ==> (#[trigger] params@[i]).0 < old(self).names().len(),
                cur.0 < self.nodes().len(),
                term_of(self.nodes(), self.names(), cur.0 as int) == wrap(
                    ps.subrange(k as int, ps.len() as int),
                    body_t,
                    start,
                ),
            decreases k,
        {
            k = k - 1;
            let span = start.union(self.ast.span(cur));
            let ghost before = *self;
            cur = self.alloc_node(Expr::Abs(params[k], cur), span);
            proof {
                let sub = ps.subrange(k as int, ps.len() as int);
                assert(sub.drop_first() =~= ps.subrange(k + 1, ps.len() as int));
                assert(sub[0] == ps[k as int]);
            }
        }
        proof {
            assert(ps.subrange(0, ps.len() as int) =~= ps);
        }
        cur
    }

    /// expr := or
    fn expr(&mut self) -> (res: Result<ExprId, ParseError>)
        requires
            old(self).pwf(),
        ensures
            Self::post(*old(self), *final(self), p_expr(old(self).src(), old(self).st()), res),
        decreases old(self).pmeasure(), 40int,
    {
        self.bin(6)
    }

    fn sub(&mut self, level: u8) -> (res: Result<ExprId, ParseError>)
        requires
            old(self).pwf(),
            1 <= level <= 6,
        ensures
            Self::post(
                *old(self),
                *final(self),
                p_sub(old(self).src(), old(self).st(), level as int),
                res,
            ),
        decreases old(self).pmeasure(), 20 + 2 * level - 1,
    {
        if level == 1 {
            self.operand()
        } else {
            self.bin(level - 1)
        }
    }

    /// A left-associated chain of the operators of `level`.
    fn bin(&mut self, level: u8) -> (res: Result<ExprId, ParseError>)
        requires
            old(self).pwf(),
            1 <= level <= 6,
        ensures
            Self::post(
                *old(self),
                *final(self),
                p_bin(old(self).src(), old(self).st(), level as int),
                res,
            ),
        decreases old(self).pmeasure(), 20 + 2 * level,
    {
        let ghost s = self.src();
        let ghost st0 = self.st();
        let mut expr = self.sub(level)?;
        while is_level_op(level, self.current)
            invariant
                self.pwf(),
                self.extends(*old(self)),
                self.src() == s,
                1 <= level <= 6,
                st0 == old(self).st(),
                expr.0 < self.nodes().len(),
                no_later(s, self.st(), st0),
                p_bin(s, st0, level as int) == p_bin_rest(
                    s,
                    self.st(),
                    level as int,
                    term_of(self.nodes(), self.names(), expr.0 as int),
                ),
            decreases self.pmeasure(),
        {
            let ghost before = *self;
            let ghost lhs_t = term_of(self.nodes(), self.names(), expr.0 as int);
            proof {
                lemma_adv(s, self.st());
            }
            self.advance();
            let op = self.previous;
            let ghost after_adv = *self;
            let rhs = match self.sub(level) {
                Ok(rhs) => rhs,
                Err(e) => {
                    proof {
                        Self::lemma_extends_trans(*old(self), before, *self);
                        assert(p_bin_rest(s, before.st(), level as int, lhs_t) == Err::<
                            (Term, PState),
                            ParseError,
                        >(e));
                    }
                    return Err(e);
                },
            };
            let ghost after_rhs = *self;
            let ghost rhs_t = term_of(self.nodes(), self.names(), rhs.0 as int);
            proof {
                Self::lemma_extends_trans(before, after_adv, *self);
                assert(p_sub(s, after_adv.st(), level as int) == Ok::<(Term, PState), ParseError>(
                    (rhs_t, after_rhs.st()),
                ));
            }
            let span = self.ast.join_span(expr, rhs);
            expr = self.alloc_node(Expr::Bin(expr, op, rhs), span);
            proof {
                Self::lemma_extends_trans(before, after_rhs, *self);
                Self::lemma_extends_trans(*old(self), before, *self);
                let t = term_of(self.nodes(), self.names(), expr.0 as int);
                assert(t == Term {
                    kind: TermKind::Bin(Box::new(lhs_t), op, Box::new(rhs_t)),
                    span: Span { start: lhs_t.span.start, end: rhs_t.span.end },
                });
                assert(p_bin_rest(s, before.st(), level as int, lhs_t) == p_bin_rest(
                    s,
                    self.st(),
                    level as int,
                    t,
                ));
            }
        }
        Ok(expr)
    }

    /// operand := bind | cond | match | app
    fn operand(&mut self) -> (res: Result<ExprId, ParseError>)
        requires
            old(self).pwf(),
        ensures
            Self::post(*old(self), *final(self), p_operand(old(self).src(), old(self).st()), res),
        decreases old(self).pmeasure(), 10int,
    {
        match self.current {
            Token::Let => self.bind(),
            Token::If => self.cond(),
            Token::Match => Err(
                ParseError { kind: ParseErrorKind::MatchUnsupported, span: self.lexer.span() },
            ),
            _ => self.app(),
        }
    }

    /// bind := 'let' 'rec'? ID+ '=' expr 'in' expr
    ///
    /// `let f a b = e in ..` binds `f` to `\a b. e`.
    fn bind(&mut self) -> (res: Result<ExprId, ParseError>)
        requires
            old(self).pwf(),
            old(self).st().0 == Token::Let,
        ensures
            Self::post(*old(self), *final(self), p_bind(old(self).src(), old(self).st()), res),
        decreases old(self).pmeasure(), 9int,
    {
        let ghost s = self.src();
        proof {
            lemma_adv(s, self.st());
        }
        let start = self.lexer.span();
        self.advance();
        proof {
            lemma_adv(s, self.st());
        }
        let is_recursive = self.matches(Token::Rec);
        let ghost st2 = self.st();
        proof {
            lemma_adv(s, self.st());
        }
        let name = self.consume_ident(ParseErrorKind::ExpectedIdentAfterLet)?;
        proof {
            lemma_params(s, self.st());
        }
        let params = self.params();
        proof {
            lemma_adv(s, self.st());
        }
        self.consume(Token::Eq, ParseErrorKind::ExpectedEqAfterLet)?;
        let ghost at_eq = *self;
        let res = self.let_body(start, is_recursive, name, &params);
        proof {
            Self::lemma_extends_trans(*old(self), at_eq, *self);
            let ps = Seq::new(params@.len(), |i: int| at_eq.names()[params@[i].0 as int]);
            assert(p_bind(s, old(self).st()) == p_let_body(s, at_eq.st(), start, is_recursive, at_eq.names()[name.0 as int], ps));
        }
        res
    }

    /// The rest of a binding after its `=`.
    fn let_body(&mut self, start: Span, is_recursive: bool, name: Symbol, params: &Vec<Symbol>) -> (res: Result<ExprId, ParseError>)
        requires
            old(self).pwf(),
            name.0 < old(self).names().len(),
            forall|i: int| 0 <= i < params@.len() ==> (#[trigger] params@[i]).0 < old(self).names().len(),
        ensures
            Self::post(
                *old(self),
                *final(self),
                p_let_body(
                    old(self).src(),
                    old(self).st(),
                    start,
                    is_recursive,
                    old(self).names()[name.0 as int],
                    Seq::new(params@.len(), |i: int| old(self).names()[params@[i].0 as int]),
                ),
                res,
            ),
        decreases old(self).pmeasure(), 41int,
    {
        let ghost s = self.src();
        let ghost st5 = self.st();
        let init = self.expr()?;
        let ghost after_init = *self;
        let init = self.wrap_params(&params, init, start);
        let ghost after_wrap = *self;
        proof {
            lemma_adv(s, self.st());
            Self::lemma_extends_trans(*old(self), after_init, *self);
            assert(Seq::new(params@.len(), |i: int| old(self).names()[params@[i].0 as int]) =~= Seq::new(params@.len(), |i: int| after_init.names()[params@[i].0 as int]));
        }
        self.consume(Token::In, ParseErrorKind::ExpectedInAfterLet)?;
        let ghost after_in = *self;
        let body = self.expr()?;
        let ghost after_body = *self;
        let span = start.union(self.lexer.span());
        let id = self.alloc_node(Expr::Bind { is_recursive, name, init, body }, span);
        proof {
            Self::lemma_extends_trans(after_wrap, after_in, after_body);
            Self::lemma_extends_trans(after_wrap, after_body, *self);
            Self::lemma_extends_trans(*old(self), after_wrap, *self);
        }
        Ok(id)
    }

    /// cond := 'if' expr 'then' expr 'else' expr
    fn cond(&mut self) -> (res: Result<ExprId, ParseError>)
        requires
            old(self).pwf(),
            old(self).st().0 == Token::If,
        ensures
            Self::post(*old(self), *final(self), p_cond(old(self).src(), old(self).st()), res),
        decreases old(self).pmeasure(), 9int,
    {
        let ghost s = self.src();
        proof {
            lemma_adv(s, self.st());
        }
        let start = self.lexer.span();
        self.advance();
        let cond = self.expr()?;
        proof {
            lemma_adv(s, self.st());
        }
        self.consume(Token::Then, ParseErrorKind::ExpectedThen)?;
        let then_branch = self.expr()?;
        proof {
            lemma_adv(s, self.st());
        }
        self.consume(Token::Else, ParseErrorKind::ExpectedElse)?;
        let else_branch = self.expr()?;
        let span = start.union(self.lexer.span());
        Ok(self.alloc_node(Expr::Cond { cond, then_branch, else_branch }, span))
    }

    /// app := atom atom*
    fn app(&mut self) -> (res: Result<ExprId, ParseError>)
        requires
            old(self).pwf(),
        ensures
            Self::post(*old(self), *final(self), p_app(old(self).src(), old(self).st()), res),
        decreases old(self).pmeasure(), 9int,
    {
        let ghost s = self.src();
        let ghost st0 = self.st();
        let mut expr = self.atom()?;
        while starts_argument_token(self.current)
            invariant
                self.pwf(),
                self.extends(*old(self)),
                self.src() == s,
                st0 == old(self).st(),
                expr.0 < self.nodes().len(),
                no_later(s, self.st(), st0),
                p_app(s, st0) == p_app_rest(
                    s,
                    self.st(),
                    term_of(self.nodes(), self.names(), expr.0 as int),
                ),
            decreases self.pmeasure(),
        {
            let ghost before = *self;
            let ghost f_t = term_of(self.nodes(), self.names(), expr.0 as int);
            let rhs = match self.atom() {
                Ok(rhs) => rhs,
                Err(e) => {
                    proof {
                        Self::lemma_extends_trans(*old(self), before, *self);
                        assert(p_app_rest(s, before.st(), f_t) == Err::<(Term, PState), ParseError>(
                            e,
                        ));
                    }
                    return Err(e);
                },
            };
            let ghost after_rhs = *self;
            let ghost a_t = term_of(self.nodes(), self.names(), rhs.0 as int);
            let span = self.ast.join_span(expr, rhs);
            expr = self.alloc_node(Expr::App(expr, rhs), span);
            proof {
                Self::lemma_extends_trans(before, after_rhs, *self);
                Self::lemma_extends_trans(*old(self), before, *self);
                let t = term_of(self.nodes(), self.names(), expr.0 as int);
                assert(t == Term {
                    kind: TermKind::App(Box::new(f_t), Box::new(a_t)),
                    span: Span { start: f_t.span.start, end: a_t.span.end },
                });
                assert(p_app_rest(s, before.st(), f_t) == p_app_rest(s, self.st(), t));
            }
        }
        Ok(expr)
    }

    /// atom := ID | LIT | '(' expr ')' | fun
    fn atom(&mut self) -> (res: Result<ExprId, ParseError>)
        requires
            old(self).pwf(),
        ensures
            Self::post(*old(self), *final(self), p_atom(old(self).src(), old(self).st()), res),
            res is Ok ==> final(self).pmeasure() < old(self).pmeasure(),
        decreases old(self).pmeasure(), 5int,
    {
        let ghost s = self.src();
        proof {
            lemma_adv(s, self.st());
        }
        let span = self.lexer.span();
        let expr = match self.current {
            Token::Ident => {
                let sym = self.intern_current();
                Expr::Var(sym)
            },
            Token::Num => {
                match parse_int(self.lexer.lexeme()) {
                    Some(n) => Expr::Lit(Lit::Int(n)),
                    None => {
                        return Err(ParseError { kind: ParseErrorKind::IntegerTooLarge, span });
                    },
                }
            },
            Token::True => Expr::Lit(Lit::Bool(true)),
            Token::False => Expr::Lit(Lit::Bool(false)),
            Token::Unit => Expr::Lit(Lit::Unit),
            Token::LParen => {
                self.advance();
                let expr = self.expr()?;
                proof {
                    lemma_adv(s, self.st());
                }
                self.consume(Token::RParen, ParseErrorKind::ExpectedRParen)?;
                return Ok(expr);
            },
            Token::Lam => {
                return self.fun();
            },
            Token::Error => {
                return Err(ParseError { kind: ParseErrorKind::UnexpectedCharacter, span });
            },
            _ => {
                return Err(ParseError { kind: ParseErrorKind::ExpectedExpression, span });
            },
        };
        self.advance();
        Ok(self.alloc_node(expr, span))
    }

    /// fun := '\' ID+ '.' expr
    fn fun(&mut self) -> (res: Result<ExprId, ParseError>)
        requires
            old(self).pwf(),
            old(self).st().0 == Token::Lam,
        ensures
            Self::post(*old(self), *final(self), p_fun(old(self).src(), old(self).st()), res),
            res is Ok ==> final(self).pmeasure() < old(self).pmeasure(),
        decreases old(self).pmeasure(), 4int,
    {
        let ghost s = self.src();
        proof {
            lemma_adv(s, self.st());
        }
        let start = self.lexer.span();
        self.advance();
        proof {
            lemma_adv(s, self.st());
        }
        let first = self.consume_ident(ParseErrorKind::ExpectedIdentAfterLam)?;
        let ghost after_first = *self;
        proof {
            lemma_params(s, self.st());
        }
        let mut params: Vec<Symbol> = Vec::new();
        params.push(first);
        let mut rest = self.params();
        let ghost rest_v = rest@;
        let ghost after_params = *self;
        params.append(&mut rest);
        proof {
            lemma_adv(s, self.st());
        }
        self.consume(Token::Dot, ParseErrorKind::ExpectedDotAfterParams)?;
        let body = self.expr()?;
        let ghost before_wrap = *self;
        let res = self.wrap_params(&params, body, start);
        proof {
            let names = before_wrap.names();
            let ps = Seq::new(params@.len(), |i: int| names[params@[i].0 as int]);
            let rest_names = Seq::new(rest_v.len(), |i: int| after_params.names()[rest_v[i].0 as int]);
            assert(ps =~= seq![after_first.names()[first.0 as int]] + rest_names);
            Self::lemma_extends_trans(*old(self), before_wrap, *self);
        }
        Ok(res)
    }

    /// Parses one expression, or nothing when the input holds no token.
    pub fn parse(self) -> (res: (Result<Option<(Ast, ExprId)>, ParseError>, Interner))
        requires
            self.pwf(),
            self.nodes().len() == 0,
        ensures
            res.1.wf(),
            self.names().len() <= res.1.names().len(),
            forall|i: int| 0 <= i < self.names().len() ==> res.1.names()[i] == self.names()[i],
            match parse_from(self.src(), self.st()) {
                Ok(None) => res.0 matches Ok(None),
                Ok(Some(t)) => (res.0 matches Ok(Some((ast, root))) && ast.wf() && root.0
                    < ast@.len() && nodes_symbols_below(ast@, res.1.names().len() as int)
                    && term_of(ast@, res.1.names(), root.0 as int) == t),
                Err(e) => res.0 == Err::<Option<(Ast, ExprId)>, ParseError>(e),
            },
    {
        let mut this = self;
        this.advance();
        if this.current == Token::Eof {
            return (Ok(None), this.interner);
        }
        match this.expr() {
            Ok(expr) => (Ok(Some((this.ast, expr))), this.interner),
            Err(e) => (Err(e), this.interner),
        }
    }
}

/// What a parser makes of `s` when it starts in state `st`.
pub open spec fn parse_from(s: Seq<u8>, st0: PState) -> Result<Option<Term>, ParseError> {
    let st = adv(s, st0);
    if st.0 == Token::Eof {
        Ok(None)
    } else {
        match p_expr(s, st) {
            Ok((t, _)) => Ok(Some(t)),
            Err(e) => Err(e),
        }
    }
}

/// Parses `source`, interning its names in `interner`.
pub fn parse(source: &str, interner: &mut Interner) -> (res: Result<
    Option<(Ast, ExprId)>,
    Vec<Diagnostic>,
>)
    requires
        clean_from(source.spec_bytes(), 0),
        old(interner).wf(),
    ensures
        final(interner).wf(),
        old(interner).names().len() <= final(interner).names().len(),
        forall|i: int|
            0 <= i < old(interner).names().len() ==> final(interner).names()[i] == old(
                interner,
            ).names()[i],
        match parse_spec(source.spec_bytes()) {
            Ok(None) => res matches Ok(None),
            Ok(Some(t)) => (res matches Ok(Some((ast, root))) && ast.wf() && root.0 < ast@.len()
                && nodes_symbols_below(ast@, final(interner).names().len() as int) && term_of(
                ast@,
                final(interner).names(),
                root.0 as int,
            ) == t),
            Err(e) => (res matches Err(diags) && diags@.len() == 1 && diags@[0].spec_new(
                Severity::Error,
                e.kind.spec_message(),
                e.span,
            )),
        },
{
    let mut owned = Interner::new();
    std::mem::swap(&mut owned, interner);
    let parser = Parser::new(Lexer::new(source), owned);
    let (res, back) = parser.parse();
    *interner = back;
    match res {
        Ok(r) => Ok(r),
        Err(e) => {
            let mut diags: Vec<Diagnostic> = Vec::new();
            diags.push(Diagnostic::error(e.kind.message(), e.span));
            Err(diags)
        },
    }
}

} // verus!
