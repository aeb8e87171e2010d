use lc::arena::Arena;
use lc::ast::{pretty_token, Expr, Lit};
use lc::interner::Interner;
use lc::lexer::{lookup_ident, Lexer, Span, Token};
use lc::parser;
use lc::resolver;

#[test]
fn lexer_yields_tokens_with_spans() {
    let mut tokens = Lexer::new("let x = 10").spanned();
    assert_eq!(tokens.next(), Some((Token::Let, Span::new(0, 3))));
    assert_eq!(tokens.next(), Some((Token::Ident, Span::new(4, 5))));
    assert_eq!(tokens.next(), Some((Token::Eq, Span::new(6, 7))));
    assert_eq!(tokens.next(), Some((Token::Num, Span::new(8, 10))));
    assert_eq!(tokens.next(), None);
}

#[test]
fn keywords_are_recognized() {
    assert_eq!(lookup_ident(b"if"), Token::If);
    assert_eq!(lookup_ident(b"rec"), Token::Rec);
    assert_eq!(lookup_ident(b"iffy"), Token::Ident);
}

#[test]
fn pretty_prints_the_tree() {
    let mut interner = Interner::with_capacity(64);
    let (ast, expr) = parser::parse("let x = 1 in x", &mut interner).unwrap().unwrap();
    let resolution = resolver::resolve(&ast, expr, &interner).unwrap();
    let out = ast.pretty(expr, &interner, &resolution.uses);
    assert_eq!(out, "(let x\n  (lit 1)\n  (var x :local 0)\n)\n");
}

#[test]
fn pretty_prints_operators_and_functions() {
    let mut interner = Interner::with_capacity(64);
    let (ast, expr) = parser::parse("(\\y. y + 2) 3", &mut interner).unwrap().unwrap();
    let resolution = resolver::resolve(&ast, expr, &interner).unwrap();
    let out = ast.pretty(expr, &interner, &resolution.uses);
    assert_eq!(
        out,
        "(app\n  (fun y\n    (bin +\n      (var y :local 0)\n      (lit 2)\n    )\n  )\n  (lit 3)\n)\n"
    );
    assert_eq!(pretty_token(Token::LtEq), "<=");
    assert_eq!(pretty_token(Token::Dot), "?");
}

#[test]
fn unbound_variable_is_reported() {
    let mut interner = Interner::with_capacity(64);
    let (ast, expr) = parser::parse("let x = 1 in y", &mut interner).unwrap().unwrap();
    let diags = match resolver::resolve(&ast, expr, &interner) {
        Ok(_) => panic!("expected an error"),
        Err(d) => d,
    };
    assert_eq!(diags.len(), 1);
    assert_eq!(diags[0].message, "unbound variable `y`");
    assert_eq!(diags[0].labels[0].span, Span::new(13, 14));
}

#[test]
fn parse_errors_become_diagnostics() {
    let mut interner = Interner::with_capacity(64);
    let diags = parser::parse("let = 1", &mut interner).unwrap_err();
    assert_eq!(diags[0].message, "expected ident after 'let'");
    assert!(parser::parse("", &mut interner).unwrap().is_none());
}

#[test]
fn arena_lists_items_with_ids() {
    let mut arena = Arena::new();
    let a = arena.allocate(10);
    let b = arena.allocate(20);
    assert_eq!(a.0, 0);
    assert_eq!(b.0, 1);
    let items = arena.iter();
    assert_eq!(items.len(), 2);
    assert_eq!(items[1].0 .0, 1);
    assert_eq!(*items[1].1, 20);
    assert_eq!(*arena.get(a), 10);
}

#[test]
fn table_with_calls_the_maker_per_node() {
    let mut interner = Interner::with_capacity(64);
    let (ast, _) = parser::parse("1 + 2", &mut interner).unwrap().unwrap();
    let table = ast.table_with(|| 7u8);
    assert_eq!(table.len(), ast.len());
    assert_eq!(*table.get(lc::arena::Id::from_index(0)), 7);
}

#[test]
fn spans_join_with_bitor() {
    let first = Span::from(0..2);
    let second = Span::from(4..8);
    let span = first | second;
    assert_eq!(span, Span { start: 0, end: 8 });
    assert_eq!(first.union(second), span);
    assert_eq!(span.range(), 0..8);
}

#[test]
fn interning_twice_gives_one_symbol() {
    let mut interner = Interner::new();
    let a = interner.intern(b"name");
    let b = interner.intern(b"other");
    let c = interner.intern(b"name");
    assert_eq!(a, c);
    assert_ne!(a, b);
    assert_eq!(interner.len(), 2);
    assert_eq!(interner.lookup(a), b"name");
}

fn warnings_of(source: &str) -> Vec<String> {
    let mut interner = Interner::with_capacity(64);
    let (ast, expr) = parser::parse(source, &mut interner).unwrap().unwrap();
    let resolution = resolver::resolve(&ast, expr, &interner).unwrap();
    resolver::unused_warnings(&ast, expr, &resolution, &interner)
}

#[test]
fn unused_bindings_are_reported() {
    assert_eq!(
        warnings_of("let x = 1 in 2"),
        vec!["Local variable `x` is defined but never used.".to_string()]
    );
    assert_eq!(
        warnings_of("\\x.\\y.x"),
        vec!["Local variable `y` is defined but never used.".to_string()]
    );
    assert!(warnings_of("let add a b = a + b in add 2 3").is_empty());
    assert!(warnings_of("let rec f n = if n == 0 then true else f (n - 1) in 1").is_empty());
    assert_eq!(
        warnings_of("let a = 1 in let b = 2 in 3"),
        vec![
            "Local variable `b` is defined but never used.".to_string(),
            "Local variable `a` is defined but never used.".to_string(),
        ]
    );
}

#[test]
fn or_and_and_bind_loosest() {
    let mut interner = Interner::with_capacity(64);
    let (ast, root) = parser::parse("true or false", &mut interner).unwrap().unwrap();
    match ast.expr(root) {
        Expr::Bin(t, Token::Or, f) => {
            assert!(matches!(ast.expr(t), Expr::Lit(Lit::Bool(true))));
            assert!(matches!(ast.expr(f), Expr::Lit(Lit::Bool(false))));
        }
        other => panic!("unexpected {other:?}"),
    }
    let (ast, root) = parser::parse("1 == 1 and true or false", &mut interner).unwrap().unwrap();
    match ast.expr(root) {
        Expr::Bin(lhs, Token::Or, _) => match ast.expr(lhs) {
            Expr::Bin(eq, Token::And, _) => {
                assert!(matches!(ast.expr(eq), Expr::Bin(_, Token::EqEq, _)))
            }
            other => panic!("unexpected {other:?}"),
        },
        other => panic!("unexpected {other:?}"),
    }
}

#[test]
fn sources_with_a_stray_byte_are_not_lexable() {
    assert!(lc::lexer::lexable("let x = 1 in x + 2"));
    assert!(!lc::lexer::lexable("1 @ 2"));
    assert!(!lc::lexer::lexable("'a"));
}
