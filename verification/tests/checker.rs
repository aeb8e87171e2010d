use lc::checker::{typecheck, well_scoped, Checker};
use lc::interner::Interner;
use lc::parser;
use lc::resolver;

fn infer_source(source: &str) -> Result<String, String> {
    let mut interner = Interner::with_capacity(64);
    let (ast, expr) = parser::parse(source, &mut interner).unwrap().unwrap();
    let resolution = resolver::resolve(&ast, expr, &interner).unwrap();
    assert!(well_scoped(&ast, &resolution.uses, expr, 0));
    let mut checker = Checker::new(&ast, &resolution.uses);
    checker
        .infer_top(expr)
        .map(|ty| checker.type_to_string(ty))
        .map_err(|err| checker.error_to_string(err))
}

#[test]
fn infers_identity_application() {
    let ty = infer_source("let id = \\x.x in id 1").unwrap();
    assert_eq!(ty, "int");
}

#[test]
fn polymorphic_let_allows_multiple_instantiations() {
    let ty = infer_source("let id = \\x.x in let a = id 1 in id true").unwrap();
    assert_eq!(ty, "bool");
}

#[test]
fn rejects_infinite_types() {
    let err = infer_source("\\x. x x").unwrap_err();
    assert!(err.contains("illegal recursive type"), "{err}");
}

#[test]
fn literals_have_base_types() {
    assert_eq!(infer_source("1").unwrap(), "int");
    assert_eq!(infer_source("true").unwrap(), "bool");
}

#[test]
fn identity_is_generic() {
    assert_eq!(infer_source("\\x.x").unwrap(), "t0 -> t0");
}

#[test]
fn function_parameter_is_parenthesized() {
    assert_eq!(infer_source("\\f.\\x. f x").unwrap(), "(t1 -> t2) -> t1 -> t2");
}

#[test]
fn arithmetic_is_int() {
    assert_eq!(infer_source("1 + 2 * 3").unwrap(), "int");
}

#[test]
fn comparison_is_typed_int() {
    assert_eq!(infer_source("1 < 2").unwrap(), "int");
    assert_eq!(infer_source("true == false").unwrap(), "int");
}

#[test]
fn mismatch_is_reported() {
    assert_eq!(infer_source("1 + true").unwrap_err(), "type mismatch: bool != int");
}

#[test]
fn condition_must_be_bool() {
    assert_eq!(infer_source("if 1 then 2 else 3").unwrap_err(), "type mismatch: int != bool");
}

#[test]
fn conditional_branches_agree() {
    assert_eq!(infer_source("if true then 1 else 2").unwrap(), "int");
    assert!(infer_source("if true then 1 else false").is_err());
}

#[test]
fn curried_function() {
    assert_eq!(infer_source("let add a b = a + b in add 2 3").unwrap(), "int");
    assert_eq!(infer_source("let add a b = a + b in add").unwrap(), "int -> int -> int");
}

#[test]
fn recursive_binding() {
    assert_eq!(
        infer_source("let rec f n = if true then n else f (n - 1) in f").unwrap(),
        "int -> int"
    );
}

#[test]
fn comparison_cannot_be_a_condition() {
    assert_eq!(
        infer_source("let rec f n = if n == 0 then true else f (n - 1) in f").unwrap_err(),
        "type mismatch: int != bool"
    );
}

#[test]
fn captures_outer_binding() {
    assert_eq!(infer_source("let x = 1 in let f y = x + y in f 2").unwrap(), "int");
}

#[test]
fn typecheck_reports_type_or_error() {
    let mut interner = Interner::with_capacity(64);
    let (ast, expr) = parser::parse("1 + 2", &mut interner).unwrap().unwrap();
    let resolution = resolver::resolve(&ast, expr, &interner).unwrap();
    assert_eq!(typecheck(&ast, expr, &resolution.uses), Ok("int".to_string()));

    let (ast, expr) = parser::parse("\\x. x x", &mut interner).unwrap().unwrap();
    let resolution = resolver::resolve(&ast, expr, &interner).unwrap();
    let err = typecheck(&ast, expr, &resolution.uses).unwrap_err();
    assert!(err.contains("illegal recursive type"), "{err}");
}

#[test]
fn typecheck_follows_ground_expressions() {
    let mut interner = Interner::with_capacity(64);
    let cases = [
        ("1 + true", Err("type mismatch: bool != int")),
        ("true + 1", Err("type mismatch: bool != int")),
        ("if true then 1 else 2", Ok("int")),
        ("if 1 then 2 else 3", Err("type mismatch: int != bool")),
        ("if 1 < 2 then 3 else 4", Err("type mismatch: int != bool")),
        ("if false then true else 1", Err("type mismatch: bool != int")),
        ("if true then 1 == 1 else 2", Ok("int")),
        ("() == ()", Ok("int")),
        ("let x = 1 in x + 2", Ok("int")),
        ("let x = true in x + 1", Err("type mismatch: bool != int")),
        ("let b = true in let n = 3 in if b then n else n * 2", Ok("int")),
        ("let b = 1 in if b then 2 else 3", Err("type mismatch: int != bool")),
        ("let u = () in if true then u else 1", Err("type mismatch: () != int")),
        ("\\x.x", Ok("t0 -> t0")),
        ("\\x. \\y. x", Ok("t0 -> t1 -> t0")),
        ("let id = \\x.x in id", Ok("t1 -> t1")),
        ("\\x. if true then x else x", Ok("t0 -> t0")),
        ("if true then 1 else \\x.x", Err("type mismatch: int != t0 -> t0")),
        ("(\\x.x) + 1", Err("type mismatch: t0 -> t0 != int")),
    ];
    for (source, expected) in cases {
        let (ast, expr) = parser::parse(source, &mut interner).unwrap().unwrap();
        let resolution = resolver::resolve(&ast, expr, &interner).unwrap();
        let got = typecheck(&ast, expr, &resolution.uses);
        let want = expected.map(|s| s.to_string()).map_err(|s| s.to_string());
        assert_eq!(got, want, "{source}");
    }
}

#[test]
fn inference_results_through_applications() {
    assert_eq!(infer_source("\\f.\\x. f x").unwrap(), "(t1 -> t2) -> t1 -> t2");
    assert_eq!(infer_source("\\x. x x").unwrap_err(), "illegal recursive type: t0 occurs in t0 -> t1");
    assert_eq!(
        infer_source("\\x. let y = x in y + (if y then 1 else 2)").unwrap_err(),
        "type mismatch: bool != int"
    );
    assert_eq!(infer_source("let id = \\x.x in id 1").unwrap(), "int");
    assert_eq!(infer_source("(\\x. x + 1) true").unwrap_err(), "type mismatch: int != bool");
}
