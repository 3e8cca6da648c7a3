use stlc::ast::AST;

fn var(s: &str) -> AST {
    AST::Var(s.to_string())
}

fn app(a: AST, b: AST) -> AST {
    AST::App(Box::new(a), Box::new(b))
}

fn abs(x: &str, b: AST) -> AST {
    AST::Abs(x.to_string(), Box::new(b))
}

#[test]
fn free_variable_analysis() {
    let t = abs("x", app(var("x"), var("y")));
    assert!(!t.free(&"x".to_string()));
    assert!(t.free(&"y".to_string()));
    assert!(!t.free(&"z".to_string()));
}

#[test]
fn variables_lists_every_occurrence() {
    let t = app(var("a"), app(var("b"), var("a")));
    let mut vars: Vec<String> = Vec::new();
    t.variables(&mut vars);
    assert_eq!(vars, vec!["a".to_string(), "b".to_string(), "a".to_string()]);
}

#[test]
fn free_variables_keeps_duplicates() {
    let t = app(var("a"), abs("b", app(var("b"), var("a"))));
    let mut free_vars: Vec<String> = Vec::new();
    t.free_variables(&mut free_vars);
    assert_eq!(free_vars, vec!["a".to_string(), "a".to_string()]);
}

#[test]
fn fresh_name_probes_upward() {
    let t = app(var("v0"), var("v1"));
    assert_eq!(t.new_variable(), "v2".to_string());
    let u = var("x");
    assert_eq!(u.new_variable(), "v0".to_string());
}

#[test]
fn substitute_variable() {
    let t = var("x");
    let r = t.assign(&var("y"), &"x".to_string());
    assert_eq!(r.to_text(), "y");
    let s = t.assign(&var("y"), &"z".to_string());
    assert_eq!(s.to_text(), "x");
}

#[test]
fn substitute_under_shadowing_binder_is_no_op() {
    let t = abs("x", var("x"));
    let r = t.assign(&var("y"), &"x".to_string());
    assert_eq!(r.to_text(), "\\x.x");
}

#[test]
fn substitute_renames_capturing_binder() {
    // substituting y for x under a binder named y: the binder is renamed to
    // the first generated name not free in the replacement, and the inserted
    // y stays free
    let t = abs("y", var("x"));
    let r = t.assign(&var("y"), &"x".to_string());
    assert_eq!(r.to_text(), "\\v0.y");
}

#[test]
fn substitute_keeps_distinct_binder() {
    let t = abs("z", app(var("z"), var("x")));
    let r = t.assign(&var("y"), &"x".to_string());
    assert_eq!(r.to_text(), "\\z.z y");
}

#[test]
fn redex_detection() {
    assert!(!var("x").reductive());
    assert!(!abs("x", var("x")).reductive());
    assert!(app(abs("x", var("x")), var("y")).reductive());
    assert!(abs("z", app(abs("x", var("x")), var("y"))).reductive());
    assert!(!app(var("f"), var("y")).reductive());
}

#[test]
fn step_reduces_root_redex() {
    let t = app(abs("x", var("x")), var("y"));
    assert_eq!(t.step().to_text(), "y");
}

#[test]
fn step_prefers_function_side() {
    let inner = app(abs("x", var("x")), var("a"));
    let t = app(inner.duplicate(), app(abs("y", var("y")), var("b")));
    // the function side holds the leftmost-outermost redex
    assert_eq!(t.step().to_text(), "a ((\\y.y) b)");
}

#[test]
fn beta_reduction_identity() {
    let t = app(abs("x", var("x")), var("z"));
    let r = t.beta_reduction();
    assert!(!r.reductive());
    assert_eq!(r.to_text(), "z");
}

#[test]
fn beta_reduction_k_combinator() {
    // (\x.\y.x) a b  reduces to  a
    let k = abs("x", abs("y", var("x")));
    let t = app(app(k, var("a")), var("b"));
    let r = t.beta_reduction();
    assert!(!r.reductive());
    assert_eq!(r.to_text(), "a");
}

#[test]
fn rendering_parenthesizes_non_variables() {
    let t = app(abs("x", var("x")), app(var("y"), var("z")));
    assert_eq!(t.to_text(), "(\\x.x) (y z)");
    let u = abs("f", app(var("f"), var("f")));
    assert_eq!(u.to_text(), "\\f.f f");
}
