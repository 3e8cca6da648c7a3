use stlc::ast::AST;
use stlc::typing::{calculate_mgu, Constraints, Type, TypeEnv, TypeInf};

fn var(s: &str) -> AST {
    AST::Var(s.to_string())
}

fn app(a: AST, b: AST) -> AST {
    AST::App(Box::new(a), Box::new(b))
}

fn abs(x: &str, b: AST) -> AST {
    AST::Abs(x.to_string(), Box::new(b))
}

fn tvar(s: &str) -> Type {
    Type::Var(s.to_string())
}

fn tfunc(a: Type, b: Type) -> Type {
    Type::Func(Box::new(a), Box::new(b))
}

/// Runs the whole pipeline on a closed term: inference, unification,
/// back-substitution, and type reconstruction. `None` reports that no
/// unifier exists.
fn infer_type(e: &AST) -> Option<(String, String)> {
    let mut tf = TypeInf::new();
    let (typed, _, c) = tf.type_inf(&TypeEnv::new(), e);
    let uni = calculate_mgu(&c)?;
    let typed = typed.unify(&uni);
    let t = typed.construct_type(&TypeEnv::new());
    Some((typed.to_text(), t.to_text()))
}

#[test]
fn identity_infers_to_alpha_to_alpha() {
    // inference alone: fresh variable v0, type v0->v0, no constraints
    let e = abs("x", var("x"));
    let mut tf = TypeInf::new();
    let (typed, t, c) = tf.type_inf(&TypeEnv::new(), &e);
    assert_eq!(t.to_text(), "v0->v0");
    assert_eq!(typed.to_text(), "\\x:v0.x");
    assert_eq!(c.len(), 0);
}

#[test]
fn scenario_identity_end_to_end() {
    let e = abs("x", var("x"));
    assert_eq!(e.to_text(), "\\x.x");
    let (typed, t) = infer_type(&e).unwrap();
    assert_eq!(t, "v0->v0");
    assert_eq!(typed, "\\x:v0.x");
}

#[test]
fn scenario_k_combinator() {
    let e = abs("x", abs("y", var("x")));
    let (_, t) = infer_type(&e).unwrap();
    assert_eq!(t, "v0->v1->v0");
}

#[test]
fn scenario_application_combinator() {
    // \f.\x.f x : the unified type is (a->b)->a->b in the run's fresh names
    let e = abs("f", abs("x", app(var("f"), var("x"))));
    let (_, t) = infer_type(&e).unwrap();
    assert_eq!(t, "(v2->v3)->v2->v3");
}

#[test]
fn scenario_self_application_has_no_unifier() {
    let e = abs("x", app(var("x"), var("x")));
    let mut tf = TypeInf::new();
    let (_, _, c) = tf.type_inf(&TypeEnv::new(), &e);
    assert!(calculate_mgu(&c).is_none());
}

#[test]
fn solvable_queues_always_get_a_unifier() {
    // the empty queue is trivially solvable and yields the empty unifier
    let empty: Constraints = Constraints::new();
    let uni = calculate_mgu(&empty).unwrap();
    assert_eq!(uni.len(), 0);
    // a queue of already-equal pairs needs no entries either
    let mut c: Constraints = Constraints::new();
    c.push_back((tvar("a"), tvar("a")));
    c.push_back((tfunc(tvar("b"), tvar("c")), tfunc(tvar("b"), tvar("c"))));
    let uni = calculate_mgu(&c).unwrap();
    assert_eq!(uni.len(), 0);
}

#[test]
fn unifier_entries_are_distinct_constraint_variables() {
    // each recorded variable comes from the constraints and is eliminated
    // from every later entry
    let mut c: Constraints = Constraints::new();
    c.push_back((tvar("a"), tfunc(tvar("b"), tvar("c"))));
    c.push_back((tvar("b"), tvar("c")));
    let uni = calculate_mgu(&c).unwrap();
    for i in 0..uni.len() {
        for j in (i + 1)..uni.len() {
            assert_ne!(uni[i].0, uni[j].0);
            assert!(!uni[j].1.appear(&uni[i].0));
        }
    }
}

#[test]
fn occurs_check_rejects_self_referential_binding() {
    // x = x->x : the variable occurs in its own proposed binding
    let mut c: Constraints = Constraints::new();
    c.push_back((tvar("x"), tfunc(tvar("x"), tvar("x"))));
    assert!(calculate_mgu(&c).is_none());
}

#[test]
fn unifier_makes_constraint_sides_equal() {
    // v0 = v1->v2 and v1 = v2: applying the unifier entries in order to both
    // sides of each original constraint yields equal types
    let mut c: Constraints = Constraints::new();
    c.push_back((tvar("v0"), tfunc(tvar("v1"), tvar("v2"))));
    c.push_back((tvar("v1"), tvar("v2")));
    let uni = calculate_mgu(&c).unwrap();
    for (lhs, rhs) in c.iter() {
        let mut a = lhs.duplicate();
        let mut b = rhs.duplicate();
        for u in uni.iter() {
            a = a.unify(u);
            b = b.unify(u);
        }
        assert_eq!(a.to_text(), b.to_text());
    }
}

#[test]
fn unify_substitutes_through_queue() {
    let mut c: Constraints = Constraints::new();
    c.push_back((tvar("a"), tfunc(tvar("b"), tvar("a"))));
    let u = ("a".to_string(), tvar("c"));
    let r = stlc::typing::unify(&mut c, &u);
    assert_eq!(c.len(), 0);
    assert_eq!(r.len(), 1);
    assert_eq!(r[0].0.to_text(), "c");
    assert_eq!(r[0].1.to_text(), "b->c");
}

#[test]
fn decomposition_solves_function_constraints() {
    // a->b = (c->c)->d decomposes into a = c->c and b = d
    let mut c: Constraints = Constraints::new();
    c.push_back((
        tfunc(tvar("a"), tvar("b")),
        tfunc(tfunc(tvar("c"), tvar("c")), tvar("d")),
    ));
    let uni = calculate_mgu(&c).unwrap();
    assert_eq!(uni.len(), 2);
    assert_eq!(uni[0].0, "a".to_string());
    assert_eq!(uni[0].1.to_text(), "c->c");
    assert_eq!(uni[1].0, "b".to_string());
    assert_eq!(uni[1].1.to_text(), "d");
}

#[test]
fn type_environment_shadows_and_restores() {
    let mut env = TypeEnv::new();
    env.insert("x".to_string(), tvar("v0"));
    let copy = env.duplicate();
    env.insert("x".to_string(), tvar("v1"));
    assert_eq!(env.get(&"x".to_string()).unwrap().to_text(), "v1");
    assert_eq!(copy.get(&"x".to_string()).unwrap().to_text(), "v0");
    assert!(env.get(&"y".to_string()).is_none());
}

#[test]
fn type_rendering_parenthesizes_function_domains() {
    let t = tfunc(tfunc(tvar("v0"), tvar("v1")), tvar("v2"));
    assert_eq!(t.to_text(), "(v0->v1)->v2");
    assert_eq!(t.latex_fmt(), "\\left(v0 \\to v1\\right) \\to v2");
    let u = tfunc(tvar("a"), tfunc(tvar("b"), tvar("c")));
    assert_eq!(u.to_text(), "a->b->c");
    assert_eq!(u.latex_fmt(), "a \\to b \\to c");
}

#[test]
fn judgment_rendering() {
    let e = abs("x", var("x"));
    let mut tf = TypeInf::new();
    let (typed, t, _) = tf.type_inf(&TypeEnv::new(), &e);
    let judge = typed.typejudge_latex(&t, &TypeEnv::new());
    assert_eq!(judge, " \\vdash \\lambda x .x : v0 \\to v0");
    let mut env = TypeEnv::new();
    env.insert("x".to_string(), tvar("v0"));
    let judge2 = typed.typejudge_latex(&t, &env);
    assert_eq!(judge2, "\\{ x : v0 \\} \\vdash \\lambda x .x : v0 \\to v0");
}

#[test]
fn derivation_lines_bottom_up() {
    let e = abs("x", var("x"));
    let mut tf = TypeInf::new();
    let (typed, _, c) = tf.type_inf(&TypeEnv::new(), &e);
    let uni = calculate_mgu(&c).unwrap();
    let typed = typed.unify(&uni);
    let mut lines: Vec<String> = Vec::new();
    let t = typed.to_bussproofs(&TypeEnv::new(), &mut lines);
    assert_eq!(t.to_text(), "v0->v0");
    assert_eq!(lines.len(), 2);
    assert_eq!(lines[0], "  \\AxiomC{ $ \\{ x : v0 \\} \\vdash x : v0 $ }");
    assert_eq!(
        lines[1],
        "  \\UnaryInfC{ $  \\vdash \\lambda x .x : v0 \\to v0 $ }"
    );
}

#[test]
fn applying_unifier_rewrites_annotations() {
    let e = abs("x", var("x"));
    let mut tf = TypeInf::new();
    let (typed, _, _) = tf.type_inf(&TypeEnv::new(), &e);
    let uni = vec![("v0".to_string(), tfunc(tvar("a"), tvar("b")))];
    let rewritten = typed.unify(&uni);
    assert_eq!(rewritten.to_text(), "\\x:a->b.x");
}
