//! End-to-end scenarios: parse a library and a term, build the table,
//! type-check, and reduce to a value.

use featherweight_java::ast::Term;
use featherweight_java::class_table::ClassTable;
use featherweight_java::error::ClassTableError;
use featherweight_java::error::EvalError;
use featherweight_java::evaluation::eval_full;
use featherweight_java::parser::{parse, parse_eval_input};
use featherweight_java::typecheck::{typecheck_ast, typecheck_term, Gamma};

const PAIR_LIB: &str = "class A extends Object { A() { super(); } } \
    class B extends Object { B() { super(); } } \
    class Pair extends Object { Object fst; Object snd; \
    Pair(Object fst, Object snd) { super(); this.fst = fst; this.snd = snd; } \
    Pair setfst(Object newfst) { return new Pair(newfst, this.snd); } }";

fn check_and_run(lib: &str, term_text: &str) -> (String, Result<Term, EvalError>) {
    let ast = parse(lib).expect("library should parse");
    let ct = ClassTable::try_from_ast(&ast).expect("table should build");
    let mut warnings = Vec::new();
    typecheck_ast(&ct, &ast, &mut warnings).expect("library should type-check");
    let term = parse_eval_input(term_text).expect("term should parse");
    let ty = typecheck_term(&ct, &Gamma::empty(), &term, &mut warnings)
        .expect("term should type-check");
    (ty.0, eval_full(&ct, term, 10_000))
}

#[test]
fn field_projection() {
    let (ty, result) = check_and_run(PAIR_LIB, "new Pair(new A(), new A()).fst");
    assert_eq!(ty, "Object");
    assert_eq!(result.unwrap().render(), "new A()");
}

#[test]
fn method_invocation_with_substitution() {
    let (ty, result) = check_and_run(PAIR_LIB, "new Pair(new A(), new B()).setfst(new B())");
    assert_eq!(ty, "Pair");
    assert_eq!(result.unwrap().render(), "new Pair(new B(),new B(),)");
}

#[test]
fn upcast_is_identity_at_runtime() {
    let (ty, result) = check_and_run(PAIR_LIB, "(Object) new A()");
    assert_eq!(ty, "Object");
    assert_eq!(result.unwrap().render(), "new A()");
}

const CAST_LIB: &str = "class A extends Object { A() { super(); } } \
    class C extends A { C() { super(); } }";

#[test]
fn downcast_succeeds_when_subtype() {
    let (ty, result) = check_and_run(CAST_LIB, "(A) new C()");
    assert_eq!(ty, "A");
    assert_eq!(result.unwrap().render(), "new C()");
}

#[test]
fn cast_failure() {
    let (ty, result) = check_and_run(CAST_LIB, "(C) new A()");
    assert_eq!(ty, "C");
    match result {
        Err(EvalError::CastFailed(from, to)) => {
            assert_eq!(from.0, "A");
            assert_eq!(to.0, "C");
        }
        other => panic!("expected a failed cast, got {:?}", other),
    }
}

#[test]
fn cyclic_supertype_is_rejected() {
    let lib = "class A extends B { A() { super(); } } class B extends A { B() { super(); } }";
    let ast = parse(lib).expect("library should parse");
    match ClassTable::try_from_ast(&ast) {
        Err(ClassTableError::CyclicSupertype(c)) => assert_eq!(c.0, "A"),
        other => panic!("expected a cyclic supertype error, got {:?}", other),
    }
}

#[test]
fn nested_reduction_inside_constructor_arguments() {
    let (ty, result) = check_and_run(PAIR_LIB, "new Pair(new Pair(new A(), new B()).fst, new B())");
    assert_eq!(ty, "Pair");
    assert_eq!(result.unwrap().render(), "new Pair(new A(),new B(),)");
}

#[test]
fn projection_can_return_a_compound_value() {
    let (ty, result) = check_and_run(
        PAIR_LIB,
        "new Pair(new Pair(new A(), new A()), new B()).fst",
    );
    assert_eq!(ty, "Object");
    assert_eq!(result.unwrap().render(), "new Pair(new A(),new A(),)");
}

#[test]
fn stupid_cast_warns_and_types() {
    let lib = "class A extends Object { A() { super(); } } \
        class B extends Object { B() { super(); } }";
    let ast = parse(lib).expect("library should parse");
    let ct = ClassTable::try_from_ast(&ast).expect("table should build");
    let term = parse_eval_input("(B) new A()").expect("term should parse");
    let mut warnings = Vec::new();
    let ty = typecheck_term(&ct, &Gamma::empty(), &term, &mut warnings)
        .expect("a senseless cast still types");
    assert_eq!(ty.0, "B");
    assert_eq!(warnings.len(), 1);
    assert_eq!(warnings[0].0 .0, "A");
    assert_eq!(warnings[0].1 .0, "B");
}

#[test]
fn step_limit_reported_on_divergence() {
    // the call reduces to itself forever
    let lib = "class D extends Object { D() { super(); } \
        D spin() { return this.spin(); } }";
    let ast = parse(lib).expect("library should parse");
    let ct = ClassTable::try_from_ast(&ast).expect("table should build");
    let mut warnings = Vec::new();
    typecheck_ast(&ct, &ast, &mut warnings).expect("library should type-check");
    let term = parse_eval_input("new D().spin()").expect("term should parse");
    match eval_full(&ct, term, 50) {
        Err(EvalError::StepLimitReached(t)) => {
            assert_eq!(t.render(), "new D().spin()");
        }
        other => panic!("expected the step limit, got {:?}", other),
    }
}
