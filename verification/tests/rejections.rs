//! One input per error kind: table formation, typing, evaluation, and
//! parsing.

use featherweight_java::ast::{FieldName, MethodName, Term};
use featherweight_java::class_table::ClassTable;
use featherweight_java::error::{ClassTableError, EvalError, TypingError};
use featherweight_java::evaluation::eval_step;
use featherweight_java::parser::{parse, parse_eval_input, tokenize, ParseError};
use featherweight_java::typecheck::{typecheck_ast, typecheck_term, Gamma};

fn build(lib: &str) -> Result<ClassTable, ClassTableError> {
    ClassTable::try_from_ast(&parse(lib).expect("library should parse"))
}

fn checked(lib: &str) -> ClassTable {
    build(lib).expect("table should build")
}

fn check_term(ct: &ClassTable, text: &str) -> Result<String, TypingError> {
    let term = parse_eval_input(text).expect("term should parse");
    let mut warnings = Vec::new();
    typecheck_term(ct, &Gamma::empty(), &term, &mut warnings).map(|c| c.0)
}

#[test]
fn class_named_object() {
    let r = build("class Object extends Object { Object() { super(); } }");
    assert!(matches!(r, Err(ClassTableError::ClassNamedObject)));
}

#[test]
fn class_defined_twice() {
    let r = build(
        "class A extends Object { A() { super(); } } class A extends Object { A() { super(); } }",
    );
    assert!(matches!(r, Err(ClassTableError::ClassDefinedTwice(c)) if c.0 == "A"));
}

#[test]
fn object_name_check_precedes_the_duplicate_check() {
    // the duplicate comes first in the text, but the whole program is
    // scanned for the reserved name before duplicates are looked for
    let r = build(
        "class A extends Object { A() { super(); } } \
         class A extends Object { A() { super(); } } \
         class Object extends Object { Object() { super(); } }",
    );
    assert!(matches!(r, Err(ClassTableError::ClassNamedObject)));
}

#[test]
fn supertype_undefined() {
    let r = build("class A extends Ghost { A() { super(); } }");
    assert!(
        matches!(r, Err(ClassTableError::SupertypeUndefined(s, c)) if s.0 == "Ghost" && c.0 == "A")
    );
}

#[test]
fn incorrect_constructor_name() {
    let r = build("class A extends Object { B() { super(); } }");
    assert!(
        matches!(r, Err(ClassTableError::IncorrectConstructorName(c, g)) if c.0 == "A" && g.0 == "B")
    );
}

#[test]
fn constructor_must_assign_every_field() {
    let r = build("class A extends Object { Object x; A(Object x) { super(); } }");
    assert!(matches!(r, Err(ClassTableError::IncorrectConstructorInit(c)) if c.0 == "A"));
}

#[test]
fn constructor_must_not_assign_twice() {
    let r = build(
        "class A extends Object { Object x; A(Object x) { super(); this.x = x; this.x = x; } }",
    );
    assert!(matches!(r, Err(ClassTableError::IncorrectConstructorInit(c)) if c.0 == "A"));
}

#[test]
fn non_unique_fields() {
    let r = build(
        "class A extends Object { Object x; Object x; A(Object x) { super(); this.x = x; } }",
    );
    assert!(matches!(r, Err(ClassTableError::NonUniqueFields(c)) if c.0 == "A"));
}

#[test]
fn non_unique_method_names() {
    let r = build(
        "class A extends Object { A() { super(); } A m() { return this; } A m() { return this; } }",
    );
    assert!(matches!(r, Err(ClassTableError::NonUniqueMethodNames(c)) if c.0 == "A"));
}

#[test]
fn field_named_this() {
    let r = build(
        "class A extends Object { Object this; A() { super(); this.this = this; } }",
    );
    assert!(matches!(r, Err(ClassTableError::FieldNamedThis(c)) if c.0 == "A"));
}

#[test]
fn constructor_argument_named_this() {
    let r = build("class A extends Object { Object x; A(Object this) { super(); this.x = x; } }");
    assert!(matches!(r, Err(ClassTableError::ConstructorArgumentNamedThis(c)) if c.0 == "A"));
}

#[test]
fn non_unique_method_argument_names() {
    let r = build(
        "class A extends Object { A() { super(); } A m(A x, A x) { return this; } }",
    );
    assert!(
        matches!(r, Err(ClassTableError::NonUniqueMethodArgumentNames(m, c)) if m.0 == "m" && c.0 == "A")
    );
}

#[test]
fn method_argument_named_this() {
    let r = build("class A extends Object { A() { super(); } A m(A this) { return this; } }");
    assert!(
        matches!(r, Err(ClassTableError::MethodArgumentNamedThis(m, c)) if m.0 == "m" && c.0 == "A")
    );
}

#[test]
fn variable_not_in_gamma() {
    let ct = checked("class A extends Object { A() { super(); } }");
    let r = check_term(&ct, "nowhere");
    assert!(matches!(r, Err(TypingError::VariableNotInGamma(x)) if x.0 == "nowhere"));
}

#[test]
fn undefined_class_in_new() {
    let ct = checked("class A extends Object { A() { super(); } }");
    let r = check_term(&ct, "new Ghost()");
    assert!(matches!(r, Err(TypingError::UndefinedClass(c)) if c.0 == "Ghost"));
}

#[test]
fn undefined_method() {
    let ct = checked("class A extends Object { A() { super(); } }");
    let r = check_term(&ct, "new A().missing()");
    assert!(
        matches!(r, Err(TypingError::UndefinedMethod(m, c)) if m.0 == "missing" && c.0 == "A")
    );
}

#[test]
fn undefined_field() {
    let ct = checked("class A extends Object { A() { super(); } }");
    let r = check_term(&ct, "new A().missing");
    assert!(matches!(r, Err(TypingError::UndefinedField(f, c)) if f.0 == "missing" && c.0 == "A"));
}

#[test]
fn constructor_arity_mismatch() {
    let ct = checked(
        "class A extends Object { Object x; A(Object x) { super(); this.x = x; } }",
    );
    let r = check_term(&ct, "new A()");
    assert!(matches!(r, Err(TypingError::ConstructorArityMismatch(c)) if c.0 == "A"));
}

#[test]
fn method_arity_mismatch() {
    let ct = checked("class A extends Object { A() { super(); } A m(A x) { return x; } }");
    let r = check_term(&ct, "new A().m()");
    assert!(matches!(r, Err(TypingError::MethodArityMismatch(m, c)) if m.0 == "m" && c.0 == "A"));
}

#[test]
fn constructor_argument_not_subtype() {
    let ct = checked(
        "class A extends Object { A() { super(); } } \
         class B extends Object { B() { super(); } } \
         class P extends Object { A a; P(A a) { super(); this.a = a; } }",
    );
    let r = check_term(&ct, "new P(new B())");
    assert!(
        matches!(r, Err(TypingError::ConstructorArgumentNotSubtype(actual, declared, c))
            if actual.0 == "B" && declared.0 == "A" && c.0 == "P")
    );
}

#[test]
fn method_argument_not_subtype() {
    let ct = checked(
        "class A extends Object { A() { super(); } A m(A x) { return x; } } \
         class B extends Object { B() { super(); } }",
    );
    let r = check_term(&ct, "new A().m(new B())");
    assert!(
        matches!(r, Err(TypingError::MethodArgumentNotSubtype(actual, declared, m, c))
            if actual.0 == "B" && declared.0 == "A" && m.0 == "m" && c.0 == "A")
    );
}

#[test]
fn return_type_not_subtype() {
    let lib = "class A extends Object { A() { super(); } } \
        class B extends Object { B() { super(); } A m() { return new B(); } }";
    let ast = parse(lib).expect("library should parse");
    let ct = ClassTable::try_from_ast(&ast).expect("table should build");
    let mut warnings = Vec::new();
    let r = typecheck_ast(&ct, &ast, &mut warnings);
    // the error carries its context: the class, the method, then the cause
    match r {
        Err(TypingError::InvalidClass(c, inner)) => {
            assert_eq!(c.0, "B");
            match *inner {
                TypingError::InvalidMethod(m, c2, inner2) => {
                    assert_eq!(m.0, "m");
                    assert_eq!(c2.0, "B");
                    assert!(
                        matches!(*inner2, TypingError::ReturnTypeNotSubtype(actual, declared, m3, c3)
                            if actual.0 == "B" && declared.0 == "A" && m3.0 == "m" && c3.0 == "B")
                    );
                }
                other => panic!("expected a method context, got {:?}", other),
            }
        }
        other => panic!("expected a class context, got {:?}", other),
    }
}

#[test]
fn incorrect_method_override() {
    let lib = "class A extends Object { A() { super(); } A m() { return this; } } \
        class B extends A { B() { super(); } B m() { return this; } }";
    let ast = parse(lib).expect("library should parse");
    let ct = ClassTable::try_from_ast(&ast).expect("table should build");
    let mut warnings = Vec::new();
    let r = typecheck_ast(&ct, &ast, &mut warnings);
    match r {
        Err(TypingError::InvalidClass(c, inner)) => {
            assert_eq!(c.0, "B");
            match *inner {
                TypingError::InvalidMethod(m, _, inner2) => {
                    assert_eq!(m.0, "m");
                    assert!(
                        matches!(*inner2, TypingError::IncorrectMethodOverride(m3, c3)
                            if m3.0 == "m" && c3.0 == "B")
                    );
                }
                other => panic!("expected a method context, got {:?}", other),
            }
        }
        other => panic!("expected a class context, got {:?}", other),
    }
}

#[test]
fn a_broken_body_reports_its_full_context() {
    // the body names an unbound variable; the error arrives wrapped in the
    // class, the method, and the offending term
    let lib = "class A extends Object { A() { super(); } A m() { return ghost; } }";
    let ast = parse(lib).expect("library should parse");
    let ct = ClassTable::try_from_ast(&ast).expect("table should build");
    let mut warnings = Vec::new();
    match typecheck_ast(&ct, &ast, &mut warnings) {
        Err(TypingError::InvalidClass(c, inner)) => {
            assert_eq!(c.0, "A");
            match *inner {
                TypingError::InvalidMethod(m, _, inner2) => {
                    assert_eq!(m.0, "m");
                    match *inner2 {
                        TypingError::InvalidTerm(t, inner3) => {
                            assert_eq!(t.render(), "ghost");
                            assert!(matches!(*inner3,
                                TypingError::VariableNotInGamma(x) if x.0 == "ghost"));
                        }
                        other => panic!("expected a term context, got {:?}", other),
                    }
                }
                other => panic!("expected a method context, got {:?}", other),
            }
        }
        other => panic!("expected a class context, got {:?}", other),
    }
}

#[test]
fn a_bare_variable_is_stuck() {
    let ct = checked("class A extends Object { A() { super(); } }");
    let term = Term::Variable(FieldName("x".to_owned()));
    let r = eval_step(&ct, term);
    assert!(matches!(r, Err(EvalError::Stuck(Term::Variable(x))) if x.0 == "x"));
}

#[test]
fn undefined_method_at_runtime() {
    let ct = checked("class A extends Object { A() { super(); } }");
    let term = parse_eval_input("new A().gone()").expect("term should parse");
    let r = eval_step(&ct, term);
    assert!(
        matches!(r, Err(EvalError::UndefinedMethod(m, c)) if m.0 == "gone" && c.0 == "A")
    );
}

#[test]
fn undefined_field_at_runtime() {
    let ct = checked("class A extends Object { A() { super(); } }");
    let term = parse_eval_input("new A().gone").expect("term should parse");
    let r = eval_step(&ct, term);
    assert!(matches!(r, Err(EvalError::UndefinedField(f, c)) if f.0 == "gone" && c.0 == "A"));
}

#[test]
fn tokenizer_rejects_a_bad_character() {
    assert!(matches!(tokenize("class A % B"), Err(ParseError::BadCharacter(8))));
}

#[test]
fn parser_rejects_trailing_input() {
    assert!(matches!(parse_eval_input("new A() new B()"), Err(ParseError::TrailingInput(_))));
}

#[test]
fn parser_rejects_a_broken_class() {
    assert!(parse("class A extends { A() { super(); } }").is_err());
    assert!(parse("class A").is_err());
}

#[test]
fn undefined_operand_classes_in_a_call() {
    // the declared argument type of `m` names no class, so the subtype
    // check cannot decide
    let ct = checked("class A extends Object { A() { super(); } A m(Ghost g) { return this; } }");
    let r = check_term(&ct, "new A().m(new A())");
    assert!(matches!(r, Err(TypingError::UndefinedClasses(cs)) if cs.len() == 2
        && cs[0].0 == "A" && cs[1].0 == "Ghost"));
}

#[test]
fn constructor_argument_not_found_at_runtime() {
    // a raw term that never passed the type checker: the object carries
    // fewer arguments than its class declares fields
    let ct = checked(
        "class P extends Object { Object x; P(Object x) { super(); this.x = x; } }",
    );
    let obj = featherweight_java::ast::NewCall {
        class_name: featherweight_java::ast::ClassName("P".to_owned()),
        arg_terms: Vec::new(),
    }
    .into_term();
    let term = featherweight_java::ast::FieldAccess {
        object_term: Box::new(obj),
        field: FieldName("x".to_owned()),
    }
    .into_term();
    let r = eval_step(&ct, term);
    assert!(matches!(r, Err(EvalError::ConstructorArgNotFound(0, c)) if c.0 == "P"));
}

#[test]
fn method_type_walks_the_chain() {
    let ct = checked(
        "class A extends Object { A() { super(); } A m() { return this; } } \
         class B extends A { B() { super(); } }",
    );
    let m = MethodName("m".to_owned());
    let mt = ct
        .method_type(&m, &featherweight_java::ast::ClassName("B".to_owned()))
        .expect("B inherits m");
    assert_eq!(mt.ret_type.0, "A");
    assert_eq!(mt.arg_types.len(), 0);
}
