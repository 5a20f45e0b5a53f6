//! Concrete instances of the library's general laws: subtyping is a
//! preorder with `"Object"` on top, fields are inherited as a prefix,
//! overriding keeps the signature, values are normal forms, and typing is
//! repeatable.

use featherweight_java::ast::ClassName;
use featherweight_java::class_table::ClassTable;
use featherweight_java::evaluation::eval_full;
use featherweight_java::parser::{parse, parse_eval_input};
use featherweight_java::typecheck::{typecheck_term, Gamma};

const LIB: &str = "class A extends Object { A() { super(); } } \
    class B extends A { Object extra; \
    B(Object extra) { super(); this.extra = extra; } \
    A id(A x) { return x; } } \
    class C extends B { C(Object extra) { super(extra); } \
    A id(A x) { return new A(); } }";

fn table() -> ClassTable {
    let ast = parse(LIB).expect("library should parse");
    let ct = ClassTable::try_from_ast(&ast).expect("table should build");
    let mut warnings = Vec::new();
    featherweight_java::typecheck::typecheck_ast(&ct, &ast, &mut warnings)
        .expect("library should type-check");
    ct
}

fn name(s: &str) -> ClassName {
    ClassName(s.to_owned())
}

#[test]
fn super_chain_reaches_object() {
    let ct = table();
    // C -> B -> A -> Object, three steps
    let mut chain = ct.super_type_chain(&name("C")).expect("C is defined");
    assert_eq!(chain.next().unwrap().0, "B");
    assert_eq!(chain.next().unwrap().0, "A");
    assert_eq!(chain.next().unwrap().0, "Object");
    assert!(chain.next().is_none());
    let chain = ct.super_type_chain(&name("C")).expect("C is defined");
    assert!(!chain.is_cyclic());
}

#[test]
fn subtyping_is_reflexive_and_object_is_top() {
    let ct = table();
    for c in ["A", "B", "C", "Object"] {
        assert_eq!(ct.is_subtype(&name(c), &name(c)), Some(true));
        assert_eq!(ct.is_subtype(&name(c), &name("Object")), Some(true));
    }
    assert_eq!(ct.is_subtype(&name("Missing"), &name("A")), None);
}

#[test]
fn subtyping_is_transitive() {
    let ct = table();
    assert_eq!(ct.is_subtype(&name("C"), &name("B")), Some(true));
    assert_eq!(ct.is_subtype(&name("B"), &name("A")), Some(true));
    assert_eq!(ct.is_subtype(&name("C"), &name("A")), Some(true));
    assert_eq!(ct.is_subtype(&name("A"), &name("C")), Some(false));
}

#[test]
fn fields_of_superclass_are_a_prefix() {
    let ct = table();
    let bf = ct.fields(&name("B")).expect("B is defined");
    let cf = ct.fields(&name("C")).expect("C is defined");
    assert!(bf.len() <= cf.len());
    for (i, (ty, nm)) in bf.iter().enumerate() {
        assert_eq!(ty.0, cf[i].0 .0);
        assert_eq!(nm.0, cf[i].1 .0);
    }
    assert_eq!(ct.fields(&name("Object")).expect("the root has no fields").len(), 0);
}

#[test]
fn override_keeps_the_signature() {
    let ct = table();
    let m = featherweight_java::ast::MethodName("id".to_owned());
    let at_b = ct.method_type(&m, &name("B")).expect("B declares id");
    let at_c = ct.method_type(&m, &name("C")).expect("C inherits or overrides id");
    assert!(at_b.eq_type(&at_c));
    assert_eq!(at_c.ret_type.0, "A");
    assert_eq!(at_c.arg_types.len(), 1);
}

#[test]
fn a_value_evaluates_to_itself() {
    let ct = table();
    for text in ["new A()", "new B(new A())", "new C(new B(new A()))"] {
        let v = parse_eval_input(text).expect("value should parse");
        assert!(v.is_value());
        let rendered = v.render();
        let result = eval_full(&ct, v, 0).expect("a value needs no steps");
        assert_eq!(result.render(), rendered);
    }
}

#[test]
fn typing_is_repeatable() {
    let ct = table();
    let term = parse_eval_input("new B(new A()).id(new C(new A()))").expect("term should parse");
    let mut w1 = Vec::new();
    let mut w2 = Vec::new();
    let first = typecheck_term(&ct, &Gamma::empty(), &term, &mut w1).expect("term types");
    let second = typecheck_term(&ct, &Gamma::empty(), &term, &mut w2).expect("term types");
    assert_eq!(first.0, second.0);
    assert_eq!(first.0, "A");
    assert_eq!(w1.len(), w2.len());
}

#[test]
fn subtypes_are_sorted_and_complete() {
    let ct = table();
    let subs = ct.subtypes(&name("A")).expect("A is defined");
    let names: Vec<&str> = subs.iter().map(|c| c.0.as_str()).collect();
    assert_eq!(names, ["A", "B", "C"]);
    let direct = ct.direct_subtypes(&name("Object")).expect("the root exists");
    let names: Vec<&str> = direct.iter().map(|c| c.0.as_str()).collect();
    assert_eq!(names, ["A"]);
}

#[test]
fn the_table_iterates_in_lexicographic_name_order() {
    // declared out of order, iterated in name order
    let lib = "class B extends Object { B() { super(); } } \
        class A extends Object { A() { super(); } } \
        class C extends A { C() { super(); } }";
    let ast = featherweight_java::parser::parse(lib).expect("library should parse");
    let ct = ClassTable::try_from_ast(&ast).expect("table should build");
    let names: Vec<&str> = ct.inner().iter().map(|c| c.name.0.as_str()).collect();
    assert_eq!(names, ["A", "B", "C"]);
}

#[test]
fn class_tree_renders_sorted_with_indentation() {
    let ct = table();
    let tree = featherweight_java::class_tree::ClassTree::new(&ct);
    assert_eq!(tree.render(), "Object\n  A\n    B\n      C\n");
}
