//! The concrete syntax: tokenizer behaviour and the shapes the term
//! parser builds, read back through the term printer.

use featherweight_java::parser::{parse, parse_eval_input, tokenize, Token};

fn shape(text: &str) -> String {
    parse_eval_input(text).expect("term should parse").render()
}

#[test]
fn keywords_are_whole_words() {
    // an identifier that merely starts with a reserved word stays one token
    let toks = tokenize("classy extends newer").expect("tokens");
    assert_eq!(toks.len(), 3);
    assert!(matches!(&toks[0], Token::Ident(s) if s == "classy"));
    assert!(matches!(&toks[1], Token::KwExtends));
    assert!(matches!(&toks[2], Token::Ident(s) if s == "newer"));
}

#[test]
fn whitespace_only_separates() {
    let a = tokenize("new A ( )").expect("tokens");
    let b = tokenize("new\tA(\n)").expect("tokens");
    assert_eq!(a.len(), b.len());
}

#[test]
fn dot_chains_are_left_associative() {
    assert_eq!(shape("a.b.c"), "a.b.c");
    assert_eq!(shape("a.m().f"), "a.m().f");
}

#[test]
fn a_cast_reaches_over_a_chain() {
    // the cast embraces the whole term to its right
    assert_eq!(shape("(A) new C().f"), "((A) new C().f)");
}

#[test]
fn parentheses_group_without_changing_the_term() {
    assert_eq!(shape("(a)"), "a");
    assert_eq!(shape("((a))"), "a");
    assert_eq!(shape("(a).f"), "a.f");
}

#[test]
fn a_parenthesised_cast_is_still_a_cast() {
    assert_eq!(shape("((A) new C())"), "((A) new C())");
}

#[test]
fn call_arguments_parse_in_order() {
    assert_eq!(shape("o.m(a, b.f, new C())"), "o.m(a,b.f,new C(),)");
}

#[test]
fn an_empty_program_is_a_valid_library() {
    let ast = parse("").expect("an empty library parses");
    assert_eq!(ast.class_definitions.len(), 0);
}

#[test]
fn a_class_keeps_its_declaration_shape() {
    let ast = parse(
        "class Pair extends Object { Object fst; Object snd; \
         Pair(Object fst, Object snd) { super(); this.fst = fst; this.snd = snd; } \
         Pair id() { return this; } }",
    )
    .expect("library should parse");
    assert_eq!(ast.class_definitions.len(), 1);
    let c = &ast.class_definitions[0];
    assert_eq!(c.name.0, "Pair");
    assert_eq!(c.super_type.0, "Object");
    assert_eq!(c.fields.len(), 2);
    assert_eq!(c.fields[0].1 .0, "fst");
    assert_eq!(c.constructor.args.len(), 2);
    assert_eq!(c.constructor.super_call.len(), 0);
    assert_eq!(c.constructor.assignments.len(), 2);
    assert_eq!(c.methods.len(), 1);
    assert_eq!(c.methods[0].method_name.0, "id");
}

#[test]
fn the_super_call_lists_inherited_fields() {
    let ast = parse(
        "class A extends Object { Object x; A(Object x) { super(); this.x = x; } } \
         class B extends A { Object y; B(Object x, Object y) { super(x); this.y = y; } }",
    )
    .expect("library should parse");
    let b = &ast.class_definitions[1];
    assert_eq!(b.constructor.super_call.len(), 1);
    assert_eq!(b.constructor.super_call[0].0, "x");
}
