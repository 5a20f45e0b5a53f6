//! The validated class table and the four lookup relations the calculus is
//! built on: `super`, `fields`, `mtype`, `mbody`, together with the subtyping
//! predicate.
//!
//! All chain-walking specification functions take an explicit fuel; a
//! well-formed table guarantees every superclass chain reaches `"Object"`
//! within `len` steps, so fuel `len` gives the functions their intended
//! meaning. The stability lemmas below show the fuel is immaterial once it
//! covers the chain.

use vstd::prelude::*;
use crate::ast::{
    object_name, this_name, view_arg_pairs, Ast, ClassDefinition, ClassName, Constructor,
    FieldName, MethodDefinition, MethodName, SpecClass, SpecMethod, SpecTerm, Term,
};
use crate::error::{ClassTableError, SpecClassTableError};

verus! {

// ------------------------------------------------------------------
// Lookup of a class by name
// ------------------------------------------------------------------

/// Whether some class in `cs` is named `n`.
pub open spec fn has_class(cs: Seq<SpecClass>, n: Seq<char>) -> bool {
    exists|i: int| 0 <= i < cs.len() && cs[i].name == n
}

/// The index of a class named `n` (unique once names are unique).
pub open spec fn class_index(cs: Seq<SpecClass>, n: Seq<char>) -> int {
    choose|i: int| 0 <= i < cs.len() && cs[i].name == n
}

/// The declaration of the class named `n`.
pub open spec fn class_def(cs: Seq<SpecClass>, n: Seq<char>) -> SpecClass {
    cs[class_index(cs, n)]
}

/// The declared superclass of the class named `n`.
pub open spec fn super_name(cs: Seq<SpecClass>, n: Seq<char>) -> Seq<char> {
    class_def(cs, n).super_name
}

/// Whether `n` names a class of the table or the implicit root `"Object"`.
pub open spec fn contains_name(cs: Seq<SpecClass>, n: Seq<char>) -> bool {
    n == object_name() || has_class(cs, n)
}

// ------------------------------------------------------------------
// Chain walking
// ------------------------------------------------------------------

/// Whether the superclass chain starting at `c` reaches `"Object"` within
/// `fuel` steps.
pub open spec fn reaches_object(cs: Seq<SpecClass>, c: Seq<char>, fuel: nat) -> bool
    decreases fuel,
{
    if c == object_name() {
        true
    } else if fuel == 0 {
        false
    } else {
        has_class(cs, c) && reaches_object(cs, super_name(cs, c), (fuel - 1) as nat)
    }
}

/// The number of chain steps from `c` up to `"Object"` (or up to the first
/// undefined name), capped by `fuel`.
pub open spec fn chain_rank(cs: Seq<SpecClass>, c: Seq<char>, fuel: nat) -> nat
    decreases fuel,
{
    if c == object_name() || !has_class(cs, c) || fuel == 0 {
        0
    } else {
        1 + chain_rank(cs, super_name(cs, c), (fuel - 1) as nat)
    }
}

/// The canonical rank: chain length measured with fuel `len`.
pub open spec fn rank_of(cs: Seq<SpecClass>, c: Seq<char>) -> nat {
    chain_rank(cs, c, cs.len() as nat)
}

/// `C <: D` decided by walking the chain of `C` for at most `fuel` steps.
pub open spec fn subtype_fuel(cs: Seq<SpecClass>, c: Seq<char>, d: Seq<char>, fuel: nat) -> bool
    decreases fuel,
{
    c == d || (fuel > 0 && has_class(cs, c) && subtype_fuel(
        cs,
        super_name(cs, c),
        d,
        (fuel - 1) as nat,
    ))
}

/// The subtype-or-equal relation `C <: D` of the calculus.
pub open spec fn subtype(cs: Seq<SpecClass>, c: Seq<char>, d: Seq<char>) -> bool {
    subtype_fuel(cs, c, d, cs.len() as nat)
}

/// All fields of `c`, inherited ones first, walking at most `fuel` levels.
pub open spec fn fields_fuel(cs: Seq<SpecClass>, c: Seq<char>, fuel: nat) -> Seq<
    (Seq<char>, Seq<char>),
>
    decreases fuel,
{
    if c == object_name() || !has_class(cs, c) || fuel == 0 {
        Seq::empty()
    } else {
        fields_fuel(cs, super_name(cs, c), (fuel - 1) as nat) + class_def(cs, c).fields
    }
}

/// `fields(C)`: every field of `C` including inherited ones, inherited first.
pub open spec fn fields_of(cs: Seq<SpecClass>, c: Seq<char>) -> Seq<(Seq<char>, Seq<char>)> {
    fields_fuel(cs, c, cs.len() as nat)
}

// ------------------------------------------------------------------
// Method lookup
// ------------------------------------------------------------------

/// Whether class `cl` itself declares a method named `m`.
pub open spec fn declares_method(cl: SpecClass, m: Seq<char>) -> bool {
    exists|i: int| 0 <= i < cl.methods.len() && cl.methods[i].method_name == m
}

/// The declaration of `m` in `cl` (unique once method names are unique).
pub open spec fn method_in_class(cl: SpecClass, m: Seq<char>) -> SpecMethod {
    cl.methods[choose|i: int| 0 <= i < cl.methods.len() && cl.methods[i].method_name == m]
}

/// The model of a method signature.
pub struct SpecMethodType {
    pub arg_types: Seq<Seq<char>>,
    pub ret_type: Seq<char>,
}

/// The model of a method implementation.
pub struct SpecMethodBody {
    pub args: Seq<Seq<char>>,
    pub return_term: SpecTerm,
}

/// The signature of a declared method.
pub open spec fn signature_of(m: SpecMethod) -> SpecMethodType {
    SpecMethodType {
        arg_types: m.args.map_values(|p: (Seq<char>, Seq<char>)| p.0),
        ret_type: m.return_type,
    }
}

/// The implementation of a declared method.
pub open spec fn implementation_of(m: SpecMethod) -> SpecMethodBody {
    SpecMethodBody {
        args: m.args.map_values(|p: (Seq<char>, Seq<char>)| p.1),
        return_term: m.return_term,
    }
}

/// `mtype(m, C)` walking at most `fuel` levels.
pub open spec fn mtype_fuel(cs: Seq<SpecClass>, m: Seq<char>, c: Seq<char>, fuel: nat) -> Option<
    SpecMethodType,
>
    decreases fuel,
{
    if !has_class(cs, c) {
        None
    } else if declares_method(class_def(cs, c), m) {
        Some(signature_of(method_in_class(class_def(cs, c), m)))
    } else if fuel == 0 {
        None
    } else {
        mtype_fuel(cs, m, super_name(cs, c), (fuel - 1) as nat)
    }
}

/// `mtype(m, C)`: the signature of the first declaration of `m` on the chain.
pub open spec fn mtype_of(cs: Seq<SpecClass>, m: Seq<char>, c: Seq<char>) -> Option<
    SpecMethodType,
> {
    mtype_fuel(cs, m, c, cs.len() as nat)
}

/// `mbody(m, C)` walking at most `fuel` levels.
pub open spec fn mbody_fuel(cs: Seq<SpecClass>, m: Seq<char>, c: Seq<char>, fuel: nat) -> Option<
    SpecMethodBody,
>
    decreases fuel,
{
    if !has_class(cs, c) {
        None
    } else if declares_method(class_def(cs, c), m) {
        Some(implementation_of(method_in_class(class_def(cs, c), m)))
    } else if fuel == 0 {
        None
    } else {
        mbody_fuel(cs, m, super_name(cs, c), (fuel - 1) as nat)
    }
}

/// `mbody(m, C)`: argument names and body of the declaration `mtype` uses.
pub open spec fn mbody_of(cs: Seq<SpecClass>, m: Seq<char>, c: Seq<char>) -> Option<
    SpecMethodBody,
> {
    mbody_fuel(cs, m, c, cs.len() as nat)
}

// ------------------------------------------------------------------
// Well-formedness of a table
// ------------------------------------------------------------------

/// No class of the table is named `"Object"`.
pub open spec fn no_object_class(cs: Seq<SpecClass>) -> bool {
    forall|i: int| 0 <= i < cs.len() ==> cs[i].name != object_name()
}

/// Class names are pairwise distinct.
pub open spec fn names_unique(cs: Seq<SpecClass>) -> bool {
    forall|i: int, j: int| 0 <= i < j < cs.len() ==> cs[i].name != cs[j].name
}

/// Every declared superclass is `"Object"` or a class of the table.
pub open spec fn supers_defined(cs: Seq<SpecClass>) -> bool {
    forall|i: int| 0 <= i < cs.len() ==> contains_name(cs, cs[i].super_name)
}

/// Every superclass chain reaches `"Object"` within `len` steps.
pub open spec fn chains_acyclic(cs: Seq<SpecClass>) -> bool {
    forall|i: int| 0 <= i < cs.len() ==> reaches_object(cs, cs[i].name, cs.len() as nat)
}

/// Declared field names of a class are pairwise distinct.
pub open spec fn fields_unique(cl: SpecClass) -> bool {
    forall|i: int, j: int| 0 <= i < j < cl.fields.len() ==> cl.fields[i].1 != cl.fields[j].1
}

/// Method names of a class are pairwise distinct.
pub open spec fn methods_unique(cl: SpecClass) -> bool {
    forall|i: int, j: int|
        0 <= i < j < cl.methods.len() ==> cl.methods[i].method_name != cl.methods[j].method_name
}

/// No declared field is named `this`.
pub open spec fn no_field_named_this(cl: SpecClass) -> bool {
    forall|i: int| 0 <= i < cl.fields.len() ==> cl.fields[i].1 != this_name()
}

/// No argument of the given constructor is named `this`.
pub open spec fn ctor_args_not_this(ctor: crate::ast::SpecConstructor) -> bool {
    forall|i: int| 0 <= i < ctor.args.len() ==> ctor.args[i].1 != this_name()
}

/// No constructor argument of the class is named `this`.
pub open spec fn no_ctor_arg_named_this(cl: SpecClass) -> bool {
    ctor_args_not_this(cl.ctor)
}

/// Argument names of a method are pairwise distinct.
pub open spec fn method_args_unique(m: SpecMethod) -> bool {
    forall|i: int, j: int| 0 <= i < j < m.args.len() ==> m.args[i].1 != m.args[j].1
}

/// No argument of a method is named `this`.
pub open spec fn no_method_arg_named_this(m: SpecMethod) -> bool {
    forall|i: int| 0 <= i < m.args.len() ==> m.args[i].1 != this_name()
}

/// Whether the constructor assigns the field named `f`.
pub open spec fn assigns_field(ctor: crate::ast::SpecConstructor, f: Seq<char>) -> bool {
    exists|k: int| 0 <= k < ctor.assignments.len() && ctor.assignments[k].0 == f
}

/// Whether the class declares a field named `f`.
pub open spec fn declares_field(cl: SpecClass, f: Seq<char>) -> bool {
    exists|i: int| 0 <= i < cl.fields.len() && cl.fields[i].1 == f
}

/// The constructor has the canonical shape: every assignment is
/// `this.f = f`, no field is assigned twice, and the assigned fields are
/// exactly the declared fields. The names handed to `super(...)` are not
/// held against the inherited fields: a constructor may list them loosely,
/// as long as its own assignments are canonical.
pub open spec fn ctor_init_ok(cl: SpecClass) -> bool {
    &&& forall|k: int|
        0 <= k < cl.ctor.assignments.len() ==> cl.ctor.assignments[k].0
            == cl.ctor.assignments[k].1
    &&& forall|k: int, l: int|
        0 <= k < l < cl.ctor.assignments.len() ==> cl.ctor.assignments[k].0
            != cl.ctor.assignments[l].0
    &&& forall|k: int|
        0 <= k < cl.ctor.assignments.len() ==> #[trigger] declares_field(
            cl,
            cl.ctor.assignments[k].0,
        )
    &&& forall|i: int|
        0 <= i < cl.fields.len() ==> #[trigger] assigns_field(cl.ctor, cl.fields[i].1)
}

/// The per-class shape conditions of a valid table.
pub open spec fn class_shape_ok(cl: SpecClass) -> bool {
    &&& cl.ctor.name == cl.name
    &&& ctor_init_ok(cl)
    &&& fields_unique(cl)
    &&& methods_unique(cl)
    &&& no_field_named_this(cl)
    &&& no_ctor_arg_named_this(cl)
    &&& forall|i: int|
        0 <= i < cl.methods.len() ==> method_args_unique(cl.methods[i]) && no_method_arg_named_this(
            cl.methods[i],
        )
}

/// A well-formed class table: the global invariants that hold after a
/// successful `ClassTable::try_from_ast`.
pub open spec fn table_wf(cs: Seq<SpecClass>) -> bool {
    &&& no_object_class(cs)
    &&& names_unique(cs)
    &&& supers_defined(cs)
    &&& chains_acyclic(cs)
    &&& forall|i: int| 0 <= i < cs.len() ==> class_shape_ok(cs[i])
}

// ------------------------------------------------------------------
// Stability of the fueled functions
// ------------------------------------------------------------------

/// Reaching `"Object"` is monotone in the fuel.
pub proof fn lemma_reaches_mono(cs: Seq<SpecClass>, c: Seq<char>, f1: nat, f2: nat)
    requires
        reaches_object(cs, c, f1),
        f1 <= f2,
    ensures
        reaches_object(cs, c, f2),
    decreases f1,
{
    if c != object_name() {
        lemma_reaches_mono(cs, super_name(cs, c), (f1 - 1) as nat, (f2 - 1) as nat);
    }
}

/// Once the chain reaches `"Object"`, the rank no longer depends on the fuel.
pub proof fn lemma_rank_stable(cs: Seq<SpecClass>, c: Seq<char>, f1: nat, f2: nat)
    requires
        reaches_object(cs, c, f1),
        f1 <= f2,
    ensures
        chain_rank(cs, c, f1) == chain_rank(cs, c, f2),
    decreases f1,
{
    if c != object_name() {
        lemma_rank_stable(cs, super_name(cs, c), (f1 - 1) as nat, (f2 - 1) as nat);
    }
}

/// Once the chain reaches `"Object"`, subtyping no longer depends on the fuel.
pub proof fn lemma_subtype_stable(cs: Seq<SpecClass>, c: Seq<char>, d: Seq<char>, f1: nat, f2: nat)
    requires
        no_object_class(cs),
        reaches_object(cs, c, f1),
        f1 <= f2,
    ensures
        subtype_fuel(cs, c, d, f1) == subtype_fuel(cs, c, d, f2),
    decreases f1,
{
    if c != d && c != object_name() {
        lemma_subtype_stable(cs, super_name(cs, c), d, (f1 - 1) as nat, (f2 - 1) as nat);
    }
}

/// Once the chain reaches `"Object"`, `fields` no longer depends on the fuel.
pub proof fn lemma_fields_stable(cs: Seq<SpecClass>, c: Seq<char>, f1: nat, f2: nat)
    requires
        reaches_object(cs, c, f1),
        f1 <= f2,
    ensures
        fields_fuel(cs, c, f1) == fields_fuel(cs, c, f2),
    decreases f1,
{
    if c != object_name() {
        lemma_fields_stable(cs, super_name(cs, c), (f1 - 1) as nat, (f2 - 1) as nat);
    }
}

/// Once the chain reaches `"Object"`, `mtype` no longer depends on the fuel.
pub proof fn lemma_mtype_stable(cs: Seq<SpecClass>, m: Seq<char>, c: Seq<char>, f1: nat, f2: nat)
    requires
        no_object_class(cs),
        reaches_object(cs, c, f1),
        f1 <= f2,
    ensures
        mtype_fuel(cs, m, c, f1) == mtype_fuel(cs, m, c, f2),
    decreases f1,
{
    if c != object_name() && has_class(cs, c) && !declares_method(class_def(cs, c), m) {
        lemma_mtype_stable(cs, m, super_name(cs, c), (f1 - 1) as nat, (f2 - 1) as nat);
    }
}

/// Once the chain reaches `"Object"`, `mbody` no longer depends on the fuel.
pub proof fn lemma_mbody_stable(cs: Seq<SpecClass>, m: Seq<char>, c: Seq<char>, f1: nat, f2: nat)
    requires
        no_object_class(cs),
        reaches_object(cs, c, f1),
        f1 <= f2,
    ensures
        mbody_fuel(cs, m, c, f1) == mbody_fuel(cs, m, c, f2),
    decreases f1,
{
    if c != object_name() && has_class(cs, c) && !declares_method(class_def(cs, c), m) {
        lemma_mbody_stable(cs, m, super_name(cs, c), (f1 - 1) as nat, (f2 - 1) as nat);
    }
}

// ------------------------------------------------------------------
// Unfolding laws for well-formed tables
// ------------------------------------------------------------------

/// On a well-formed table the rank strictly decreases along the chain.
pub proof fn lemma_rank_decreases(cs: Seq<SpecClass>, c: Seq<char>)
    requires
        table_wf(cs),
        has_class(cs, c),
    ensures
        reaches_object(cs, super_name(cs, c), cs.len() as nat),
        rank_of(cs, super_name(cs, c)) < rank_of(cs, c),
{
    let i = choose|i: int| 0 <= i < cs.len() && cs[i].name == c;
    assert(reaches_object(cs, c, cs.len() as nat));
    assert(c != object_name());
    let f = cs.len() as nat;
    assert(reaches_object(cs, super_name(cs, c), (f - 1) as nat));
    lemma_reaches_mono(cs, super_name(cs, c), (f - 1) as nat, f);
    lemma_rank_stable(cs, super_name(cs, c), (f - 1) as nat, f);
}

/// `C <: C` for every name, and every defined class is `<: "Object"`.
pub proof fn lemma_subtype_reflexive(cs: Seq<SpecClass>, c: Seq<char>)
    ensures
        subtype(cs, c, c),
{
}

/// Helper: along a chain that reaches `"Object"`, `C <: "Object"`.
proof fn lemma_subtype_object_fuel(cs: Seq<SpecClass>, c: Seq<char>, fuel: nat)
    requires
        reaches_object(cs, c, fuel),
    ensures
        subtype_fuel(cs, c, object_name(), fuel),
    decreases fuel,
{
    if c != object_name() {
        lemma_subtype_object_fuel(cs, super_name(cs, c), (fuel - 1) as nat);
    }
}

/// Every name of a well-formed table is a subtype of `"Object"`.
pub proof fn lemma_subtype_object(cs: Seq<SpecClass>, c: Seq<char>)
    requires
        table_wf(cs),
        contains_name(cs, c),
    ensures
        subtype(cs, c, object_name()),
{
    if c != object_name() {
        assert(reaches_object(cs, c, cs.len() as nat));
        lemma_subtype_object_fuel(cs, c, cs.len() as nat);
    }
}

/// On a well-formed table, subtyping unfolds one chain step at a time.
pub proof fn lemma_subtype_unfold(cs: Seq<SpecClass>, c: Seq<char>, d: Seq<char>)
    requires
        table_wf(cs),
        has_class(cs, c),
    ensures
        subtype(cs, c, d) == (c == d || subtype(cs, super_name(cs, c), d)),
{
    let f = cs.len() as nat;
    assert(reaches_object(cs, c, f));
    assert(f >= 1);
    lemma_subtype_stable(cs, super_name(cs, c), d, (f - 1) as nat, f);
}

/// Helper for transitivity, by induction on the fuel of the left chain.
proof fn lemma_subtype_trans_fuel(
    cs: Seq<SpecClass>,
    c: Seq<char>,
    d: Seq<char>,
    e: Seq<char>,
    fuel: nat,
)
    requires
        table_wf(cs),
        subtype_fuel(cs, c, d, fuel),
        subtype(cs, d, e),
    ensures
        subtype(cs, c, e),
    decreases fuel,
{
    if c == d {
    } else {
        lemma_subtype_trans_fuel(cs, super_name(cs, c), d, e, (fuel - 1) as nat);
        if c != e {
            lemma_subtype_unfold(cs, c, e);
        }
    }
}

/// Subtyping is transitive on a well-formed table.
pub proof fn lemma_subtype_transitive(cs: Seq<SpecClass>, c: Seq<char>, d: Seq<char>, e: Seq<char>)
    requires
        table_wf(cs),
        subtype(cs, c, d),
        subtype(cs, d, e),
    ensures
        subtype(cs, c, e),
{
    lemma_subtype_trans_fuel(cs, c, d, e, cs.len() as nat);
}

/// On a well-formed table, `fields` unfolds into the superclass's fields
/// followed by the declared ones; in particular `fields(super(C))` is a
/// prefix of `fields(C)`.
pub proof fn lemma_fields_unfold(cs: Seq<SpecClass>, c: Seq<char>)
    requires
        table_wf(cs),
        has_class(cs, c),
    ensures
        fields_of(cs, c) == fields_of(cs, super_name(cs, c)) + class_def(cs, c).fields,
        fields_of(cs, super_name(cs, c)) == fields_of(cs, c).subrange(
            0,
            fields_of(cs, super_name(cs, c)).len() as int,
        ),
{
    let f = cs.len() as nat;
    assert(reaches_object(cs, c, f));
    assert(c != object_name());
    lemma_fields_stable(cs, super_name(cs, c), (f - 1) as nat, f);
    assert(fields_of(cs, c) == fields_of(cs, super_name(cs, c)) + class_def(cs, c).fields);
    assert(fields_of(cs, super_name(cs, c)) =~= fields_of(cs, c).subrange(
        0,
        fields_of(cs, super_name(cs, c)).len() as int,
    ));
}

/// On a well-formed table, `mtype` of a class that does not override `m`
/// equals `mtype` at its superclass; a class that declares `m` gives the
/// declared signature.
pub proof fn lemma_mtype_unfold(cs: Seq<SpecClass>, m: Seq<char>, c: Seq<char>)
    requires
        table_wf(cs),
        has_class(cs, c),
    ensures
        !declares_method(class_def(cs, c), m) ==> mtype_of(cs, m, c) == mtype_of(
            cs,
            m,
            super_name(cs, c),
        ),
        declares_method(class_def(cs, c), m) ==> mtype_of(cs, m, c) == Some(
            signature_of(method_in_class(class_def(cs, c), m)),
        ),
{
    let f = cs.len() as nat;
    assert(reaches_object(cs, c, f));
    assert(c != object_name());
    if !declares_method(class_def(cs, c), m) {
        lemma_mtype_stable(cs, m, super_name(cs, c), (f - 1) as nat, f);
    }
}

/// The first class, in declaration order, named `"Object"`. This check
/// covers the whole program before any other runs.
pub open spec fn object_check(cs: Seq<SpecClass>, i: int) -> Option<SpecClassTableError>
    decreases cs.len() - i,
{
    if i < 0 || i >= cs.len() {
        None
    } else if cs[i].name == object_name() {
        Some(SpecClassTableError::ClassNamedObject)
    } else {
        object_check(cs, i + 1)
    }
}

/// The first class, in declaration order, that repeats an earlier name.
pub open spec fn dup_check(cs: Seq<SpecClass>, i: int) -> Option<SpecClassTableError>
    decreases cs.len() - i,
{
    if i < 0 || i >= cs.len() {
        None
    } else if exists|j: int| 0 <= j < i && cs[j].name == cs[i].name {
        Some(SpecClassTableError::ClassDefinedTwice(cs[i].name))
    } else {
        dup_check(cs, i + 1)
    }
}

/// The first class, scanning the given order, whose declared superclass is
/// neither `"Object"` nor a class of the table.
pub open spec fn super_check(cs: Seq<SpecClass>, i: int) -> Option<SpecClassTableError>
    decreases cs.len() - i,
{
    if i < 0 || i >= cs.len() {
        None
    } else if !contains_name(cs, cs[i].super_name) {
        Some(SpecClassTableError::SupertypeUndefined(cs[i].super_name, cs[i].name))
    } else {
        super_check(cs, i + 1)
    }
}

/// The first violation among the methods of one class.
pub open spec fn method_shape_check(cl: SpecClass, j: int) -> Option<SpecClassTableError>
    decreases cl.methods.len() - j,
{
    if j < 0 || j >= cl.methods.len() {
        None
    } else if !method_args_unique(cl.methods[j]) {
        Some(
            SpecClassTableError::NonUniqueMethodArgumentNames(cl.methods[j].method_name, cl.name),
        )
    } else if !no_method_arg_named_this(cl.methods[j]) {
        Some(SpecClassTableError::MethodArgumentNamedThis(cl.methods[j].method_name, cl.name))
    } else {
        method_shape_check(cl, j + 1)
    }
}

/// The first violation of the per-class conditions on one class.
pub open spec fn class_check(cs: Seq<SpecClass>, cl: SpecClass) -> Option<SpecClassTableError> {
    if !reaches_object(cs, cl.name, cs.len() as nat) {
        Some(SpecClassTableError::CyclicSupertype(cl.name))
    } else if cl.ctor.name != cl.name {
        Some(SpecClassTableError::IncorrectConstructorName(cl.name, cl.ctor.name))
    } else if !ctor_init_ok(cl) {
        Some(SpecClassTableError::IncorrectConstructorInit(cl.name))
    } else if !fields_unique(cl) {
        Some(SpecClassTableError::NonUniqueFields(cl.name))
    } else if !methods_unique(cl) {
        Some(SpecClassTableError::NonUniqueMethodNames(cl.name))
    } else if !no_field_named_this(cl) {
        Some(SpecClassTableError::FieldNamedThis(cl.name))
    } else if !no_ctor_arg_named_this(cl) {
        Some(SpecClassTableError::ConstructorArgumentNamedThis(cl.name))
    } else {
        method_shape_check(cl, 0)
    }
}

/// The first violation of the per-class conditions, scanning classes in
/// the given order.
pub open spec fn shape_check(cs: Seq<SpecClass>, i: int) -> Option<SpecClassTableError>
    decreases cs.len() - i,
{
    if i < 0 || i >= cs.len() {
        None
    } else if class_check(cs, cs[i]) is Some {
        class_check(cs, cs[i])
    } else {
        shape_check(cs, i + 1)
    }
}

/// The first violation `ClassTable::try_from_ast` reports on a program, or
/// `None` when the program forms a valid table.
pub open spec fn build_check(cs: Seq<SpecClass>) -> Option<SpecClassTableError> {
    if object_check(cs, 0) is Some {
        object_check(cs, 0)
    } else if dup_check(cs, 0) is Some {
        dup_check(cs, 0)
    } else if super_check(sort_by_name(cs), 0) is Some {
        super_check(sort_by_name(cs), 0)
    } else {
        shape_check(sort_by_name(cs), 0)
    }
}

/// The `mbody` analogue of the `mtype` unfolding law.
pub proof fn lemma_mbody_unfold(cs: Seq<SpecClass>, m: Seq<char>, c: Seq<char>)
    requires
        table_wf(cs),
        has_class(cs, c),
    ensures
        !declares_method(class_def(cs, c), m) ==> mbody_of(cs, m, c) == mbody_of(
            cs,
            m,
            super_name(cs, c),
        ),
        declares_method(class_def(cs, c), m) ==> mbody_of(cs, m, c) == Some(
            implementation_of(method_in_class(class_def(cs, c), m)),
        ),
{
    let f = cs.len() as nat;
    assert(reaches_object(cs, c, f));
    assert(c != object_name());
    if !declares_method(class_def(cs, c), m) {
        lemma_mbody_stable(cs, m, super_name(cs, c), (f - 1) as nat, f);
    }
}

// ------------------------------------------------------------------
// Executable shape checks
// ------------------------------------------------------------------

impl ClassDefinition {
    /// Whether the constructor carries the class's own name.
    pub fn has_correct_ctor_name(&self) -> (r: bool)
        ensures
            r == (self@.ctor.name == self@.name),
    {
        self.name.eq_name(&self.constructor.name)
    }

    /// Whether the constructor body has the canonical shape (`this.f = f`
    /// once for exactly every declared field).
    pub fn has_correct_ctor_init(&self) -> (r: bool)
        ensures
            r == ctor_init_ok(self@),
    {
        broadcast use crate::ast::group_ast_views;

        let n = self.constructor.assignments.len();
        let nf = self.fields.len();
        let mut k: usize = 0;
        while k < n
            invariant
                k <= n,
                n == self.constructor.assignments@.len(),
                forall|x: int|
                    0 <= x < k ==> self@.ctor.assignments[x].0 == self@.ctor.assignments[x].1,
            decreases n - k,
        {
            if !self.constructor.assignments[k].0.eq_name(&self.constructor.assignments[k].1) {
                proof {
                    assert(self@.ctor.assignments[k as int].0 != self@.ctor.assignments[k as int].1);
                }
                return false;
            }
            k = k + 1;
        }
        let mut k: usize = 0;
        while k < n
            invariant
                k <= n,
                n == self.constructor.assignments@.len(),
                forall|x: int, y: int|
                    0 <= x < y < n && x < k ==> self@.ctor.assignments[x].0
                        != self@.ctor.assignments[y].0,
            decreases n - k,
        {
            let mut l: usize = k + 1;
            while l < n
                invariant
                    k < l <= n,
                    n == self.constructor.assignments@.len(),
                    forall|y: int|
                        k < y < l ==> self@.ctor.assignments[k as int].0
                            != self@.ctor.assignments[y].0,
                decreases n - l,
            {
                if self.constructor.assignments[k].0.eq_name(&self.constructor.assignments[l].0) {
                    proof {
                        assert(self@.ctor.assignments[k as int].0 == self@.ctor.assignments[l as int].0);
                    }
                    return false;
                }
                l = l + 1;
            }
            k = k + 1;
        }
        let mut k: usize = 0;
        while k < n
            invariant
                k <= n,
                n == self.constructor.assignments@.len(),
                nf == self.fields@.len(),
                forall|x: int|
                    0 <= x < k ==> #[trigger] declares_field(self@, self@.ctor.assignments[x].0),
            decreases n - k,
        {
            let mut found = false;
            let mut i: usize = 0;
            while i < nf
                invariant
                    i <= nf,
                    k < n,
                    n == self.constructor.assignments@.len(),
                    nf == self.fields@.len(),
                    found ==> declares_field(self@, self@.ctor.assignments[k as int].0),
                    !found ==> forall|x: int|
                        0 <= x < i ==> self@.fields[x].1 != self@.ctor.assignments[k as int].0,
                decreases nf - i,
            {
                if self.fields[i].1.eq_name(&self.constructor.assignments[k].0) {
                    proof {
                        assert(self@.fields[i as int].1 == self@.ctor.assignments[k as int].0);
                        assert(declares_field(self@, self@.ctor.assignments[k as int].0));
                    }
                    found = true;
                }
                i = i + 1;
            }
            if !found {
                proof {
                    assert forall|x: int|
                        0 <= x < self@.fields.len() implies self@.fields[x].1
                        != self@.ctor.assignments[k as int].0 by {
                        assert(self@.fields.len() == nf);
                    }
                    assert(!declares_field(self@, self@.ctor.assignments[k as int].0));
                    assert(!ctor_init_ok(self@));
                }
                return false;
            }
            k = k + 1;
        }
        let mut i: usize = 0;
        while i < nf
            invariant
                i <= nf,
                n == self.constructor.assignments@.len(),
                nf == self.fields@.len(),
                forall|x: int|
                    0 <= x < i ==> #[trigger] assigns_field(self@.ctor, self@.fields[x].1),
            decreases nf - i,
        {
            let mut found = false;
            let mut k: usize = 0;
            while k < n
                invariant
                    k <= n,
                    i < nf,
                    n == self.constructor.assignments@.len(),
                    nf == self.fields@.len(),
                    found ==> assigns_field(self@.ctor, self@.fields[i as int].1),
                    !found ==> forall|j: int|
                        0 <= j < k ==> self@.ctor.assignments[j].0 != self@.fields[i as int].1,
                decreases n - k,
            {
                if self.constructor.assignments[k].0.eq_name(&self.fields[i].1) {
                    proof {
                        assert(self@.ctor.assignments[k as int].0 == self@.fields[i as int].1);
                        assert(assigns_field(self@.ctor, self@.fields[i as int].1));
                    }
                    found = true;
                }
                k = k + 1;
            }
            if !found {
                proof {
                    assert forall|j: int|
                        0 <= j < self@.ctor.assignments.len() implies self@.ctor.assignments[j].0
                        != self@.fields[i as int].1 by {
                        assert(self@.ctor.assignments.len() == n);
                    }
                    assert(!assigns_field(self@.ctor, self@.fields[i as int].1));
                    assert(!ctor_init_ok(self@));
                }
                return false;
            }
            i = i + 1;
        }
        proof {
            assert(self@.ctor.assignments.len() == n);
            assert(self@.fields.len() == nf);
            assert(ctor_init_ok(self@));
        }
        true
    }

    /// Whether the declared field names are pairwise distinct.
    pub fn has_unique_field_names(&self) -> (r: bool)
        ensures
            r == fields_unique(self@),
    {
        broadcast use crate::ast::group_ast_views;

        let n = self.fields.len();
        let mut i: usize = 0;
        while i < n
            invariant
                i <= n,
                n == self.fields@.len(),
                forall|x: int, y: int|
                    0 <= x < y < n && x < i ==> self@.fields[x].1 != self@.fields[y].1,
            decreases n - i,
        {
            let mut j: usize = i + 1;
            while j < n
                invariant
                    i < j <= n,
                    n == self.fields@.len(),
                    forall|y: int| i < y < j ==> self@.fields[i as int].1 != self@.fields[y].1,
                decreases n - j,
            {
                if self.fields[i].1.eq_name(&self.fields[j].1) {
                    proof {
                        assert(self@.fields[i as int].1 == self@.fields[j as int].1);
                    }
                    return false;
                }
                j = j + 1;
            }
            i = i + 1;
        }
        true
    }

    /// Whether the method names are pairwise distinct.
    pub fn has_unique_method_names(&self) -> (r: bool)
        ensures
            r == methods_unique(self@),
    {
        broadcast use crate::ast::group_ast_views;

        let n = self.methods.len();
        let mut i: usize = 0;
        while i < n
            invariant
                i <= n,
                n == self.methods@.len(),
                forall|x: int, y: int|
                    0 <= x < y < n && x < i ==> self@.methods[x].method_name
                        != self@.methods[y].method_name,
            decreases n - i,
        {
            let mut j: usize = i + 1;
            while j < n
                invariant
                    i < j <= n,
                    n == self.methods@.len(),
                    forall|y: int|
                        i < y < j ==> self@.methods[i as int].method_name
                            != self@.methods[y].method_name,
                decreases n - j,
            {
                if self.methods[i].method_name.eq_name(&self.methods[j].method_name) {
                    proof {
                        assert(self@.methods[i as int].method_name == self@.methods[j as int].method_name);
                    }
                    return false;
                }
                j = j + 1;
            }
            i = i + 1;
        }
        true
    }

    /// Whether no declared field is named `this`.
    pub fn has_only_valid_field_names(&self) -> (r: bool)
        ensures
            r == no_field_named_this(self@),
    {
        broadcast use crate::ast::group_ast_views;

        let n = self.fields.len();
        let mut i: usize = 0;
        while i < n
            invariant
                i <= n,
                n == self.fields@.len(),
                forall|x: int| 0 <= x < i ==> self@.fields[x].1 != this_name(),
            decreases n - i,
        {
            if self.fields[i].1.is_this() {
                proof {
                    assert(self@.fields[i as int].1 == this_name());
                }
                return false;
            }
            i = i + 1;
        }
        true
    }
}

impl MethodDefinition {
    /// Whether the argument names are pairwise distinct.
    pub fn has_unique_argument_names(&self) -> (r: bool)
        ensures
            r == method_args_unique(self@),
    {
        broadcast use crate::ast::group_ast_views;

        let n = self.args.len();
        let mut i: usize = 0;
        while i < n
            invariant
                i <= n,
                n == self.args@.len(),
                forall|x: int, y: int|
                    0 <= x < y < n && x < i ==> self@.args[x].1 != self@.args[y].1,
            decreases n - i,
        {
            let mut j: usize = i + 1;
            while j < n
                invariant
                    i < j <= n,
                    n == self.args@.len(),
                    forall|y: int| i < y < j ==> self@.args[i as int].1 != self@.args[y].1,
                decreases n - j,
            {
                if self.args[i].1.eq_name(&self.args[j].1) {
                    proof {
                        assert(self@.args[i as int].1 == self@.args[j as int].1);
                    }
                    return false;
                }
                j = j + 1;
            }
            i = i + 1;
        }
        true
    }

    /// Whether no argument is named `this`.
    pub fn has_only_valid_argument_names(&self) -> (r: bool)
        ensures
            r == no_method_arg_named_this(self@),
    {
        broadcast use crate::ast::group_ast_views;

        let n = self.args.len();
        let mut i: usize = 0;
        while i < n
            invariant
                i <= n,
                n == self.args@.len(),
                forall|x: int| 0 <= x < i ==> self@.args[x].1 != this_name(),
            decreases n - i,
        {
            if self.args[i].1.is_this() {
                proof {
                    assert(self@.args[i as int].1 == this_name());
                }
                return false;
            }
            i = i + 1;
        }
        true
    }
}

impl Constructor {
    /// Whether no constructor argument is named `this`.
    pub fn has_only_valid_argument_names(&self) -> (r: bool)
        ensures
            r == ctor_args_not_this(self@),
    {
        broadcast use crate::ast::group_ast_views;

        let n = self.args.len();
        let mut i: usize = 0;
        while i < n
            invariant
                i <= n,
                n == self.args@.len(),
                forall|x: int| 0 <= x < i ==> self@.args[x].1 != this_name(),
            decreases n - i,
        {
            if self.args[i].1.is_this() {
                proof {
                    assert(self@.args[i as int].1 == this_name());
                }
                return false;
            }
            i = i + 1;
        }
        true
    }
}

// ------------------------------------------------------------------
// The table
// ------------------------------------------------------------------

/// A validated index from class name to class declaration; the classes are
/// kept in lexicographic name order.
#[derive(Debug)]
pub struct ClassTable {
    pub classes: Vec<ClassDefinition>,
}

impl View for ClassTable {
    type V = Seq<SpecClass>;

    open spec fn view(&self) -> Seq<SpecClass> {
        crate::ast::view_classes(self.classes@)
    }
}

/// With unique names, the chosen index of a class is the index it stands at.
pub proof fn lemma_class_index_unique(cs: Seq<SpecClass>, j: int)
    requires
        names_unique(cs),
        0 <= j < cs.len(),
    ensures
        has_class(cs, cs[j].name),
        class_index(cs, cs[j].name) == j,
        class_def(cs, cs[j].name) == cs[j],
{
    let n = cs[j].name;
    assert(has_class(cs, n));
    let i = class_index(cs, n);
    assert(0 <= i < cs.len() && cs[i].name == n);
}

/// The first class (if any) of `classes` that carries `name`.
fn find_class_in(classes: &Vec<ClassDefinition>, name: &ClassName) -> (r: Option<usize>)
    ensures
        match r {
            Some(j) => 0 <= j < classes@.len() && crate::ast::view_classes(classes@)[j as int].name
                == name@,
            None => !has_class(crate::ast::view_classes(classes@), name@),
        },
{
    broadcast use crate::ast::group_ast_views;

    let n = classes.len();
    let mut i: usize = 0;
    while i < n
        invariant
            i <= n,
            n == classes@.len(),
            forall|x: int|
                0 <= x < i ==> crate::ast::view_classes(classes@)[x].name != name@,
        decreases n - i,
    {
        if classes[i].name.eq_name(name) {
            proof {
                assert(crate::ast::view_classes(classes@)[i as int].name == name@);
            }
            return Some(i);
        }
        i = i + 1;
    }
    None
}

/// Whether the superclass chain from `start` fails to reach `"Object"`
/// within `len` steps, that is, runs through a cycle.
fn chain_is_cyclic(classes: &Vec<ClassDefinition>, start: &ClassName) -> (r: bool)
    requires
        names_unique(crate::ast::view_classes(classes@)),
        supers_defined(crate::ast::view_classes(classes@)),
        contains_name(crate::ast::view_classes(classes@), start@),
    ensures
        r == !reaches_object(
            crate::ast::view_classes(classes@),
            start@,
            classes@.len() as nat,
        ),
{
    broadcast use crate::ast::group_ast_views;

    let ghost cv = crate::ast::view_classes(classes@);
    let n = classes.len();
    let mut cur: ClassName = start.duplicate();
    let mut k: usize = 0;
    while k < n
        invariant
            k <= n,
            n == classes@.len(),
            names_unique(cv),
            supers_defined(cv),
            contains_name(cv, cur@),
            cv == crate::ast::view_classes(classes@),
            reaches_object(cv, start@, n as nat) == reaches_object(cv, cur@, (n - k) as nat),
        decreases n - k,
    {
        if cur.is_object() {
            return false;
        }
        let j_opt = find_class_in(classes, &cur);
        let j = match j_opt {
            Some(j) => j,
            None => {
                proof {
                    assert(false);
                }
                return true;
            },
        };
        proof {
            lemma_class_index_unique(cv, j as int);
            assert(class_def(cv, cur@) == cv[j as int]);
        }
        cur = classes[j].super_type.duplicate();
        k = k + 1;
    }
    !cur.is_object()
}

impl ClassTable {
    /// The global invariants a table built by `try_from_ast` satisfies.
    pub open spec fn wf(&self) -> bool {
        table_wf(self@)
    }

    /// Builds the validated table from a parsed program, performing the
    /// name, supertype, and shape checks in order; the first violation wins.
    /// The table holds exactly the declared classes, unchanged, in strictly
    /// increasing lexicographic name order.
    pub fn try_from_ast(ast: &Ast) -> (r: Result<ClassTable, ClassTableError>)
        ensures
            match r {
                Ok(ct) => {
                    &&& build_check(ast@) is None
                    &&& ct@ == sort_by_name(ast@)
                    &&& ct.wf()
                    &&& sorted_by_name(ct@)
                    &&& ct@.len() == ast@.len()
                    &&& forall|j: int| 0 <= j < ast@.len() ==> class_in(ct@, #[trigger] ast@[j])
                    &&& forall|k: int| 0 <= k < ct@.len() ==> class_in(ast@, #[trigger] ct@[k])
                },
                Err(e) => build_check(ast@) == Some(e@),
            },
    {
        broadcast use crate::ast::group_ast_views;

        let n = ast.class_definitions.len();
        let mut i: usize = 0;
        while i < n
            invariant
                i <= n,
                n == ast.class_definitions@.len(),
                object_check(ast@, 0) == object_check(ast@, i as int),
                forall|x: int| 0 <= x < i ==> ast@[x].name != object_name(),
            decreases n - i,
        {
            let c = &ast.class_definitions[i];
            proof {
                assert(ast@[i as int] == c@);
            }
            if c.name.is_object() {
                proof {
                    assert(object_check(ast@, i as int) == Some(
                        SpecClassTableError::ClassNamedObject,
                    ));
                }
                return Err(ClassTableError::ClassNamedObject);
            }
            i = i + 1;
        }
        proof {
            assert(object_check(ast@, 0) is None);
            assert(no_object_class(ast@));
        }
        let mut classes: Vec<ClassDefinition> = Vec::new();
        let mut i: usize = 0;
        while i < n
            invariant
                i <= n,
                n == ast.class_definitions@.len(),
                classes@.len() == i,
                object_check(ast@, 0) is None,
                forall|x: int|
                    0 <= x < i ==> #[trigger] crate::ast::view_classes(classes@)[x] == ast@[x],
                dup_check(ast@, 0) == dup_check(ast@, i as int),
                forall|x: int, y: int| 0 <= y < x < i ==> ast@[y].name != ast@[x].name,
            decreases n - i,
        {
            let c = &ast.class_definitions[i];
            proof {
                assert(ast@[i as int] == c@);
            }
            if find_class_in(&classes, &c.name).is_some() {
                proof {
                    assert(has_class(crate::ast::view_classes(classes@), c.name@));
                    let j = choose|j: int|
                        0 <= j < classes@.len() && crate::ast::view_classes(classes@)[j].name
                            == c.name@;
                    assert(ast@[j].name == ast@[i as int].name);
                    assert(dup_check(ast@, i as int) == Some(
                        SpecClassTableError::ClassDefinedTwice(ast@[i as int].name),
                    ));
                }
                return Err(ClassTableError::ClassDefinedTwice(c.name.duplicate()));
            }
            proof {
                assert forall|x: int| 0 <= x < i implies ast@[x].name != ast@[i as int].name by {
                    assert(crate::ast::view_classes(classes@)[x] == ast@[x]);
                }
            }
            let ghost before = classes@;
            classes.push(c.deep_clone());
            proof {
                assert forall|x: int|
                    0 <= x < i + 1 implies #[trigger] crate::ast::view_classes(classes@)[x]
                    == ast@[x] by {
                    if x < i {
                        assert(classes@[x] == before[x]);
                        assert(crate::ast::view_classes(before)[x] == ast@[x]);
                    } else {
                        assert(classes@[x]@ == c@);
                    }
                }
            }
            i = i + 1;
        }
        proof {
            assert(dup_check(ast@, 0) is None);
            assert(crate::ast::view_classes(classes@) =~= ast@);
            assert(no_object_class(ast@));
            assert(names_unique(ast@));
        }
        let ghost cv = sort_by_name(ast@);
        let mut sorted_classes: Vec<ClassDefinition> = Vec::new();
        let mut i: usize = 0;
        proof {
            assert(crate::ast::view_classes(sorted_classes@) =~= sort_prefix(ast@, 0));
        }
        while i < n
            invariant
                i <= n,
                n == ast.class_definitions@.len(),
                classes@.len() == n - i,
                forall|x: int|
                    0 <= x < n - i ==> #[trigger] crate::ast::view_classes(classes@)[x] == ast@[x
                        + i],
                crate::ast::view_classes(sorted_classes@) == sort_prefix(ast@, i as int),
            decreases n - i,
        {
            let ghost before = classes@;
            let c = classes.remove(0);
            proof {
                crate::ast::lemma_view_classes(before);
                crate::ast::lemma_view_classes(classes@);
                assert(c@ == crate::ast::view_classes(before)[0]);
                assert(c@ == ast@[i as int]);
                assert forall|x: int|
                    0 <= x < n - i - 1 implies #[trigger] crate::ast::view_classes(classes@)[x]
                    == ast@[x + i + 1] by {
                    assert(classes@[x] == before[x + 1]);
                    assert(crate::ast::view_classes(before)[x + 1] == ast@[x + 1 + i]);
                }
            }
            insert_class_sorted(&mut sorted_classes, c);
            i = i + 1;
        }
        let classes = sorted_classes;
        proof {
            assert(cv == sort_prefix(ast@, n as int));
            assert(crate::ast::view_classes(classes@) == cv);
            lemma_sort_prefix_props(ast@, n as int);
            assert(cv.len() == n);
            assert(sorted_by_name(cv));
            assert forall|a: int, b: int| 0 <= a < b < cv.len() implies cv[a].name
                != cv[b].name by {
                lemma_lex_irreflexive(cv[a].name);
            }
            assert(names_unique(cv));
            assert forall|k: int|
                0 <= k < cv.len() implies (#[trigger] cv[k]).name != object_name() by {
                assert(class_in(ast@.subrange(0, n as int), cv[k]));
                let j = choose|j: int|
                    0 <= j < n && #[trigger] ast@.subrange(0, n as int)[j] == cv[k];
                assert(ast@[j] == cv[k]);
            }
            assert(no_object_class(cv));
        }
        let mut i: usize = 0;
        while i < n
            invariant
                i <= n,
                n == classes@.len(),
                cv == sort_by_name(ast@),
                crate::ast::view_classes(classes@) == cv,
                no_object_class(cv),
                names_unique(cv),
                object_check(ast@, 0) is None,
                dup_check(ast@, 0) is None,
                super_check(cv, 0) == super_check(cv, i as int),
                forall|x: int| 0 <= x < i ==> contains_name(cv, #[trigger] cv[x].super_name),
            decreases n - i,
        {
            let c = &classes[i];
            proof {
                assert(cv[i as int] == c@);
            }
            let ok = c.super_type.is_object() || find_class_in(&classes, &c.super_type).is_some();
            if !ok {
                proof {
                    assert(!contains_name(cv, cv[i as int].super_name));
                    assert(super_check(cv, i as int) == Some(
                        SpecClassTableError::SupertypeUndefined(
                            cv[i as int].super_name,
                            cv[i as int].name,
                        ),
                    ));
                }
                return Err(ClassTableError::SupertypeUndefined(
                    c.super_type.duplicate(),
                    c.name.duplicate(),
                ));
            }
            i = i + 1;
        }
        proof {
            assert(super_check(cv, 0) is None);
            assert(supers_defined(cv));
        }
        let mut i: usize = 0;
        while i < n
            invariant
                i <= n,
                n == classes@.len(),
                cv == sort_by_name(ast@),
                crate::ast::view_classes(classes@) == cv,
                no_object_class(cv),
                names_unique(cv),
                supers_defined(cv),
                object_check(ast@, 0) is None,
                dup_check(ast@, 0) is None,
                super_check(cv, 0) is None,
                shape_check(cv, 0) == shape_check(cv, i as int),
                forall|x: int|
                    0 <= x < i ==> reaches_object(cv, #[trigger] cv[x].name, cv.len() as nat),
                forall|x: int| 0 <= x < i ==> class_shape_ok(#[trigger] cv[x]),
            decreases n - i,
        {
            let c = &classes[i];
            proof {
                assert(cv[i as int] == c@);
            }
            if chain_is_cyclic(&classes, &c.name) {
                proof {
                    assert(class_check(cv, cv[i as int]) == Some(
                        SpecClassTableError::CyclicSupertype(cv[i as int].name),
                    ));
                }
                return Err(ClassTableError::CyclicSupertype(c.name.duplicate()));
            }
            if !c.has_correct_ctor_name() {
                return Err(ClassTableError::IncorrectConstructorName(
                    c.name.duplicate(),
                    c.constructor.name.duplicate(),
                ));
            }
            if !c.has_correct_ctor_init() {
                return Err(ClassTableError::IncorrectConstructorInit(c.name.duplicate()));
            }
            if !c.has_unique_field_names() {
                return Err(ClassTableError::NonUniqueFields(c.name.duplicate()));
            }
            if !c.has_unique_method_names() {
                return Err(ClassTableError::NonUniqueMethodNames(c.name.duplicate()));
            }
            if !c.has_only_valid_field_names() {
                return Err(ClassTableError::FieldNamedThis(c.name.duplicate()));
            }
            if !c.constructor.has_only_valid_argument_names() {
                return Err(ClassTableError::ConstructorArgumentNamedThis(c.name.duplicate()));
            }
            let nm = c.methods.len();
            let mut j: usize = 0;
            while j < nm
                invariant
                    j <= nm,
                    i < n,
                    n == classes@.len(),
                    c@ == cv[i as int],
                    nm == c.methods@.len(),
                    cv == sort_by_name(ast@),
                    crate::ast::view_classes(classes@) == cv,
                    object_check(ast@, 0) is None,
                    dup_check(ast@, 0) is None,
                    super_check(cv, 0) is None,
                    shape_check(cv, 0) == shape_check(cv, i as int),
                    reaches_object(cv, cv[i as int].name, cv.len() as nat),
                    cv[i as int].ctor.name == cv[i as int].name,
                    ctor_init_ok(cv[i as int]),
                    fields_unique(cv[i as int]),
                    methods_unique(cv[i as int]),
                    no_field_named_this(cv[i as int]),
                    no_ctor_arg_named_this(cv[i as int]),
                    method_shape_check(cv[i as int], 0) == method_shape_check(
                        cv[i as int],
                        j as int,
                    ),
                    forall|y: int|
                        0 <= y < j ==> method_args_unique(#[trigger] cv[i as int].methods[y])
                            && no_method_arg_named_this(cv[i as int].methods[y]),
                decreases nm - j,
            {
                let m = &c.methods[j];
                proof {
                    assert(cv[i as int].methods[j as int] == m@);
                }
                if !m.has_unique_argument_names() {
                    proof {
                        assert(method_shape_check(cv[i as int], j as int) == Some(
                            SpecClassTableError::NonUniqueMethodArgumentNames(
                                cv[i as int].methods[j as int].method_name,
                                cv[i as int].name,
                            ),
                        ));
                    }
                    return Err(ClassTableError::NonUniqueMethodArgumentNames(
                        m.method_name.duplicate(),
                        c.name.duplicate(),
                    ));
                }
                if !m.has_only_valid_argument_names() {
                    proof {
                        assert(method_shape_check(cv[i as int], j as int) == Some(
                            SpecClassTableError::MethodArgumentNamedThis(
                                cv[i as int].methods[j as int].method_name,
                                cv[i as int].name,
                            ),
                        ));
                    }
                    return Err(ClassTableError::MethodArgumentNamedThis(
                        m.method_name.duplicate(),
                        c.name.duplicate(),
                    ));
                }
                j = j + 1;
            }
            proof {
                assert(method_shape_check(cv[i as int], nm as int) is None);
                assert(class_check(cv, cv[i as int]) is None);
                assert(class_shape_ok(cv[i as int]));
            }
            i = i + 1;
        }
        proof {
            assert(shape_check(cv, 0) is None);
            assert(chains_acyclic(cv));
            assert(forall|x: int| 0 <= x < cv.len() ==> class_shape_ok(#[trigger] cv[x]));
            assert(table_wf(cv));
        }
        let ct = ClassTable { classes };
        proof {
            assert(ct@ == cv);
            lemma_sort_prefix_props(ast@, n as int);
            assert forall|j: int| 0 <= j < ast@.len() implies class_in(
                ct@,
                #[trigger] ast@[j],
            ) by {
                assert(class_in(sort_prefix(ast@, n as int), ast@[j]));
            }
            assert forall|k: int| 0 <= k < ct@.len() implies class_in(
                ast@,
                #[trigger] ct@[k],
            ) by {
                assert(class_in(ast@.subrange(0, n as int), sort_prefix(ast@, n as int)[k]));
                let j = choose|j: int|
                    0 <= j < n && #[trigger] ast@.subrange(0, n as int)[j] == sort_prefix(
                        ast@,
                        n as int,
                    )[k];
                assert(ast@[j] == ct@[k]);
            }
        }
        Ok(ct)
    }
}

// ------------------------------------------------------------------
// Method signatures and bodies
// ------------------------------------------------------------------

/// The argument types and return type of a method.
#[derive(Debug)]
pub struct MethodType {
    pub arg_types: Vec<ClassName>,
    pub ret_type: ClassName,
}

impl View for MethodType {
    type V = SpecMethodType;

    open spec fn view(&self) -> SpecMethodType {
        SpecMethodType {
            arg_types: crate::ast::view_class_names(self.arg_types@),
            ret_type: self.ret_type@,
        }
    }
}

impl MethodType {
    /// Reads the signature off a method declaration.
    pub fn from_method(method: &MethodDefinition) -> (r: MethodType)
        ensures
            r@ == signature_of(method@),
    {
        broadcast use crate::ast::group_ast_views;

        let n = method.args.len();
        let mut arg_types: Vec<ClassName> = Vec::new();
        let mut i: usize = 0;
        while i < n
            invariant
                i <= n,
                n == method.args@.len(),
                arg_types@.len() == i,
                forall|x: int| 0 <= x < i ==> arg_types@[x]@ == method.args@[x].0@,
            decreases n - i,
        {
            arg_types.push(method.args[i].0.duplicate());
            i = i + 1;
        }
        let r = MethodType { arg_types, ret_type: method.return_type.duplicate() };
        proof {
            assert(r@.arg_types =~= signature_of(method@).arg_types);
        }
        r
    }

    /// Whether two signatures agree on every argument type and the return
    /// type.
    pub fn eq_type(&self, other: &MethodType) -> (r: bool)
        ensures
            r == (self@ == other@),
    {
        broadcast use crate::ast::group_ast_views;

        if !self.ret_type.eq_name(&other.ret_type) {
            return false;
        }
        let n = self.arg_types.len();
        if n != other.arg_types.len() {
            proof {
                assert(self@.arg_types.len() != other@.arg_types.len());
            }
            return false;
        }
        let mut i: usize = 0;
        while i < n
            invariant
                i <= n,
                n == self.arg_types@.len(),
                n == other.arg_types@.len(),
                forall|x: int| 0 <= x < i ==> self@.arg_types[x] == other@.arg_types[x],
            decreases n - i,
        {
            if !self.arg_types[i].eq_name(&other.arg_types[i]) {
                proof {
                    assert(self@.arg_types[i as int] != other@.arg_types[i as int]);
                }
                return false;
            }
            i = i + 1;
        }
        proof {
            assert(self@.arg_types =~= other@.arg_types);
        }
        true
    }
}

/// The argument names and return term of a method.
#[derive(Debug)]
pub struct MethodBody {
    pub args: Vec<FieldName>,
    pub return_term: Box<Term>,
}

impl View for MethodBody {
    type V = SpecMethodBody;

    open spec fn view(&self) -> SpecMethodBody {
        SpecMethodBody {
            args: crate::ast::view_field_names(self.args@),
            return_term: crate::ast::view_term(*self.return_term),
        }
    }
}

impl MethodBody {
    /// Reads argument names and body off a method declaration.
    pub fn from_method(method: &MethodDefinition) -> (r: MethodBody)
        ensures
            r@ == implementation_of(method@),
    {
        broadcast use crate::ast::group_ast_views;

        let n = method.args.len();
        let mut args: Vec<FieldName> = Vec::new();
        let mut i: usize = 0;
        while i < n
            invariant
                i <= n,
                n == method.args@.len(),
                args@.len() == i,
                forall|x: int| 0 <= x < i ==> args@[x]@ == method.args@[x].1@,
            decreases n - i,
        {
            args.push(method.args[i].1.duplicate());
            i = i + 1;
        }
        let r = MethodBody { args, return_term: Box::new(method.return_term.deep_clone()) };
        proof {
            assert(r@.args =~= implementation_of(method@).args);
        }
        r
    }
}

/// With unique method names, the chosen declaration of `m` is the one at the
/// index where it stands.
pub proof fn lemma_method_index_unique(cl: SpecClass, k: int)
    requires
        methods_unique(cl),
        0 <= k < cl.methods.len(),
    ensures
        declares_method(cl, cl.methods[k].method_name),
        method_in_class(cl, cl.methods[k].method_name) == cl.methods[k],
{
    let m = cl.methods[k].method_name;
    assert(declares_method(cl, m));
    let i = choose|i: int| 0 <= i < cl.methods.len() && cl.methods[i].method_name == m;
    assert(0 <= i < cl.methods.len() && cl.methods[i].method_name == m);
}

/// The first method (if any) of `methods` that carries `name`.
fn find_method_in(methods: &Vec<MethodDefinition>, name: &MethodName) -> (r: Option<usize>)
    ensures
        match r {
            Some(k) => 0 <= k < methods@.len() && crate::ast::view_methods(methods@)[k as int].method_name == name@,
            None => forall|x: int|
                0 <= x < methods@.len() ==> crate::ast::view_methods(methods@)[x].method_name
                    != name@,
        },
{
    broadcast use crate::ast::group_ast_views;

    let n = methods.len();
    let mut i: usize = 0;
    while i < n
        invariant
            i <= n,
            n == methods@.len(),
            forall|x: int|
                0 <= x < i ==> crate::ast::view_methods(methods@)[x].method_name != name@,
        decreases n - i,
    {
        if methods[i].method_name.eq_name(name) {
            proof {
                assert(crate::ast::view_methods(methods@)[i as int].method_name == name@);
            }
            return Some(i);
        }
        i = i + 1;
    }
    None
}

// ------------------------------------------------------------------
// Lookups on a built table
// ------------------------------------------------------------------

impl ClassTable {
    /// The classes of the table, in lexicographic name order.
    pub fn inner(&self) -> (r: &Vec<ClassDefinition>)
        ensures
            crate::ast::view_classes(r@) == self@,
    {
        &self.classes
    }

    /// Whether `class_name` is `"Object"` or a class of the table.
    pub fn contains_class(&self, class_name: &ClassName) -> (r: bool)
        ensures
            r == contains_name(self@, class_name@),
    {
        class_name.is_object() || find_class_in(&self.classes, class_name).is_some()
    }

    /// The declared superclass of a class of the table.
    pub fn super_type(&self, class_name: &ClassName) -> (r: Option<&ClassName>)
        requires
            names_unique(self@),
        ensures
            match r {
                Some(s) => has_class(self@, class_name@) && s@ == super_name(self@, class_name@),
                None => !has_class(self@, class_name@),
            },
    {
        broadcast use crate::ast::group_ast_views;

        match find_class_in(&self.classes, class_name) {
            Some(j) => {
                proof {
                    lemma_class_index_unique(self@, j as int);
                }
                Some(&self.classes[j].super_type)
            },
            None => None,
        }
    }

    /// The iterator-like walk along the superclass chain of a class.
    pub fn super_type_chain<'a>(&'a self, class_name: &ClassName) -> (r: Option<
        SuperTypeChain<'a>,
    >)
        ensures
            match r {
                Some(ch) => contains_name(self@, class_name@) && ch.ct == self && ch.last@
                    == class_name@,
                None => !contains_name(self@, class_name@),
            },
    {
        if self.contains_class(class_name) {
            Some(SuperTypeChain { ct: self, last: class_name.duplicate() })
        } else {
            None
        }
    }

    /// Decides `lhs <: rhs`; `None` when either operand is undefined.
    pub fn is_subtype(&self, lhs: &ClassName, rhs: &ClassName) -> (r: Option<bool>)
        requires
            self.wf(),
        ensures
            r == if contains_name(self@, lhs@) && contains_name(self@, rhs@) {
                Some(subtype(self@, lhs@, rhs@))
            } else {
                None::<bool>
            },
    {
        broadcast use crate::ast::group_ast_views;

        if !self.contains_class(lhs) || !self.contains_class(rhs) {
            return None;
        }
        let mut cur: ClassName = lhs.duplicate();
        loop
            invariant
                self.wf(),
                contains_name(self@, lhs@),
                contains_name(self@, cur@),
                contains_name(self@, rhs@),
                subtype(self@, lhs@, rhs@) == subtype(self@, cur@, rhs@),
            decreases rank_of(self@, cur@),
        {
            if cur.eq_name(rhs) {
                return Some(true);
            }
            if cur.is_object() {
                proof {
                    assert(!has_class(self@, cur@));
                    assert(!subtype(self@, cur@, rhs@));
                }
                return Some(false);
            }
            proof {
                lemma_subtype_unfold(self@, cur@, rhs@);
                lemma_rank_decreases(self@, cur@);
            }
            let next = match self.super_type(&cur) {
                Some(s) => s.duplicate(),
                None => {
                    proof {
                        assert(false);
                    }
                    return None;
                },
            };
            cur = next;
        }
    }

    /// All fields of `class_name`, inherited ones first.
    pub fn fields(&self, class_name: &ClassName) -> (r: Option<Vec<crate::ast::ArgPair>>)
        requires
            self.wf(),
        ensures
            match r {
                Some(v) => contains_name(self@, class_name@) && view_arg_pairs(v@) == fields_of(
                    self@,
                    class_name@,
                ),
                None => !contains_name(self@, class_name@),
            },
        decreases rank_of(self@, class_name@),
    {
        broadcast use crate::ast::group_ast_views;

        if class_name.is_object() {
            let v: Vec<crate::ast::ArgPair> = Vec::new();
            proof {
                assert(view_arg_pairs(v@) =~= fields_of(self@, class_name@));
            }
            return Some(v);
        }
        let j = match find_class_in(&self.classes, class_name) {
            Some(j) => j,
            None => {
                return None;
            },
        };
        proof {
            lemma_class_index_unique(self@, j as int);
            lemma_rank_decreases(self@, class_name@);
            lemma_fields_unfold(self@, class_name@);
        }
        let sup = self.classes[j].super_type.duplicate();
        let mut v = match self.fields(&sup) {
            Some(v) => v,
            None => {
                proof {
                    assert(false);
                }
                return None;
            },
        };
        let ghost base = fields_of(self@, sup@);
        let dn = self.classes[j].fields.len();
        let mut k: usize = 0;
        while k < dn
            invariant
                k <= dn,
                0 <= j < self.classes@.len(),
                dn == self.classes@[j as int].fields@.len(),
                v@.len() == base.len() + k,
                forall|x: int| 0 <= x < base.len() ==> view_arg_pairs(v@)[x] == base[x],
                forall|x: int|
                    0 <= x < k ==> view_arg_pairs(v@)[base.len() + x] == (
                        self.classes@[j as int].fields@[x].0@,
                        self.classes@[j as int].fields@[x].1@,
                    ),
            decreases dn - k,
        {
            v.push((self.classes[j].fields[k].0.duplicate(), self.classes[j].fields[k].1.duplicate()));
            k = k + 1;
        }
        proof {
            assert(class_def(self@, class_name@) == self@[j as int]);
            assert(view_arg_pairs(v@) =~= base + class_def(self@, class_name@).fields);
        }
        Some(v)
    }

    /// `mtype(m, C)`: the signature of the first declaration of `m` on the
    /// superclass chain of `C`.
    pub fn method_type(&self, method_name: &MethodName, class_name: &ClassName) -> (r: Option<
        MethodType,
    >)
        requires
            self.wf(),
        ensures
            match r {
                Some(mt) => mtype_of(self@, method_name@, class_name@) == Some(mt@),
                None => mtype_of(self@, method_name@, class_name@) is None,
            },
        decreases rank_of(self@, class_name@),
    {
        broadcast use crate::ast::group_ast_views;

        let j = match find_class_in(&self.classes, class_name) {
            Some(j) => j,
            None => {
                return None;
            },
        };
        proof {
            lemma_class_index_unique(self@, j as int);
            lemma_mtype_unfold(self@, method_name@, class_name@);
        }
        match find_method_in(&self.classes[j].methods, method_name) {
            Some(k) => {
                proof {
                    lemma_method_index_unique(self@[j as int], k as int);
                }
                Some(MethodType::from_method(&self.classes[j].methods[k]))
            },
            None => {
                proof {
                    assert(!declares_method(class_def(self@, class_name@), method_name@));
                    lemma_rank_decreases(self@, class_name@);
                }
                let sup = self.classes[j].super_type.duplicate();
                self.method_type(method_name, &sup)
            },
        }
    }

    /// `mbody(m, C)`: the argument names and body of the declaration that
    /// `method_type` uses.
    pub fn method_body(&self, method_name: &MethodName, class_name: &ClassName) -> (r: Option<
        MethodBody,
    >)
        requires
            self.wf(),
        ensures
            match r {
                Some(mb) => mbody_of(self@, method_name@, class_name@) == Some(mb@),
                None => mbody_of(self@, method_name@, class_name@) is None,
            },
        decreases rank_of(self@, class_name@),
    {
        broadcast use crate::ast::group_ast_views;

        let j = match find_class_in(&self.classes, class_name) {
            Some(j) => j,
            None => {
                return None;
            },
        };
        proof {
            lemma_class_index_unique(self@, j as int);
            lemma_mbody_unfold(self@, method_name@, class_name@);
        }
        match find_method_in(&self.classes[j].methods, method_name) {
            Some(k) => {
                proof {
                    lemma_method_index_unique(self@[j as int], k as int);
                }
                Some(MethodBody::from_method(&self.classes[j].methods[k]))
            },
            None => {
                proof {
                    assert(!declares_method(class_def(self@, class_name@), method_name@));
                    lemma_rank_decreases(self@, class_name@);
                }
                let sup = self.classes[j].super_type.duplicate();
                self.method_body(method_name, &sup)
            },
        }
    }

    /// Whether `method_type` agrees exactly with the signature that `m`
    /// already has at `class_name`; `None` when no chain ancestor defines it.
    pub fn is_correct_method_override(
        &self,
        method_name: &MethodName,
        class_name: &ClassName,
        method_type: &MethodType,
    ) -> (r: Option<bool>)
        requires
            self.wf(),
        ensures
            r == match mtype_of(self@, method_name@, class_name@) {
                Some(mt) => Some(mt == method_type@),
                None => None::<bool>,
            },
    {
        match self.method_type(method_name, class_name) {
            Some(mt) => Some(mt.eq_type(method_type)),
            None => None,
        }
    }
}

/// A walk up the superclass chain, as `ClassTable::super_type_chain` hands
/// it out.
pub struct SuperTypeChain<'a> {
    pub ct: &'a ClassTable,
    pub last: ClassName,
}

impl<'a> SuperTypeChain<'a> {
    /// One step up the chain: the superclass of `last`, or `None` at the
    /// root.
    pub fn next(&mut self) -> (r: Option<ClassName>)
        requires
            names_unique(old(self).ct@),
            supers_defined(old(self).ct@),
            contains_name(old(self).ct@, old(self).last@),
        ensures
            final(self).ct == old(self).ct,
            contains_name(final(self).ct@, final(self).last@),
            old(self).last@ == object_name() ==> r is None && final(self).last == old(self).last,
            old(self).last@ != object_name() ==> (r matches Some(c) && c@ == super_name(
                old(self).ct@,
                old(self).last@,
            ) && final(self).last@ == c@),
    {
        broadcast use crate::ast::group_ast_views;

        if self.last.is_object() {
            return None;
        }
        let j = match find_class_in(&self.ct.classes, &self.last) {
            Some(j) => j,
            None => {
                proof {
                    assert(false);
                }
                return None;
            },
        };
        proof {
            lemma_class_index_unique(self.ct@, j as int);
        }
        let next = self.ct.classes[j].super_type.duplicate();
        self.last = next.duplicate();
        Some(next)
    }

    /// Whether the chain from `last` fails to reach `"Object"` within `len`
    /// steps.
    pub fn is_cyclic(self) -> (r: bool)
        requires
            names_unique(self.ct@),
            supers_defined(self.ct@),
            contains_name(self.ct@, self.last@),
        ensures
            r == !reaches_object(self.ct@, self.last@, self.ct@.len() as nat),
    {
        chain_is_cyclic(&self.ct.classes, &self.last)
    }
}

// ------------------------------------------------------------------
// Lexicographic order on names
// ------------------------------------------------------------------

/// Strict lexicographic order on names, by character value.
pub open spec fn lex_lt(a: Seq<char>, b: Seq<char>) -> bool
    decreases a.len(),
{
    if b.len() == 0 {
        false
    } else if a.len() == 0 {
        true
    } else if (a[0] as int) < (b[0] as int) {
        true
    } else if (b[0] as int) < (a[0] as int) {
        false
    } else {
        lex_lt(a.subrange(1, a.len() as int), b.subrange(1, b.len() as int))
    }
}

/// Any two names are equal or ordered.
pub proof fn lemma_lex_connected(a: Seq<char>, b: Seq<char>)
    ensures
        a == b || lex_lt(a, b) || lex_lt(b, a),
    decreases a.len(),
{
    if a.len() == 0 && b.len() == 0 {
        assert(a =~= b);
    } else if a.len() > 0 && b.len() > 0 && !((a[0] as int) < (b[0] as int)) && !((b[0] as int)
        < (a[0] as int)) {
        assert(a[0] == b[0]);
        let at = a.subrange(1, a.len() as int);
        let bt = b.subrange(1, b.len() as int);
        lemma_lex_connected(at, bt);
        if at == bt {
            assert forall|i: int| 0 <= i < a.len() implies a[i] == b[i] by {
                if i > 0 {
                    assert(at[i - 1] == bt[i - 1]);
                }
            }
            assert(a =~= b);
        }
    }
}

/// The order is transitive.
pub proof fn lemma_lex_transitive(a: Seq<char>, b: Seq<char>, c: Seq<char>)
    requires
        lex_lt(a, b),
        lex_lt(b, c),
    ensures
        lex_lt(a, c),
    decreases a.len(),
{
    if a.len() > 0 && b.len() > 0 && c.len() > 0 && !((a[0] as int) < (b[0] as int)) && !((b[0]
        as int) < (c[0] as int)) {
        lemma_lex_transitive(
            a.subrange(1, a.len() as int),
            b.subrange(1, b.len() as int),
            c.subrange(1, c.len() as int),
        );
    }
}

/// Whether the names are in strictly increasing lexicographic order.
pub open spec fn sorted_names(ns: Seq<Seq<char>>) -> bool {
    forall|i: int, j: int| 0 <= i < j < ns.len() ==> lex_lt(ns[i], ns[j])
}

/// Whether `n` occurs among the names.
pub open spec fn name_in(ns: Seq<Seq<char>>, n: Seq<char>) -> bool {
    exists|i: int| 0 <= i < ns.len() && ns[i] == n
}

/// Decides the lexicographic order on two class names.
fn name_lt(a: &ClassName, b: &ClassName) -> (r: bool)
    ensures
        r == lex_lt(a@, b@),
{
    let an = a.0.as_str().unicode_len();
    let bn = b.0.as_str().unicode_len();
    proof {
        assert(a@.subrange(0, an as int) =~= a@);
        assert(b@.subrange(0, bn as int) =~= b@);
    }
    let mut i: usize = 0;
    loop
        invariant
            i <= an,
            i <= bn,
            an == a@.len(),
            bn == b@.len(),
            lex_lt(a@, b@) == lex_lt(
                a@.subrange(i as int, an as int),
                b@.subrange(i as int, bn as int),
            ),
        decreases an - i,
    {
        if i >= bn {
            proof {
                assert(b@.subrange(i as int, bn as int).len() == 0);
            }
            return false;
        }
        if i >= an {
            proof {
                assert(a@.subrange(i as int, an as int).len() == 0);
            }
            return true;
        }
        let ca = a.0.as_str().get_char(i);
        let cb = b.0.as_str().get_char(i);
        if (ca as u32) < (cb as u32) {
            proof {
                assert(a@.subrange(i as int, an as int)[0] == ca);
                assert(b@.subrange(i as int, bn as int)[0] == cb);
            }
            return true;
        }
        if (cb as u32) < (ca as u32) {
            proof {
                assert(a@.subrange(i as int, an as int)[0] == ca);
                assert(b@.subrange(i as int, bn as int)[0] == cb);
            }
            return false;
        }
        proof {
            let asub = a@.subrange(i as int, an as int);
            let bsub = b@.subrange(i as int, bn as int);
            assert(asub[0] == ca && bsub[0] == cb);
            assert(asub.subrange(1, asub.len() as int) =~= a@.subrange(i + 1, an as int));
            assert(bsub.subrange(1, bsub.len() as int) =~= b@.subrange(i + 1, bn as int));
        }
        i = i + 1;
    }
}

/// The first position of `v` whose name is greater than `x`.
fn lower_bound(v: &Vec<ClassName>, x: &ClassName) -> (p: usize)
    ensures
        p <= v@.len(),
        forall|k: int|
            0 <= k < p ==> !lex_lt(x@, crate::ast::view_class_names(v@)[k]),
        p < v@.len() ==> lex_lt(x@, crate::ast::view_class_names(v@)[p as int]),
{
    broadcast use crate::ast::group_ast_views;

    let n = v.len();
    let mut i: usize = 0;
    while i < n
        invariant
            i <= n,
            n == v@.len(),
            forall|k: int| 0 <= k < i ==> !lex_lt(x@, crate::ast::view_class_names(v@)[k]),
        decreases n - i,
    {
        if name_lt(x, &v[i]) {
            proof {
                assert(crate::ast::view_class_names(v@)[i as int] == v@[i as int]@);
            }
            return i;
        }
        i = i + 1;
    }
    n
}

/// Inserts a fresh name into a sorted list, keeping it sorted.
fn insert_sorted(v: &mut Vec<ClassName>, x: ClassName)
    requires
        sorted_names(crate::ast::view_class_names(old(v)@)),
        !name_in(crate::ast::view_class_names(old(v)@), x@),
    ensures
        sorted_names(crate::ast::view_class_names(final(v)@)),
        final(v)@.len() == old(v)@.len() + 1,
        forall|n: Seq<char>|
            name_in(crate::ast::view_class_names(final(v)@), n) <==> (name_in(
                crate::ast::view_class_names(old(v)@),
                n,
            ) || n == x@),
{
    broadcast use crate::ast::group_ast_views;

    let ghost before = crate::ast::view_class_names(v@);
    let p = lower_bound(v, &x);
    v.insert(p, x);
    proof {
        let after = crate::ast::view_class_names(v@);
        assert forall|k: int| 0 <= k < after.len() implies after[k] == if k < p {
            before[k]
        } else if k == p {
            x@
        } else {
            before[k - 1]
        } by {
            assert(v@[k] == if k < p {
                old(v)@[k]
            } else if k == p {
                x
            } else {
                old(v)@[k - 1]
            });
        }
        assert forall|i: int, j: int| 0 <= i < j < after.len() implies lex_lt(
            after[i],
            after[j],
        ) by {
            if j < p {
            } else if i < p && j == p {
                lemma_lex_connected(x@, before[i]);
                assert(before[i] != x@);
            } else if i < p && j > p {
            } else if i == p && j > p {
                if j - 1 == p {
                } else {
                    lemma_lex_transitive(x@, before[p as int], before[j - 1]);
                }
            }
        }
        assert forall|n: Seq<char>| name_in(after, n) <==> (name_in(before, n) || n == x@) by {
            if name_in(after, n) {
                let k = choose|k: int| 0 <= k < after.len() && after[k] == n;
                if k < p {
                    assert(before[k] == n);
                } else if k > p {
                    assert(before[k - 1] == n);
                }
            }
            if name_in(before, n) {
                let k = choose|k: int| 0 <= k < before.len() && before[k] == n;
                if k < p {
                    assert(after[k] == n);
                } else {
                    assert(after[k + 1] == n);
                }
            }
            if n == x@ {
                assert(after[p as int] == n);
            }
        }
    }
}

impl ClassTable {
    /// Every class `D` of the table with `D <: class_name`, in lexicographic
    /// order.
    pub fn subtypes(&self, class_name: &ClassName) -> (r: Option<Vec<ClassName>>)
        requires
            self.wf(),
        ensures
            match r {
                Some(v) => contains_name(self@, class_name@) && sorted_names(
                    crate::ast::view_class_names(v@),
                ) && (forall|n: Seq<char>|
                    name_in(crate::ast::view_class_names(v@), n) <==> (has_class(self@, n)
                        && subtype(self@, n, class_name@))),
                None => !contains_name(self@, class_name@),
            },
    {
        broadcast use crate::ast::group_ast_views;

        if !self.contains_class(class_name) {
            return None;
        }
        let n = self.classes.len();
        let mut v: Vec<ClassName> = Vec::new();
        let mut i: usize = 0;
        while i < n
            invariant
                i <= n,
                n == self.classes@.len(),
                self.wf(),
                contains_name(self@, class_name@),
                sorted_names(crate::ast::view_class_names(v@)),
                forall|x: Seq<char>|
                    name_in(crate::ast::view_class_names(v@), x) <==> (exists|j: int|
                        0 <= j < i && self@[j].name == x && subtype(self@, x, class_name@)),
            decreases n - i,
        {
            proof {
                lemma_class_index_unique(self@, i as int);
            }
            let is_sub = match self.is_subtype(&self.classes[i].name, class_name) {
                Some(b) => b,
                None => false,
            };
            if is_sub {
                proof {
                    if name_in(crate::ast::view_class_names(v@), self@[i as int].name) {
                        let j = choose|j: int|
                            0 <= j < i && self@[j].name == self@[i as int].name && subtype(
                                self@,
                                self@[i as int].name,
                                class_name@,
                            );
                        assert(false);
                    }
                }
                insert_sorted(&mut v, self.classes[i].name.duplicate());
            }
            i = i + 1;
        }
        proof {
            assert forall|x: Seq<char>|
                name_in(crate::ast::view_class_names(v@), x) <==> (has_class(self@, x) && subtype(
                    self@,
                    x,
                    class_name@,
                )) by {
                if has_class(self@, x) && subtype(self@, x, class_name@) {
                    let j = class_index(self@, x);
                    assert(0 <= j < i && self@[j].name == x);
                }
            }
        }
        Some(v)
    }

    /// Every class whose declared superclass is exactly `class_name`, in
    /// lexicographic order.
    pub fn direct_subtypes(&self, class_name: &ClassName) -> (r: Option<Vec<ClassName>>)
        requires
            self.wf(),
        ensures
            match r {
                Some(v) => contains_name(self@, class_name@) && sorted_names(
                    crate::ast::view_class_names(v@),
                ) && (forall|n: Seq<char>|
                    name_in(crate::ast::view_class_names(v@), n) <==> (has_class(self@, n)
                        && super_name(self@, n) == class_name@ && n != class_name@)),
                None => !contains_name(self@, class_name@),
            },
    {
        broadcast use crate::ast::group_ast_views;

        if !self.contains_class(class_name) {
            return None;
        }
        let n = self.classes.len();
        let mut v: Vec<ClassName> = Vec::new();
        let mut i: usize = 0;
        while i < n
            invariant
                i <= n,
                n == self.classes@.len(),
                self.wf(),
                contains_name(self@, class_name@),
                sorted_names(crate::ast::view_class_names(v@)),
                forall|x: Seq<char>|
                    name_in(crate::ast::view_class_names(v@), x) <==> (exists|j: int|
                        0 <= j < i && self@[j].name == x && self@[j].super_name == class_name@ && x
                            != class_name@),
            decreases n - i,
        {
            proof {
                lemma_class_index_unique(self@, i as int);
            }
            let c = &self.classes[i];
            if c.super_type.eq_name(class_name) && !c.name.eq_name(class_name) {
                proof {
                    if name_in(crate::ast::view_class_names(v@), self@[i as int].name) {
                        let j = choose|j: int|
                            0 <= j < i && self@[j].name == self@[i as int].name
                                && self@[j].super_name == class_name@
                                && self@[j].name != class_name@;
                        assert(false);
                    }
                }
                insert_sorted(&mut v, self.classes[i].name.duplicate());
            }
            i = i + 1;
        }
        proof {
            assert forall|x: Seq<char>|
                name_in(crate::ast::view_class_names(v@), x) <==> (has_class(self@, x)
                    && super_name(self@, x) == class_name@ && x != class_name@) by {
                if name_in(crate::ast::view_class_names(v@), x) {
                    let j = choose|j: int|
                        0 <= j < i && self@[j].name == x && self@[j].super_name == class_name@ && x
                            != class_name@;
                    lemma_class_index_unique(self@, j);
                }
                if has_class(self@, x) && super_name(self@, x) == class_name@ && x != class_name@ {
                    let j = class_index(self@, x);
                    assert(0 <= j < i && self@[j].name == x && self@[j].super_name == class_name@);
                }
            }
        }
        Some(v)
    }
}

// ------------------------------------------------------------------
// The chain law
// ------------------------------------------------------------------

/// Every defined class's superclass chain reaches `"Object"` within `len`
/// steps: the table keeps no cycle.
pub proof fn lemma_super_chain_reaches_object(cs: Seq<SpecClass>, c: Seq<char>)
    requires
        table_wf(cs),
        contains_name(cs, c),
    ensures
        reaches_object(cs, c, cs.len() as nat),
{
    if c != object_name() {
        let i = choose|i: int| 0 <= i < cs.len() && cs[i].name == c;
        assert(reaches_object(cs, cs[i].name, cs.len() as nat));
    }
}

// ------------------------------------------------------------------
// Sorting the table
// ------------------------------------------------------------------

/// No name is below itself.
pub proof fn lemma_lex_irreflexive(a: Seq<char>)
    ensures
        !lex_lt(a, a),
    decreases a.len(),
{
    if a.len() > 0 {
        lemma_lex_irreflexive(a.subrange(1, a.len() as int));
    }
}

/// Whether the classes stand in strictly increasing name order.
pub open spec fn sorted_by_name(cs: Seq<SpecClass>) -> bool {
    forall|i: int, j: int| 0 <= i < j < cs.len() ==> lex_lt(cs[i].name, cs[j].name)
}

/// Inserts a class in front of the first one with a greater name.
pub open spec fn insert_by_name(sorted: Seq<SpecClass>, cl: SpecClass) -> Seq<SpecClass>
    decreases sorted.len(),
{
    if sorted.len() == 0 {
        seq![cl]
    } else if lex_lt(cl.name, sorted[0].name) {
        seq![cl] + sorted
    } else {
        seq![sorted[0]] + insert_by_name(sorted.subrange(1, sorted.len() as int), cl)
    }
}

/// The first `i` classes of `cs`, in name order.
pub open spec fn sort_prefix(cs: Seq<SpecClass>, i: int) -> Seq<SpecClass>
    decreases i,
{
    if i <= 0 {
        Seq::empty()
    } else {
        insert_by_name(sort_prefix(cs, i - 1), cs[i - 1])
    }
}

/// The classes of `cs`, in name order.
pub open spec fn sort_by_name(cs: Seq<SpecClass>) -> Seq<SpecClass> {
    sort_prefix(cs, cs.len() as int)
}

/// `insert_by_name` inserts exactly at the first position whose name is
/// greater.
proof fn lemma_insert_by_name_at(s: Seq<SpecClass>, cl: SpecClass, p: int)
    requires
        0 <= p <= s.len(),
        forall|k: int| 0 <= k < p ==> !lex_lt(cl.name, #[trigger] s[k].name),
        p < s.len() ==> lex_lt(cl.name, s[p].name),
    ensures
        insert_by_name(s, cl) == s.subrange(0, p) + seq![cl] + s.subrange(p, s.len() as int),
    decreases p,
{
    if p == 0 {
        assert(insert_by_name(s, cl) =~= s.subrange(0, 0) + seq![cl] + s.subrange(
            0,
            s.len() as int,
        ));
    } else {
        let t = s.subrange(1, s.len() as int);
        assert forall|k: int| 0 <= k < p - 1 implies !lex_lt(cl.name, #[trigger] t[k].name) by {
            assert(t[k] == s[k + 1]);
        }
        if p - 1 < t.len() {
            assert(t[p - 1] == s[p]);
        }
        lemma_insert_by_name_at(t, cl, p - 1);
        assert(insert_by_name(s, cl) =~= s.subrange(0, p) + seq![cl] + s.subrange(
            p,
            s.len() as int,
        ));
    }
}

/// Whether the class occurs in the list.
pub open spec fn class_in(s: Seq<SpecClass>, x: SpecClass) -> bool {
    exists|k: int| 0 <= k < s.len() && s[k] == x
}

/// Inserting a fresh name into a sorted list keeps it sorted and adds
/// exactly that class.
proof fn lemma_insert_by_name_props(s: Seq<SpecClass>, cl: SpecClass)
    requires
        sorted_by_name(s),
        forall|k: int| 0 <= k < s.len() ==> (#[trigger] s[k].name) != cl.name,
    ensures
        insert_by_name(s, cl).len() == s.len() + 1,
        sorted_by_name(insert_by_name(s, cl)),
        forall|k: int| 0 <= k < s.len() ==> class_in(insert_by_name(s, cl), #[trigger] s[k]),
        class_in(insert_by_name(s, cl), cl),
        forall|j: int|
            0 <= j < insert_by_name(s, cl).len() ==> (#[trigger] insert_by_name(s, cl)[j]) == cl
                || class_in(s, insert_by_name(s, cl)[j]),
    decreases s.len(),
{
    let r = insert_by_name(s, cl);
    if s.len() == 0 {
        assert(r[0] == cl);
        assert(class_in(r, cl));
    } else if lex_lt(cl.name, s[0].name) {
        assert(r == seq![cl] + s);
        assert(r[0] == cl);
        assert(class_in(r, cl));
        assert forall|i: int, j: int| 0 <= i < j < r.len() implies lex_lt(
            r[i].name,
            r[j].name,
        ) by {
            if i == 0 {
                if j > 1 {
                    lemma_lex_transitive(cl.name, s[0].name, s[j - 1].name);
                }
            } else {
                assert(r[i] == s[i - 1] && r[j] == s[j - 1]);
            }
        }
        assert forall|k: int| 0 <= k < s.len() implies class_in(r, #[trigger] s[k]) by {
            assert(r[k + 1] == s[k]);
        }
        assert forall|j: int|
            0 <= j < r.len() implies (#[trigger] r[j]) == cl || class_in(s, r[j]) by {
            if j > 0 {
                assert(s[j - 1] == r[j]);
                assert(class_in(s, r[j]));
            }
        }
    } else {
        let t = s.subrange(1, s.len() as int);
        lemma_lex_connected(cl.name, s[0].name);
        assert(lex_lt(s[0].name, cl.name));
        assert forall|k: int| 0 <= k < t.len() implies (#[trigger] t[k].name) != cl.name by {
            assert(t[k] == s[k + 1]);
        }
        lemma_insert_by_name_props(t, cl);
        let rt = insert_by_name(t, cl);
        assert(r == seq![s[0]] + rt);
        assert forall|i: int, j: int| 0 <= i < j < r.len() implies lex_lt(
            r[i].name,
            r[j].name,
        ) by {
            if i == 0 {
                assert(r[j] == rt[j - 1]);
                if rt[j - 1] == cl {
                } else {
                    assert(class_in(t, rt[j - 1]));
                    let k = choose|k: int| 0 <= k < t.len() && t[k] == rt[j - 1];
                    assert(t[k] == s[k + 1]);
                    assert(lex_lt(s[0].name, s[k + 1].name));
                }
            } else {
                assert(r[i] == rt[i - 1] && r[j] == rt[j - 1]);
            }
        }
        assert forall|k: int| 0 <= k < s.len() implies class_in(r, #[trigger] s[k]) by {
            if k == 0 {
                assert(r[0] == s[0]);
            } else {
                assert(t[k - 1] == s[k]);
                assert(class_in(rt, t[k - 1]));
                let j = choose|j: int| 0 <= j < rt.len() && rt[j] == t[k - 1];
                assert(r[j + 1] == rt[j]);
            }
        }
        assert(class_in(rt, cl));
        let jc = choose|j: int| 0 <= j < rt.len() && rt[j] == cl;
        assert(r[jc + 1] == cl);
        assert(class_in(r, cl));
        assert forall|j: int|
            0 <= j < r.len() implies (#[trigger] r[j]) == cl || class_in(s, r[j]) by {
            if j == 0 {
                assert(class_in(s, s[0]));
            } else {
                assert(r[j] == rt[j - 1]);
                if rt[j - 1] != cl {
                    assert(class_in(t, rt[j - 1]));
                    let k = choose|k: int| 0 <= k < t.len() && t[k] == rt[j - 1];
                    assert(s[k + 1] == r[j]);
                    assert(class_in(s, r[j]));
                }
            }
        }
    }
}

/// The sorted prefix holds exactly the first `i` classes, in strictly
/// increasing name order.
pub proof fn lemma_sort_prefix_props(cs: Seq<SpecClass>, i: int)
    requires
        0 <= i <= cs.len(),
        forall|a: int, b: int| 0 <= a < b < i ==> cs[a].name != cs[b].name,
    ensures
        sort_prefix(cs, i).len() == i,
        sorted_by_name(sort_prefix(cs, i)),
        forall|j: int| 0 <= j < i ==> class_in(sort_prefix(cs, i), #[trigger] cs[j]),
        forall|k: int|
            0 <= k < sort_prefix(cs, i).len() ==> class_in(
                cs.subrange(0, i),
                #[trigger] sort_prefix(cs, i)[k],
            ),
    decreases i,
{
    if i > 0 {
        lemma_sort_prefix_props(cs, i - 1);
        let prev = sort_prefix(cs, i - 1);
        let cl = cs[i - 1];
        let s = sort_prefix(cs, i);
        assert forall|k: int| 0 <= k < prev.len() implies (#[trigger] prev[k].name)
            != cl.name by {
            assert(class_in(cs.subrange(0, i - 1), prev[k]));
            let j = choose|j: int| 0 <= j < i - 1 && #[trigger] cs.subrange(0, i - 1)[j] == prev[k];
            assert(cs[j] == prev[k]);
            assert(cs[j].name != cs[i - 1].name);
        }
        lemma_insert_by_name_props(prev, cl);
        assert forall|j: int| 0 <= j < i implies class_in(s, #[trigger] cs[j]) by {
            if j < i - 1 {
                assert(class_in(prev, cs[j]));
                let k0 = choose|k: int| 0 <= k < prev.len() && prev[k] == cs[j];
                assert(class_in(s, prev[k0]));
            } else {
                assert(class_in(s, cl));
            }
        }
        assert forall|k: int|
            0 <= k < s.len() implies class_in(cs.subrange(0, i), #[trigger] s[k]) by {
            if s[k] == cl {
                assert(cs.subrange(0, i)[i - 1] == cl);
            } else {
                assert(class_in(prev, s[k]));
                let k0 = choose|k0: int| 0 <= k0 < prev.len() && prev[k0] == s[k];
                assert(class_in(cs.subrange(0, i - 1), prev[k0]));
                let j = choose|j: int| 0 <= j < i - 1 && #[trigger] cs.subrange(0, i - 1)[j] == prev[k0];
                assert(cs.subrange(0, i)[j] == s[k]);
            }
        }
    }
}

/// The first position of `v` whose class name is greater than `c`.
fn class_lower_bound(v: &Vec<ClassDefinition>, c: &ClassName) -> (p: usize)
    ensures
        p <= v@.len(),
        forall|k: int|
            0 <= k < p ==> !lex_lt(c@, #[trigger] crate::ast::view_classes(v@)[k].name),
        p < v@.len() ==> lex_lt(c@, crate::ast::view_classes(v@)[p as int].name),
{
    broadcast use crate::ast::group_ast_views;

    let n = v.len();
    let mut p: usize = 0;
    while p < n
        invariant
            p <= n,
            n == v@.len(),
            forall|k: int|
                0 <= k < p ==> !lex_lt(c@, #[trigger] crate::ast::view_classes(v@)[k].name),
        decreases n - p,
    {
        proof {
            crate::ast::lemma_view_classes(v@);
            assert(crate::ast::view_classes(v@)[p as int].name == v@[p as int]@.name);
        }
        if name_lt(c, &v[p].name) {
            return p;
        }
        p = p + 1;
    }
    n
}

/// Places a class into a name-sorted list of classes.
fn insert_class_sorted(v: &mut Vec<ClassDefinition>, c: ClassDefinition)
    ensures
        crate::ast::view_classes(final(v)@) == insert_by_name(
            crate::ast::view_classes(old(v)@),
            c@,
        ),
{
    broadcast use crate::ast::group_ast_views;

    let ghost before = crate::ast::view_classes(v@);
    let p = class_lower_bound(v, &c.name);
    proof {
        lemma_insert_by_name_at(before, c@, p as int);
    }
    v.insert(p, c);
    proof {
        crate::ast::lemma_view_classes(v@);
        assert(crate::ast::view_classes(v@) =~= before.subrange(0, p as int) + seq![c@]
            + before.subrange(p as int, before.len() as int));
    }
}

} // verus!
