//! Type soundness for the calculus: progress (a closed well-typed term is
//! a value, steps, or fails on a cast — never stuck) and preservation (a
//! step keeps a closed term well typed, at a subtype), with the evaluation
//! soundness that follows.

use vstd::prelude::*;
use crate::ast::{SpecClass, SpecTerm};
use crate::class_table::{
    contains_name, fields_of, lemma_fields_unfold, lemma_rank_decreases, lemma_subtype_transitive,
    lemma_subtype_unfold, mbody_fuel, mbody_of, mtype_fuel, mtype_of, rank_of, subtype, table_wf,
};
use crate::error::{SpecEvalError, SpecTypingError};
use crate::evaluation::{
    all_values, eval_full_spec, first_non_value, is_value_spec, lemma_all_values,
    lemma_first_non_value, step_spec, subst, subst_all, subst_many,
};
use crate::typecheck::{
    field_index, field_index_from, first_arg_fault, gamma_map, last_binding, lemma_gamma_map,
    method_gamma, typecheck_args_full, typecheck_full,
};
use crate::ast::{this_name, SpecMethod};
use crate::class_table::{class_shape_ok, method_args_unique, no_method_arg_named_this};

verus! {

/// When a list of argument terms checks, every argument checks, at the type
/// the list records for it.
proof fn lemma_args_typed(cs: Seq<SpecClass>, gamma: Map<Seq<char>, Seq<char>>, args: Seq<SpecTerm>)
    requires
        typecheck_args_full(cs, gamma, args).0 is Ok,
    ensures
        ({
            let ats = typecheck_args_full(cs, gamma, args).0->Ok_0;
            &&& ats.len() == args.len()
            &&& forall|i: int|
                0 <= i < args.len() ==> typecheck_full(cs, gamma, #[trigger] args[i]).0 == Ok::<
                    Seq<char>,
                    SpecTypingError,
                >(ats[i])
        }),
    decreases args,
{
    if args.len() > 0 {
        let rest = args.subrange(1, args.len() as int);
        lemma_args_typed(cs, gamma, rest);
        let ats = typecheck_args_full(cs, gamma, args).0->Ok_0;
        let rts = typecheck_args_full(cs, gamma, rest).0->Ok_0;
        assert forall|i: int|
            0 <= i < args.len() implies typecheck_full(cs, gamma, #[trigger] args[i]).0 == Ok::<
            Seq<char>,
            SpecTypingError,
        >(ats[i]) by {
            if i > 0 {
                assert(rest[i - 1] == args[i]);
                assert(ats[i] == rts[i - 1]);
            }
        }
    }
}

/// `mtype` and `mbody` find a method on exactly the same chains.
proof fn lemma_mtype_mbody(cs: Seq<SpecClass>, m: Seq<char>, c: Seq<char>, fuel: nat)
    ensures
        (mtype_fuel(cs, m, c, fuel) is Some) == (mbody_fuel(cs, m, c, fuel) is Some),
    decreases fuel,
{
    if crate::class_table::has_class(cs, c) && !crate::class_table::declares_method(
        crate::class_table::class_def(cs, c),
        m,
    ) && fuel > 0 {
        lemma_mtype_mbody(cs, m, crate::class_table::super_name(cs, c), (fuel - 1) as nat);
    }
}

/// A found field index lies within the field list.
proof fn lemma_field_index_bounds(flds: Seq<(Seq<char>, Seq<char>)>, f: Seq<char>, i: int)
    requires
        0 <= i,
    ensures
        field_index_from(flds, f, i) == -1 || (i <= field_index_from(flds, f, i) < flds.len()
            && flds[field_index_from(flds, f, i)].1 == f),
    decreases flds.len() - i,
{
    if i < flds.len() && flds[i].1 != f {
        lemma_field_index_bounds(flds, f, i + 1);
    }
}

/// Progress: a term that is well typed in the empty context is a value, or
/// reduction steps it, or reduction fails on a cast. It is never stuck and
/// never meets an undefined class, field, or method.
pub proof fn lemma_progress(cs: Seq<SpecClass>, t: SpecTerm)
    requires
        table_wf(cs),
        typecheck_full(cs, Map::<Seq<char>, Seq<char>>::empty(), t).0 is Ok,
    ensures
        is_value_spec(t) || step_spec(cs, t) is Ok || (step_spec(cs, t) matches Err(
            SpecEvalError::CastFailed(_, _),
        )),
    decreases t,
{
    let gamma = Map::<Seq<char>, Seq<char>>::empty();
    match t {
        SpecTerm::Variable(x) => {
            assert(!gamma.contains_key(x));
        },
        SpecTerm::FieldAccess(obj, f) => {
            let c0 = typecheck_full(cs, gamma, *obj).0->Ok_0;
            if is_value_spec(*obj) {
                match *obj {
                    SpecTerm::NewCall(c, oargs) => {
                        assert(c0 == c);
                        assert(contains_name(cs, c));
                        let flds = fields_of(cs, c);
                        let k = field_index(flds, f);
                        assert(k >= 0);
                        lemma_field_index_bounds(flds, f, 0);
                        let dts = flds.map_values(|p: (Seq<char>, Seq<char>)| p.0);
                        lemma_args_typed(cs, gamma, oargs);
                        let ats = typecheck_args_full(cs, gamma, oargs).0->Ok_0;
                        assert(ats.len() == dts.len());
                        assert(oargs.len() == flds.len());
                        assert(step_spec(cs, t) == Ok::<SpecTerm, SpecEvalError>(oargs[k]));
                    },
                    _ => {},
                }
            } else {
                lemma_progress(cs, *obj);
            }
        },
        SpecTerm::MethodCall(obj, m, args) => {
            let c0 = typecheck_full(cs, gamma, *obj).0->Ok_0;
            if is_value_spec(*obj) {
                if all_values(args) {
                    match *obj {
                        SpecTerm::NewCall(c, _) => {
                            assert(c0 == c);
                            assert(mtype_of(cs, m, c) is Some);
                            lemma_mtype_mbody(cs, m, c, cs.len() as nat);
                            assert(mbody_of(cs, m, c) is Some);
                            assert(step_spec(cs, t) is Ok);
                        },
                        _ => {},
                    }
                } else {
                    let k = first_non_value(args);
                    lemma_first_non_value(args, 0);
                    lemma_all_values(args);
                    assert(0 <= k < args.len());
                    lemma_args_typed(cs, gamma, args);
                    lemma_progress(cs, args[k]);
                    assert(!is_value_spec(args[k]));
                }
            } else {
                lemma_progress(cs, *obj);
            }
        },
        SpecTerm::NewCall(c, args) => {
            if all_values(args) {
                assert(is_value_spec(t));
            } else {
                let k = first_non_value(args);
                lemma_first_non_value(args, 0);
                lemma_all_values(args);
                assert(0 <= k < args.len());
                lemma_args_typed(cs, gamma, args);
                lemma_progress(cs, args[k]);
                assert(!is_value_spec(args[k]));
            }
        },
        SpecTerm::Cast(to, t1) => {
            let d = typecheck_full(cs, gamma, *t1).0->Ok_0;
            if is_value_spec(*t1) {
                match *t1 {
                    SpecTerm::NewCall(c, _) => {
                        assert(d == c);
                        assert(contains_name(cs, c) && contains_name(cs, to));
                        if subtype(cs, c, to) {
                            assert(step_spec(cs, t) is Ok);
                        } else {
                            assert(step_spec(cs, t) == Err::<SpecTerm, SpecEvalError>(
                                SpecEvalError::CastFailed(c, to),
                            ));
                        }
                    },
                    _ => {},
                }
            } else {
                lemma_progress(cs, *t1);
            }
        },
    }
}

// ------------------------------------------------------------------
// Preservation
// ------------------------------------------------------------------

/// No fault among the argument pairs means every remaining pair passes both
/// definedness and subtyping.
proof fn lemma_fault_none(cs: Seq<SpecClass>, ats: Seq<Seq<char>>, dts: Seq<Seq<char>>, i: int)
    requires
        0 <= i,
        first_arg_fault(cs, ats, dts, i) < 0,
    ensures
        forall|k: int|
            i <= k < ats.len() && k < dts.len() ==> contains_name(cs, #[trigger] ats[k])
                && contains_name(cs, dts[k]) && subtype(cs, ats[k], dts[k]),
    decreases ats.len() - i,
{
    if i < ats.len() && i < dts.len() {
        lemma_fault_none(cs, ats, dts, i + 1);
    }
}

/// Every remaining pair passing means no fault is found.
proof fn lemma_fault_none_intro(cs: Seq<SpecClass>, ats: Seq<Seq<char>>, dts: Seq<Seq<char>>, i: int)
    requires
        0 <= i,
        forall|k: int|
            i <= k < ats.len() && k < dts.len() ==> contains_name(cs, #[trigger] ats[k])
                && contains_name(cs, dts[k]) && subtype(cs, ats[k], dts[k]),
    ensures
        first_arg_fault(cs, ats, dts, i) == -1,
    decreases ats.len() - i,
{
    if i < ats.len() && i < dts.len() {
        lemma_fault_none_intro(cs, ats, dts, i + 1);
    }
}

/// Retyping one argument retypes the list pointwise.
proof fn lemma_args_typed_update(
    cs: Seq<SpecClass>,
    gamma: Map<Seq<char>, Seq<char>>,
    args: Seq<SpecTerm>,
    k: int,
    a2: SpecTerm,
)
    requires
        typecheck_args_full(cs, gamma, args).0 is Ok,
        0 <= k < args.len(),
        typecheck_full(cs, gamma, a2).0 is Ok,
    ensures
        ({
            let ats = typecheck_args_full(cs, gamma, args).0->Ok_0;
            let c2 = typecheck_full(cs, gamma, a2).0->Ok_0;
            typecheck_args_full(cs, gamma, args.update(k, a2)).0 == Ok::<
                Seq<Seq<char>>,
                SpecTypingError,
            >(ats.update(k, c2))
        }),
    decreases args,
{
    let ats = typecheck_args_full(cs, gamma, args).0->Ok_0;
    let c2 = typecheck_full(cs, gamma, a2).0->Ok_0;
    let upd = args.update(k, a2);
    let rest = args.subrange(1, args.len() as int);
    let c = typecheck_full(cs, gamma, args[0]).0->Ok_0;
    let rts = typecheck_args_full(cs, gamma, rest).0->Ok_0;
    assert(typecheck_full(cs, gamma, args[0]).0 is Ok);
    assert(typecheck_args_full(cs, gamma, rest).0 is Ok);
    lemma_args_typed(cs, gamma, args);
    lemma_args_typed(cs, gamma, rest);
    assert(ats.len() == args.len());
    assert(rts.len() == rest.len());
    assert(ats == seq![c] + rts);
    if k == 0 {
        assert(upd[0] == a2);
        assert(upd.subrange(1, upd.len() as int) =~= rest);
        assert(typecheck_args_full(cs, gamma, upd).0 == Ok::<Seq<Seq<char>>, SpecTypingError>(
            seq![c2] + rts,
        ));
        assert(seq![c2] + rts =~= ats.update(0, c2));
    } else {
        assert(upd[0] == args[0]);
        assert(upd.subrange(1, upd.len() as int) =~= rest.update(k - 1, a2));
        lemma_args_typed_update(cs, gamma, rest, k - 1, a2);
        assert(typecheck_args_full(cs, gamma, upd.subrange(1, upd.len() as int)).0 == Ok::<
            Seq<Seq<char>>,
            SpecTypingError,
        >(rts.update(k - 1, c2)));
        assert(upd.len() == args.len());
        assert(typecheck_full(cs, gamma, upd[0]).0 == Ok::<Seq<char>, SpecTypingError>(c));
        assert(typecheck_args_full(cs, gamma, upd).0 == Ok::<Seq<Seq<char>>, SpecTypingError>(
            seq![c] + rts.update(k - 1, c2),
        ));
        assert forall|x: int| 0 <= x < ats.len() implies (seq![c] + rts.update(k - 1, c2))[x]
            == ats.update(k, c2)[x] by {
            if x == 0 {
            } else if x == k {
                assert((seq![c] + rts.update(k - 1, c2))[x] == rts.update(k - 1, c2)[x - 1]);
            } else {
                assert(ats.len() == 1 + rts.len());
                assert(rts.update(k - 1, c2).len() == rts.len());
                assert(0 < x < 1 + rts.len());
                assert((seq![c] + rts.update(k - 1, c2))[x] == rts.update(k - 1, c2)[x - 1]);
                assert(rts.update(k - 1, c2)[x - 1] == rts[x - 1]);
                assert(ats[x] == rts[x - 1]);
            }
        }
        assert(seq![c] + rts.update(k - 1, c2) =~= ats.update(k, c2));
    }
}

/// Below a subtype, the supertype's fields stand first.
proof fn lemma_fields_prefix_subtype(cs: Seq<SpecClass>, c: Seq<char>, d: Seq<char>)
    requires
        table_wf(cs),
        subtype(cs, c, d),
    ensures
        fields_of(cs, d).len() <= fields_of(cs, c).len(),
        fields_of(cs, d) == fields_of(cs, c).subrange(0, fields_of(cs, d).len() as int),
    decreases rank_of(cs, c),
{
    if c == d {
        assert(fields_of(cs, d) =~= fields_of(cs, c).subrange(0, fields_of(cs, d).len() as int));
    } else {
        assert(crate::class_table::has_class(cs, c));
        lemma_subtype_unfold(cs, c, d);
        lemma_rank_decreases(cs, c);
        let sup = crate::class_table::super_name(cs, c);
        lemma_fields_prefix_subtype(cs, sup, d);
        lemma_fields_unfold(cs, c);
        assert(fields_of(cs, d) =~= fields_of(cs, c).subrange(0, fields_of(cs, d).len() as int));
    }
}

/// The first match of a field name in a list agrees with the first match in
/// any extension of it.
proof fn lemma_field_index_prefix(
    short: Seq<(Seq<char>, Seq<char>)>,
    long: Seq<(Seq<char>, Seq<char>)>,
    f: Seq<char>,
    i: int,
)
    requires
        0 <= i,
        short.len() <= long.len(),
        short == long.subrange(0, short.len() as int),
        field_index_from(short, f, i) >= 0,
    ensures
        field_index_from(long, f, i) == field_index_from(short, f, i),
    decreases short.len() - i,
{
    assert(i < short.len());
    assert(short[i] == long[i]);
    if short[i].1 != f {
        lemma_field_index_prefix(short, long, f, i + 1);
    }
}

/// A subtype of a defined name is defined.
proof fn lemma_subtype_defined(cs: Seq<SpecClass>, c: Seq<char>, d: Seq<char>)
    requires
        subtype(cs, c, d),
        contains_name(cs, d),
    ensures
        contains_name(cs, c),
{
}

/// Preservation at a field access.
proof fn lemma_preservation_field(cs: Seq<SpecClass>, t: SpecTerm, t2: SpecTerm)
    requires
        table_wf(cs),
        classes_checked(cs),
        typecheck_full(cs, Map::<Seq<char>, Seq<char>>::empty(), t).0 is Ok,
        step_spec(cs, t) == Ok::<SpecTerm, SpecEvalError>(t2),
        t is FieldAccess,
    ensures
        typecheck_full(cs, Map::<Seq<char>, Seq<char>>::empty(), t2).0 is Ok,
        subtype(
            cs,
            typecheck_full(cs, Map::<Seq<char>, Seq<char>>::empty(), t2).0->Ok_0,
            typecheck_full(cs, Map::<Seq<char>, Seq<char>>::empty(), t).0->Ok_0,
        ),
    decreases t, 0int,
{
    let gamma = Map::<Seq<char>, Seq<char>>::empty();
    let obj = t->FieldAccess_0;
    let f = t->FieldAccess_1;
    let c0 = typecheck_full(cs, gamma, *obj).0->Ok_0;
    let flds = fields_of(cs, c0);
    let k = field_index(flds, f);
    assert(k >= 0);
    lemma_field_index_bounds(flds, f, 0);
    let cf = flds[k].0;
    if is_value_spec(*obj) {
        match *obj {
            SpecTerm::NewCall(c, oargs) => {
                // the projected argument was checked against the field's
                // declared type
                lemma_args_typed(cs, gamma, oargs);
                let ats = typecheck_args_full(cs, gamma, oargs).0->Ok_0;
                let dts = flds.map_values(|p: (Seq<char>, Seq<char>)| p.0);
                lemma_fault_none(cs, ats, dts, 0);
                assert(t2 == oargs[k]);
                assert(typecheck_full(cs, gamma, t2).0 == Ok::<Seq<char>, SpecTypingError>(ats[k]));
                assert(dts[k] == cf);
                assert(subtype(cs, ats[k], cf));
            },
            _ => {
                assert(!is_value_spec(*obj));
                assert(false);
            },
        }
    } else {
        let o2 = step_spec(cs, *obj)->Ok_0;
        lemma_preservation(cs, *obj, o2);
        let c0n = typecheck_full(cs, gamma, o2).0->Ok_0;
        lemma_subtype_defined(cs, c0n, c0);
        lemma_fields_prefix_subtype(cs, c0n, c0);
        let fldsn = fields_of(cs, c0n);
        lemma_field_index_prefix(flds, fldsn, f, 0);
        assert(fldsn[k] == flds[k]);
        assert(t2 == SpecTerm::FieldAccess(Box::new(o2), f));
        assert(typecheck_full(cs, gamma, t2).0 == Ok::<Seq<char>, SpecTypingError>(cf));
        crate::class_table::lemma_subtype_reflexive(cs, cf);
    }
}

/// Preservation at an object construction.
proof fn lemma_preservation_new(cs: Seq<SpecClass>, t: SpecTerm, t2: SpecTerm)
    requires
        table_wf(cs),
        classes_checked(cs),
        typecheck_full(cs, Map::<Seq<char>, Seq<char>>::empty(), t).0 is Ok,
        step_spec(cs, t) == Ok::<SpecTerm, SpecEvalError>(t2),
        t is NewCall,
    ensures
        typecheck_full(cs, Map::<Seq<char>, Seq<char>>::empty(), t2).0 is Ok,
        subtype(
            cs,
            typecheck_full(cs, Map::<Seq<char>, Seq<char>>::empty(), t2).0->Ok_0,
            typecheck_full(cs, Map::<Seq<char>, Seq<char>>::empty(), t).0->Ok_0,
        ),
    decreases t, 0int,
{
    let gamma = Map::<Seq<char>, Seq<char>>::empty();
    let c = t->NewCall_0;
    let args = t->NewCall_1;
    let dts = fields_of(cs, c).map_values(|p: (Seq<char>, Seq<char>)| p.0);
    if all_values(args) {
        assert(t2 == t);
        crate::class_table::lemma_subtype_reflexive(cs, c);
    } else {
        let k = first_non_value(args);
        lemma_first_non_value(args, 0);
        lemma_all_values(args);
        lemma_args_typed(cs, gamma, args);
        let ats = typecheck_args_full(cs, gamma, args).0->Ok_0;
        let a2 = step_spec(cs, args[k])->Ok_0;
        lemma_preservation(cs, args[k], a2);
        let cn = typecheck_full(cs, gamma, a2).0->Ok_0;
        lemma_args_typed_update(cs, gamma, args, k, a2);
        assert(t2 == SpecTerm::NewCall(c, args.update(k, a2)));
        lemma_fault_none(cs, ats, dts, 0);
        let atsn = ats.update(k, cn);
        assert forall|x: int|
            0 <= x < atsn.len() && x < dts.len() implies contains_name(cs, #[trigger] atsn[x])
            && contains_name(cs, dts[x]) && subtype(cs, atsn[x], dts[x]) by {
            if x == k {
                lemma_subtype_defined(cs, cn, ats[k]);
                lemma_subtype_transitive(cs, cn, ats[k], dts[k]);
            }
        }
        lemma_fault_none_intro(cs, atsn, dts, 0);
        assert(typecheck_full(cs, gamma, t2).0 == Ok::<Seq<char>, SpecTypingError>(c));
        crate::class_table::lemma_subtype_reflexive(cs, c);
    }
}

/// Preservation at a cast.
proof fn lemma_preservation_cast(cs: Seq<SpecClass>, t: SpecTerm, t2: SpecTerm)
    requires
        table_wf(cs),
        classes_checked(cs),
        typecheck_full(cs, Map::<Seq<char>, Seq<char>>::empty(), t).0 is Ok,
        step_spec(cs, t) == Ok::<SpecTerm, SpecEvalError>(t2),
        t is Cast,
    ensures
        typecheck_full(cs, Map::<Seq<char>, Seq<char>>::empty(), t2).0 is Ok,
        subtype(
            cs,
            typecheck_full(cs, Map::<Seq<char>, Seq<char>>::empty(), t2).0->Ok_0,
            typecheck_full(cs, Map::<Seq<char>, Seq<char>>::empty(), t).0->Ok_0,
        ),
    decreases t, 0int,
{
    let gamma = Map::<Seq<char>, Seq<char>>::empty();
    let to = t->Cast_0;
    let t1 = t->Cast_1;
    let d = typecheck_full(cs, gamma, *t1).0->Ok_0;
    if is_value_spec(*t1) {
        match *t1 {
            SpecTerm::NewCall(c, _) => {
                assert(t2 == *t1);
                assert(subtype(cs, c, to));
                assert(typecheck_full(cs, gamma, t2).0 == Ok::<Seq<char>, SpecTypingError>(c));
            },
            _ => {
                assert(!is_value_spec(*t1));
                assert(false);
            },
        }
    } else {
        let s2 = step_spec(cs, *t1)->Ok_0;
        lemma_preservation(cs, *t1, s2);
        let dn = typecheck_full(cs, gamma, s2).0->Ok_0;
        lemma_subtype_defined(cs, dn, d);
        assert(t2 == SpecTerm::Cast(to, Box::new(s2)));
        if !subtype(cs, dn, to) && subtype(cs, to, dn) && to == dn {
            crate::class_table::lemma_subtype_reflexive(cs, to);
        }
        assert(typecheck_full(cs, gamma, t2).0 == Ok::<Seq<char>, SpecTypingError>(to));
        crate::class_table::lemma_subtype_reflexive(cs, to);
    }
}

/// Preservation at a method call. The interesting rule substitutes the
/// receiver and the arguments into the method body; the body is typed by
/// the declaring class's check, and substitution keeps it typed.
proof fn lemma_preservation_call(cs: Seq<SpecClass>, t: SpecTerm, t2: SpecTerm)
    requires
        table_wf(cs),
        classes_checked(cs),
        typecheck_full(cs, Map::<Seq<char>, Seq<char>>::empty(), t).0 is Ok,
        step_spec(cs, t) == Ok::<SpecTerm, SpecEvalError>(t2),
        t is MethodCall,
    ensures
        typecheck_full(cs, Map::<Seq<char>, Seq<char>>::empty(), t2).0 is Ok,
        subtype(
            cs,
            typecheck_full(cs, Map::<Seq<char>, Seq<char>>::empty(), t2).0->Ok_0,
            typecheck_full(cs, Map::<Seq<char>, Seq<char>>::empty(), t).0->Ok_0,
        ),
    decreases t, 0int,
{
    let empty = Map::<Seq<char>, Seq<char>>::empty();
    let obj = t->MethodCall_0;
    let m = t->MethodCall_1;
    let args = t->MethodCall_2;
    let c0 = typecheck_full(cs, empty, *obj).0->Ok_0;
    let mt = mtype_of(cs, m, c0)->Some_0;
    lemma_args_typed(cs, empty, args);
    let ats = typecheck_args_full(cs, empty, args).0->Ok_0;
    if is_value_spec(*obj) {
        if all_values(args) {
            match *obj {
                SpecTerm::NewCall(c, _) => {
                    assert(c0 == c);
                    // the declaring class, its checked method, and the body
                    lemma_mdecl(cs, m, c, cs.len() as nat);
                    let d = mdecl_fuel(cs, m, c, cs.len() as nat)->Some_0;
                    let dcl = crate::class_table::class_def(cs, d);
                    let mm = crate::class_table::method_in_class(dcl, m);
                    let di = crate::class_table::class_index(cs, d);
                    assert(0 <= di < cs.len() && cs[di].name == d);
                    assert(class_shape_ok(cs[di]));
                    let k = choose|k: int|
                        0 <= k < dcl.methods.len() && dcl.methods[k].method_name == m;
                    assert(0 <= k < dcl.methods.len() && dcl.methods[k].method_name == m);
                    assert(mm == dcl.methods[k]);
                    assert(crate::typecheck::typecheck_class_full(cs, cs[di]).0 is Ok);
                    crate::typecheck::lemma_methods_full_ok(cs, dcl, 0, k);
                    assert(crate::typecheck::typecheck_method_full(cs, mm, d).0 is Ok);
                    let g = method_gamma(d, mm);
                    let e0 = typecheck_full(cs, g, mm.return_term).0->Ok_0;
                    assert(typecheck_full(cs, g, mm.return_term).0 is Ok);
                    assert(subtype(cs, e0, mm.return_type));
                    assert(method_args_unique(mm) && no_method_arg_named_this(mm));
                    lemma_method_gamma(d, mm);
                    // the replacement list: `this`, then the arguments
                    let mb = crate::class_table::implementation_of(mm);
                    let reps = seq![(this_name(), *obj)] + crate::evaluation::zip_pairs(
                        mb.args,
                        args,
                    );
                    crate::evaluation::lemma_zip_pairs(mb.args, args);
                    assert(mb.args.len() == mm.args.len());
                    assert(mt.arg_types.len() == mm.args.len());
                    assert(ats.len() == args.len());
                    assert(args.len() == mm.args.len());
                    assert(reps.len() == 1 + args.len());
                    assert forall|i: int|
                        0 <= i < args.len() implies (#[trigger] reps[i + 1]).0 == mm.args[i].1
                        && reps[i + 1].1 == args[i] by {
                        assert(reps[i + 1] == crate::evaluation::zip_pairs(mb.args, args)[i]);
                        assert(mb.args[i] == mm.args[i].1);
                    }
                    assert(reps[0] == (this_name(), *obj));
                    // distinct replacement names
                    assert forall|i: int, j: int|
                        0 <= i < j < reps.len() implies reps[i].0 != reps[j].0 by {
                        if i == 0 {
                            assert(reps[j].0 == mm.args[j - 1].1);
                        } else {
                            assert(reps[i].0 == mm.args[i - 1].1);
                            assert(reps[j].0 == mm.args[j - 1].1);
                        }
                    }
                    // the context binds exactly the replacement names
                    assert forall|z: Seq<char>|
                        #[trigger] g.contains_key(z) <==> exists|i: int|
                            0 <= i < reps.len() && (#[trigger] reps[i]).0 == z by {
                        if g.contains_key(z) {
                            if z == this_name() {
                                assert(reps[0].0 == z);
                            } else {
                                let i = choose|i: int|
                                    0 <= i < mm.args.len() && (#[trigger] mm.args[i]).1 == z;
                                assert(reps[i + 1].0 == z);
                            }
                        }
                        if exists|i: int| 0 <= i < reps.len() && (#[trigger] reps[i]).0 == z {
                            let i = choose|i: int|
                                0 <= i < reps.len() && (#[trigger] reps[i]).0 == z;
                            if i == 0 {
                                assert(g.contains_key(this_name()));
                            } else {
                                assert(mm.args[i - 1].1 == z);
                            }
                        }
                    }
                    // every replacement is a closed well-typed value at a
                    // subtype of its declared type
                    lemma_fault_none(cs, ats, mt.arg_types, 0);
                    assert forall|i: int|
                        0 <= i < reps.len() implies {
                        &&& is_value_spec((#[trigger] reps[i]).1)
                        &&& typecheck_full(cs, empty, reps[i].1).0 is Ok
                        &&& subtype(
                            cs,
                            typecheck_full(cs, empty, reps[i].1).0->Ok_0,
                            g[reps[i].0],
                        )
                    } by {
                        if i == 0 {
                            assert(g[this_name()] == d);
                        } else {
                            lemma_all_values(args);
                            assert(is_value_spec(args[i - 1]));
                            assert(typecheck_full(cs, empty, args[i - 1]).0 == Ok::<
                                Seq<char>,
                                SpecTypingError,
                            >(ats[i - 1]));
                            assert(g[mm.args[i - 1].1] == mm.args[i - 1].0);
                            assert(mt.arg_types[i - 1] == mm.args[i - 1].0);
                            assert(subtype(cs, ats[i - 1], mt.arg_types[i - 1]));
                        }
                    }
                    lemma_subst_many_typed(cs, g, mm.return_term, reps);
                    assert(t2 == subst_many(mm.return_term, reps));
                    let dd = typecheck_full(cs, empty, t2).0->Ok_0;
                    lemma_subtype_transitive(cs, dd, e0, mm.return_type);
                    assert(mt.ret_type == mm.return_type);
                },
                _ => {
                    assert(false);
                },
            }
        } else {
            // one argument steps
            let k = first_non_value(args);
            lemma_first_non_value(args, 0);
            lemma_all_values(args);
            let a2 = step_spec(cs, args[k])->Ok_0;
            lemma_preservation(cs, args[k], a2);
            let cn = typecheck_full(cs, empty, a2).0->Ok_0;
            lemma_args_typed_update(cs, empty, args, k, a2);
            assert(t2 == SpecTerm::MethodCall(obj, m, args.update(k, a2)));
            lemma_fault_none(cs, ats, mt.arg_types, 0);
            let atsn = ats.update(k, cn);
            assert forall|x: int|
                0 <= x < atsn.len() && x < mt.arg_types.len() implies contains_name(
                cs,
                #[trigger] atsn[x],
            ) && contains_name(cs, mt.arg_types[x]) && subtype(cs, atsn[x], mt.arg_types[x]) by {
                if x == k {
                    lemma_subtype_defined(cs, cn, ats[k]);
                    lemma_subtype_transitive(cs, cn, ats[k], mt.arg_types[k]);
                }
            }
            lemma_fault_none_intro(cs, atsn, mt.arg_types, 0);
            assert(typecheck_full(cs, empty, t2).0 == Ok::<Seq<char>, SpecTypingError>(
                mt.ret_type,
            ));
            crate::class_table::lemma_subtype_reflexive(cs, mt.ret_type);
        }
    } else {
        // the receiver steps
        let o2 = step_spec(cs, *obj)->Ok_0;
        lemma_preservation(cs, *obj, o2);
        let c0n = typecheck_full(cs, empty, o2).0->Ok_0;
        lemma_mtype_mono(cs, m, c0n, c0);
        assert(t2 == SpecTerm::MethodCall(Box::new(o2), m, args));
        assert(typecheck_full(cs, empty, t2).0 == Ok::<Seq<char>, SpecTypingError>(mt.ret_type));
        crate::class_table::lemma_subtype_reflexive(cs, mt.ret_type);
    }
}

/// Preservation (subject reduction): when a closed well-typed term of a
/// well-formed, fully checked program takes a step, the result is well
/// typed at a subtype of the original type.
pub proof fn lemma_preservation(cs: Seq<SpecClass>, t: SpecTerm, t2: SpecTerm)
    requires
        table_wf(cs),
        classes_checked(cs),
        typecheck_full(cs, Map::<Seq<char>, Seq<char>>::empty(), t).0 is Ok,
        step_spec(cs, t) == Ok::<SpecTerm, SpecEvalError>(t2),
    ensures
        typecheck_full(cs, Map::<Seq<char>, Seq<char>>::empty(), t2).0 is Ok,
        subtype(
            cs,
            typecheck_full(cs, Map::<Seq<char>, Seq<char>>::empty(), t2).0->Ok_0,
            typecheck_full(cs, Map::<Seq<char>, Seq<char>>::empty(), t).0->Ok_0,
        ),
    decreases t, 1int,
{
    let gamma = Map::<Seq<char>, Seq<char>>::empty();
    match t {
        SpecTerm::Variable(x) => {
            assert(!gamma.contains_key(x));
            assert(false);
        },
        SpecTerm::MethodCall(_, _, _) => {
            lemma_preservation_call(cs, t, t2);
        },
        SpecTerm::FieldAccess(_, _) => {
            lemma_preservation_field(cs, t, t2);
        },
        SpecTerm::NewCall(_, _) => {
            lemma_preservation_new(cs, t, t2);
        },
        SpecTerm::Cast(_, _) => {
            lemma_preservation_cast(cs, t, t2);
        },
    }
}

/// Evaluation soundness: running a closed well-typed term of a fully
/// checked program ends in a value of a subtype of the term's type, fails
/// on a cast, or runs out of steps — never in any other error.
pub proof fn lemma_eval_sound(cs: Seq<SpecClass>, t: SpecTerm, fuel: nat)
    requires
        table_wf(cs),
        classes_checked(cs),
        typecheck_full(cs, Map::<Seq<char>, Seq<char>>::empty(), t).0 is Ok,
    ensures
        match eval_full_spec(cs, t, fuel) {
            Ok(v) => is_value_spec(v) && typecheck_full(
                cs,
                Map::<Seq<char>, Seq<char>>::empty(),
                v,
            ).0 is Ok && subtype(
                cs,
                typecheck_full(cs, Map::<Seq<char>, Seq<char>>::empty(), v).0->Ok_0,
                typecheck_full(cs, Map::<Seq<char>, Seq<char>>::empty(), t).0->Ok_0,
            ),
            Err(e) => e matches SpecEvalError::CastFailed(_, _) || e matches
                SpecEvalError::StepLimitReached(_),
        },
    decreases fuel,
{
    let gamma = Map::<Seq<char>, Seq<char>>::empty();
    if is_value_spec(t) {
        crate::class_table::lemma_subtype_reflexive(cs, typecheck_full(cs, gamma, t).0->Ok_0);
    } else if fuel > 0 {
        lemma_progress(cs, t);
        match step_spec(cs, t) {
            Ok(t2) => {
                lemma_preservation(cs, t, t2);
                lemma_eval_sound(cs, t2, (fuel - 1) as nat);
                if eval_full_spec(cs, t2, (fuel - 1) as nat) is Ok {
                    let v = eval_full_spec(cs, t2, (fuel - 1) as nat)->Ok_0;
                    lemma_subtype_transitive(
                        cs,
                        typecheck_full(cs, gamma, v).0->Ok_0,
                        typecheck_full(cs, gamma, t2).0->Ok_0,
                        typecheck_full(cs, gamma, t).0->Ok_0,
                    );
                }
            },
            Err(_) => {},
        }
    }
}

// ------------------------------------------------------------------
// What preservation rests on: closed values, the declaring class of a
// method, lookup monotone under subtyping, and substitution typing
// ------------------------------------------------------------------

/// A value's type does not depend on the context: values hold no variables.
proof fn lemma_value_types_anywhere(
    cs: Seq<SpecClass>,
    g1: Map<Seq<char>, Seq<char>>,
    g2: Map<Seq<char>, Seq<char>>,
    v: SpecTerm,
)
    requires
        is_value_spec(v),
    ensures
        typecheck_full(cs, g1, v).0 == typecheck_full(cs, g2, v).0,
    decreases v,
{
    match v {
        SpecTerm::NewCall(c, args) => {
            lemma_all_values(args);
            lemma_values_type_anywhere(cs, g1, g2, args);
        },
        _ => {},
    }
}

/// The argument-list form of `lemma_value_types_anywhere`.
proof fn lemma_values_type_anywhere(
    cs: Seq<SpecClass>,
    g1: Map<Seq<char>, Seq<char>>,
    g2: Map<Seq<char>, Seq<char>>,
    vs: Seq<SpecTerm>,
)
    requires
        forall|i: int| 0 <= i < vs.len() ==> is_value_spec(#[trigger] vs[i]),
    ensures
        typecheck_args_full(cs, g1, vs).0 == typecheck_args_full(cs, g2, vs).0,
    decreases vs,
{
    if vs.len() > 0 {
        lemma_value_types_anywhere(cs, g1, g2, vs[0]);
        let rest = vs.subrange(1, vs.len() as int);
        assert forall|i: int| 0 <= i < rest.len() implies is_value_spec(#[trigger] rest[i]) by {
            assert(rest[i] == vs[i + 1]);
        }
        lemma_values_type_anywhere(cs, g1, g2, rest);
    }
}

/// The class on the chain of `c` that declares `m`: the one `mtype` and
/// `mbody` read.
pub open spec fn mdecl_fuel(cs: Seq<SpecClass>, m: Seq<char>, c: Seq<char>, fuel: nat) -> Option<
    Seq<char>,
>
    decreases fuel,
{
    if !crate::class_table::has_class(cs, c) {
        None
    } else if crate::class_table::declares_method(crate::class_table::class_def(cs, c), m) {
        Some(c)
    } else if fuel == 0 {
        None
    } else {
        mdecl_fuel(cs, m, crate::class_table::super_name(cs, c), (fuel - 1) as nat)
    }
}

/// `mtype` and `mbody` read the method off the declaring class, which the
/// receiver's class is a subtype of.
proof fn lemma_mdecl(cs: Seq<SpecClass>, m: Seq<char>, c: Seq<char>, fuel: nat)
    ensures
        (mtype_fuel(cs, m, c, fuel) is Some) == (mdecl_fuel(cs, m, c, fuel) is Some),
        mdecl_fuel(cs, m, c, fuel) matches Some(d) ==> {
            let mm = crate::class_table::method_in_class(crate::class_table::class_def(cs, d), m);
            &&& crate::class_table::has_class(cs, d)
            &&& crate::class_table::declares_method(crate::class_table::class_def(cs, d), m)
            &&& mtype_fuel(cs, m, c, fuel) == Some(crate::class_table::signature_of(mm))
            &&& mbody_fuel(cs, m, c, fuel) == Some(crate::class_table::implementation_of(mm))
            &&& crate::class_table::subtype_fuel(cs, c, d, fuel)
        },
    decreases fuel,
{
    if crate::class_table::has_class(cs, c) && !crate::class_table::declares_method(
        crate::class_table::class_def(cs, c),
        m,
    ) && fuel > 0 {
        lemma_mdecl(cs, m, crate::class_table::super_name(cs, c), (fuel - 1) as nat);
    }
}

/// That every class of the table checks.
pub open spec fn classes_checked(cs: Seq<SpecClass>) -> bool {
    forall|i: int|
        0 <= i < cs.len() ==> (#[trigger] crate::typecheck::typecheck_class_full(cs, cs[i]).0)
            is Ok
}

/// Below a class that has `m`, `mtype` never changes: subclasses that
/// redeclare `m` keep its signature, because their checks passed.
proof fn lemma_mtype_mono(cs: Seq<SpecClass>, m: Seq<char>, c2: Seq<char>, c: Seq<char>)
    requires
        table_wf(cs),
        classes_checked(cs),
        subtype(cs, c2, c),
        mtype_of(cs, m, c) is Some,
    ensures
        mtype_of(cs, m, c2) == mtype_of(cs, m, c),
    decreases rank_of(cs, c2),
{
    if c2 != c {
        assert(crate::class_table::has_class(cs, c2));
        lemma_subtype_unfold(cs, c2, c);
        lemma_rank_decreases(cs, c2);
        let sup = crate::class_table::super_name(cs, c2);
        lemma_mtype_mono(cs, m, sup, c);
        crate::class_table::lemma_mtype_unfold(cs, m, c2);
        if crate::class_table::declares_method(crate::class_table::class_def(cs, c2), m) {
            let i = crate::class_table::class_index(cs, c2);
            assert(0 <= i < cs.len() && cs[i].name == c2);
            assert(crate::typecheck::typecheck_class_full(cs, cs[i]).0 is Ok);
            crate::typecheck::lemma_mtype_override(cs, m, c2);
        }
    }
}

/// A name that is bound somewhere has a deciding (last) binding.
proof fn lemma_last_binding_exists(ps: Seq<(Seq<char>, Seq<char>)>, n: Seq<char>, i: int)
    requires
        0 <= i < ps.len(),
        ps[i].0 == n,
    ensures
        last_binding(ps, n) >= i,
    decreases ps.len(),
{
    if ps.len() > 0 && ps.last().0 != n {
        assert(ps.drop_last()[i] == ps[i]);
        lemma_last_binding_exists(ps.drop_last(), n, i);
    }
}

/// A method's typing context binds `this` at the enclosing class and each
/// argument at its declared type, and nothing else.
proof fn lemma_method_gamma(c: Seq<char>, mm: SpecMethod)
    requires
        method_args_unique(mm),
        no_method_arg_named_this(mm),
    ensures
        ({
            let g = method_gamma(c, mm);
            &&& g.contains_key(this_name()) && g[this_name()] == c
            &&& forall|i: int|
                0 <= i < mm.args.len() ==> g.contains_key(#[trigger] mm.args[i].1)
                    && g[mm.args[i].1] == mm.args[i].0
            &&& forall|z: Seq<char>|
                g.contains_key(z) ==> z == this_name() || exists|i: int|
                    0 <= i < mm.args.len() && (#[trigger] mm.args[i]).1 == z
        }),
{
    let swapped = mm.args.map_values(|p: (Seq<char>, Seq<char>)| (p.1, p.0));
    let ps = seq![(this_name(), c)] + swapped;
    assert(ps.len() == 1 + mm.args.len());
    assert forall|k: int| 0 <= k < mm.args.len() implies ps[k + 1] == (
        #[trigger] mm.args[k].1,
        mm.args[k].0,
    ) by {
        assert(swapped[k] == (mm.args[k].1, mm.args[k].0));
    }
    assert(ps[0] == (this_name(), c));
    // this: bound at position zero and nowhere later
    lemma_gamma_map(ps, this_name());
    lemma_last_binding_exists(ps, this_name(), 0);
    let lb0 = last_binding(ps, this_name());
    assert(0 <= lb0 < ps.len() && ps[lb0].0 == this_name());
    if lb0 > 0 {
        assert(mm.args[lb0 - 1].1 == this_name());
        assert(false);
    }
    // each argument: bound exactly once
    assert forall|i: int|
        0 <= i < mm.args.len() implies method_gamma(c, mm).contains_key(#[trigger] mm.args[i].1)
        && method_gamma(c, mm)[mm.args[i].1] == mm.args[i].0 by {
        let z = mm.args[i].1;
        lemma_gamma_map(ps, z);
        lemma_last_binding_exists(ps, z, i + 1);
        let lb = last_binding(ps, z);
        assert(0 <= lb < ps.len() && ps[lb].0 == z);
        assert(z != this_name());
        assert(lb > 0);
        assert(mm.args[lb - 1].1 == z);
        assert(lb - 1 == i);
        assert(ps[lb].1 == mm.args[i].0);
    }
    // nothing else is bound
    assert forall|z: Seq<char>|
        method_gamma(c, mm).contains_key(z) implies z == this_name() || exists|i: int|
        0 <= i < mm.args.len() && (#[trigger] mm.args[i]).1 == z by {
        lemma_gamma_map(ps, z);
        let lb = last_binding(ps, z);
        assert(0 <= lb < ps.len() && ps[lb].0 == z);
        if lb > 0 {
            assert(mm.args[lb - 1].1 == z);
        }
    }
}

/// Narrowing the actual argument types keeps every pair passing.
proof fn lemma_fault_none_narrow(
    cs: Seq<SpecClass>,
    ats: Seq<Seq<char>>,
    ats2: Seq<Seq<char>>,
    dts: Seq<Seq<char>>,
)
    requires
        table_wf(cs),
        first_arg_fault(cs, ats, dts, 0) < 0,
        ats2.len() == ats.len(),
        forall|i: int| 0 <= i < ats.len() ==> subtype(cs, #[trigger] ats2[i], ats[i]),
    ensures
        first_arg_fault(cs, ats2, dts, 0) == -1,
{
    lemma_fault_none(cs, ats, dts, 0);
    assert forall|k: int|
        0 <= k < ats2.len() && k < dts.len() implies contains_name(cs, #[trigger] ats2[k])
        && contains_name(cs, dts[k]) && subtype(cs, ats2[k], dts[k]) by {
        lemma_subtype_defined(cs, ats2[k], ats[k]);
        lemma_subtype_transitive(cs, ats2[k], ats[k], dts[k]);
    }
    lemma_fault_none_intro(cs, ats2, dts, 0);
}

/// Substitution preserves typing: replacing a variable with a closed value
/// of a subtype of its declared type types the term, at a subtype of its
/// type, in any context that agrees on the other variables.
proof fn lemma_subst_typed(
    cs: Seq<SpecClass>,
    g: Map<Seq<char>, Seq<char>>,
    g2: Map<Seq<char>, Seq<char>>,
    y: Seq<char>,
    v: SpecTerm,
    t0: SpecTerm,
)
    requires
        table_wf(cs),
        classes_checked(cs),
        typecheck_full(cs, g, t0).0 is Ok,
        g.contains_key(y),
        is_value_spec(v),
        typecheck_full(cs, Map::<Seq<char>, Seq<char>>::empty(), v).0 is Ok,
        subtype(
            cs,
            typecheck_full(cs, Map::<Seq<char>, Seq<char>>::empty(), v).0->Ok_0,
            g[y],
        ),
        forall|z: Seq<char>|
            z != y && #[trigger] g.contains_key(z) ==> g2.contains_key(z) && g2[z] == g[z],
    ensures
        typecheck_full(cs, g2, subst(t0, y, v)).0 is Ok,
        subtype(
            cs,
            typecheck_full(cs, g2, subst(t0, y, v)).0->Ok_0,
            typecheck_full(cs, g, t0).0->Ok_0,
        ),
    decreases t0,
{
    let empty = Map::<Seq<char>, Seq<char>>::empty();
    match t0 {
        SpecTerm::Variable(z) => {
            if z == y {
                lemma_value_types_anywhere(cs, empty, g2, v);
            } else {
                crate::class_table::lemma_subtype_reflexive(cs, g[z]);
            }
        },
        SpecTerm::FieldAccess(obj, f) => {
            let c0 = typecheck_full(cs, g, *obj).0->Ok_0;
            let flds = fields_of(cs, c0);
            let k = field_index(flds, f);
            assert(k >= 0);
            lemma_field_index_bounds(flds, f, 0);
            let cf = flds[k].0;
            lemma_subst_typed(cs, g, g2, y, v, *obj);
            let c0n = typecheck_full(cs, g2, subst(*obj, y, v)).0->Ok_0;
            lemma_subtype_defined(cs, c0n, c0);
            lemma_fields_prefix_subtype(cs, c0n, c0);
            let fldsn = fields_of(cs, c0n);
            lemma_field_index_prefix(flds, fldsn, f, 0);
            assert(fldsn[k] == flds[k]);
            assert(typecheck_full(cs, g2, subst(t0, y, v)).0 == Ok::<Seq<char>, SpecTypingError>(
                cf,
            ));
            crate::class_table::lemma_subtype_reflexive(cs, cf);
        },
        SpecTerm::MethodCall(obj, m, args) => {
            let c0 = typecheck_full(cs, g, *obj).0->Ok_0;
            let mt = mtype_of(cs, m, c0)->Some_0;
            let ats = typecheck_args_full(cs, g, args).0->Ok_0;
            lemma_subst_typed(cs, g, g2, y, v, *obj);
            let c0n = typecheck_full(cs, g2, subst(*obj, y, v)).0->Ok_0;
            lemma_mtype_mono(cs, m, c0n, c0);
            lemma_subst_args_typed(cs, g, g2, y, v, args);
            let ats2 = typecheck_args_full(cs, g2, subst_all(args, y, v)).0->Ok_0;
            lemma_fault_none_narrow(cs, ats, ats2, mt.arg_types);
            assert(typecheck_full(cs, g2, subst(t0, y, v)).0 == Ok::<Seq<char>, SpecTypingError>(
                mt.ret_type,
            ));
            crate::class_table::lemma_subtype_reflexive(cs, mt.ret_type);
        },
        SpecTerm::NewCall(c, args) => {
            let dts = fields_of(cs, c).map_values(|p: (Seq<char>, Seq<char>)| p.0);
            let ats = typecheck_args_full(cs, g, args).0->Ok_0;
            lemma_subst_args_typed(cs, g, g2, y, v, args);
            let ats2 = typecheck_args_full(cs, g2, subst_all(args, y, v)).0->Ok_0;
            lemma_fault_none_narrow(cs, ats, ats2, dts);
            assert(typecheck_full(cs, g2, subst(t0, y, v)).0 == Ok::<Seq<char>, SpecTypingError>(
                c,
            ));
            crate::class_table::lemma_subtype_reflexive(cs, c);
        },
        SpecTerm::Cast(to, t1) => {
            let d = typecheck_full(cs, g, *t1).0->Ok_0;
            lemma_subst_typed(cs, g, g2, y, v, *t1);
            let dn = typecheck_full(cs, g2, subst(*t1, y, v)).0->Ok_0;
            lemma_subtype_defined(cs, dn, d);
            if !subtype(cs, dn, to) && subtype(cs, to, dn) && to == dn {
                crate::class_table::lemma_subtype_reflexive(cs, to);
            }
            assert(typecheck_full(cs, g2, subst(t0, y, v)).0 == Ok::<Seq<char>, SpecTypingError>(
                to,
            ));
            crate::class_table::lemma_subtype_reflexive(cs, to);
        },
    }
}

/// The argument-list form of the substitution property.
proof fn lemma_subst_args_typed(
    cs: Seq<SpecClass>,
    g: Map<Seq<char>, Seq<char>>,
    g2: Map<Seq<char>, Seq<char>>,
    y: Seq<char>,
    v: SpecTerm,
    args: Seq<SpecTerm>,
)
    requires
        table_wf(cs),
        classes_checked(cs),
        typecheck_args_full(cs, g, args).0 is Ok,
        g.contains_key(y),
        is_value_spec(v),
        typecheck_full(cs, Map::<Seq<char>, Seq<char>>::empty(), v).0 is Ok,
        subtype(
            cs,
            typecheck_full(cs, Map::<Seq<char>, Seq<char>>::empty(), v).0->Ok_0,
            g[y],
        ),
        forall|z: Seq<char>|
            z != y && #[trigger] g.contains_key(z) ==> g2.contains_key(z) && g2[z] == g[z],
    ensures
        ({
            let ats = typecheck_args_full(cs, g, args).0->Ok_0;
            let r = typecheck_args_full(cs, g2, subst_all(args, y, v)).0;
            &&& r is Ok
            &&& r->Ok_0.len() == ats.len()
            &&& forall|i: int| 0 <= i < ats.len() ==> subtype(cs, #[trigger] r->Ok_0[i], ats[i])
        }),
    decreases args,
{
    crate::evaluation::lemma_subst_all(args, y, v);
    if args.len() == 0 {
        assert(subst_all(args, y, v).len() == 0);
    } else {
        let rest = args.subrange(1, args.len() as int);
        lemma_subst_typed(cs, g, g2, y, v, args[0]);
        lemma_subst_args_typed(cs, g, g2, y, v, rest);
        let sall = subst_all(args, y, v);
        assert(sall == seq![subst(args[0], y, v)] + subst_all(rest, y, v));
        let ats = typecheck_args_full(cs, g, args).0->Ok_0;
        let c = typecheck_full(cs, g, args[0]).0->Ok_0;
        let rts = typecheck_args_full(cs, g, rest).0->Ok_0;
        assert(ats == seq![c] + rts);
        let c2 = typecheck_full(cs, g2, subst(args[0], y, v)).0->Ok_0;
        let rts2 = typecheck_args_full(cs, g2, subst_all(rest, y, v)).0->Ok_0;
        assert(sall[0] == subst(args[0], y, v));
        assert(sall.subrange(1, sall.len() as int) =~= subst_all(rest, y, v));
        assert(typecheck_args_full(cs, g2, sall).0 == Ok::<Seq<Seq<char>>, SpecTypingError>(
            seq![c2] + rts2,
        ));
        assert forall|i: int|
            0 <= i < ats.len() implies subtype(cs, #[trigger] (seq![c2] + rts2)[i], ats[i]) by {
            if i > 0 {
                assert((seq![c2] + rts2)[i] == rts2[i - 1]);
                assert(ats[i] == rts[i - 1]);
            }
        }
    }
}

/// Substituting closed values for all variables of the context, each at a
/// subtype of its declared type, types the result in the empty context at a
/// subtype of the term's type.
proof fn lemma_subst_many_typed(
    cs: Seq<SpecClass>,
    g: Map<Seq<char>, Seq<char>>,
    t0: SpecTerm,
    reps: Seq<(Seq<char>, SpecTerm)>,
)
    requires
        table_wf(cs),
        classes_checked(cs),
        typecheck_full(cs, g, t0).0 is Ok,
        forall|i: int, j: int| 0 <= i < j < reps.len() ==> reps[i].0 != reps[j].0,
        forall|z: Seq<char>|
            #[trigger] g.contains_key(z) <==> exists|i: int|
                0 <= i < reps.len() && (#[trigger] reps[i]).0 == z,
        forall|i: int|
            0 <= i < reps.len() ==> {
                &&& is_value_spec((#[trigger] reps[i]).1)
                &&& typecheck_full(cs, Map::<Seq<char>, Seq<char>>::empty(), reps[i].1).0 is Ok
                &&& subtype(
                    cs,
                    typecheck_full(cs, Map::<Seq<char>, Seq<char>>::empty(), reps[i].1).0->Ok_0,
                    g[reps[i].0],
                )
            },
    ensures
        typecheck_full(cs, Map::<Seq<char>, Seq<char>>::empty(), subst_many(t0, reps)).0 is Ok,
        subtype(
            cs,
            typecheck_full(cs, Map::<Seq<char>, Seq<char>>::empty(), subst_many(t0, reps)).0->Ok_0,
            typecheck_full(cs, g, t0).0->Ok_0,
        ),
    decreases reps.len(),
{
    let empty = Map::<Seq<char>, Seq<char>>::empty();
    if reps.len() == 0 {
        assert(g =~= empty);
        assert(subst_many(t0, reps) == t0);
        crate::class_table::lemma_subtype_reflexive(cs, typecheck_full(cs, g, t0).0->Ok_0);
    } else {
        let y = reps[0].0;
        let v = reps[0].1;
        assert(g.contains_key(y));
        let gr = g.remove(y);
        lemma_subst_typed(cs, g, gr, y, v, t0);
        let t1 = subst(t0, y, v);
        let rest = reps.subrange(1, reps.len() as int);
        assert forall|i: int, j: int|
            0 <= i < j < rest.len() implies rest[i].0 != rest[j].0 by {
            assert(rest[i] == reps[i + 1] && rest[j] == reps[j + 1]);
        }
        assert forall|z: Seq<char>|
            #[trigger] gr.contains_key(z) <==> exists|i: int|
                0 <= i < rest.len() && (#[trigger] rest[i]).0 == z by {
            if gr.contains_key(z) {
                assert(g.contains_key(z) && z != y);
                let i = choose|i: int| 0 <= i < reps.len() && (#[trigger] reps[i]).0 == z;
                assert(i > 0);
                assert(rest[i - 1] == reps[i]);
                assert(exists|i2: int| 0 <= i2 < rest.len() && (#[trigger] rest[i2]).0 == z);
            }
            if exists|i: int| 0 <= i < rest.len() && (#[trigger] rest[i]).0 == z {
                let i = choose|i: int| 0 <= i < rest.len() && (#[trigger] rest[i]).0 == z;
                assert(reps[i + 1].0 == z);
                assert(g.contains_key(z));
                assert(reps[0].0 != reps[i + 1].0);
            }
        }
        assert forall|i: int|
            0 <= i < rest.len() implies {
            &&& is_value_spec((#[trigger] rest[i]).1)
            &&& typecheck_full(cs, empty, rest[i].1).0 is Ok
            &&& subtype(cs, typecheck_full(cs, empty, rest[i].1).0->Ok_0, gr[rest[i].0])
        } by {
            assert(rest[i] == reps[i + 1]);
            assert(reps[0].0 != reps[i + 1].0);
            assert(gr[rest[i].0] == g[reps[i + 1].0]);
        }
        lemma_subst_many_typed(cs, gr, t1, rest);
        assert(subst_many(t0, reps) == subst_many(t1, rest));
        lemma_subtype_transitive(
            cs,
            typecheck_full(cs, empty, subst_many(t1, rest)).0->Ok_0,
            typecheck_full(cs, gr, t1).0->Ok_0,
            typecheck_full(cs, g, t0).0->Ok_0,
        );
    }
}

/// In a chain of class checks that passed, each single check passed.
proof fn lemma_classes_full_ok(cs: Seq<SpecClass>, program: Seq<SpecClass>, i: int, j: int)
    requires
        crate::typecheck::classes_full(cs, program, i).0 is Ok,
        0 <= i <= j < program.len(),
    ensures
        crate::typecheck::typecheck_class_full(cs, program[j]).0 is Ok,
    decreases j - i,
{
    if i < j {
        lemma_classes_full_ok(cs, program, i + 1, j);
    }
}

/// A table whose classes all come from a program that checks against it is
/// itself fully checked. `ClassTable::try_from_ast` hands out the
/// containment; `typecheck_ast` hands out the program check.
pub proof fn lemma_table_checked(cs: Seq<SpecClass>, program: Seq<SpecClass>)
    requires
        crate::typecheck::typecheck_ast_full(cs, program).0 is Ok,
        forall|k: int|
            0 <= k < cs.len() ==> crate::class_table::class_in(program, #[trigger] cs[k]),
    ensures
        classes_checked(cs),
{
    assert forall|i: int|
        0 <= i < cs.len() implies (#[trigger] crate::typecheck::typecheck_class_full(
        cs,
        cs[i],
    ).0) is Ok by {
        assert(crate::class_table::class_in(program, cs[i]));
        let j = choose|j: int| 0 <= j < program.len() && program[j] == cs[i];
        lemma_classes_full_ok(cs, program, 0, j);
    }
}

} // verus!
