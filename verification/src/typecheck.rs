//! The typing judgement `Γ ⊢ t : C` for terms, and the well-formedness
//! judgements for methods, classes, and whole programs.
//!
//! Every checker returns exactly what its specification mirror computes, so
//! typing is a function of the table, the context, and the term. A cast
//! between unrelated types is accepted with a warning; the warnings are
//! collected in order for the caller to report.

use vstd::prelude::*;
use crate::ast::{
    this_name, view_arg_pairs, Ast, ClassDefinition, ClassName, FieldName, MethodDefinition,
    MethodName, SpecClass, SpecMethod, SpecTerm, Term,
};
use crate::class_table::{
    class_def, contains_name, declares_method, fields_of, has_class, method_in_class, mtype_of,
    signature_of, subtype, ClassTable, MethodType, SpecMethodType,
};
use crate::error::{SpecTypingError, TypingError};

verus! {

// ------------------------------------------------------------------
// The typing context
// ------------------------------------------------------------------

/// A typing context: bindings from variable names to class names, where a
/// later binding for the same name wins.
#[derive(Debug)]
pub struct Gamma {
    pub bindings: Vec<(FieldName, ClassName)>,
}

pub open spec fn view_bindings(s: Seq<(FieldName, ClassName)>) -> Seq<(Seq<char>, Seq<char>)> {
    s.map_values(|p: (FieldName, ClassName)| (p.0@, p.1@))
}

pub broadcast proof fn lemma_view_bindings(s: Seq<(FieldName, ClassName)>)
    ensures
        #![trigger view_bindings(s)]
        view_bindings(s).len() == s.len(),
        forall|i: int| 0 <= i < s.len() ==> view_bindings(s)[i] == (s[i].0@, s[i].1@),
{
}

/// The finite map a binding list denotes.
pub open spec fn gamma_map(ps: Seq<(Seq<char>, Seq<char>)>) -> Map<Seq<char>, Seq<char>>
    decreases ps.len(),
{
    if ps.len() == 0 {
        Map::empty()
    } else {
        gamma_map(ps.drop_last()).insert(ps.last().0, ps.last().1)
    }
}

impl View for Gamma {
    type V = Map<Seq<char>, Seq<char>>;

    open spec fn view(&self) -> Map<Seq<char>, Seq<char>> {
        gamma_map(view_bindings(self.bindings@))
    }
}

/// The index of the binding that decides a lookup: the last one that carries
/// the name, or `-1`.
pub open spec fn last_binding(ps: Seq<(Seq<char>, Seq<char>)>, n: Seq<char>) -> int
    decreases ps.len(),
{
    if ps.len() == 0 {
        -1
    } else if ps.last().0 == n {
        ps.len() - 1
    } else {
        last_binding(ps.drop_last(), n)
    }
}

/// The denoted map looks names up at their last binding.
pub proof fn lemma_gamma_map(ps: Seq<(Seq<char>, Seq<char>)>, n: Seq<char>)
    ensures
        gamma_map(ps).contains_key(n) == (last_binding(ps, n) >= 0),
        last_binding(ps, n) >= 0 ==> {
            &&& last_binding(ps, n) < ps.len()
            &&& ps[last_binding(ps, n)].0 == n
            &&& gamma_map(ps)[n] == ps[last_binding(ps, n)].1
        },
    decreases ps.len(),
{
    if ps.len() > 0 && ps.last().0 != n {
        lemma_gamma_map(ps.drop_last(), n);
    }
}

/// The typing context a method is checked under: `this` at the enclosing
/// class, then one binding per argument.
pub open spec fn method_gamma(c: Seq<char>, m: SpecMethod) -> Map<Seq<char>, Seq<char>> {
    gamma_map(
        seq![(this_name(), c)] + m.args.map_values(
            |p: (Seq<char>, Seq<char>)| (p.1, p.0),
        ),
    )
}

impl Gamma {
    /// The empty context.
    pub fn new() -> (r: Gamma)
        ensures
            r@ == Map::<Seq<char>, Seq<char>>::empty(),
    {
        Gamma { bindings: Vec::new() }
    }

    /// The empty context.
    pub fn empty() -> (r: Gamma)
        ensures
            r@ == Map::<Seq<char>, Seq<char>>::empty(),
    {
        Gamma::new()
    }

    /// The context for checking `method` inside `class_name`.
    pub fn from_class_method(class_name: &ClassName, method: &MethodDefinition) -> (r: Gamma)
        ensures
            r@ == method_gamma(class_name@, method@),
    {
        broadcast use crate::ast::group_ast_views, lemma_view_bindings;

        let mut bindings: Vec<(FieldName, ClassName)> = Vec::new();
        bindings.push((FieldName("this".to_owned()), class_name.duplicate()));
        let n = method.args.len();
        let mut i: usize = 0;
        while i < n
            invariant
                i <= n,
                n == method.args@.len(),
                bindings@.len() == i + 1,
                view_bindings(bindings@)[0] == (this_name(), class_name@),
                forall|x: int|
                    0 <= x < i ==> view_bindings(bindings@)[x + 1] == (
                        method.args@[x].1@,
                        method.args@[x].0@,
                    ),
            decreases n - i,
        {
            bindings.push((method.args[i].1.duplicate(), method.args[i].0.duplicate()));
            i = i + 1;
        }
        let r = Gamma { bindings };
        proof {
            let target = seq![(this_name(), class_name@)] + method@.args.map_values(
                |p: (Seq<char>, Seq<char>)| (p.1, p.0),
            );
            assert(view_bindings(r.bindings@) =~= target);
        }
        r
    }

    /// Looks a variable up; the last binding wins.
    pub fn lookup(&self, x: &FieldName) -> (r: Option<&ClassName>)
        ensures
            match r {
                Some(c) => self@.contains_key(x@) && self@[x@] == c@,
                None => !self@.contains_key(x@),
            },
    {
        broadcast use crate::ast::group_ast_views, lemma_view_bindings;

        let ghost ps = view_bindings(self.bindings@);
        proof {
            lemma_gamma_map(ps, x@);
            assert(ps.subrange(0, ps.len() as int) =~= ps);
        }
        let mut j = self.bindings.len();
        while j > 0
            invariant
                j <= self.bindings@.len(),
                ps == view_bindings(self.bindings@),
                last_binding(ps, x@) == last_binding(ps.subrange(0, j as int), x@),
            decreases j,
        {
            j = j - 1;
            if self.bindings[j].0.eq_name(x) {
                proof {
                    let pre = ps.subrange(0, j as int + 1);
                    assert(pre.last() == ps[j as int]);
                    assert(ps[j as int].0 == x@);
                    assert(last_binding(ps, x@) == j as int);
                    lemma_gamma_map(ps, x@);
                }
                return Some(&self.bindings[j].1);
            }
            proof {
                let pre = ps.subrange(0, j as int + 1);
                assert(pre.last() == ps[j as int]);
                assert(pre.drop_last() =~= ps.subrange(0, j as int));
            }
        }
        proof {
            assert(ps.subrange(0, 0).len() == 0);
            lemma_gamma_map(ps, x@);
        }
        None
    }
}

// ------------------------------------------------------------------
// The typing rules, as a specification
// ------------------------------------------------------------------

/// The index of the first entry of `flds` that declares field `f`, scanning
/// from position `i`; `-1` when none does.
pub open spec fn field_index_from(flds: Seq<(Seq<char>, Seq<char>)>, f: Seq<char>, i: int) -> int
    decreases flds.len() - i,
{
    if i < 0 || i >= flds.len() {
        -1
    } else if flds[i].1 == f {
        i
    } else {
        field_index_from(flds, f, i + 1)
    }
}

/// The index `fields(C) = ..., (Ci, fi), ...` resolves `fi` at.
pub open spec fn field_index(flds: Seq<(Seq<char>, Seq<char>)>, f: Seq<char>) -> int {
    field_index_from(flds, f, 0)
}

/// The first position at or after `i` where the actual argument type fails
/// against the declared one (an undefined operand, or no subtyping); `-1`
/// when every remaining pair passes.
pub open spec fn first_arg_fault(
    cs: Seq<SpecClass>,
    ats: Seq<Seq<char>>,
    dts: Seq<Seq<char>>,
    i: int,
) -> int
    decreases ats.len() - i,
{
    if i < 0 || i >= ats.len() || i >= dts.len() {
        -1
    } else if !contains_name(cs, ats[i]) || !contains_name(cs, dts[i]) || !subtype(
        cs,
        ats[i],
        dts[i],
    ) {
        i
    } else {
        first_arg_fault(cs, ats, dts, i + 1)
    }
}

/// Whether the fault at a pair is an undefined operand (else it is a failed
/// subtyping).
pub open spec fn fault_is_undefined(cs: Seq<SpecClass>, a: Seq<char>, d: Seq<char>) -> bool {
    !contains_name(cs, a) || !contains_name(cs, d)
}

/// What typing a term yields: the principal type or the first error, and
/// the cast-warning pairs `(from, to)` of every senseless cast the checker
/// walked through, in order.
pub open spec fn typecheck_full(
    cs: Seq<SpecClass>,
    gamma: Map<Seq<char>, Seq<char>>,
    t: SpecTerm,
) -> (Result<Seq<char>, SpecTypingError>, Seq<(Seq<char>, Seq<char>)>)
    decreases t,
{
    match t {
        SpecTerm::Variable(x) => (
            if gamma.contains_key(x) {
                Ok(gamma[x])
            } else {
                Err(SpecTypingError::VariableNotInGamma(x))
            },
            Seq::empty(),
        ),
        SpecTerm::FieldAccess(obj, f) => {
            let (or, ow) = typecheck_full(cs, gamma, *obj);
            match or {
                Err(e) => (Err(e), ow),
                Ok(c0) => (
                    if !contains_name(cs, c0) {
                        Err(SpecTypingError::UndefinedClass(c0))
                    } else {
                        let flds = fields_of(cs, c0);
                        let k = field_index(flds, f);
                        if k >= 0 {
                            Ok(flds[k].0)
                        } else {
                            Err(SpecTypingError::UndefinedField(f, c0))
                        }
                    },
                    ow,
                ),
            }
        },
        SpecTerm::MethodCall(obj, m, args) => {
            let (or, ow) = typecheck_full(cs, gamma, *obj);
            match or {
                Err(e) => (Err(e), ow),
                Ok(c0) => match mtype_of(cs, m, c0) {
                    None => (Err(SpecTypingError::UndefinedMethod(m, c0)), ow),
                    Some(mt) => {
                        let (ar, aw) = typecheck_args_full(cs, gamma, args);
                        match ar {
                            Err(e) => (Err(e), ow + aw),
                            Ok(ats) => (
                                if ats.len() != mt.arg_types.len() {
                                    Err(SpecTypingError::MethodArityMismatch(m, c0))
                                } else {
                                    let k = first_arg_fault(cs, ats, mt.arg_types, 0);
                                    if k < 0 {
                                        Ok(mt.ret_type)
                                    } else if fault_is_undefined(cs, ats[k], mt.arg_types[k]) {
                                        Err(
                                            SpecTypingError::UndefinedClasses(
                                                seq![ats[k], mt.arg_types[k]],
                                            ),
                                        )
                                    } else {
                                        Err(
                                            SpecTypingError::MethodArgumentNotSubtype(
                                                ats[k],
                                                mt.arg_types[k],
                                                m,
                                                c0,
                                            ),
                                        )
                                    }
                                },
                                ow + aw,
                            ),
                        }
                    },
                },
            }
        },
        SpecTerm::NewCall(c, args) => {
            if !contains_name(cs, c) {
                (Err(SpecTypingError::UndefinedClass(c)), Seq::empty())
            } else {
                let dts = fields_of(cs, c).map_values(|p: (Seq<char>, Seq<char>)| p.0);
                let (ar, aw) = typecheck_args_full(cs, gamma, args);
                match ar {
                    Err(e) => (Err(e), aw),
                    Ok(ats) => (
                        if ats.len() != dts.len() {
                            Err(SpecTypingError::ConstructorArityMismatch(c))
                        } else {
                            let k = first_arg_fault(cs, ats, dts, 0);
                            if k < 0 {
                                Ok(c)
                            } else if fault_is_undefined(cs, ats[k], dts[k]) {
                                Err(SpecTypingError::UndefinedClasses(seq![ats[k], dts[k]]))
                            } else {
                                Err(
                                    SpecTypingError::ConstructorArgumentNotSubtype(
                                        ats[k],
                                        dts[k],
                                        c,
                                    ),
                                )
                            }
                        },
                        aw,
                    ),
                }
            }
        },
        SpecTerm::Cast(to, t1) => {
            let (tr, tw) = typecheck_full(cs, gamma, *t1);
            match tr {
                Err(e) => (Err(e), tw),
                Ok(d) => {
                    if !contains_name(cs, to) {
                        (Err(SpecTypingError::UndefinedClass(to)), tw)
                    } else if !contains_name(cs, d) {
                        (Err(SpecTypingError::UndefinedClass(d)), tw)
                    } else if subtype(cs, d, to) {
                        (Ok(to), tw)
                    } else if subtype(cs, to, d) && to != d {
                        (Ok(to), tw)
                    } else if !subtype(cs, d, to) && !subtype(cs, to, d) {
                        (Ok(to), tw + seq![(d, to)])
                    } else {
                        (Err(SpecTypingError::InvalidCast(d, to)), tw)
                    }
                },
            }
        },
    }
}

/// Types a list of argument terms left to right, stopping at the first
/// error; the warnings of every checked argument are kept.
pub open spec fn typecheck_args_full(
    cs: Seq<SpecClass>,
    gamma: Map<Seq<char>, Seq<char>>,
    args: Seq<SpecTerm>,
) -> (Result<Seq<Seq<char>>, SpecTypingError>, Seq<(Seq<char>, Seq<char>)>)
    decreases args,
{
    if args.len() == 0 {
        (Ok(Seq::empty()), Seq::empty())
    } else {
        let (hr, hw) = typecheck_full(cs, gamma, args[0]);
        match hr {
            Err(e) => (Err(e), hw),
            Ok(c) => {
                let (rr, rw) = typecheck_args_full(cs, gamma, args.subrange(1, args.len() as int));
                match rr {
                    Err(e) => (Err(e), hw + rw),
                    Ok(rest) => (Ok(seq![c] + rest), hw + rw),
                }
            },
        }
    }
}

/// The principal type of a term, without the warnings.
pub open spec fn typecheck_term_spec(
    cs: Seq<SpecClass>,
    gamma: Map<Seq<char>, Seq<char>>,
    t: SpecTerm,
) -> Result<Seq<char>, SpecTypingError> {
    typecheck_full(cs, gamma, t).0
}

// ------------------------------------------------------------------
// The executable checker
// ------------------------------------------------------------------

/// The first entry of `flds` that declares `f`.
pub(crate) fn find_field(flds: &Vec<crate::ast::ArgPair>, f: &FieldName) -> (r: Option<usize>)
    ensures
        ({
            let k = field_index(view_arg_pairs(flds@), f@);
            match r {
                Some(j) => k == j as int && j < flds@.len(),
                None => k == -1,
            }
        }),
{
    broadcast use crate::ast::group_ast_views;

    let ghost fv = view_arg_pairs(flds@);
    let n = flds.len();
    let mut i: usize = 0;
    while i < n
        invariant
            i <= n,
            n == flds@.len(),
            fv == view_arg_pairs(flds@),
            field_index(fv, f@) == field_index_from(fv, f@, i as int),
        decreases n - i,
    {
        if flds[i].1.eq_name(f) {
            proof {
                assert(fv[i as int].1 == f@);
            }
            return Some(i);
        }
        proof {
            assert(fv[i as int].1 != f@);
        }
        i = i + 1;
    }
    None
}

/// The first argument position whose actual type fails against the declared
/// one.
fn find_arg_fault(ct: &ClassTable, ats: &Vec<ClassName>, dts: &Vec<ClassName>) -> (r: Option<
    usize,
>)
    requires
        ct.wf(),
        ats@.len() == dts@.len(),
    ensures
        ({
            let k = first_arg_fault(
                ct@,
                crate::ast::view_class_names(ats@),
                crate::ast::view_class_names(dts@),
                0,
            );
            match r {
                Some(j) => k == j as int && j < ats@.len(),
                None => k == -1,
            }
        }),
{
    broadcast use crate::ast::group_ast_views;

    let ghost av = crate::ast::view_class_names(ats@);
    let ghost dv = crate::ast::view_class_names(dts@);
    let n = ats.len();
    let mut i: usize = 0;
    while i < n
        invariant
            i <= n,
            n == ats@.len(),
            n == dts@.len(),
            ct.wf(),
            av == crate::ast::view_class_names(ats@),
            dv == crate::ast::view_class_names(dts@),
            first_arg_fault(ct@, av, dv, 0) == first_arg_fault(ct@, av, dv, i as int),
        decreases n - i,
    {
        let ok = match ct.is_subtype(&ats[i], &dts[i]) {
            Some(b) => b,
            None => false,
        };
        if !ok {
            proof {
                assert(first_arg_fault(ct@, av, dv, i as int) == i as int);
            }
            return Some(i);
        }
        proof {
            assert(contains_name(ct@, av[i as int]) && contains_name(ct@, dv[i as int])
                && subtype(ct@, av[i as int], dv[i as int]));
        }
        i = i + 1;
    }
    None
}

/// Types every argument term, left to right; on success hands back the list
/// of their principal types.
fn typecheck_arg_terms(
    ct: &ClassTable,
    gamma: &Gamma,
    args: &Vec<Box<Term>>,
    warnings: &mut Vec<(ClassName, ClassName)>,
) -> (r: Result<Vec<ClassName>, TypingError>)
    requires
        ct.wf(),
    ensures
        ({
            let (res, warns) = typecheck_args_full(ct@, gamma@, crate::ast::view_terms(args@));
            &&& match r {
                Ok(v) => res == Ok::<Seq<Seq<char>>, SpecTypingError>(
                    crate::ast::view_class_names(v@),
                ),
                Err(e) => res == Err::<Seq<Seq<char>>, SpecTypingError>(e@),
            }
            &&& crate::ast::view_class_pairs(final(warnings)@) == crate::ast::view_class_pairs(
                old(warnings)@,
            ) + warns
        }),
    decreases args@,
{
    broadcast use crate::ast::group_ast_views;

    let ghost all = crate::ast::view_terms(args@);
    let ghost w0 = crate::ast::view_class_pairs(warnings@);
    let ghost mut wacc: Seq<(Seq<char>, Seq<char>)> = Seq::empty();
    proof {
        crate::ast::lemma_view_terms(args@);
        assert(all.subrange(0, all.len() as int) =~= all);
        assert(w0 + wacc =~= w0);
    }
    let n = args.len();
    let mut ats: Vec<ClassName> = Vec::new();
    let mut i: usize = 0;
    while i < n
        invariant
            i <= n,
            n == args@.len(),
            ct.wf(),
            all == crate::ast::view_terms(args@),
            all.len() == n,
            ats@.len() == i,
            w0 == crate::ast::view_class_pairs(old(warnings)@),
            crate::ast::view_class_pairs(warnings@) == w0 + wacc,
            ({
                let full = typecheck_args_full(ct@, gamma@, all);
                let rest = typecheck_args_full(
                    ct@,
                    gamma@,
                    all.subrange(i as int, all.len() as int),
                );
                &&& full.1 == wacc + rest.1
                &&& full.0 == match rest.0 {
                    Ok(ts) => Ok::<Seq<Seq<char>>, SpecTypingError>(
                        crate::ast::view_class_names(ats@) + ts,
                    ),
                    Err(e) => Err::<Seq<Seq<char>>, SpecTypingError>(e),
                }
            }),
        decreases n - i,
    {
        let ghost suffix = all.subrange(i as int, all.len() as int);
        proof {
            crate::ast::lemma_view_terms(args@);
            assert(suffix[0] == all[i as int]);
            assert(all[i as int] == crate::ast::view_term(*args@[i as int]));
            assert(suffix.subrange(1, suffix.len() as int) =~= all.subrange(
                i as int + 1,
                all.len() as int,
            ));
        }
        match typecheck_term(ct, gamma, &args[i], warnings) {
            Err(e) => {
                proof {
                    let (hr, hw) = typecheck_full(ct@, gamma@, suffix[0]);
                    assert(typecheck_args_full(ct@, gamma@, suffix).0 == Err::<
                        Seq<Seq<char>>,
                        SpecTypingError,
                    >(e@));
                    assert(typecheck_args_full(ct@, gamma@, suffix).1 == hw);
                    assert((w0 + wacc) + hw =~= w0 + (wacc + hw));
                }
                return Err(e);
            },
            Ok(c) => {
                let ghost hw = typecheck_full(ct@, gamma@, suffix[0]).1;
                let ghost old_ats = ats@;
                let ghost rest_next = typecheck_args_full(
                    ct@,
                    gamma@,
                    all.subrange(i as int + 1, all.len() as int),
                );
                proof {
                    assert(typecheck_args_full(ct@, gamma@, suffix).1 == hw + rest_next.1);
                    assert(typecheck_args_full(ct@, gamma@, suffix).0 == match rest_next.0 {
                        Ok(ts) => Ok::<Seq<Seq<char>>, SpecTypingError>(seq![c@] + ts),
                        Err(e) => Err::<Seq<Seq<char>>, SpecTypingError>(e),
                    });
                    assert((w0 + wacc) + hw =~= w0 + (wacc + hw));
                    assert(wacc + (hw + rest_next.1) =~= (wacc + hw) + rest_next.1);
                    wacc = wacc + hw;
                }
                ats.push(c);
                proof {
                    assert(ats@.drop_last() =~= old_ats);
                    if rest_next.0 is Ok {
                        let ts = rest_next.0->Ok_0;
                        assert(crate::ast::view_class_names(old_ats) + (seq![c@] + ts)
                            =~= crate::ast::view_class_names(ats@) + ts);
                    }
                }
                i = i + 1;
            },
        }
    }
    proof {
        let rest = typecheck_args_full(ct@, gamma@, all.subrange(i as int, all.len() as int));
        assert(all.subrange(i as int, all.len() as int).len() == 0);
        assert(crate::ast::view_class_names(ats@) + rest.0->Ok_0 =~= crate::ast::view_class_names(
            ats@,
        ));
        assert(wacc + rest.1 =~= wacc);
    }
    Ok(ats)
}

/// `Γ ⊢ t : C`: the principal type of `term`, or the first typing error.
/// Senseless casts are accepted; each appends its `(from, to)` pair to
/// `warnings`.
pub fn typecheck_term(
    ct: &ClassTable,
    gamma: &Gamma,
    term: &Term,
    warnings: &mut Vec<(ClassName, ClassName)>,
) -> (r: Result<ClassName, TypingError>)
    requires
        ct.wf(),
    ensures
        ({
            let (res, warns) = typecheck_full(ct@, gamma@, term@);
            &&& match r {
                Ok(c) => res == Ok::<Seq<char>, SpecTypingError>(c@),
                Err(e) => res == Err::<Seq<char>, SpecTypingError>(e@),
            }
            &&& crate::ast::view_class_pairs(final(warnings)@) == crate::ast::view_class_pairs(
                old(warnings)@,
            ) + warns
        }),
    decreases *term,
{
    broadcast use crate::ast::group_ast_views;

    let ghost w0 = crate::ast::view_class_pairs(warnings@);
    match term {
        Term::Variable(x) => {
            proof {
                assert(w0 + Seq::<(Seq<char>, Seq<char>)>::empty() =~= w0);
            }
            match gamma.lookup(x) {
                Some(c) => Ok(c.duplicate()),
                None => Err(TypingError::VariableNotInGamma(x.duplicate())),
            }
        },
        Term::FieldAccess(fa) => {
            let c0 = match typecheck_term(ct, gamma, &fa.object_term, warnings) {
                Ok(c0) => c0,
                Err(e) => {
                    return Err(e);
                },
            };
            match ct.fields(&c0) {
                None => Err(TypingError::UndefinedClass(c0)),
                Some(flds) => {
                    match find_field(&flds, &fa.field) {
                        Some(j) => Ok(flds[j].0.duplicate()),
                        None => Err(TypingError::UndefinedField(fa.field.duplicate(), c0)),
                    }
                },
            }
        },
        Term::MethodCall(mc) => {
            let c0 = match typecheck_term(ct, gamma, &mc.object_term, warnings) {
                Ok(c0) => c0,
                Err(e) => {
                    return Err(e);
                },
            };
            let mt = match ct.method_type(&mc.method_name, &c0) {
                Some(mt) => mt,
                None => {
                    return Err(TypingError::UndefinedMethod(mc.method_name.duplicate(), c0));
                },
            };
            let ats = match typecheck_arg_terms(ct, gamma, &mc.arg_terms, warnings) {
                Ok(ats) => ats,
                Err(e) => {
                    proof {
                        let ow = typecheck_full(ct@, gamma@, crate::ast::view_term(
                            *mc.object_term,
                        )).1;
                        let aw = typecheck_args_full(
                            ct@,
                            gamma@,
                            crate::ast::view_terms(mc.arg_terms@),
                        ).1;
                        assert((w0 + ow) + aw =~= w0 + (ow + aw));
                    }
                    return Err(e);
                },
            };
            proof {
                let ow = typecheck_full(ct@, gamma@, crate::ast::view_term(*mc.object_term)).1;
                let aw = typecheck_args_full(ct@, gamma@, crate::ast::view_terms(mc.arg_terms@)).1;
                assert((w0 + ow) + aw =~= w0 + (ow + aw));
            }
            if ats.len() != mt.arg_types.len() {
                return Err(TypingError::MethodArityMismatch(mc.method_name.duplicate(), c0));
            }
            match find_arg_fault(ct, &ats, &mt.arg_types) {
                None => Ok(mt.ret_type),
                Some(k) => {
                    if !ct.contains_class(&ats[k]) || !ct.contains_class(&mt.arg_types[k]) {
                        let mut pair: Vec<ClassName> = Vec::new();
                        pair.push(ats[k].duplicate());
                        pair.push(mt.arg_types[k].duplicate());
                        proof {
                            assert(crate::ast::view_class_names(pair@) =~= seq![
                                ats@[k as int]@,
                                mt.arg_types@[k as int]@,
                            ]);
                        }
                        Err(TypingError::UndefinedClasses(pair))
                    } else {
                        Err(TypingError::MethodArgumentNotSubtype(
                            ats[k].duplicate(),
                            mt.arg_types[k].duplicate(),
                            mc.method_name.duplicate(),
                            c0,
                        ))
                    }
                },
            }
        },
        Term::NewCall(nc) => {
            let flds = match ct.fields(&nc.class_name) {
                Some(flds) => flds,
                None => {
                    proof {
                        assert(w0 + Seq::<(Seq<char>, Seq<char>)>::empty() =~= w0);
                    }
                    return Err(TypingError::UndefinedClass(nc.class_name.duplicate()));
                },
            };
            let nd = flds.len();
            let mut dts: Vec<ClassName> = Vec::new();
            let mut i: usize = 0;
            while i < nd
                invariant
                    i <= nd,
                    nd == flds@.len(),
                    dts@.len() == i,
                    forall|x: int| 0 <= x < i ==> dts@[x]@ == flds@[x].0@,
                decreases nd - i,
            {
                dts.push(flds[i].0.duplicate());
                i = i + 1;
            }
            proof {
                assert(crate::ast::view_class_names(dts@) =~= fields_of(
                    ct@,
                    nc.class_name@,
                ).map_values(|p: (Seq<char>, Seq<char>)| p.0));
            }
            let ats = match typecheck_arg_terms(ct, gamma, &nc.arg_terms, warnings) {
                Ok(ats) => ats,
                Err(e) => {
                    return Err(e);
                },
            };
            if ats.len() != dts.len() {
                return Err(TypingError::ConstructorArityMismatch(nc.class_name.duplicate()));
            }
            match find_arg_fault(ct, &ats, &dts) {
                None => Ok(nc.class_name.duplicate()),
                Some(k) => {
                    if !ct.contains_class(&ats[k]) || !ct.contains_class(&dts[k]) {
                        let mut pair: Vec<ClassName> = Vec::new();
                        pair.push(ats[k].duplicate());
                        pair.push(dts[k].duplicate());
                        proof {
                            assert(crate::ast::view_class_names(pair@) =~= seq![
                                ats@[k as int]@,
                                dts@[k as int]@,
                            ]);
                        }
                        Err(TypingError::UndefinedClasses(pair))
                    } else {
                        Err(TypingError::ConstructorArgumentNotSubtype(
                            ats[k].duplicate(),
                            dts[k].duplicate(),
                            nc.class_name.duplicate(),
                        ))
                    }
                },
            }
        },
        Term::Cast(cst) => {
            let d = match typecheck_term(ct, gamma, &cst.term, warnings) {
                Ok(d) => d,
                Err(e) => {
                    return Err(e);
                },
            };
            if !ct.contains_class(&cst.to_class_name) {
                return Err(TypingError::UndefinedClass(cst.to_class_name.duplicate()));
            }
            if !ct.contains_class(&d) {
                return Err(TypingError::UndefinedClass(d));
            }
            let up = match ct.is_subtype(&d, &cst.to_class_name) {
                Some(b) => b,
                None => false,
            };
            let down = match ct.is_subtype(&cst.to_class_name, &d) {
                Some(b) => b,
                None => false,
            };
            if up {
                Ok(cst.to_class_name.duplicate())
            } else if down && !cst.to_class_name.eq_name(&d) {
                Ok(cst.to_class_name.duplicate())
            } else if !up && !down {
                let ghost tw = typecheck_full(ct@, gamma@, crate::ast::view_term(*cst.term)).1;
                warnings.push((d.duplicate(), cst.to_class_name.duplicate()));
                proof {
                    assert(crate::ast::view_class_pairs(warnings@) =~= (w0 + tw) + seq![
                        (d@, cst.to_class_name@),
                    ]);
                    assert((w0 + tw) + seq![(d@, cst.to_class_name@)] =~= w0 + (tw + seq![
                        (d@, cst.to_class_name@),
                    ]));
                }
                Ok(cst.to_class_name.duplicate())
            } else {
                Err(TypingError::InvalidCast(d, cst.to_class_name.duplicate()))
            }
        },
    }
}

// ------------------------------------------------------------------
// Method, class, and program well-formedness
// ------------------------------------------------------------------

/// Witness that a method checked inside the named class.
#[derive(Debug)]
pub struct MethodOk(pub ClassName);

/// Witness that a class checked.
#[derive(Debug)]
pub struct ClassOk;

/// What checking one method declared in class `c` yields: the class name on
/// success or the first error, with the cast warnings of its body.
pub open spec fn typecheck_method_full(cs: Seq<SpecClass>, m: SpecMethod, c: Seq<char>) -> (
    Result<Seq<char>, SpecTypingError>,
    Seq<(Seq<char>, Seq<char>)>,
) {
    let (br, bw) = typecheck_full(cs, method_gamma(c, m), m.return_term);
    match br {
        Err(e) => (Err(SpecTypingError::InvalidTerm(m.return_term, Box::new(e))), bw),
        Ok(e0) => (
            if !has_class(cs, c) {
                Err(SpecTypingError::UndefinedClass(c))
            } else if (match mtype_of(cs, m.method_name, crate::class_table::super_name(cs, c)) {
                Some(mts) => mts != signature_of(m),
                None => false,
            }) {
                Err(SpecTypingError::IncorrectMethodOverride(m.method_name, c))
            } else if !contains_name(cs, e0) || !contains_name(cs, m.return_type) {
                Err(SpecTypingError::UndefinedReturnType(m.method_name, c))
            } else if !subtype(cs, e0, m.return_type) {
                Err(SpecTypingError::ReturnTypeNotSubtype(e0, m.return_type, m.method_name, c))
            } else {
                Ok(c)
            },
            bw,
        ),
    }
}

/// Checks `M OK IN C`: the body types to a subtype of the declared return
/// type, and any method of the same name on the superclass chain has exactly
/// the same signature.
pub fn typecheck_method(
    ct: &ClassTable,
    method: &MethodDefinition,
    in_class_name: &ClassName,
    warnings: &mut Vec<(ClassName, ClassName)>,
) -> (r: Result<MethodOk, TypingError>)
    requires
        ct.wf(),
    ensures
        ({
            let (res, warns) = typecheck_method_full(ct@, method@, in_class_name@);
            &&& match r {
                Ok(ok) => res == Ok::<Seq<char>, SpecTypingError>(ok.0@),
                Err(e) => res == Err::<Seq<char>, SpecTypingError>(e@),
            }
            &&& crate::ast::view_class_pairs(final(warnings)@) == crate::ast::view_class_pairs(
                old(warnings)@,
            ) + warns
        }),
{
    broadcast use crate::ast::group_ast_views;

    let gamma = Gamma::from_class_method(in_class_name, method);
    let ret_term_type = match typecheck_term(ct, &gamma, &method.return_term, warnings) {
        Ok(t) => t,
        Err(e) => {
            return Err(TypingError::InvalidTerm(method.return_term.deep_clone(), Box::new(e)));
        },
    };
    let sup = match ct.super_type(in_class_name) {
        Some(s) => s.duplicate(),
        None => {
            return Err(TypingError::UndefinedClass(in_class_name.duplicate()));
        },
    };
    let sig = MethodType::from_method(method);
    match ct.method_type(&method.method_name, &sup) {
        Some(mts) => {
            if !mts.eq_type(&sig) {
                return Err(TypingError::IncorrectMethodOverride(
                    method.method_name.duplicate(),
                    in_class_name.duplicate(),
                ));
            }
        },
        None => {},
    }
    let sub = match ct.is_subtype(&ret_term_type, &method.return_type) {
        Some(b) => b,
        None => {
            return Err(TypingError::UndefinedReturnType(
                method.method_name.duplicate(),
                in_class_name.duplicate(),
            ));
        },
    };
    if !sub {
        return Err(TypingError::ReturnTypeNotSubtype(
            ret_term_type,
            method.return_type.duplicate(),
            method.method_name.duplicate(),
            in_class_name.duplicate(),
        ));
    }
    Ok(MethodOk(in_class_name.duplicate()))
}

/// What checking the methods of `cl` from position `j` on yields.
pub open spec fn methods_full(cs: Seq<SpecClass>, cl: SpecClass, j: int) -> (
    Result<(), SpecTypingError>,
    Seq<(Seq<char>, Seq<char>)>,
)
    decreases cl.methods.len() - j,
{
    if j < 0 || j >= cl.methods.len() {
        (Ok(()), Seq::empty())
    } else {
        let (mr, mw) = typecheck_method_full(cs, cl.methods[j], cl.name);
        match mr {
            Err(e) => (
                Err(
                    SpecTypingError::InvalidMethod(
                        cl.methods[j].method_name,
                        cl.name,
                        Box::new(e),
                    ),
                ),
                mw,
            ),
            Ok(_) => {
                let (rr, rw) = methods_full(cs, cl, j + 1);
                (rr, mw + rw)
            },
        }
    }
}

/// What checking one class yields.
pub open spec fn typecheck_class_full(cs: Seq<SpecClass>, cl: SpecClass) -> (
    Result<(), SpecTypingError>,
    Seq<(Seq<char>, Seq<char>)>,
) {
    if !has_class(cs, cl.name) {
        (Err(SpecTypingError::UndefinedClass(cl.name)), Seq::empty())
    } else {
        methods_full(cs, cl, 0)
    }
}

/// Checks `C OK`: every method of the class is well formed in it.
pub fn typecheck_class(
    ct: &ClassTable,
    class: &ClassDefinition,
    warnings: &mut Vec<(ClassName, ClassName)>,
) -> (r: Result<ClassOk, TypingError>)
    requires
        ct.wf(),
    ensures
        ({
            let (res, warns) = typecheck_class_full(ct@, class@);
            &&& match r {
                Ok(_) => res is Ok,
                Err(e) => res == Err::<(), SpecTypingError>(e@),
            }
            &&& crate::ast::view_class_pairs(final(warnings)@) == crate::ast::view_class_pairs(
                old(warnings)@,
            ) + warns
        }),
{
    broadcast use crate::ast::group_ast_views;

    if !ct.contains_class(&class.name) || class.name.is_object() {
        proof {
            assert(!has_class(ct@, class.name@));
        }
        return Err(TypingError::UndefinedClass(class.name.duplicate()));
    }
    let ghost w0 = crate::ast::view_class_pairs(warnings@);
    let ghost mut wacc: Seq<(Seq<char>, Seq<char>)> = Seq::empty();
    proof {
        assert(w0 + wacc =~= w0);
    }
    let n = class.methods.len();
    let mut j: usize = 0;
    while j < n
        invariant
            j <= n,
            n == class.methods@.len(),
            ct.wf(),
            has_class(ct@, class@.name),
            w0 == crate::ast::view_class_pairs(old(warnings)@),
            crate::ast::view_class_pairs(warnings@) == w0 + wacc,
            ({
                let full = methods_full(ct@, class@, 0);
                let rest = methods_full(ct@, class@, j as int);
                &&& full.0 == rest.0
                &&& full.1 == wacc + rest.1
            }),
        decreases n - j,
    {
        proof {
            assert(class@.methods[j as int] == class.methods@[j as int]@);
        }
        match typecheck_method(ct, &class.methods[j], &class.name, warnings) {
            Err(e) => {
                proof {
                    let mw = typecheck_method_full(ct@, class@.methods[j as int], class@.name).1;
                    assert((w0 + wacc) + mw =~= w0 + (wacc + mw));
                }
                return Err(TypingError::InvalidMethod(
                    class.methods[j].method_name.duplicate(),
                    class.name.duplicate(),
                    Box::new(e),
                ));
            },
            Ok(_) => {
                let ghost mw = typecheck_method_full(ct@, class@.methods[j as int], class@.name).1;
                proof {
                    let rest_next = methods_full(ct@, class@, j as int + 1);
                    assert((w0 + wacc) + mw =~= w0 + (wacc + mw));
                    assert(wacc + (mw + rest_next.1) =~= (wacc + mw) + rest_next.1);
                    wacc = wacc + mw;
                }
                j = j + 1;
            },
        }
    }
    proof {
        assert(wacc + methods_full(ct@, class@, j as int).1 =~= wacc);
    }
    Ok(ClassOk)
}

/// What checking a whole program from class `i` on yields.
pub open spec fn classes_full(cs: Seq<SpecClass>, program: Seq<SpecClass>, i: int) -> (
    Result<(), SpecTypingError>,
    Seq<(Seq<char>, Seq<char>)>,
)
    decreases program.len() - i,
{
    if i < 0 || i >= program.len() {
        (Ok(()), Seq::empty())
    } else {
        let (cr, cw) = typecheck_class_full(cs, program[i]);
        match cr {
            Err(e) => (Err(SpecTypingError::InvalidClass(program[i].name, Box::new(e))), cw),
            Ok(_) => {
                let (rr, rw) = classes_full(cs, program, i + 1);
                (rr, cw + rw)
            },
        }
    }
}

/// What checking a whole program yields.
pub open spec fn typecheck_ast_full(cs: Seq<SpecClass>, program: Seq<SpecClass>) -> (
    Result<(), SpecTypingError>,
    Seq<(Seq<char>, Seq<char>)>,
) {
    classes_full(cs, program, 0)
}

/// Checks every class of the program, in declaration order; the first error
/// wins.
pub fn typecheck_ast(
    ct: &ClassTable,
    ast: &Ast,
    warnings: &mut Vec<(ClassName, ClassName)>,
) -> (r: Result<(), TypingError>)
    requires
        ct.wf(),
    ensures
        ({
            let (res, warns) = typecheck_ast_full(ct@, ast@);
            &&& match r {
                Ok(_) => res is Ok,
                Err(e) => res == Err::<(), SpecTypingError>(e@),
            }
            &&& crate::ast::view_class_pairs(final(warnings)@) == crate::ast::view_class_pairs(
                old(warnings)@,
            ) + warns
        }),
{
    broadcast use crate::ast::group_ast_views;

    let ghost w0 = crate::ast::view_class_pairs(warnings@);
    let ghost mut wacc: Seq<(Seq<char>, Seq<char>)> = Seq::empty();
    proof {
        assert(w0 + wacc =~= w0);
    }
    let n = ast.class_definitions.len();
    let mut i: usize = 0;
    while i < n
        invariant
            i <= n,
            n == ast.class_definitions@.len(),
            ct.wf(),
            w0 == crate::ast::view_class_pairs(old(warnings)@),
            crate::ast::view_class_pairs(warnings@) == w0 + wacc,
            ({
                let full = classes_full(ct@, ast@, 0);
                let rest = classes_full(ct@, ast@, i as int);
                &&& full.0 == rest.0
                &&& full.1 == wacc + rest.1
            }),
        decreases n - i,
    {
        proof {
            assert(ast@[i as int] == ast.class_definitions@[i as int]@);
        }
        match typecheck_class(ct, &ast.class_definitions[i], warnings) {
            Err(e) => {
                proof {
                    let cw = typecheck_class_full(ct@, ast@[i as int]).1;
                    assert((w0 + wacc) + cw =~= w0 + (wacc + cw));
                }
                return Err(TypingError::InvalidClass(
                    ast.class_definitions[i].name.duplicate(),
                    Box::new(e),
                ));
            },
            Ok(_) => {
                let ghost cw = typecheck_class_full(ct@, ast@[i as int]).1;
                proof {
                    let rest_next = classes_full(ct@, ast@, i as int + 1);
                    assert((w0 + wacc) + cw =~= w0 + (wacc + cw));
                    assert(wacc + (cw + rest_next.1) =~= (wacc + cw) + rest_next.1);
                    wacc = wacc + cw;
                }
                i = i + 1;
            },
        }
    }
    proof {
        assert(wacc + classes_full(ct@, ast@, i as int).1 =~= wacc);
    }
    Ok(())
}

// ------------------------------------------------------------------
// The override law
// ------------------------------------------------------------------

/// In a chain of method checks that passed, each single check passed.
pub(crate) proof fn lemma_methods_full_ok(cs: Seq<SpecClass>, cl: SpecClass, j: int, k: int)
    requires
        methods_full(cs, cl, j).0 is Ok,
        0 <= j <= k < cl.methods.len(),
    ensures
        typecheck_method_full(cs, cl.methods[k], cl.name).0 is Ok,
    decreases k - j,
{
    if j < k {
        lemma_methods_full_ok(cs, cl, j + 1, k);
    }
}

/// Overriding keeps the signature: in a well-formed table whose classes
/// check, `mtype(m, C)` equals `mtype(m, super(C))` also when `C` itself
/// declares `m`.
pub proof fn lemma_mtype_override(cs: Seq<SpecClass>, m: Seq<char>, c: Seq<char>)
    requires
        crate::class_table::table_wf(cs),
        has_class(cs, c),
        typecheck_class_full(cs, class_def(cs, c)).0 is Ok,
        declares_method(class_def(cs, c), m),
        mtype_of(cs, m, crate::class_table::super_name(cs, c)) is Some,
    ensures
        mtype_of(cs, m, c) == mtype_of(cs, m, crate::class_table::super_name(cs, c)),
{
    let cl = class_def(cs, c);
    let idx = crate::class_table::class_index(cs, c);
    assert(0 <= idx < cs.len() && cs[idx].name == c);
    assert(crate::class_table::class_shape_ok(cl));
    assert(cl.name == c);
    let k = choose|k: int| 0 <= k < cl.methods.len() && cl.methods[k].method_name == m;
    assert(0 <= k < cl.methods.len() && cl.methods[k].method_name == m);
    lemma_methods_full_ok(cs, cl, 0, k);
    let mm = cl.methods[k];
    let mts = mtype_of(cs, m, crate::class_table::super_name(cs, c))->Some_0;
    assert(mts == signature_of(mm));
    crate::class_table::lemma_mtype_unfold(cs, m, c);
    let chosen = method_in_class(cl, m);
    let k2 = choose|i: int| 0 <= i < cl.methods.len() && cl.methods[i].method_name == m;
    assert(0 <= k2 < cl.methods.len() && cl.methods[k2].method_name == m);
    assert(k == k2);
    assert(mtype_of(cs, m, c) == Some(signature_of(mm)));
}

} // verus!
