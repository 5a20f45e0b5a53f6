//! The small-step, call-by-value reduction semantics: one fixed evaluation
//! order, so `t → t'` is deterministic. A value is `new C(vs)` whose
//! arguments are all values; the only runtime error a well-typed closed
//! program can raise is a failed cast.

use vstd::prelude::*;
use crate::ast::{
    this_name, view_arg_pairs, view_terms, Cast, ClassName, FieldAccess, FieldName, MethodCall, MethodName,
    NewCall, SpecClass, SpecTerm, Term,
};
use crate::class_table::{contains_name, fields_of, mbody_of, subtype, ClassTable, SpecMethodBody};
use crate::error::{EvalError, SpecEvalError};
use crate::typecheck::{field_index, find_field};

verus! {

// ------------------------------------------------------------------
// Values
// ------------------------------------------------------------------

/// Whether every term of the list is a value.
pub open spec fn all_values(ts: Seq<SpecTerm>) -> bool
    decreases ts,
{
    if ts.len() == 0 {
        true
    } else {
        is_value_spec(ts[0]) && all_values(ts.subrange(1, ts.len() as int))
    }
}

/// A value: a constructor call whose arguments are all values.
pub open spec fn is_value_spec(t: SpecTerm) -> bool
    decreases t,
{
    match t {
        SpecTerm::NewCall(_, args) => all_values(args),
        _ => false,
    }
}

/// `all_values` is the pointwise conjunction of `is_value_spec`.
pub broadcast proof fn lemma_all_values(ts: Seq<SpecTerm>)
    ensures
        #![trigger all_values(ts)]
        all_values(ts) == (forall|i: int| 0 <= i < ts.len() ==> is_value_spec(ts[i])),
    decreases ts.len(),
{
    if ts.len() > 0 {
        lemma_all_values(ts.subrange(1, ts.len() as int));
        if is_value_spec(ts[0]) && (forall|i: int|
            0 <= i < ts.subrange(1, ts.len() as int).len() ==> is_value_spec(
                ts.subrange(1, ts.len() as int)[i],
            )) {
            assert forall|i: int| 0 <= i < ts.len() implies is_value_spec(ts[i]) by {
                if i > 0 {
                    assert(ts.subrange(1, ts.len() as int)[i - 1] == ts[i]);
                }
            }
        }
    }
}

impl NewCall {
    /// Whether every constructor argument is already a value.
    pub fn has_only_value_args(&self) -> (r: bool)
        ensures
            r == all_values(view_terms(self.arg_terms@)),
        decreases self.arg_terms@,
    {
        broadcast use crate::ast::group_ast_views, lemma_all_values;

        let n = self.arg_terms.len();
        let mut i: usize = 0;
        while i < n
            invariant
                i <= n,
                n == self.arg_terms@.len(),
                forall|x: int|
                    0 <= x < i ==> is_value_spec(crate::ast::view_term(*self.arg_terms@[x])),
            decreases n - i,
        {
            if !self.arg_terms[i].is_value() {
                proof {
                    crate::ast::lemma_view_terms(self.arg_terms@);
                    lemma_all_values(view_terms(self.arg_terms@));
                    assert(!is_value_spec(view_terms(self.arg_terms@)[i as int]));
                }
                return false;
            }
            i = i + 1;
        }
        proof {
            crate::ast::lemma_view_terms(self.arg_terms@);
            lemma_all_values(view_terms(self.arg_terms@));
            assert(all_values(view_terms(self.arg_terms@)));
        }
        true
    }
}

impl Term {
    /// Whether the term is a value: `new C(vs)` with all arguments values.
    pub fn is_value(&self) -> (r: bool)
        ensures
            r == is_value_spec(self@),
        decreases *self,
    {
        match self {
            Term::NewCall(nc) => nc.has_only_value_args(),
            _ => false,
        }
    }
}

/// The first position of `ts` (from `i` on) that is not yet a value; `-1`
/// when all are.
pub open spec fn first_non_value_from(ts: Seq<SpecTerm>, i: int) -> int
    decreases ts.len() - i,
{
    if i < 0 || i >= ts.len() {
        -1
    } else if !is_value_spec(ts[i]) {
        i
    } else {
        first_non_value_from(ts, i + 1)
    }
}

/// The first position of `ts` that is not yet a value; `-1` when all are.
pub open spec fn first_non_value(ts: Seq<SpecTerm>) -> int {
    first_non_value_from(ts, 0)
}

/// The first argument that still needs reduction.
fn find_non_value(args: &Vec<Box<Term>>) -> (r: Option<usize>)
    ensures
        ({
            let k = first_non_value(view_terms(args@));
            match r {
                Some(j) => k == j as int && j < args@.len(),
                None => k == -1,
            }
        }),
{
    broadcast use crate::ast::group_ast_views;

    let ghost tv = view_terms(args@);
    let n = args.len();
    let mut i: usize = 0;
    while i < n
        invariant
            i <= n,
            n == args@.len(),
            tv == view_terms(args@),
            tv.len() == n,
            first_non_value(tv) == first_non_value_from(tv, i as int),
        decreases n - i,
    {
        proof {
            crate::ast::lemma_view_terms(args@);
        }
        if !args[i].is_value() {
            proof {
                assert(!is_value_spec(tv[i as int]));
            }
            return Some(i);
        }
        proof {
            assert(is_value_spec(tv[i as int]));
        }
        i = i + 1;
    }
    None
}

// ------------------------------------------------------------------
// Substitution
// ------------------------------------------------------------------

/// Capture-free substitution of `v` for the variable `x` in `t`.
pub open spec fn subst(t: SpecTerm, x: Seq<char>, v: SpecTerm) -> SpecTerm
    decreases t,
{
    match t {
        SpecTerm::Variable(y) => if y == x {
            v
        } else {
            t
        },
        SpecTerm::FieldAccess(obj, f) => SpecTerm::FieldAccess(Box::new(subst(*obj, x, v)), f),
        SpecTerm::MethodCall(obj, m, args) => SpecTerm::MethodCall(
            Box::new(subst(*obj, x, v)),
            m,
            subst_all(args, x, v),
        ),
        SpecTerm::NewCall(c, args) => SpecTerm::NewCall(c, subst_all(args, x, v)),
        SpecTerm::Cast(to, t1) => SpecTerm::Cast(to, Box::new(subst(*t1, x, v))),
    }
}

/// Substitution mapped over a list of terms.
pub open spec fn subst_all(ts: Seq<SpecTerm>, x: Seq<char>, v: SpecTerm) -> Seq<SpecTerm>
    decreases ts,
{
    if ts.len() == 0 {
        Seq::empty()
    } else {
        seq![subst(ts[0], x, v)] + subst_all(ts.subrange(1, ts.len() as int), x, v)
    }
}

/// `subst_all` is the pointwise image of `subst`.
pub broadcast proof fn lemma_subst_all(ts: Seq<SpecTerm>, x: Seq<char>, v: SpecTerm)
    ensures
        #![trigger subst_all(ts, x, v)]
        subst_all(ts, x, v).len() == ts.len(),
        forall|i: int| 0 <= i < ts.len() ==> subst_all(ts, x, v)[i] == subst(ts[i], x, v),
    decreases ts.len(),
{
    if ts.len() > 0 {
        lemma_subst_all(ts.subrange(1, ts.len() as int), x, v);
    }
}

/// Sequential substitution: the replacements are applied left to right.
pub open spec fn subst_many(t: SpecTerm, rs: Seq<(Seq<char>, SpecTerm)>) -> SpecTerm
    decreases rs.len(),
{
    if rs.len() == 0 {
        t
    } else {
        subst_many(subst(t, rs[0].0, rs[0].1), rs.subrange(1, rs.len() as int))
    }
}

/// Replaces every occurrence of the variable `to_replace` in `in_term` with
/// a copy of `with_term`.
pub fn substitute(in_term: &Term, to_replace: &FieldName, with_term: &Term) -> (r: Term)
    ensures
        r@ == subst(in_term@, to_replace@, with_term@),
    decreases *in_term,
{
    broadcast use crate::ast::group_ast_views, lemma_subst_all;

    match in_term {
        Term::Variable(y) => {
            if y.eq_name(to_replace) {
                with_term.deep_clone()
            } else {
                Term::Variable(y.duplicate())
            }
        },
        Term::FieldAccess(fa) => Term::FieldAccess(FieldAccess {
            object_term: Box::new(substitute(&fa.object_term, to_replace, with_term)),
            field: fa.field.duplicate(),
        }),
        Term::MethodCall(mc) => {
            let object_term = Box::new(substitute(&mc.object_term, to_replace, with_term));
            let args = substitute_args(&mc.arg_terms, to_replace, with_term);
            Term::MethodCall(MethodCall {
                object_term,
                method_name: mc.method_name.duplicate(),
                arg_terms: args,
            })
        },
        Term::NewCall(nc) => {
            let args = substitute_args(&nc.arg_terms, to_replace, with_term);
            Term::NewCall(NewCall { class_name: nc.class_name.duplicate(), arg_terms: args })
        },
        Term::Cast(cst) => Term::Cast(Cast {
            to_class_name: cst.to_class_name.duplicate(),
            term: Box::new(substitute(&cst.term, to_replace, with_term)),
        }),
    }
}

/// Substitution over every term of an argument list.
fn substitute_args(args: &Vec<Box<Term>>, to_replace: &FieldName, with_term: &Term) -> (r: Vec<
    Box<Term>,
>)
    ensures
        view_terms(r@) == subst_all(view_terms(args@), to_replace@, with_term@),
    decreases args@,
{
    broadcast use crate::ast::group_ast_views, lemma_subst_all;

    let n = args.len();
    let mut r: Vec<Box<Term>> = Vec::new();
    let mut i: usize = 0;
    while i < n
        invariant
            i <= n,
            n == args@.len(),
            r@.len() == i,
            forall|x: int|
                0 <= x < i ==> crate::ast::view_term(*r@[x]) == subst(
                    crate::ast::view_term(*args@[x]),
                    to_replace@,
                    with_term@,
                ),
        decreases n - i,
    {
        r.push(Box::new(substitute(&args[i], to_replace, with_term)));
        i = i + 1;
    }
    proof {
        crate::ast::lemma_view_terms(args@);
        crate::ast::lemma_view_terms(r@);
        assert(view_terms(r@) =~= subst_all(view_terms(args@), to_replace@, with_term@));
    }
    r
}

/// Applies the replacements in order, each over the result of the previous
/// one.
pub fn substitute_many(in_term: Term, replacements: &Vec<(FieldName, Term)>) -> (r: Term)
    ensures
        r@ == subst_many(in_term@, view_replacements(replacements@)),
{
    broadcast use lemma_view_replacements;

    let ghost rv = view_replacements(replacements@);
    let mut current = in_term;
    let n = replacements.len();
    let mut i: usize = 0;
    proof {
        assert(rv.subrange(0, rv.len() as int) =~= rv);
    }
    while i < n
        invariant
            i <= n,
            n == replacements@.len(),
            rv == view_replacements(replacements@),
            rv.len() == n,
            subst_many(in_term@, rv) == subst_many(
                current@,
                rv.subrange(i as int, rv.len() as int),
            ),
        decreases n - i,
    {
        let ghost suffix = rv.subrange(i as int, rv.len() as int);
        proof {
            assert(suffix[0] == rv[i as int]);
            assert(suffix.subrange(1, suffix.len() as int) =~= rv.subrange(
                i as int + 1,
                rv.len() as int,
            ));
        }
        current = substitute(&current, &replacements[i].0, &replacements[i].1);
        i = i + 1;
    }
    proof {
        assert(rv.subrange(i as int, rv.len() as int).len() == 0);
    }
    current
}

pub open spec fn view_replacements(s: Seq<(FieldName, Term)>) -> Seq<(Seq<char>, SpecTerm)> {
    s.map_values(|p: (FieldName, Term)| (p.0@, p.1@))
}

pub broadcast proof fn lemma_view_replacements(s: Seq<(FieldName, Term)>)
    ensures
        #![trigger view_replacements(s)]
        view_replacements(s).len() == s.len(),
        forall|i: int| 0 <= i < s.len() ==> view_replacements(s)[i] == (s[i].0@, s[i].1@),
{
}

// ------------------------------------------------------------------
// One reduction step
// ------------------------------------------------------------------

/// Pairs of method parameter names and actual arguments, up to the shorter
/// list.
pub open spec fn zip_pairs(xs: Seq<Seq<char>>, vs: Seq<SpecTerm>) -> Seq<(Seq<char>, SpecTerm)>
    decreases xs,
{
    if xs.len() == 0 || vs.len() == 0 {
        Seq::empty()
    } else {
        seq![(xs[0], vs[0])] + zip_pairs(
            xs.subrange(1, xs.len() as int),
            vs.subrange(1, vs.len() as int),
        )
    }
}

/// `zip_pairs` pairs the lists pointwise.
pub broadcast proof fn lemma_zip_pairs(xs: Seq<Seq<char>>, vs: Seq<SpecTerm>)
    ensures
        #![trigger zip_pairs(xs, vs)]
        zip_pairs(xs, vs).len() == if xs.len() <= vs.len() {
            xs.len()
        } else {
            vs.len()
        },
        forall|i: int| 0 <= i < zip_pairs(xs, vs).len() ==> zip_pairs(xs, vs)[i] == (xs[i], vs[i]),
    decreases xs.len(),
{
    if xs.len() > 0 && vs.len() > 0 {
        lemma_zip_pairs(xs.subrange(1, xs.len() as int), vs.subrange(1, vs.len() as int));
    }
}

/// The position of the first term of `ts` that is not a value lies in the
/// list whenever some term is not a value.
pub proof fn lemma_first_non_value(ts: Seq<SpecTerm>, i: int)
    requires
        0 <= i <= ts.len(),
    ensures
        first_non_value_from(ts, i) == -1 ==> forall|j: int|
            i <= j < ts.len() ==> is_value_spec(ts[j]),
        first_non_value_from(ts, i) != -1 ==> {
            &&& i <= first_non_value_from(ts, i) < ts.len()
            &&& !is_value_spec(ts[first_non_value_from(ts, i)])
            &&& forall|j: int| i <= j < first_non_value_from(ts, i) ==> is_value_spec(ts[j])
        },
    decreases ts.len() - i,
{
    if i < ts.len() && is_value_spec(ts[i]) {
        lemma_first_non_value(ts, i + 1);
    }
}

/// One reduction step `t → t'`: the first applicable rule in the fixed
/// congruence order, or the runtime error the redex raises.
pub open spec fn step_spec(cs: Seq<SpecClass>, t: SpecTerm) -> Result<SpecTerm, SpecEvalError>
    decreases t,
    via step_spec_decreases
{
    match t {
        SpecTerm::Variable(_) => Err(SpecEvalError::Stuck(t)),
        SpecTerm::FieldAccess(obj, f) => if is_value_spec(*obj) {
            match *obj {
                SpecTerm::NewCall(c, oargs) => {
                    if !contains_name(cs, c) {
                        Err(SpecEvalError::UndefinedClass(c))
                    } else {
                        let flds = fields_of(cs, c);
                        let k = field_index(flds, f);
                        if k < 0 {
                            Err(SpecEvalError::UndefinedField(f, c))
                        } else if k < oargs.len() {
                            Ok(oargs[k])
                        } else {
                            Err(SpecEvalError::ConstructorArgNotFound(k, c))
                        }
                    }
                },
                _ => Err(SpecEvalError::Stuck(SpecTerm::FieldAccess(obj, f))),
            }
        } else {
            match step_spec(cs, *obj) {
                Ok(o2) => Ok(SpecTerm::FieldAccess(Box::new(o2), f)),
                Err(e) => Err(e),
            }
        },
        SpecTerm::MethodCall(obj, m, args) => if is_value_spec(*obj) {
            if all_values(args) {
                match *obj {
                    SpecTerm::NewCall(c, _) => match mbody_of(cs, m, c) {
                        None => Err(SpecEvalError::UndefinedMethod(m, c)),
                        Some(mb) => Ok(
                            subst_many(
                                mb.return_term,
                                seq![(this_name(), *obj)] + zip_pairs(mb.args, args),
                            ),
                        ),
                    },
                    _ => Err(SpecEvalError::Stuck(SpecTerm::MethodCall(obj, m, args))),
                }
            } else {
                let k = first_non_value(args);
                match step_spec(cs, args[k]) {
                    Ok(a2) => Ok(SpecTerm::MethodCall(obj, m, args.update(k, a2))),
                    Err(e) => Err(e),
                }
            }
        } else {
            match step_spec(cs, *obj) {
                Ok(o2) => Ok(SpecTerm::MethodCall(Box::new(o2), m, args)),
                Err(e) => Err(e),
            }
        },
        SpecTerm::NewCall(c, args) => if all_values(args) {
            Ok(t)
        } else {
            let k = first_non_value(args);
            match step_spec(cs, args[k]) {
                Ok(a2) => Ok(SpecTerm::NewCall(c, args.update(k, a2))),
                Err(e) => Err(e),
            }
        },
        SpecTerm::Cast(to, t1) => if is_value_spec(*t1) {
            match *t1 {
                SpecTerm::NewCall(c, _) => {
                    if !contains_name(cs, c) || !contains_name(cs, to) {
                        Err(SpecEvalError::UndefinedClasses(seq![c, to]))
                    } else if subtype(cs, c, to) {
                        Ok(*t1)
                    } else {
                        Err(SpecEvalError::CastFailed(c, to))
                    }
                },
                _ => Err(SpecEvalError::Stuck(SpecTerm::Cast(to, t1))),
            }
        } else {
            match step_spec(cs, *t1) {
                Ok(t2) => Ok(SpecTerm::Cast(to, Box::new(t2))),
                Err(e) => Err(e),
            }
        },
    }
}

#[via_fn]
proof fn step_spec_decreases(cs: Seq<SpecClass>, t: SpecTerm) {
    match t {
        SpecTerm::MethodCall(obj, m, args) => {
            if is_value_spec(*obj) && !all_values(args) {
                lemma_all_values(args);
                lemma_first_non_value(args, 0);
            }
        },
        SpecTerm::NewCall(c, args) => {
            if !all_values(args) {
                lemma_all_values(args);
                lemma_first_non_value(args, 0);
            }
        },
        _ => {},
    }
}

/// Reduces the argument at position `k` by one step, leaving the other
/// arguments as they are.
fn step_arg_at(ct: &ClassTable, args: Vec<Box<Term>>, k: usize) -> (r: Result<
    Vec<Box<Term>>,
    EvalError,
>)
    requires
        ct.wf(),
        k < args@.len(),
    ensures
        ({
            let s = step_spec(ct@, view_terms(args@)[k as int]);
            match r {
                Ok(v) => s is Ok && view_terms(v@) == view_terms(args@).update(
                    k as int,
                    s->Ok_0,
                ),
                Err(e) => s == Err::<SpecTerm, SpecEvalError>(e@),
            }
        }),
    decreases args@,
{
    broadcast use crate::ast::group_ast_views;

    let ghost entry_boxes = args@;
    let ghost entry = view_terms(args@);
    proof {
        crate::ast::lemma_view_terms(args@);
    }
    let mut args = args;
    let b = args.remove(k);
    proof {
        assert((*b)@ == entry[k as int]);
    }
    match eval_step(ct, *b) {
        Ok(a2) => {
            let ghost a2v = a2@;
            let ghost mid = args@;
            args.insert(k, Box::new(a2));
            proof {
                crate::ast::lemma_view_terms(args@);
                assert forall|x: int| 0 <= x < entry.len() implies crate::ast::view_term(
                    *args@[x],
                ) == entry.update(k as int, a2v)[x] by {
                    if x < k {
                        assert(args@[x] == mid[x]);
                        assert(mid[x] == entry_boxes[x]);
                        assert(crate::ast::view_term(*entry_boxes[x]) == entry[x]);
                    } else if x > k {
                        assert(args@[x] == mid[x - 1]);
                        assert(mid[x - 1] == entry_boxes[x]);
                        assert(crate::ast::view_term(*entry_boxes[x]) == entry[x]);
                    }
                }
                assert(view_terms(args@) =~= entry.update(k as int, a2v));
            }
            Ok(args)
        },
        Err(e) => Err(e),
    }
}

/// `E-InvkNew`: invokes a method on a fully constructed object whose
/// arguments are all values, substituting receiver and arguments into the
/// method body.
fn invoke_on_value(
    ct: &ClassTable,
    nc: NewCall,
    method_name: &MethodName,
    arg_terms: Vec<Box<Term>>,
) -> (r: Result<Term, EvalError>)
    requires
        ct.wf(),
    ensures
        ({
            let res = match mbody_of(ct@, method_name@, nc.class_name@) {
                None => Err::<SpecTerm, SpecEvalError>(
                    SpecEvalError::UndefinedMethod(method_name@, nc.class_name@),
                ),
                Some(mb) => Ok(
                    subst_many(
                        mb.return_term,
                        seq![(this_name(), Term::NewCall(nc)@)] + zip_pairs(
                            mb.args,
                            view_terms(arg_terms@),
                        ),
                    ),
                ),
            };
            match r {
                Ok(t2) => res == Ok::<SpecTerm, SpecEvalError>(t2@),
                Err(e) => res == Err::<SpecTerm, SpecEvalError>(e@),
            }
        }),
{
    broadcast use crate::ast::group_ast_views;

    let mb = match ct.method_body(method_name, &nc.class_name) {
        Some(mb) => mb,
        None => {
            return Err(EvalError::UndefinedMethod(method_name.duplicate(), nc.class_name));
        },
    };
    let ghost recv_view = Term::NewCall(nc)@;
    let ghost args_view = view_terms(arg_terms@);
    let ghost names_view = crate::ast::view_field_names(mb.args@);
    let receiver = Term::NewCall(nc);
    let mut reps: Vec<(FieldName, Term)> = Vec::new();
    reps.push((FieldName("this".to_owned()), receiver));
    let nb = mb.args.len();
    let mut args = arg_terms;
    let na = args.len();
    let m = if nb < na {
        nb
    } else {
        na
    };
    let mut k: usize = 0;
    proof {
        crate::ast::lemma_view_terms(args@);
    }
    while k < m
        invariant
            k <= m,
            m <= nb,
            m <= na,
            nb == mb.args@.len(),
            na == args_view.len(),
            m as int == if nb as int <= na as int {
                nb as int
            } else {
                na as int
            },
            names_view == crate::ast::view_field_names(mb.args@),
            args@.len() == na - k,
            forall|x: int|
                0 <= x < na - k ==> crate::ast::view_term(*args@[x]) == args_view[x + k],
            reps@.len() == k + 1,
            reps@[0].0@ == this_name(),
            reps@[0].1@ == recv_view,
            forall|x: int|
                0 <= x < k ==> (#[trigger] reps@[x + 1]).0@ == names_view[x] && reps@[x + 1].1@
                    == args_view[x],
        decreases m - k,
    {
        let ghost before = args@;
        let b = args.remove(0);
        proof {
            crate::ast::lemma_view_field_names(mb.args@);
            assert forall|x: int|
                0 <= x < na - k - 1 implies crate::ast::view_term(*args@[x]) == args_view[x + k
                + 1] by {
                assert(args@[x] == before[x + 1]);
            }
            assert(crate::ast::view_term(*b) == args_view[k as int]);
        }
        reps.push((mb.args[k].duplicate(), *b));
        k = k + 1;
    }
    proof {
        lemma_zip_pairs(names_view, args_view);
        lemma_view_replacements(reps@);
        let target = seq![(this_name(), recv_view)] + zip_pairs(names_view, args_view);
        assert(zip_pairs(names_view, args_view).len() == m);
        assert(view_replacements(reps@).len() == target.len());
        assert forall|i: int|
            0 <= i < target.len() implies view_replacements(reps@)[i] == target[i] by {
            if i > 0 {
                assert(reps@[(i - 1) + 1].0@ == names_view[i - 1]);
                assert(reps@[(i - 1) + 1].1@ == args_view[i - 1]);
                assert(target[i] == zip_pairs(names_view, args_view)[i - 1]);
            }
        }
        assert(view_replacements(reps@) =~= target);
    }
    Ok(substitute_many(*mb.return_term, &reps))
}

/// `E-ProjNew`: projects a field out of a fully constructed object.
fn project_on_value(ct: &ClassTable, nc: NewCall, field: FieldName) -> (r: Result<Term, EvalError>)
    requires
        ct.wf(),
    ensures
        ({
            let res: Result<SpecTerm, SpecEvalError> = if !contains_name(ct@, nc.class_name@) {
                Err(SpecEvalError::UndefinedClass(nc.class_name@))
            } else {
                let flds = fields_of(ct@, nc.class_name@);
                let k = field_index(flds, field@);
                if k < 0 {
                    Err(SpecEvalError::UndefinedField(field@, nc.class_name@))
                } else if k < view_terms(nc.arg_terms@).len() {
                    Ok(view_terms(nc.arg_terms@)[k])
                } else {
                    Err(SpecEvalError::ConstructorArgNotFound(k, nc.class_name@))
                }
            };
            match r {
                Ok(t2) => res == Ok::<SpecTerm, SpecEvalError>(t2@),
                Err(e) => res == Err::<SpecTerm, SpecEvalError>(e@),
            }
        }),
{
    broadcast use crate::ast::group_ast_views;

    match ct.fields(&nc.class_name) {
        None => Err(EvalError::UndefinedClass(nc.class_name)),
        Some(flds) => {
            proof {
                assert(view_arg_pairs(flds@) == fields_of(ct@, nc.class_name@));
            }
            match find_field(&flds, &field) {
                None => Err(EvalError::UndefinedField(field, nc.class_name)),
                Some(k) => {
                    proof {
                        crate::ast::lemma_view_terms(nc.arg_terms@);
                    }
                    if k < nc.arg_terms.len() {
                        let mut args = nc.arg_terms;
                        let b = args.remove(k);
                        Ok(*b)
                    } else {
                        Err(EvalError::ConstructorArgNotFound(k, nc.class_name))
                    }
                },
            }
        },
    }
}

/// Performs one reduction step on `term`, or reports the runtime error the
/// redex raises. On a well-formed table this is the deterministic `→` of
/// the calculus.
pub fn eval_step(ct: &ClassTable, term: Term) -> (r: Result<Term, EvalError>)
    requires
        ct.wf(),
    ensures
        match r {
            Ok(t2) => step_spec(ct@, term@) == Ok::<SpecTerm, SpecEvalError>(t2@),
            Err(e) => step_spec(ct@, term@) == Err::<SpecTerm, SpecEvalError>(e@),
        },
    decreases term,
{
    broadcast use crate::ast::group_ast_views;

    match term {
        Term::Variable(x) => Err(EvalError::Stuck(Term::Variable(x))),
        Term::FieldAccess(fa) => {
            if fa.object_term.is_value() {
                match *fa.object_term {
                    Term::NewCall(nc) => project_on_value(ct, nc, fa.field),
                    other => {
                        proof {
                            assert(false);
                        }
                        Err(EvalError::Stuck(other))
                    },
                }
            } else {
                match eval_step(ct, *fa.object_term) {
                    Ok(o2) => Ok(
                        Term::FieldAccess(
                            FieldAccess { object_term: Box::new(o2), field: fa.field },
                        ),
                    ),
                    Err(e) => Err(e),
                }
            }
        },
        Term::MethodCall(mc) => {
            if mc.object_term.is_value() {
                match find_non_value(&mc.arg_terms) {
                    None => {
                        proof {
                            lemma_first_non_value(view_terms(mc.arg_terms@), 0);
                            lemma_all_values(view_terms(mc.arg_terms@));
                            assert(all_values(view_terms(mc.arg_terms@)));
                        }
                        match *mc.object_term {
                            Term::NewCall(nc) => invoke_on_value(
                                ct,
                                nc,
                                &mc.method_name,
                                mc.arg_terms,
                            ),
                            other => {
                                proof {
                                    assert(false);
                                }
                                Err(EvalError::Stuck(other))
                            },
                        }
                    },
                    Some(k) => {
                        proof {
                            lemma_first_non_value(view_terms(mc.arg_terms@), 0);
                            lemma_all_values(view_terms(mc.arg_terms@));
                        }
                        match step_arg_at(ct, mc.arg_terms, k) {
                            Ok(args) => Ok(
                                Term::MethodCall(
                                    MethodCall {
                                        object_term: mc.object_term,
                                        method_name: mc.method_name,
                                        arg_terms: args,
                                    },
                                ),
                            ),
                            Err(e) => Err(e),
                        }
                    },
                }
            } else {
                match eval_step(ct, *mc.object_term) {
                    Ok(o2) => Ok(
                        Term::MethodCall(
                            MethodCall {
                                object_term: Box::new(o2),
                                method_name: mc.method_name,
                                arg_terms: mc.arg_terms,
                            },
                        ),
                    ),
                    Err(e) => Err(e),
                }
            }
        },
        Term::NewCall(nc) => {
            match find_non_value(&nc.arg_terms) {
                None => {
                    proof {
                        lemma_first_non_value(view_terms(nc.arg_terms@), 0);
                        lemma_all_values(view_terms(nc.arg_terms@));
                        assert(all_values(view_terms(nc.arg_terms@)));
                    }
                    Ok(Term::NewCall(nc))
                },
                Some(k) => {
                    proof {
                        lemma_first_non_value(view_terms(nc.arg_terms@), 0);
                        lemma_all_values(view_terms(nc.arg_terms@));
                    }
                    match step_arg_at(ct, nc.arg_terms, k) {
                        Ok(args) => Ok(
                            Term::NewCall(
                                NewCall { class_name: nc.class_name, arg_terms: args },
                            ),
                        ),
                        Err(e) => Err(e),
                    }
                },
            }
        },
        Term::Cast(cst) => {
            if cst.term.is_value() {
                match *cst.term {
                    Term::NewCall(nc) => {
                        match ct.is_subtype(&nc.class_name, &cst.to_class_name) {
                            None => {
                                let mut pair: Vec<ClassName> = Vec::new();
                                pair.push(nc.class_name.duplicate());
                                pair.push(cst.to_class_name.duplicate());
                                proof {
                                    assert(crate::ast::view_class_names(pair@) =~= seq![
                                        nc.class_name@,
                                        cst.to_class_name@,
                                    ]);
                                }
                                Err(EvalError::UndefinedClasses(pair))
                            },
                            Some(true) => Ok(Term::NewCall(nc)),
                            Some(false) => Err(
                                EvalError::CastFailed(nc.class_name, cst.to_class_name),
                            ),
                        }
                    },
                    other => {
                        proof {
                            assert(false);
                        }
                        Err(EvalError::Stuck(other))
                    },
                }
            } else {
                match eval_step(ct, *cst.term) {
                    Ok(t2) => Ok(
                        Term::Cast(
                            Cast { to_class_name: cst.to_class_name, term: Box::new(t2) },
                        ),
                    ),
                    Err(e) => Err(e),
                }
            }
        },
    }
}

// ------------------------------------------------------------------
// Full evaluation
// ------------------------------------------------------------------

/// Repeated reduction: the value `t` reaches, the first runtime error, or
/// the unfinished term once `fuel` steps have been taken.
pub open spec fn eval_full_spec(cs: Seq<SpecClass>, t: SpecTerm, fuel: nat) -> Result<
    SpecTerm,
    SpecEvalError,
>
    decreases fuel,
{
    if is_value_spec(t) {
        Ok(t)
    } else if fuel == 0 {
        Err(SpecEvalError::StepLimitReached(t))
    } else {
        match step_spec(cs, t) {
            Ok(t2) => eval_full_spec(cs, t2, (fuel - 1) as nat),
            Err(e) => Err(e),
        }
    }
}

/// A value is its own normal form: evaluation returns it unchanged, however
/// small the step bound.
pub proof fn lemma_eval_full_value(cs: Seq<SpecClass>, v: SpecTerm, fuel: nat)
    requires
        is_value_spec(v),
    ensures
        eval_full_spec(cs, v, fuel) == Ok::<SpecTerm, SpecEvalError>(v),
{
}

/// Applies `eval_step` until a value is reached, a runtime error is raised,
/// or `max_steps` steps have been taken. A value comes back unchanged.
pub fn eval_full(ct: &ClassTable, term: Term, max_steps: usize) -> (r: Result<Term, EvalError>)
    requires
        ct.wf(),
    ensures
        match r {
            Ok(v) => eval_full_spec(ct@, term@, max_steps as nat) == Ok::<
                SpecTerm,
                SpecEvalError,
            >(v@) && is_value_spec(v@),
            Err(e) => eval_full_spec(ct@, term@, max_steps as nat) == Err::<
                SpecTerm,
                SpecEvalError,
            >(e@),
        },
        is_value_spec(term@) ==> match r {
            Ok(v) => v@ == term@,
            Err(_) => false,
        },
{
    let mut current = term;
    let mut fuel = max_steps;
    loop
        invariant
            ct.wf(),
            eval_full_spec(ct@, term@, max_steps as nat) == eval_full_spec(
                ct@,
                current@,
                fuel as nat,
            ),
            is_value_spec(term@) ==> current@ == term@,
        decreases fuel,
    {
        if current.is_value() {
            return Ok(current);
        }
        if fuel == 0 {
            return Err(EvalError::StepLimitReached(current));
        }
        match eval_step(ct, current) {
            Ok(t2) => {
                current = t2;
                fuel = fuel - 1;
            },
            Err(e) => {
                return Err(e);
            },
        }
    }
}

} // verus!
