//! The abstract syntax of Featherweight Java: class declarations and terms,
//! together with their mathematical models (`Spec*` types, built from
//! `Seq<char>` names) used by every contract in the crate.

use vstd::prelude::*;
use vstd::string::StringExecFns;

verus! {

/// A class name; `"Object"` denotes the implicit root class.
#[derive(Debug, Clone)]
pub struct ClassName(pub String);

/// A field or variable name; `"this"` is the receiver.
#[derive(Debug, Clone)]
pub struct FieldName(pub String);

/// A method name.
#[derive(Debug, Clone)]
pub struct MethodName(pub String);

impl View for ClassName {
    type V = Seq<char>;

    open spec fn view(&self) -> Seq<char> {
        self.0@
    }
}

impl View for FieldName {
    type V = Seq<char>;

    open spec fn view(&self) -> Seq<char> {
        self.0@
    }
}

impl View for MethodName {
    type V = Seq<char>;

    open spec fn view(&self) -> Seq<char> {
        self.0@
    }
}

/// A term of the calculus.
#[derive(Debug)]
pub enum Term {
    Variable(FieldName),
    FieldAccess(FieldAccess),
    MethodCall(MethodCall),
    NewCall(NewCall),
    Cast(Cast),
}

/// `t.f`
#[derive(Debug)]
pub struct FieldAccess {
    pub object_term: Box<Term>,
    pub field: FieldName,
}

/// `t.m(args)`
#[derive(Debug)]
pub struct MethodCall {
    pub object_term: Box<Term>,
    pub method_name: MethodName,
    pub arg_terms: Vec<Box<Term>>,
}

/// `new C(args)`
#[derive(Debug)]
pub struct NewCall {
    pub class_name: ClassName,
    pub arg_terms: Vec<Box<Term>>,
}

/// `(C) t`
#[derive(Debug)]
pub struct Cast {
    pub to_class_name: ClassName,
    pub term: Box<Term>,
}

/// The mathematical model of a term: the same tree with every name
/// replaced by its character sequence.
pub enum SpecTerm {
    Variable(Seq<char>),
    FieldAccess(Box<SpecTerm>, Seq<char>),
    MethodCall(Box<SpecTerm>, Seq<char>, Seq<SpecTerm>),
    NewCall(Seq<char>, Seq<SpecTerm>),
    Cast(Seq<char>, Box<SpecTerm>),
}

pub open spec fn view_terms(ts: Seq<Box<Term>>) -> Seq<SpecTerm>
    decreases ts,
{
    if ts.len() == 0 {
        Seq::empty()
    } else {
        seq![view_term(*ts[0])] + view_terms(ts.subrange(1, ts.len() as int))
    }
}

pub open spec fn view_term(t: Term) -> SpecTerm
    decreases t,
{
    match t {
        Term::Variable(x) => SpecTerm::Variable(x@),
        Term::FieldAccess(fa) => SpecTerm::FieldAccess(Box::new(view_term(*fa.object_term)), fa.field@),
        Term::MethodCall(mc) => SpecTerm::MethodCall(
            Box::new(view_term(*mc.object_term)),
            mc.method_name@,
            view_terms(mc.arg_terms@),
        ),
        Term::NewCall(nc) => SpecTerm::NewCall(nc.class_name@, view_terms(nc.arg_terms@)),
        Term::Cast(c) => SpecTerm::Cast(c.to_class_name@, Box::new(view_term(*c.term))),
    }
}

impl View for Term {
    type V = SpecTerm;

    open spec fn view(&self) -> SpecTerm {
        view_term(*self)
    }
}

/// `view_terms` is the pointwise image of `view_term`.
pub broadcast proof fn lemma_view_terms(ts: Seq<Box<Term>>)
    ensures
        #![trigger view_terms(ts)]
        view_terms(ts).len() == ts.len(),
        forall|i: int| 0 <= i < ts.len() ==> view_terms(ts)[i] == view_term(*ts[i]),
    decreases ts.len(),
{
    if ts.len() > 0 {
        lemma_view_terms(ts.subrange(1, ts.len() as int));
    }
}

/// The name of the implicit root class.
pub open spec fn object_name() -> Seq<char> {
    "Object"@
}

/// The name of the receiver variable.
pub open spec fn this_name() -> Seq<char> {
    "this"@
}

impl ClassName {
    /// The root class's name.
    pub fn object() -> (r: Self)
        ensures
            r@ == object_name(),
    {
        ClassName("Object".to_owned())
    }

    /// Whether this is the root class's name.
    pub fn is_object(&self) -> (r: bool)
        ensures
            r == (self@ == object_name()),
    {
        self.0 == "Object".to_owned()
    }

    pub fn eq_name(&self, other: &ClassName) -> (r: bool)
        ensures
            r == (self@ == other@),
    {
        self.0 == other.0
    }

    pub fn duplicate(&self) -> (r: ClassName)
        ensures
            r == *self,
    {
        ClassName(self.0.clone())
    }
}

impl FieldName {
    /// Whether this is the receiver's name.
    pub fn is_this(&self) -> (r: bool)
        ensures
            r == (self@ == this_name()),
    {
        self.0 == "this".to_owned()
    }

    pub fn eq_name(&self, other: &FieldName) -> (r: bool)
        ensures
            r == (self@ == other@),
    {
        self.0 == other.0
    }

    pub fn duplicate(&self) -> (r: FieldName)
        ensures
            r == *self,
    {
        FieldName(self.0.clone())
    }
}

impl MethodName {
    pub fn eq_name(&self, other: &MethodName) -> (r: bool)
        ensures
            r == (self@ == other@),
    {
        self.0 == other.0
    }

    pub fn duplicate(&self) -> (r: MethodName)
        ensures
            r == *self,
    {
        MethodName(self.0.clone())
    }
}

/// A typed argument or field declaration: `(type, name)`.
pub type ArgPair = (ClassName, FieldName);

/// An ordered program: the class declarations as they were written.
#[derive(Debug)]
pub struct Ast {
    pub class_definitions: Vec<ClassDefinition>,
}

/// One class declaration.
#[derive(Debug)]
pub struct ClassDefinition {
    pub name: ClassName,
    pub super_type: ClassName,
    pub fields: Vec<ArgPair>,
    pub constructor: Constructor,
    pub methods: Vec<MethodDefinition>,
}

/// The canonical constructor: `C(args) { super(super_call); this.f = f; ... }`.
#[derive(Debug)]
pub struct Constructor {
    pub name: ClassName,
    pub args: Vec<ArgPair>,
    pub super_call: Vec<FieldName>,
    pub assignments: Vec<(FieldName, FieldName)>,
}

/// One method declaration; the body is a single return term.
#[derive(Debug)]
pub struct MethodDefinition {
    pub return_type: ClassName,
    pub method_name: MethodName,
    pub args: Vec<ArgPair>,
    pub return_term: Box<Term>,
}

/// The model of a class declaration.
pub struct SpecClass {
    pub name: Seq<char>,
    pub super_name: Seq<char>,
    pub fields: Seq<(Seq<char>, Seq<char>)>,
    pub ctor: SpecConstructor,
    pub methods: Seq<SpecMethod>,
}

/// The model of a constructor.
pub struct SpecConstructor {
    pub name: Seq<char>,
    pub args: Seq<(Seq<char>, Seq<char>)>,
    pub super_call: Seq<Seq<char>>,
    pub assignments: Seq<(Seq<char>, Seq<char>)>,
}

/// The model of a method declaration.
pub struct SpecMethod {
    pub return_type: Seq<char>,
    pub method_name: Seq<char>,
    pub args: Seq<(Seq<char>, Seq<char>)>,
    pub return_term: SpecTerm,
}

pub open spec fn view_arg_pairs(s: Seq<ArgPair>) -> Seq<(Seq<char>, Seq<char>)> {
    s.map_values(|p: ArgPair| (p.0@, p.1@))
}

pub open spec fn view_field_names(s: Seq<FieldName>) -> Seq<Seq<char>> {
    s.map_values(|f: FieldName| f@)
}

pub open spec fn view_field_pairs(s: Seq<(FieldName, FieldName)>) -> Seq<(Seq<char>, Seq<char>)> {
    s.map_values(|p: (FieldName, FieldName)| (p.0@, p.1@))
}

pub open spec fn view_class_names(s: Seq<ClassName>) -> Seq<Seq<char>> {
    s.map_values(|c: ClassName| c@)
}

pub open spec fn view_class_pairs(s: Seq<(ClassName, ClassName)>) -> Seq<(Seq<char>, Seq<char>)> {
    s.map_values(|p: (ClassName, ClassName)| (p.0@, p.1@))
}

pub open spec fn view_methods(s: Seq<MethodDefinition>) -> Seq<SpecMethod> {
    s.map_values(|m: MethodDefinition| m@)
}

pub open spec fn view_classes(s: Seq<ClassDefinition>) -> Seq<SpecClass> {
    s.map_values(|c: ClassDefinition| c@)
}

pub broadcast proof fn lemma_view_arg_pairs(s: Seq<ArgPair>)
    ensures
        #![trigger view_arg_pairs(s)]
        view_arg_pairs(s).len() == s.len(),
        forall|i: int| 0 <= i < s.len() ==> view_arg_pairs(s)[i] == (s[i].0@, s[i].1@),
{
}

pub broadcast proof fn lemma_view_field_names(s: Seq<FieldName>)
    ensures
        #![trigger view_field_names(s)]
        view_field_names(s).len() == s.len(),
        forall|i: int| 0 <= i < s.len() ==> view_field_names(s)[i] == s[i]@,
{
}

pub broadcast proof fn lemma_view_field_pairs(s: Seq<(FieldName, FieldName)>)
    ensures
        #![trigger view_field_pairs(s)]
        view_field_pairs(s).len() == s.len(),
        forall|i: int| 0 <= i < s.len() ==> view_field_pairs(s)[i] == (s[i].0@, s[i].1@),
{
}

pub broadcast proof fn lemma_view_class_names(s: Seq<ClassName>)
    ensures
        #![trigger view_class_names(s)]
        view_class_names(s).len() == s.len(),
        forall|i: int| 0 <= i < s.len() ==> view_class_names(s)[i] == s[i]@,
{
}

pub broadcast proof fn lemma_view_class_pairs(s: Seq<(ClassName, ClassName)>)
    ensures
        #![trigger view_class_pairs(s)]
        view_class_pairs(s).len() == s.len(),
        forall|i: int| 0 <= i < s.len() ==> view_class_pairs(s)[i] == (s[i].0@, s[i].1@),
{
}

pub broadcast proof fn lemma_view_methods(s: Seq<MethodDefinition>)
    ensures
        #![trigger view_methods(s)]
        view_methods(s).len() == s.len(),
        forall|i: int| 0 <= i < s.len() ==> view_methods(s)[i] == s[i]@,
{
}

pub broadcast proof fn lemma_view_classes(s: Seq<ClassDefinition>)
    ensures
        #![trigger view_classes(s)]
        view_classes(s).len() == s.len(),
        forall|i: int| 0 <= i < s.len() ==> view_classes(s)[i] == s[i]@,
{
}

/// The pointwise descriptions of the list views, for use as ambient facts.
pub broadcast group group_ast_views {
    lemma_view_terms,
    lemma_view_class_names,
    lemma_view_class_pairs,
    lemma_view_arg_pairs,
    lemma_view_field_names,
    lemma_view_field_pairs,
    lemma_view_methods,
    lemma_view_classes,
}

impl View for Constructor {
    type V = SpecConstructor;

    open spec fn view(&self) -> SpecConstructor {
        SpecConstructor {
            name: self.name@,
            args: view_arg_pairs(self.args@),
            super_call: view_field_names(self.super_call@),
            assignments: view_field_pairs(self.assignments@),
        }
    }
}

impl View for MethodDefinition {
    type V = SpecMethod;

    open spec fn view(&self) -> SpecMethod {
        SpecMethod {
            return_type: self.return_type@,
            method_name: self.method_name@,
            args: view_arg_pairs(self.args@),
            return_term: view_term(*self.return_term),
        }
    }
}

impl View for ClassDefinition {
    type V = SpecClass;

    open spec fn view(&self) -> SpecClass {
        SpecClass {
            name: self.name@,
            super_name: self.super_type@,
            fields: view_arg_pairs(self.fields@),
            ctor: self.constructor@,
            methods: view_methods(self.methods@),
        }
    }
}

impl View for Ast {
    type V = Seq<SpecClass>;

    open spec fn view(&self) -> Seq<SpecClass> {
        view_classes(self.class_definitions@)
    }
}

impl Term {
    /// Boxes a term, as the recursive arms of the syntax tree require.
    pub fn boxed(self) -> (r: Box<Self>)
        ensures
            *r == self,
    {
        Box::new(self)
    }

    /// The term consisting of the single variable `name`.
    pub fn from_variable_str(name: &str) -> (r: Term)
        ensures
            r@ == SpecTerm::Variable(name@),
    {
        Term::Variable(FieldName(name.to_owned()))
    }
}

impl FieldAccess {
    pub fn into_term(self) -> (r: Term)
        ensures
            r == Term::FieldAccess(self),
    {
        Term::FieldAccess(self)
    }
}

impl MethodCall {
    pub fn into_term(self) -> (r: Term)
        ensures
            r == Term::MethodCall(self),
    {
        Term::MethodCall(self)
    }
}

impl NewCall {
    pub fn into_term(self) -> (r: Term)
        ensures
            r == Term::NewCall(self),
    {
        Term::NewCall(self)
    }
}

impl Cast {
    pub fn into_term(self) -> (r: Term)
        ensures
            r == Term::Cast(self),
    {
        Term::Cast(self)
    }
}

/// A structural copy of a sequence of boxed terms.
pub fn deep_clone_terms(ts: &Vec<Box<Term>>) -> (r: Vec<Box<Term>>)
    ensures
        r@.len() == ts@.len(),
        forall|i: int| 0 <= i < ts@.len() ==> view_term(*r@[i]) == view_term(*ts@[i]),
    decreases ts@,
{
    let mut r: Vec<Box<Term>> = Vec::new();
    let mut i: usize = 0;
    while i < ts.len()
        invariant
            i <= ts@.len(),
            r@.len() == i,
            forall|j: int| 0 <= j < i ==> view_term(*r@[j]) == view_term(*ts@[j]),
        decreases ts@.len() - i,
    {
        r.push(Box::new(ts[i].deep_clone()));
        i = i + 1;
    }
    r
}

impl Term {
    /// A structural copy of the term.
    pub fn deep_clone(&self) -> (r: Term)
        ensures
            r@ == self@,
        decreases *self,
    {
        match self {
            Term::Variable(x) => Term::Variable(x.duplicate()),
            Term::FieldAccess(fa) => Term::FieldAccess(FieldAccess {
                object_term: Box::new(fa.object_term.deep_clone()),
                field: fa.field.duplicate(),
            }),
            Term::MethodCall(mc) => {
                let args = deep_clone_terms(&mc.arg_terms);
                proof {
                    lemma_view_terms(mc.arg_terms@);
                    lemma_view_terms(args@);
                    assert(view_terms(args@) =~= view_terms(mc.arg_terms@));
                }
                Term::MethodCall(MethodCall {
                    object_term: Box::new(mc.object_term.deep_clone()),
                    method_name: mc.method_name.duplicate(),
                    arg_terms: args,
                })
            },
            Term::NewCall(nc) => {
                let args = deep_clone_terms(&nc.arg_terms);
                proof {
                    lemma_view_terms(nc.arg_terms@);
                    lemma_view_terms(args@);
                    assert(view_terms(args@) =~= view_terms(nc.arg_terms@));
                }
                Term::NewCall(NewCall { class_name: nc.class_name.duplicate(), arg_terms: args })
            },
            Term::Cast(c) => Term::Cast(Cast {
                to_class_name: c.to_class_name.duplicate(),
                term: Box::new(c.term.deep_clone()),
            }),
        }
    }
}

/// A structural copy of a `(type, name)` list.
pub fn clone_arg_pairs(s: &Vec<ArgPair>) -> (r: Vec<ArgPair>)
    ensures
        view_arg_pairs(r@) == view_arg_pairs(s@),
{
    broadcast use lemma_view_arg_pairs;

    let mut r: Vec<ArgPair> = Vec::new();
    let mut i: usize = 0;
    while i < s.len()
        invariant
            i <= s@.len(),
            r@.len() == i,
            forall|j: int| 0 <= j < i ==> (r@[j].0@, r@[j].1@) == (s@[j].0@, s@[j].1@),
        decreases s@.len() - i,
    {
        r.push((s[i].0.duplicate(), s[i].1.duplicate()));
        i = i + 1;
    }
    proof {
        assert(view_arg_pairs(r@) =~= view_arg_pairs(s@));
    }
    r
}

/// A structural copy of a field-name list.
pub fn clone_field_names(s: &Vec<FieldName>) -> (r: Vec<FieldName>)
    ensures
        view_field_names(r@) == view_field_names(s@),
{
    broadcast use lemma_view_field_names;

    let mut r: Vec<FieldName> = Vec::new();
    let mut i: usize = 0;
    while i < s.len()
        invariant
            i <= s@.len(),
            r@.len() == i,
            forall|j: int| 0 <= j < i ==> r@[j]@ == s@[j]@,
        decreases s@.len() - i,
    {
        r.push(s[i].duplicate());
        i = i + 1;
    }
    proof {
        assert(view_field_names(r@) =~= view_field_names(s@));
    }
    r
}

/// A structural copy of an assignment list.
pub fn clone_field_pairs(s: &Vec<(FieldName, FieldName)>) -> (r: Vec<(FieldName, FieldName)>)
    ensures
        view_field_pairs(r@) == view_field_pairs(s@),
{
    broadcast use lemma_view_field_pairs;

    let mut r: Vec<(FieldName, FieldName)> = Vec::new();
    let mut i: usize = 0;
    while i < s.len()
        invariant
            i <= s@.len(),
            r@.len() == i,
            forall|j: int| 0 <= j < i ==> (r@[j].0@, r@[j].1@) == (s@[j].0@, s@[j].1@),
        decreases s@.len() - i,
    {
        r.push((s[i].0.duplicate(), s[i].1.duplicate()));
        i = i + 1;
    }
    proof {
        assert(view_field_pairs(r@) =~= view_field_pairs(s@));
    }
    r
}

impl Constructor {
    /// A structural copy of the constructor.
    pub fn deep_clone(&self) -> (r: Constructor)
        ensures
            r@ == self@,
    {
        Constructor {
            name: self.name.duplicate(),
            args: clone_arg_pairs(&self.args),
            super_call: clone_field_names(&self.super_call),
            assignments: clone_field_pairs(&self.assignments),
        }
    }
}

impl MethodDefinition {
    /// A structural copy of the method declaration.
    pub fn deep_clone(&self) -> (r: MethodDefinition)
        ensures
            r@ == self@,
    {
        MethodDefinition {
            return_type: self.return_type.duplicate(),
            method_name: self.method_name.duplicate(),
            args: clone_arg_pairs(&self.args),
            return_term: Box::new(self.return_term.deep_clone()),
        }
    }
}

impl ClassDefinition {
    /// A structural copy of the class declaration.
    pub fn deep_clone(&self) -> (r: ClassDefinition)
        ensures
            r@ == self@,
    {
        broadcast use lemma_view_methods;

        let mut methods: Vec<MethodDefinition> = Vec::new();
        let mut i: usize = 0;
        while i < self.methods.len()
            invariant
                i <= self.methods@.len(),
                methods@.len() == i,
                forall|j: int| 0 <= j < i ==> methods@[j]@ == self.methods@[j]@,
            decreases self.methods@.len() - i,
        {
            methods.push(self.methods[i].deep_clone());
            i = i + 1;
        }
        proof {
            assert(view_methods(methods@) =~= view_methods(self.methods@));
        }
        ClassDefinition {
            name: self.name.duplicate(),
            super_type: self.super_type.duplicate(),
            fields: clone_arg_pairs(&self.fields),
            constructor: self.constructor.deep_clone(),
            methods,
        }
    }
}

// ------------------------------------------------------------------
// Printing terms
// ------------------------------------------------------------------

/// The printed form of an argument list: every argument followed by a
/// comma.
pub open spec fn render_terms(ts: Seq<SpecTerm>) -> Seq<char>
    decreases ts,
{
    if ts.len() == 0 {
        Seq::empty()
    } else {
        render_term(ts[0]) + seq![','] + render_terms(ts.subrange(1, ts.len() as int))
    }
}

/// The printed form of a term.
pub open spec fn render_term(t: SpecTerm) -> Seq<char>
    decreases t,
{
    match t {
        SpecTerm::Variable(x) => x,
        SpecTerm::FieldAccess(obj, f) => render_term(*obj) + seq!['.'] + f,
        SpecTerm::MethodCall(obj, m, args) => render_term(*obj) + seq!['.'] + m + seq!['(']
            + render_terms(args) + seq![')'],
        SpecTerm::NewCall(c, args) => seq!['n', 'e', 'w', ' '] + c + seq!['('] + render_terms(args)
            + seq![')'],
        SpecTerm::Cast(to, t1) => seq!['(', '('] + to + seq![')', ' '] + render_term(*t1)
            + seq![')'],
    }
}

/// Renders an argument list, every argument followed by a comma.
fn render_args(args: &Vec<Box<Term>>) -> (r: String)
    ensures
        r@ == render_terms(view_terms(args@)),
    decreases args@,
{
    let ghost all = view_terms(args@);
    proof {
        lemma_view_terms(args@);
        assert(all.subrange(0, all.len() as int) =~= all);
    }
    let mut out = String::new();
    let n = args.len();
    let mut i: usize = 0;
    proof {
        assert(out@ =~= Seq::<char>::empty());
    }
    while i < n
        invariant
            i <= n,
            n == args@.len(),
            all == view_terms(args@),
            all.len() == n,
            render_terms(all) == out@ + render_terms(all.subrange(i as int, all.len() as int)),
        decreases n - i,
    {
        let ghost suffix = all.subrange(i as int, all.len() as int);
        proof {
            lemma_view_terms(args@);
            assert(suffix[0] == all[i as int]);
            assert(all[i as int] == view_term(*args@[i as int]));
            assert(suffix.subrange(1, suffix.len() as int) =~= all.subrange(
                i as int + 1,
                all.len() as int,
            ));
            reveal_strlit(",");
            assert(","@ =~= seq![',']);
        }
        let ar = args[i].render();
        let ghost before = out@;
        out.append(ar.as_str());
        out.append(",");
        proof {
            assert(out@ =~= (before + ar@) + seq![',']);
            assert((before + ar@) + seq![','] =~= before + (ar@ + seq![',']));
            assert((before + (ar@ + seq![','])) + render_terms(
                all.subrange(i as int + 1, all.len() as int),
            ) =~= before + ((ar@ + seq![',']) + render_terms(
                all.subrange(i as int + 1, all.len() as int),
            )));
            assert(render_terms(suffix) =~= (ar@ + seq![',']) + render_terms(
                all.subrange(i as int + 1, all.len() as int),
            ));
        }
        i = i + 1;
    }
    proof {
        assert(render_terms(all.subrange(i as int, all.len() as int)).len() == 0);
        assert(out@ + render_terms(all.subrange(i as int, all.len() as int)) =~= out@);
    }
    out
}

impl Term {
    /// The printed form of the term, as the driver shows it.
    pub fn render(&self) -> (r: String)
        ensures
            r@ == render_term(self@),
        decreases *self,
    {
        match self {
            Term::Variable(x) => {
                let r = x.0.clone();
                proof {
                    assert(r@ =~= render_term(self@));
                }
                r
            },
            Term::FieldAccess(fa) => {
                let mut out = fa.object_term.render();
                out.append(".");
                out.append(fa.field.0.as_str());
                proof {
                    reveal_strlit(".");
                    assert("."@ =~= seq!['.']);
                    assert(out@ =~= render_term(self@));
                }
                out
            },
            Term::MethodCall(mc) => {
                let mut out = mc.object_term.render();
                out.append(".");
                out.append(mc.method_name.0.as_str());
                out.append("(");
                let ar = render_args(&mc.arg_terms);
                out.append(ar.as_str());
                out.append(")");
                proof {
                    reveal_strlit(".");
                    reveal_strlit("(");
                    reveal_strlit(")");
                    assert("."@ =~= seq!['.']);
                    assert("("@ =~= seq!['(']);
                    assert(")"@ =~= seq![')']);
                    assert(out@ =~= render_term(self@));
                }
                out
            },
            Term::NewCall(nc) => {
                let mut out = String::new();
                out.append("new ");
                out.append(nc.class_name.0.as_str());
                out.append("(");
                let ar = render_args(&nc.arg_terms);
                out.append(ar.as_str());
                out.append(")");
                proof {
                    reveal_strlit("new ");
                    reveal_strlit("(");
                    reveal_strlit(")");
                    assert("new "@ =~= seq!['n', 'e', 'w', ' ']);
                    assert("("@ =~= seq!['(']);
                    assert(")"@ =~= seq![')']);
                    assert(out@ =~= render_term(self@));
                }
                out
            },
            Term::Cast(cst) => {
                let mut out = String::new();
                out.append("((");
                out.append(cst.to_class_name.0.as_str());
                out.append(") ");
                let tr = cst.term.render();
                out.append(tr.as_str());
                out.append(")");
                proof {
                    reveal_strlit("((");
                    reveal_strlit(") ");
                    reveal_strlit(")");
                    assert("(("@ =~= seq!['(', '(']);
                    assert(") "@ =~= seq![')', ' ']);
                    assert(")"@ =~= seq![')']);
                    assert(out@ =~= render_term(self@));
                }
                out
            },
        }
    }
}

} // verus!
