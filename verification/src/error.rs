//! The three error taxonomies: class-table formation, typing, and
//! evaluation. Each exec enum has a ghost model (`Spec*`) over `Seq<char>`
//! names, used by the contracts of the functions that produce it.

use vstd::prelude::*;
use crate::ast::{view_class_names, ClassName, FieldName, MethodName, SpecTerm, Term};

verus! {

/// A violation found while forming the class table.
#[derive(Debug)]
pub enum ClassTableError {
    ClassNamedObject,
    ClassDefinedTwice(ClassName),
    SupertypeUndefined(ClassName, ClassName),
    CyclicSupertype(ClassName),
    IncorrectConstructorName(ClassName, ClassName),
    IncorrectConstructorInit(ClassName),
    NonUniqueFields(ClassName),
    NonUniqueMethodNames(ClassName),
    FieldNamedThis(ClassName),
    ConstructorArgumentNamedThis(ClassName),
    NonUniqueMethodArgumentNames(MethodName, ClassName),
    MethodArgumentNamedThis(MethodName, ClassName),
}

/// The model of a `ClassTableError`.
pub enum SpecClassTableError {
    ClassNamedObject,
    ClassDefinedTwice(Seq<char>),
    SupertypeUndefined(Seq<char>, Seq<char>),
    CyclicSupertype(Seq<char>),
    IncorrectConstructorName(Seq<char>, Seq<char>),
    IncorrectConstructorInit(Seq<char>),
    NonUniqueFields(Seq<char>),
    NonUniqueMethodNames(Seq<char>),
    FieldNamedThis(Seq<char>),
    ConstructorArgumentNamedThis(Seq<char>),
    NonUniqueMethodArgumentNames(Seq<char>, Seq<char>),
    MethodArgumentNamedThis(Seq<char>, Seq<char>),
}

impl View for ClassTableError {
    type V = SpecClassTableError;

    open spec fn view(&self) -> SpecClassTableError {
        match self {
            ClassTableError::ClassNamedObject => SpecClassTableError::ClassNamedObject,
            ClassTableError::ClassDefinedTwice(c) => SpecClassTableError::ClassDefinedTwice(c@),
            ClassTableError::SupertypeUndefined(s, c) => SpecClassTableError::SupertypeUndefined(
                s@,
                c@,
            ),
            ClassTableError::CyclicSupertype(c) => SpecClassTableError::CyclicSupertype(c@),
            ClassTableError::IncorrectConstructorName(c, given) => SpecClassTableError::IncorrectConstructorName(
                c@,
                given@,
            ),
            ClassTableError::IncorrectConstructorInit(c) => SpecClassTableError::IncorrectConstructorInit(
                c@,
            ),
            ClassTableError::NonUniqueFields(c) => SpecClassTableError::NonUniqueFields(c@),
            ClassTableError::NonUniqueMethodNames(c) => SpecClassTableError::NonUniqueMethodNames(
                c@,
            ),
            ClassTableError::FieldNamedThis(c) => SpecClassTableError::FieldNamedThis(c@),
            ClassTableError::ConstructorArgumentNamedThis(c) => SpecClassTableError::ConstructorArgumentNamedThis(
                c@,
            ),
            ClassTableError::NonUniqueMethodArgumentNames(m, c) => SpecClassTableError::NonUniqueMethodArgumentNames(
                m@,
                c@,
            ),
            ClassTableError::MethodArgumentNamedThis(m, c) => SpecClassTableError::MethodArgumentNamedThis(
                m@,
                c@,
            ),
        }
    }
}

/// A violation of the typing rules. The first three carry the context a
/// failure was found in, around the inner error.
#[derive(Debug)]
pub enum TypingError {
    InvalidClass(ClassName, Box<TypingError>),
    InvalidMethod(MethodName, ClassName, Box<TypingError>),
    InvalidTerm(Term, Box<TypingError>),
    UndefinedClass(ClassName),
    UndefinedClasses(Vec<ClassName>),
    UndefinedMethod(MethodName, ClassName),
    UndefinedField(FieldName, ClassName),
    IncorrectMethodOverride(MethodName, ClassName),
    InvalidCast(ClassName, ClassName),
    ConstructorArgumentNotSubtype(ClassName, ClassName, ClassName),
    ConstructorArityMismatch(ClassName),
    MethodArgumentNotSubtype(ClassName, ClassName, MethodName, ClassName),
    MethodArityMismatch(MethodName, ClassName),
    VariableNotInGamma(FieldName),
    UndefinedReturnType(MethodName, ClassName),
    ReturnTypeNotSubtype(ClassName, ClassName, MethodName, ClassName),
}

/// The model of a `TypingError`.
pub enum SpecTypingError {
    InvalidClass(Seq<char>, Box<SpecTypingError>),
    InvalidMethod(Seq<char>, Seq<char>, Box<SpecTypingError>),
    InvalidTerm(SpecTerm, Box<SpecTypingError>),
    UndefinedClass(Seq<char>),
    UndefinedClasses(Seq<Seq<char>>),
    UndefinedMethod(Seq<char>, Seq<char>),
    UndefinedField(Seq<char>, Seq<char>),
    IncorrectMethodOverride(Seq<char>, Seq<char>),
    InvalidCast(Seq<char>, Seq<char>),
    ConstructorArgumentNotSubtype(Seq<char>, Seq<char>, Seq<char>),
    ConstructorArityMismatch(Seq<char>),
    MethodArgumentNotSubtype(Seq<char>, Seq<char>, Seq<char>, Seq<char>),
    MethodArityMismatch(Seq<char>, Seq<char>),
    VariableNotInGamma(Seq<char>),
    UndefinedReturnType(Seq<char>, Seq<char>),
    ReturnTypeNotSubtype(Seq<char>, Seq<char>, Seq<char>, Seq<char>),
}

pub open spec fn view_typing_error(e: TypingError) -> SpecTypingError
    decreases e,
{
    match e {
        TypingError::InvalidClass(c, inner) => SpecTypingError::InvalidClass(
            c@,
            Box::new(view_typing_error(*inner)),
        ),
        TypingError::InvalidMethod(m, c, inner) => SpecTypingError::InvalidMethod(
            m@,
            c@,
            Box::new(view_typing_error(*inner)),
        ),
        TypingError::InvalidTerm(t, inner) => SpecTypingError::InvalidTerm(
            t@,
            Box::new(view_typing_error(*inner)),
        ),
        TypingError::UndefinedClass(c) => SpecTypingError::UndefinedClass(c@),
        TypingError::UndefinedClasses(cs) => SpecTypingError::UndefinedClasses(
            view_class_names(cs@),
        ),
        TypingError::UndefinedMethod(m, c) => SpecTypingError::UndefinedMethod(m@, c@),
        TypingError::UndefinedField(f, c) => SpecTypingError::UndefinedField(f@, c@),
        TypingError::IncorrectMethodOverride(m, c) => SpecTypingError::IncorrectMethodOverride(
            m@,
            c@,
        ),
        TypingError::InvalidCast(from, to) => SpecTypingError::InvalidCast(from@, to@),
        TypingError::ConstructorArgumentNotSubtype(actual, declared, c) => SpecTypingError::ConstructorArgumentNotSubtype(
            actual@,
            declared@,
            c@,
        ),
        TypingError::ConstructorArityMismatch(c) => SpecTypingError::ConstructorArityMismatch(
            c@,
        ),
        TypingError::MethodArgumentNotSubtype(actual, declared, m, c) => SpecTypingError::MethodArgumentNotSubtype(
            actual@,
            declared@,
            m@,
            c@,
        ),
        TypingError::MethodArityMismatch(m, c) => SpecTypingError::MethodArityMismatch(m@, c@),
        TypingError::VariableNotInGamma(x) => SpecTypingError::VariableNotInGamma(x@),
        TypingError::UndefinedReturnType(m, c) => SpecTypingError::UndefinedReturnType(m@, c@),
        TypingError::ReturnTypeNotSubtype(actual, declared, m, c) => SpecTypingError::ReturnTypeNotSubtype(
            actual@,
            declared@,
            m@,
            c@,
        ),
    }
}

impl View for TypingError {
    type V = SpecTypingError;

    open spec fn view(&self) -> SpecTypingError {
        view_typing_error(*self)
    }
}

/// A runtime failure of reduction.
#[derive(Debug)]
pub enum EvalError {
    CastFailed(ClassName, ClassName),
    Stuck(Term),
    UndefinedClass(ClassName),
    UndefinedClasses(Vec<ClassName>),
    UndefinedMethod(MethodName, ClassName),
    UndefinedField(FieldName, ClassName),
    ConstructorArgNotFound(usize, ClassName),
    StepLimitReached(Term),
}

/// The model of an `EvalError`.
pub enum SpecEvalError {
    CastFailed(Seq<char>, Seq<char>),
    Stuck(SpecTerm),
    UndefinedClass(Seq<char>),
    UndefinedClasses(Seq<Seq<char>>),
    UndefinedMethod(Seq<char>, Seq<char>),
    UndefinedField(Seq<char>, Seq<char>),
    ConstructorArgNotFound(int, Seq<char>),
    StepLimitReached(SpecTerm),
}

impl View for EvalError {
    type V = SpecEvalError;

    open spec fn view(&self) -> SpecEvalError {
        match self {
            EvalError::CastFailed(from, to) => SpecEvalError::CastFailed(from@, to@),
            EvalError::Stuck(t) => SpecEvalError::Stuck(t@),
            EvalError::UndefinedClass(c) => SpecEvalError::UndefinedClass(c@),
            EvalError::UndefinedClasses(cs) => SpecEvalError::UndefinedClasses(
                view_class_names(cs@),
            ),
            EvalError::UndefinedMethod(m, c) => SpecEvalError::UndefinedMethod(m@, c@),
            EvalError::UndefinedField(f, c) => SpecEvalError::UndefinedField(f@, c@),
            EvalError::ConstructorArgNotFound(i, c) => SpecEvalError::ConstructorArgNotFound(
                *i as int,
                c@,
            ),
            EvalError::StepLimitReached(t) => SpecEvalError::StepLimitReached(t@),
        }
    }
}

} // verus!
