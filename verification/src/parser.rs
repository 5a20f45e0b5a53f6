//! The concrete syntax: a tokenizer for the source language and a recursive
//! descent parser from tokens to the abstract syntax.
//!
//! The tokenizer returns exactly what its specification mirror computes.
//! The parse functions consume tokens strictly left to right; every `Ok`
//! consumes at least one token, which also bounds the recursion.

use vstd::prelude::*;
use vstd::string::StrSliceExecFns;
use crate::ast::{
    Ast, Cast, ClassDefinition, ClassName, Constructor, FieldAccess, FieldName, MethodCall,
    MethodDefinition, MethodName, NewCall, SpecTerm, Term,
};

verus! {

/// One token of the source language.
#[derive(Debug)]
pub enum Token {
    Ident(String),
    KwClass,
    KwExtends,
    KwSuper,
    KwReturn,
    KwNew,
    LBrace,
    RBrace,
    LParen,
    RParen,
    Semi,
    Comma,
    Dot,
    Eq,
}

/// The model of a token.
pub enum SpecToken {
    Ident(Seq<char>),
    KwClass,
    KwExtends,
    KwSuper,
    KwReturn,
    KwNew,
    LBrace,
    RBrace,
    LParen,
    RParen,
    Semi,
    Comma,
    Dot,
    Eq,
}

impl View for Token {
    type V = SpecToken;

    open spec fn view(&self) -> SpecToken {
        match self {
            Token::Ident(s) => SpecToken::Ident(s@),
            Token::KwClass => SpecToken::KwClass,
            Token::KwExtends => SpecToken::KwExtends,
            Token::KwSuper => SpecToken::KwSuper,
            Token::KwReturn => SpecToken::KwReturn,
            Token::KwNew => SpecToken::KwNew,
            Token::LBrace => SpecToken::LBrace,
            Token::RBrace => SpecToken::RBrace,
            Token::LParen => SpecToken::LParen,
            Token::RParen => SpecToken::RParen,
            Token::Semi => SpecToken::Semi,
            Token::Comma => SpecToken::Comma,
            Token::Dot => SpecToken::Dot,
            Token::Eq => SpecToken::Eq,
        }
    }
}

pub open spec fn view_tokens(ts: Seq<Token>) -> Seq<SpecToken> {
    ts.map_values(|t: Token| t@)
}

pub broadcast proof fn lemma_view_tokens(ts: Seq<Token>)
    ensures
        #![trigger view_tokens(ts)]
        view_tokens(ts).len() == ts.len(),
        forall|i: int| 0 <= i < ts.len() ==> view_tokens(ts)[i] == ts[i]@,
{
}

/// A failure of parsing: the position (token or character index) where the
/// input stopped making sense.
#[derive(Debug)]
pub enum ParseError {
    BadCharacter(usize),
    UnexpectedToken(usize),
    UnexpectedEnd,
    TrailingInput(usize),
}

// ------------------------------------------------------------------
// The tokenizer
// ------------------------------------------------------------------

/// Whitespace: token separators without meaning.
pub open spec fn is_space_spec(c: char) -> bool {
    c == ' ' || c == '\n' || c == '\t' || c == '\r'
}

/// The characters identifiers are made of; the first one must not be a
/// digit.
pub open spec fn is_ident_char_spec(c: char) -> bool {
    ('a' <= c && c <= 'z') || ('A' <= c && c <= 'Z') || ('0' <= c && c <= '9') || c == '_'
}

pub open spec fn is_ident_start_spec(c: char) -> bool {
    ('a' <= c && c <= 'z') || ('A' <= c && c <= 'Z') || c == '_'
}

/// The length of the identifier at the head of `s`.
pub open spec fn ident_run(s: Seq<char>) -> nat
    decreases s.len(),
{
    if s.len() == 0 || !is_ident_char_spec(s[0]) {
        0
    } else {
        1 + ident_run(s.subrange(1, s.len() as int))
    }
}

/// The token an identifier word stands for: a reserved word or a name.
pub open spec fn word_token(w: Seq<char>) -> SpecToken {
    if w == "class"@ {
        SpecToken::KwClass
    } else if w == "extends"@ {
        SpecToken::KwExtends
    } else if w == "super"@ {
        SpecToken::KwSuper
    } else if w == "return"@ {
        SpecToken::KwReturn
    } else if w == "new"@ {
        SpecToken::KwNew
    } else {
        SpecToken::Ident(w)
    }
}

/// The token a symbol character stands for, when it stands for one.
pub open spec fn symbol_token(c: char) -> Option<SpecToken> {
    if c == '{' {
        Some(SpecToken::LBrace)
    } else if c == '}' {
        Some(SpecToken::RBrace)
    } else if c == '(' {
        Some(SpecToken::LParen)
    } else if c == ')' {
        Some(SpecToken::RParen)
    } else if c == ';' {
        Some(SpecToken::Semi)
    } else if c == ',' {
        Some(SpecToken::Comma)
    } else if c == '.' {
        Some(SpecToken::Dot)
    } else if c == '=' {
        Some(SpecToken::Eq)
    } else {
        None
    }
}

/// The token sequence of a source text: whitespace separates; maximal
/// identifier runs become words; single symbol characters become symbols;
/// anything else is rejected.
pub open spec fn spec_tokenize(s: Seq<char>) -> Option<Seq<SpecToken>>
    decreases s.len(),
    via spec_tokenize_decreases
{
    if s.len() == 0 {
        Some(Seq::empty())
    } else if is_space_spec(s[0]) {
        spec_tokenize(s.subrange(1, s.len() as int))
    } else if is_ident_start_spec(s[0]) {
        let k = ident_run(s) as int;
        match spec_tokenize(s.subrange(k, s.len() as int)) {
            Some(rest) => Some(seq![word_token(s.subrange(0, k))] + rest),
            None => None,
        }
    } else {
        match symbol_token(s[0]) {
            Some(t) => match spec_tokenize(s.subrange(1, s.len() as int)) {
                Some(rest) => Some(seq![t] + rest),
                None => None,
            },
            None => None,
        }
    }
}

#[via_fn]
proof fn spec_tokenize_decreases(s: Seq<char>) {
    if s.len() > 0 && !is_space_spec(s[0]) && is_ident_start_spec(s[0]) {
        lemma_ident_run_bound(s);
    }
}

fn is_space(c: char) -> (r: bool)
    ensures
        r == is_space_spec(c),
{
    c == ' ' || c == '\n' || c == '\t' || c == '\r'
}

fn is_ident_char(c: char) -> (r: bool)
    ensures
        r == is_ident_char_spec(c),
{
    ('a' <= c && c <= 'z') || ('A' <= c && c <= 'Z') || ('0' <= c && c <= '9') || c == '_'
}

fn is_ident_start(c: char) -> (r: bool)
    ensures
        r == is_ident_start_spec(c),
{
    ('a' <= c && c <= 'z') || ('A' <= c && c <= 'Z') || c == '_'
}

/// The identifier run at the head of `s` lies within `s`.
proof fn lemma_ident_run_bound(s: Seq<char>)
    ensures
        ident_run(s) <= s.len(),
        s.len() > 0 && is_ident_char_spec(s[0]) ==> ident_run(s) >= 1,
    decreases s.len(),
{
    if s.len() > 0 && is_ident_char_spec(s[0]) {
        lemma_ident_run_bound(s.subrange(1, s.len() as int));
    }
}

/// Classifies a word as a reserved word or an identifier.
fn classify_word(w: String) -> (r: Token)
    ensures
        r@ == word_token(w@),
{
    if w == "class".to_owned() {
        Token::KwClass
    } else if w == "extends".to_owned() {
        Token::KwExtends
    } else if w == "super".to_owned() {
        Token::KwSuper
    } else if w == "return".to_owned() {
        Token::KwReturn
    } else if w == "new".to_owned() {
        Token::KwNew
    } else {
        Token::Ident(w)
    }
}

/// Splits the source text into tokens, exactly as the specification
/// tokenizer does; the error carries the offending character position.
pub fn tokenize(input: &str) -> (r: Result<Vec<Token>, ParseError>)
    ensures
        match r {
            Ok(ts) => spec_tokenize(input@) == Some(view_tokens(ts@)),
            Err(_) => spec_tokenize(input@) is None,
        },
{
    broadcast use lemma_view_tokens;

    let n = input.unicode_len();
    let ghost all = input@;
    let mut tokens: Vec<Token> = Vec::new();
    let mut pos: usize = 0;
    proof {
        assert(all.subrange(0, n as int) =~= all);
    }
    while pos < n
        invariant
            pos <= n,
            n == all.len(),
            all == input@,
            spec_tokenize(all) == (match spec_tokenize(all.subrange(pos as int, n as int)) {
                Some(rest) => Some(view_tokens(tokens@) + rest),
                None => None::<Seq<SpecToken>>,
            }),
        decreases n - pos,
    {
        let ghost suffix = all.subrange(pos as int, n as int);
        let c = input.get_char(pos);
        proof {
            assert(suffix[0] == c);
            assert(suffix.subrange(1, suffix.len() as int) =~= all.subrange(
                pos as int + 1,
                n as int,
            ));
        }
        if is_space(c) {
            pos = pos + 1;
        } else if is_ident_start(c) {
            let ghost k = ident_run(suffix);
            proof {
                lemma_ident_run_bound(suffix);
            }
            let mut end: usize = pos + 1;
            proof {
                lemma_ident_run_prefix(suffix, 1);
            }
            while end < n && is_ident_char(input.get_char(end))
                invariant
                    pos < end <= n,
                    n == all.len(),
                    all == input@,
                    suffix == all.subrange(pos as int, n as int),
                    k == ident_run(suffix),
                    end < n ==> (k >= end - pos <==> ident_run(
                        suffix.subrange(end - pos, suffix.len() as int),
                    ) + end - pos == k),
                    forall|x: int| 0 <= x < end - pos ==> is_ident_char_spec(suffix[x]),
                    k >= end - pos,
                decreases n - end,
            {
                proof {
                    assert(suffix[end - pos] == all[end as int]);
                    lemma_ident_run_prefix(suffix, end - pos + 1);
                }
                end = end + 1;
            }
            proof {
                if end < n {
                    assert(suffix[end - pos] == all[end as int]);
                    assert(!is_ident_char_spec(suffix[end - pos]));
                    lemma_ident_run_stops(suffix, end - pos);
                } else {
                    lemma_ident_run_stops(suffix, end - pos);
                }
                assert(k == end - pos);
            }
            let word = input.substring_char(pos, end).to_owned();
            let tok = classify_word(word);
            proof {
                assert(word_token(all.subrange(pos as int, end as int)) == word_token(
                    suffix.subrange(0, k as int),
                )) by {
                    assert(all.subrange(pos as int, end as int) =~= suffix.subrange(0, k as int));
                }
                assert(suffix.subrange(k as int, suffix.len() as int) =~= all.subrange(
                    pos as int + k,
                    n as int,
                ));
            }
            tokens.push(tok);
            pos = end;
        } else {
            let sym = if c == '{' {
                Some(Token::LBrace)
            } else if c == '}' {
                Some(Token::RBrace)
            } else if c == '(' {
                Some(Token::LParen)
            } else if c == ')' {
                Some(Token::RParen)
            } else if c == ';' {
                Some(Token::Semi)
            } else if c == ',' {
                Some(Token::Comma)
            } else if c == '.' {
                Some(Token::Dot)
            } else if c == '=' {
                Some(Token::Eq)
            } else {
                None
            };
            match sym {
                Some(t) => {
                    tokens.push(t);
                    pos = pos + 1;
                },
                None => {
                    return Err(ParseError::BadCharacter(pos));
                },
            }
        }
    }
    proof {
        assert(all.subrange(pos as int, n as int).len() == 0);
        assert(view_tokens(tokens@) + Seq::<SpecToken>::empty() =~= view_tokens(tokens@));
    }
    Ok(tokens)
}

/// While every character before `i` is an identifier character, the run is
/// at least `i` long, and the tail run accounts for the rest.
proof fn lemma_ident_run_prefix(s: Seq<char>, i: int)
    requires
        0 < i <= s.len(),
        forall|x: int| 0 <= x < i ==> is_ident_char_spec(s[x]),
    ensures
        ident_run(s) >= i,
        ident_run(s.subrange(i, s.len() as int)) + i == ident_run(s),
    decreases i,
{
    if i == 1 {
        assert(s.subrange(1, s.len() as int) =~= s.subrange(1, s.len() as int));
    } else {
        let t = s.subrange(1, s.len() as int);
        lemma_ident_run_prefix(t, i - 1);
        assert(t.subrange(i - 1, t.len() as int) =~= s.subrange(i, s.len() as int));
    }
}

/// The run ends at the first position that is not an identifier character
/// (or at the end of the text).
proof fn lemma_ident_run_stops(s: Seq<char>, i: int)
    requires
        0 <= i <= s.len(),
        forall|x: int| 0 <= x < i ==> is_ident_char_spec(s[x]),
        i < s.len() ==> !is_ident_char_spec(s[i]),
    ensures
        ident_run(s) == i,
    decreases i,
{
    if i == 0 {
    } else {
        let t = s.subrange(1, s.len() as int);
        assert forall|x: int| 0 <= x < i - 1 implies is_ident_char_spec(t[x]) by {
            assert(t[x] == s[x + 1]);
        }
        if i - 1 < t.len() {
            assert(t[i - 1] == s[i as int]);
        }
        lemma_ident_run_stops(t, i - 1);
    }
}

// ------------------------------------------------------------------
// The parser
// ------------------------------------------------------------------

/// The shape of a token, without its payload.
#[derive(Debug, Clone, Copy, PartialEq, Eq, Structural)]
pub enum TokKind {
    Ident,
    KwClass,
    KwExtends,
    KwSuper,
    KwReturn,
    KwNew,
    LBrace,
    RBrace,
    LParen,
    RParen,
    Semi,
    Comma,
    Dot,
    Eq,
}

/// The shape of a token.
pub open spec fn kind_spec(t: SpecToken) -> TokKind {
    match t {
        SpecToken::Ident(_) => TokKind::Ident,
        SpecToken::KwClass => TokKind::KwClass,
        SpecToken::KwExtends => TokKind::KwExtends,
        SpecToken::KwSuper => TokKind::KwSuper,
        SpecToken::KwReturn => TokKind::KwReturn,
        SpecToken::KwNew => TokKind::KwNew,
        SpecToken::LBrace => TokKind::LBrace,
        SpecToken::RBrace => TokKind::RBrace,
        SpecToken::LParen => TokKind::LParen,
        SpecToken::RParen => TokKind::RParen,
        SpecToken::Semi => TokKind::Semi,
        SpecToken::Comma => TokKind::Comma,
        SpecToken::Dot => TokKind::Dot,
        SpecToken::Eq => TokKind::Eq,
    }
}

fn kind_of(t: &Token) -> (k: TokKind)
    ensures
        k == kind_spec(t@),
{
    match t {
        Token::Ident(_) => TokKind::Ident,
        Token::KwClass => TokKind::KwClass,
        Token::KwExtends => TokKind::KwExtends,
        Token::KwSuper => TokKind::KwSuper,
        Token::KwReturn => TokKind::KwReturn,
        Token::KwNew => TokKind::KwNew,
        Token::LBrace => TokKind::LBrace,
        Token::RBrace => TokKind::RBrace,
        Token::LParen => TokKind::LParen,
        Token::RParen => TokKind::RParen,
        Token::Semi => TokKind::Semi,
        Token::Comma => TokKind::Comma,
        Token::Dot => TokKind::Dot,
        Token::Eq => TokKind::Eq,
    }
}

/// The shape of the token at `pos`, if the input still has one there.
fn peek_kind(toks: &Vec<Token>, pos: usize) -> (k: Option<TokKind>)
    ensures
        match k {
            Some(kk) => pos < toks@.len() && kk == kind_spec(toks@[pos as int]@),
            None => pos >= toks@.len(),
        },
{
    if pos < toks.len() {
        Some(kind_of(&toks[pos]))
    } else {
        None
    }
}

/// Consumes one token of the wanted shape.
fn expect(toks: &Vec<Token>, pos: usize, want: TokKind) -> (r: Result<usize, ParseError>)
    ensures
        r matches Ok(j) ==> pos < toks@.len() && j == pos + 1 && kind_spec(toks@[pos as int]@)
            == want,
        r is Err ==> pos >= toks@.len() || kind_spec(toks@[pos as int]@) != want,
{
    if pos < toks.len() {
        if kind_of(&toks[pos]) == want {
            Ok(pos + 1)
        } else {
            Err(ParseError::UnexpectedToken(pos))
        }
    } else {
        Err(ParseError::UnexpectedEnd)
    }
}

/// Consumes one identifier and hands its name out.
fn take_ident(toks: &Vec<Token>, pos: usize) -> (r: Result<(String, usize), ParseError>)
    ensures
        r matches Ok((name, j)) ==> pos < toks@.len() && j == pos + 1 && (toks@[pos as int]@
            matches SpecToken::Ident(nm) && name@ == nm),
        r is Err ==> pos >= toks@.len() || !(toks@[pos as int]@ is Ident),
{
    if pos < toks.len() {
        match &toks[pos] {
            Token::Ident(s) => Ok((s.clone(), pos + 1)),
            _ => Err(ParseError::UnexpectedToken(pos)),
        }
    } else {
        Err(ParseError::UnexpectedEnd)
    }
}

// ------------------------------------------------------------------
// The term grammar, as a specification
// ------------------------------------------------------------------

/// Whether a term can begin at the token.
pub open spec fn is_term_start(t: SpecToken) -> bool {
    t is LParen || t is Ident || t is KwNew
}

/// `new C ( term, ... )`: the class name, the arguments, and the position
/// after the closing parenthesis.
pub open spec fn spec_parse_new_call(ts: Seq<SpecToken>, pos: int) -> Option<
    (Seq<char>, Seq<SpecTerm>, int),
>
    decreases ts.len() - pos, 1int,
{
    if 0 <= pos < ts.len() && ts[pos] is KwNew {
        if pos + 1 < ts.len() && ts[pos + 1] is Ident {
            let name = ts[pos + 1]->Ident_0;
            if pos + 2 < ts.len() && ts[pos + 2] is LParen {
                match spec_parse_term_list(ts, pos + 3) {
                    None => None,
                    Some((args, cur)) => if pos + 3 <= cur < ts.len() && ts[cur] is RParen {
                        Some((name, args, cur + 1))
                    } else {
                        None
                    },
                }
            } else {
                None
            }
        } else {
            None
        }
    } else {
        None
    }
}

/// `( C ) term`: the target class name, the operand, and the position after
/// it.
pub open spec fn spec_parse_cast(ts: Seq<SpecToken>, pos: int) -> Option<(Seq<char>, SpecTerm, int)>
    decreases ts.len() - pos, 1int,
{
    if 0 <= pos < ts.len() && ts[pos] is LParen {
        if pos + 1 < ts.len() && ts[pos + 1] is Ident {
            let name = ts[pos + 1]->Ident_0;
            if pos + 2 < ts.len() && ts[pos + 2] is RParen {
                match spec_parse_term(ts, pos + 3) {
                    None => None,
                    Some((t, cur)) => Some((name, t, cur)),
                }
            } else {
                None
            }
        } else {
            None
        }
    } else {
        None
    }
}

/// The left end of a term: a parenthesised term, a cast, an object
/// construction, or a variable. A cast is recognised exactly when a lone
/// name sits in the parentheses and a term begins after the closing one.
pub open spec fn spec_parse_term_left(ts: Seq<SpecToken>, pos: int) -> Option<(SpecTerm, int)>
    decreases ts.len() - pos, 2int,
{
    if 0 <= pos < ts.len() {
        match ts[pos] {
            SpecToken::KwNew => match spec_parse_new_call(ts, pos) {
                None => None,
                Some((c, args, cur)) => Some((SpecTerm::NewCall(c, args), cur)),
            },
            SpecToken::Ident(name) => Some((SpecTerm::Variable(name), pos + 1)),
            SpecToken::LParen => {
                let cast_shape = ts.len() - pos >= 4 && ts[pos + 1] is Ident && ts[pos
                    + 2] is RParen && is_term_start(ts[pos + 3]);
                if cast_shape {
                    match spec_parse_cast(ts, pos) {
                        None => None,
                        Some((c, t, cur)) => Some((SpecTerm::Cast(c, Box::new(t)), cur)),
                    }
                } else {
                    match spec_parse_term(ts, pos + 1) {
                        None => None,
                        Some((t, cur)) => if pos + 1 <= cur < ts.len() && ts[cur] is RParen {
                            Some((t, cur + 1))
                        } else {
                            None
                        },
                    }
                }
            },
            _ => None,
        }
    } else {
        None
    }
}

/// A term: a left end followed by a left-associative chain of field
/// accesses and method calls.
pub open spec fn spec_parse_term(ts: Seq<SpecToken>, pos: int) -> Option<(SpecTerm, int)>
    decreases ts.len() - pos, 3int,
{
    if 0 <= pos <= ts.len() {
        match spec_parse_term_left(ts, pos) {
            None => None,
            Some((t, cur)) => if pos < cur <= ts.len() {
                spec_parse_chain(ts, cur, t)
            } else {
                None
            },
        }
    } else {
        None
    }
}

/// The chain hanging off a left end: `.f` extends it by a field access,
/// `.m(args)` by a method call, anything else ends the term.
pub open spec fn spec_parse_chain(ts: Seq<SpecToken>, pos: int, acc: SpecTerm) -> Option<
    (SpecTerm, int),
>
    decreases ts.len() - pos, 0int,
{
    if 0 <= pos < ts.len() && ts[pos] is Dot {
        if pos + 1 < ts.len() && ts[pos + 1] is Ident {
            let name = ts[pos + 1]->Ident_0;
            if pos + 2 < ts.len() && ts[pos + 2] is LParen {
                match spec_parse_term_list(ts, pos + 3) {
                    None => None,
                    Some((args, cur)) => if pos + 3 <= cur < ts.len() && ts[cur] is RParen {
                        spec_parse_chain(
                            ts,
                            cur + 1,
                            SpecTerm::MethodCall(Box::new(acc), name, args),
                        )
                    } else {
                        None
                    },
                }
            } else {
                spec_parse_chain(ts, pos + 2, SpecTerm::FieldAccess(Box::new(acc), name))
            }
        } else {
            None
        }
    } else {
        Some((acc, pos))
    }
}

/// A possibly empty comma-separated argument list, ending before a closing
/// parenthesis.
pub open spec fn spec_parse_term_list(ts: Seq<SpecToken>, pos: int) -> Option<
    (Seq<SpecTerm>, int),
>
    decreases ts.len() - pos, 4int,
{
    if 0 <= pos < ts.len() {
        if ts[pos] is RParen {
            Some((Seq::empty(), pos))
        } else {
            match spec_parse_term(ts, pos) {
                None => None,
                Some((t, cur)) => if pos < cur <= ts.len() {
                    spec_parse_more_terms(ts, cur, seq![t])
                } else {
                    None
                },
            }
        }
    } else {
        None
    }
}

/// The arguments after the first: each comma brings one more term.
pub open spec fn spec_parse_more_terms(
    ts: Seq<SpecToken>,
    pos: int,
    acc: Seq<SpecTerm>,
) -> Option<(Seq<SpecTerm>, int)>
    decreases ts.len() - pos, 0int,
{
    if 0 <= pos < ts.len() && ts[pos] is Comma {
        match spec_parse_term(ts, pos + 1) {
            None => None,
            Some((t, cur)) => if pos + 1 < cur <= ts.len() {
                spec_parse_more_terms(ts, cur, acc.push(t))
            } else {
                None
            },
        }
    } else {
        Some((acc, pos))
    }
}

// ------------------------------------------------------------------
// The term parser
// ------------------------------------------------------------------

/// Parses `new C ( term, ... )`, starting at the `new`.
fn parse_new_call(toks: &Vec<Token>, pos: usize) -> (r: Result<(NewCall, usize), ParseError>)
    requires
        pos <= toks@.len(),
    ensures
        match r {
            Ok((nc, j)) => pos < j <= toks@.len() && spec_parse_new_call(
                view_tokens(toks@),
                pos as int,
            ) == Some((nc.class_name@, crate::ast::view_terms(nc.arg_terms@), j as int)),
            Err(_) => spec_parse_new_call(view_tokens(toks@), pos as int) is None,
        },
    decreases toks@.len() - pos, 1int,
{
    broadcast use lemma_view_tokens;

    let p = expect(toks, pos, TokKind::KwNew)?;
    let (name, p) = take_ident(toks, p)?;
    let p = expect(toks, p, TokKind::LParen)?;
    let (arg_terms, p) = parse_term_list(toks, p)?;
    let p = expect(toks, p, TokKind::RParen)?;
    Ok((NewCall { class_name: ClassName(name), arg_terms }, p))
}

/// Parses a possibly empty comma-separated list of terms, up to (but not
/// including) the closing parenthesis.
fn parse_term_list(toks: &Vec<Token>, pos: usize) -> (r: Result<
    (Vec<Box<Term>>, usize),
    ParseError,
>)
    requires
        pos <= toks@.len(),
    ensures
        match r {
            Ok((args, j)) => pos <= j <= toks@.len() && spec_parse_term_list(
                view_tokens(toks@),
                pos as int,
            ) == Some((crate::ast::view_terms(args@), j as int)),
            Err(_) => spec_parse_term_list(view_tokens(toks@), pos as int) is None,
        },
    decreases toks@.len() - pos, 4int,
{
    broadcast use lemma_view_tokens;

    let ghost tv = view_tokens(toks@);
    let mut args: Vec<Box<Term>> = Vec::new();
    match peek_kind(toks, pos) {
        Some(TokKind::RParen) => {
            proof {
                crate::ast::lemma_view_terms(args@);
                assert(crate::ast::view_terms(args@) =~= Seq::<SpecTerm>::empty());
            }
            return Ok((args, pos));
        },
        None => {
            return Err(ParseError::UnexpectedEnd);
        },
        _ => {},
    }
    let n = toks.len();
    let (t, mut cur) = parse_term(toks, pos)?;
    let ghost t0 = t@;
    args.push(Box::new(t));
    proof {
        crate::ast::lemma_view_terms(args@);
        assert(crate::ast::view_terms(args@) =~= seq![t0]);
    }
    loop
        invariant
            pos < cur <= toks@.len(),
            n == toks@.len(),
            tv == view_tokens(toks@),
            spec_parse_term_list(tv, pos as int) == spec_parse_more_terms(
                tv,
                cur as int,
                crate::ast::view_terms(args@),
            ),
        decreases toks@.len() - cur,
    {
        match peek_kind(toks, cur) {
            Some(TokKind::Comma) => {
                let (t2, next) = parse_term(toks, cur + 1)?;
                let ghost before = crate::ast::view_terms(args@);
                let ghost old_boxes = args@;
                let ghost t2v = t2@;
                args.push(Box::new(t2));
                proof {
                    crate::ast::lemma_view_terms(old_boxes);
                    crate::ast::lemma_view_terms(args@);
                    assert forall|x: int|
                        0 <= x < args@.len() implies crate::ast::view_terms(args@)[x]
                        == before.push(t2v)[x] by {
                        if x < old_boxes.len() {
                            assert(args@[x] == old_boxes[x]);
                        }
                    }
                    assert(crate::ast::view_terms(args@) =~= before.push(t2v));
                }
                cur = next;
            },
            _ => {
                return Ok((args, cur));
            },
        }
    }
}

/// Parses a cast `( C ) term`, starting at the opening parenthesis.
fn parse_cast(toks: &Vec<Token>, pos: usize) -> (r: Result<(Cast, usize), ParseError>)
    requires
        pos <= toks@.len(),
    ensures
        match r {
            Ok((c, j)) => pos < j <= toks@.len() && spec_parse_cast(
                view_tokens(toks@),
                pos as int,
            ) == Some((c.to_class_name@, crate::ast::view_term(*c.term), j as int)),
            Err(_) => spec_parse_cast(view_tokens(toks@), pos as int) is None,
        },
    decreases toks@.len() - pos, 1int,
{
    broadcast use lemma_view_tokens;

    let p = expect(toks, pos, TokKind::LParen)?;
    let (name, p) = take_ident(toks, p)?;
    let p = expect(toks, p, TokKind::RParen)?;
    let (t, p) = parse_term(toks, p)?;
    Ok((Cast { to_class_name: ClassName(name), term: Box::new(t) }, p))
}

/// Whether a term can start at the token shape.
fn starts_term(k: TokKind) -> (r: bool)
    ensures
        r == (k == TokKind::LParen || k == TokKind::Ident || k == TokKind::KwNew),
{
    match k {
        TokKind::LParen => true,
        TokKind::Ident => true,
        TokKind::KwNew => true,
        _ => false,
    }
}

/// Parses the left end of a term: a parenthesised term, a cast, an object
/// construction, or a variable.
fn parse_term_left(toks: &Vec<Token>, pos: usize) -> (r: Result<(Term, usize), ParseError>)
    requires
        pos <= toks@.len(),
    ensures
        match r {
            Ok((t, j)) => pos < j <= toks@.len() && spec_parse_term_left(
                view_tokens(toks@),
                pos as int,
            ) == Some((t@, j as int)),
            Err(_) => spec_parse_term_left(view_tokens(toks@), pos as int) is None,
        },
    decreases toks@.len() - pos, 2int,
{
    broadcast use lemma_view_tokens;

    let ghost tv = view_tokens(toks@);
    match peek_kind(toks, pos) {
        None => Err(ParseError::UnexpectedEnd),
        Some(TokKind::KwNew) => {
            let (nc, p) = parse_new_call(toks, pos)?;
            proof {
                assert(tv[pos as int] is KwNew);
            }
            Ok((nc.into_term(), p))
        },
        Some(TokKind::Ident) => {
            let (name, p) = take_ident(toks, pos)?;
            Ok((Term::Variable(FieldName(name)), p))
        },
        Some(TokKind::LParen) => {
            // a cast `(C) t` exactly when a lone name sits in the
            // parentheses and a term follows the closing one
            let n = toks.len();
            let is_cast = if n - pos >= 4 {
                match (peek_kind(toks, pos + 1), peek_kind(toks, pos + 2), peek_kind(
                    toks,
                    pos + 3,
                )) {
                    (Some(TokKind::Ident), Some(TokKind::RParen), Some(k3)) => starts_term(k3),
                    _ => false,
                }
            } else {
                false
            };
            proof {
                assert(is_cast == (tv.len() - pos >= 4 && tv[pos as int + 1] is Ident && tv[pos
                    as int + 2] is RParen && is_term_start(tv[pos as int + 3])));
            }
            if is_cast {
                let (c, p) = parse_cast(toks, pos)?;
                Ok((c.into_term(), p))
            } else {
                let (t, cur) = parse_term(toks, pos + 1)?;
                let cur = expect(toks, cur, TokKind::RParen)?;
                Ok((t, cur))
            }
        },
        Some(_) => Err(ParseError::UnexpectedToken(pos)),
    }
}

/// Parses a term: a left end followed by a left-associative chain of field
/// accesses and method calls.
pub(crate) fn parse_term(toks: &Vec<Token>, pos: usize) -> (r: Result<(Term, usize), ParseError>)
    requires
        pos <= toks@.len(),
    ensures
        match r {
            Ok((t, j)) => pos < j <= toks@.len() && spec_parse_term(
                view_tokens(toks@),
                pos as int,
            ) == Some((t@, j as int)),
            Err(_) => spec_parse_term(view_tokens(toks@), pos as int) is None,
        },
    decreases toks@.len() - pos, 3int,
{
    broadcast use lemma_view_tokens;

    let ghost tv = view_tokens(toks@);
    let n = toks.len();
    let (left, mut cur) = parse_term_left(toks, pos)?;
    let mut t = left;
    loop
        invariant
            pos < cur <= toks@.len(),
            n == toks@.len(),
            tv == view_tokens(toks@),
            spec_parse_term(tv, pos as int) == spec_parse_chain(tv, cur as int, t@),
        decreases toks@.len() - cur,
    {
        match peek_kind(toks, cur) {
            Some(TokKind::Dot) => {
                let (name, next) = take_ident(toks, cur + 1)?;
                match peek_kind(toks, next) {
                    Some(TokKind::LParen) => {
                        let (arg_terms, next2) = parse_term_list(toks, next + 1)?;
                        let next3 = expect(toks, next2, TokKind::RParen)?;
                        let partial = PartialMethodCall {
                            method_name: MethodName(name),
                            arg_terms,
                        };
                        t = partial.into_full(t).into_term();
                        cur = next3;
                    },
                    _ => {
                        let partial = PartialFieldAccess { field: FieldName(name) };
                        t = partial.into_full(t).into_term();
                        cur = next;
                    },
                }
            },
            _ => {
                return Ok((t, cur));
            },
        }
    }
}

/// A field access waiting for the object it projects from.
pub struct PartialFieldAccess {
    pub field: FieldName,
}

impl PartialFieldAccess {
    /// Attaches the object term the chain built so far.
    pub fn into_full(self, object_term: Term) -> (r: FieldAccess)
        ensures
            r.field == self.field,
            *r.object_term == object_term,
    {
        FieldAccess { field: self.field, object_term: Box::new(object_term) }
    }
}

/// A method call waiting for its receiver.
pub struct PartialMethodCall {
    pub method_name: MethodName,
    pub arg_terms: Vec<Box<Term>>,
}

impl PartialMethodCall {
    /// Attaches the receiver term the chain built so far.
    pub fn into_full(self, object_term: Term) -> (r: MethodCall)
        ensures
            r.method_name == self.method_name,
            r.arg_terms == self.arg_terms,
            *r.object_term == object_term,
    {
        MethodCall {
            object_term: Box::new(object_term),
            method_name: self.method_name,
            arg_terms: self.arg_terms,
        }
    }
}

// ------------------------------------------------------------------
// The declaration grammar, as a specification
// ------------------------------------------------------------------

/// A typed argument list `C x, D y, ...`, ending before a closing
/// parenthesis.
pub open spec fn spec_parse_arg_list(ts: Seq<SpecToken>, pos: int) -> Option<
    (Seq<(Seq<char>, Seq<char>)>, int),
>
    decreases ts.len() - pos, 1int,
{
    if 0 <= pos < ts.len() {
        if ts[pos] is RParen {
            Some((Seq::empty(), pos))
        } else if ts[pos] is Ident && pos + 1 < ts.len() && ts[pos + 1] is Ident {
            spec_parse_more_args(
                ts,
                pos + 2,
                seq![(ts[pos]->Ident_0, ts[pos + 1]->Ident_0)],
            )
        } else {
            None
        }
    } else {
        None
    }
}

/// The typed arguments after the first: each comma brings a type and a name.
pub open spec fn spec_parse_more_args(
    ts: Seq<SpecToken>,
    pos: int,
    acc: Seq<(Seq<char>, Seq<char>)>,
) -> Option<(Seq<(Seq<char>, Seq<char>)>, int)>
    decreases ts.len() - pos, 0int,
{
    if 0 <= pos < ts.len() && ts[pos] is Comma {
        if pos + 1 < ts.len() && ts[pos + 1] is Ident && pos + 2 < ts.len() && ts[pos
            + 2] is Ident {
            spec_parse_more_args(
                ts,
                pos + 3,
                acc.push((ts[pos + 1]->Ident_0, ts[pos + 2]->Ident_0)),
            )
        } else {
            None
        }
    } else {
        Some((acc, pos))
    }
}

/// A possibly empty comma-separated list of field names, ending before a
/// closing parenthesis.
pub open spec fn spec_parse_field_list(ts: Seq<SpecToken>, pos: int) -> Option<
    (Seq<Seq<char>>, int),
>
    decreases ts.len() - pos, 1int,
{
    if 0 <= pos < ts.len() {
        if ts[pos] is RParen {
            Some((Seq::empty(), pos))
        } else if ts[pos] is Ident {
            spec_parse_more_fields(ts, pos + 1, seq![ts[pos]->Ident_0])
        } else {
            None
        }
    } else {
        None
    }
}

/// The field names after the first.
pub open spec fn spec_parse_more_fields(
    ts: Seq<SpecToken>,
    pos: int,
    acc: Seq<Seq<char>>,
) -> Option<(Seq<Seq<char>>, int)>
    decreases ts.len() - pos, 0int,
{
    if 0 <= pos < ts.len() && ts[pos] is Comma {
        if pos + 1 < ts.len() && ts[pos + 1] is Ident {
            spec_parse_more_fields(ts, pos + 2, acc.push(ts[pos + 1]->Ident_0))
        } else {
            None
        }
    } else {
        Some((acc, pos))
    }
}

/// One assignment `this . f = f ;`: six tokens.
pub open spec fn spec_parse_assignment(ts: Seq<SpecToken>, pos: int) -> Option<
    ((Seq<char>, Seq<char>), int),
> {
    if 0 <= pos && pos + 5 < ts.len() && ts[pos] is Ident && ts[pos]->Ident_0
        == crate::ast::this_name() && ts[pos + 1] is Dot && ts[pos + 2] is Ident && ts[pos
        + 3] is Eq && ts[pos + 4] is Ident && ts[pos + 5] is Semi {
        Some(((ts[pos + 2]->Ident_0, ts[pos + 4]->Ident_0), pos + 6))
    } else {
        None
    }
}

/// The assignments of a constructor body, up to and including the closing
/// brace.
pub open spec fn spec_parse_assignments(
    ts: Seq<SpecToken>,
    pos: int,
    acc: Seq<(Seq<char>, Seq<char>)>,
) -> Option<(Seq<(Seq<char>, Seq<char>)>, int)>
    decreases ts.len() - pos,
{
    if 0 <= pos < ts.len() {
        if ts[pos] is RBrace {
            Some((acc, pos + 1))
        } else {
            match spec_parse_assignment(ts, pos) {
                None => None,
                Some((a, cur)) => if pos < cur <= ts.len() {
                    spec_parse_assignments(ts, cur, acc.push(a))
                } else {
                    None
                },
            }
        }
    } else {
        None
    }
}

/// A constructor `C ( args ) { super ( fields ) ; this.f = f ; ... }`.
pub open spec fn spec_parse_constructor(ts: Seq<SpecToken>, pos: int) -> Option<
    (crate::ast::SpecConstructor, int),
> {
    if 0 <= pos < ts.len() && ts[pos] is Ident && pos + 1 < ts.len() && ts[pos + 1] is LParen {
        let name = ts[pos]->Ident_0;
        match spec_parse_arg_list(ts, pos + 2) {
            None => None,
            Some((args, cur)) => {
                if pos + 2 <= cur && cur + 4 < ts.len() && ts[cur] is RParen && ts[cur
                    + 1] is LBrace && ts[cur + 2] is KwSuper && ts[cur + 3] is LParen {
                    match spec_parse_field_list(ts, cur + 4) {
                        None => None,
                        Some((sup, cur2)) => {
                            if cur + 4 <= cur2 && cur2 + 1 < ts.len() && ts[cur2] is RParen
                                && ts[cur2 + 1] is Semi {
                                match spec_parse_assignments(ts, cur2 + 2, Seq::empty()) {
                                    None => None,
                                    Some((assignments, cur3)) => Some((
                                        crate::ast::SpecConstructor {
                                            name,
                                            args,
                                            super_call: sup,
                                            assignments,
                                        },
                                        cur3,
                                    )),
                                }
                            } else {
                                None
                            }
                        },
                    }
                } else {
                    None
                }
            },
        }
    } else {
        None
    }
}

/// One method `C m ( args ) { return term ; }`.
pub open spec fn spec_parse_method(ts: Seq<SpecToken>, pos: int) -> Option<
    (crate::ast::SpecMethod, int),
> {
    if 0 <= pos < ts.len() && ts[pos] is Ident && pos + 1 < ts.len() && ts[pos + 1] is Ident
        && pos + 2 < ts.len() && ts[pos + 2] is LParen {
        let ret = ts[pos]->Ident_0;
        let name = ts[pos + 1]->Ident_0;
        match spec_parse_arg_list(ts, pos + 3) {
            None => None,
            Some((args, cur)) => {
                if pos + 3 <= cur && cur + 2 < ts.len() && ts[cur] is RParen && ts[cur
                    + 1] is LBrace && ts[cur + 2] is KwReturn {
                    match spec_parse_term(ts, cur + 3) {
                        None => None,
                        Some((body, cur2)) => {
                            if cur2 + 1 < ts.len() && ts[cur2] is Semi && ts[cur2
                                + 1] is RBrace {
                                Some((
                                    crate::ast::SpecMethod {
                                        return_type: ret,
                                        method_name: name,
                                        args,
                                        return_term: body,
                                    },
                                    cur2 + 2,
                                ))
                            } else {
                                None
                            }
                        },
                    }
                } else {
                    None
                }
            },
        }
    } else {
        None
    }
}

/// The field declarations at the head of a class body: two identifiers in a
/// row mean one more field.
pub open spec fn spec_parse_field_defs(
    ts: Seq<SpecToken>,
    pos: int,
    acc: Seq<(Seq<char>, Seq<char>)>,
) -> Option<(Seq<(Seq<char>, Seq<char>)>, int)>
    decreases ts.len() - pos,
{
    if 0 <= pos && ts.len() - pos >= 2 && ts[pos] is Ident && ts[pos + 1] is Ident {
        if pos + 2 < ts.len() && ts[pos + 2] is Semi {
            spec_parse_field_defs(
                ts,
                pos + 3,
                acc.push((ts[pos]->Ident_0, ts[pos + 1]->Ident_0)),
            )
        } else {
            None
        }
    } else {
        Some((acc, pos))
    }
}

/// The methods at the tail of a class body, up to and including the closing
/// brace.
pub open spec fn spec_parse_methods(
    ts: Seq<SpecToken>,
    pos: int,
    acc: Seq<crate::ast::SpecMethod>,
) -> Option<(Seq<crate::ast::SpecMethod>, int)>
    decreases ts.len() - pos,
{
    if 0 <= pos < ts.len() {
        if ts[pos] is RBrace {
            Some((acc, pos + 1))
        } else {
            match spec_parse_method(ts, pos) {
                None => None,
                Some((m, cur)) => if pos < cur <= ts.len() {
                    spec_parse_methods(ts, cur, acc.push(m))
                } else {
                    None
                },
            }
        }
    } else {
        None
    }
}

/// One class declaration.
pub open spec fn spec_parse_class(ts: Seq<SpecToken>, pos: int) -> Option<
    (crate::ast::SpecClass, int),
> {
    if 0 <= pos && pos + 4 < ts.len() && ts[pos] is KwClass && ts[pos + 1] is Ident && ts[pos
        + 2] is KwExtends && ts[pos + 3] is Ident && ts[pos + 4] is LBrace {
        let name = ts[pos + 1]->Ident_0;
        let sup = ts[pos + 3]->Ident_0;
        match spec_parse_field_defs(ts, pos + 5, Seq::empty()) {
            None => None,
            Some((fields, cur)) => {
                if pos + 5 <= cur {
                    match spec_parse_constructor(ts, cur) {
                        None => None,
                        Some((ctor, cur2)) => {
                            if cur <= cur2 {
                                match spec_parse_methods(ts, cur2, Seq::empty()) {
                                    None => None,
                                    Some((methods, cur3)) => Some((
                                        crate::ast::SpecClass {
                                            name,
                                            super_name: sup,
                                            fields,
                                            ctor,
                                            methods,
                                        },
                                        cur3,
                                    )),
                                }
                            } else {
                                None
                            }
                        },
                    }
                } else {
                    None
                }
            },
        }
    } else {
        None
    }
}

/// The class declarations of a program, up to the end of the input.
pub open spec fn spec_parse_classes(
    ts: Seq<SpecToken>,
    pos: int,
    acc: Seq<crate::ast::SpecClass>,
) -> Option<Seq<crate::ast::SpecClass>>
    decreases ts.len() - pos,
{
    if pos == ts.len() {
        Some(acc)
    } else if 0 <= pos < ts.len() {
        match spec_parse_class(ts, pos) {
            None => None,
            Some((c, cur)) => if pos < cur <= ts.len() {
                spec_parse_classes(ts, cur, acc.push(c))
            } else {
                None
            },
        }
    } else {
        None
    }
}

/// A whole program.
pub open spec fn spec_parse_program(ts: Seq<SpecToken>) -> Option<Seq<crate::ast::SpecClass>> {
    spec_parse_classes(ts, 0, Seq::empty())
}

/// A single term followed by the end of the input.
pub open spec fn spec_parse_eval_input(ts: Seq<SpecToken>) -> Option<SpecTerm> {
    match spec_parse_term(ts, 0) {
        None => None,
        Some((t, j)) => if j == ts.len() {
            Some(t)
        } else {
            None
        },
    }
}

// ------------------------------------------------------------------
// The declaration parser
// ------------------------------------------------------------------

/// Parses a typed argument list `C x, D y, ...`, up to the closing
/// parenthesis.
fn parse_arg_list(toks: &Vec<Token>, pos: usize) -> (r: Result<
    (Vec<crate::ast::ArgPair>, usize),
    ParseError,
>)
    requires
        pos <= toks@.len(),
    ensures
        match r {
            Ok((args, j)) => pos <= j <= toks@.len() && spec_parse_arg_list(
                view_tokens(toks@),
                pos as int,
            ) == Some((crate::ast::view_arg_pairs(args@), j as int)),
            Err(_) => spec_parse_arg_list(view_tokens(toks@), pos as int) is None,
        },
    decreases toks@.len() - pos,
{
    broadcast use lemma_view_tokens, crate::ast::group_ast_views;

    let ghost tv = view_tokens(toks@);
    let mut args: Vec<crate::ast::ArgPair> = Vec::new();
    match peek_kind(toks, pos) {
        Some(TokKind::RParen) => {
            proof {
                assert(crate::ast::view_arg_pairs(args@) =~= Seq::<(Seq<char>, Seq<char>)>::empty());
            }
            return Ok((args, pos));
        },
        None => {
            return Err(ParseError::UnexpectedEnd);
        },
        _ => {},
    }
    let n = toks.len();
    let (ty, cur) = take_ident(toks, pos)?;
    let (nm, cur) = take_ident(toks, cur)?;
    args.push((ClassName(ty), FieldName(nm)));
    proof {
        assert(crate::ast::view_arg_pairs(args@) =~= seq![
            (tv[pos as int]->Ident_0, tv[pos as int + 1]->Ident_0),
        ]);
    }
    let mut cur = cur;
    loop
        invariant
            pos < cur <= toks@.len(),
            n == toks@.len(),
            tv == view_tokens(toks@),
            spec_parse_arg_list(tv, pos as int) == spec_parse_more_args(
                tv,
                cur as int,
                crate::ast::view_arg_pairs(args@),
            ),
        decreases toks@.len() - cur,
    {
        match peek_kind(toks, cur) {
            Some(TokKind::Comma) => {
                let (ty2, c2) = take_ident(toks, cur + 1)?;
                let (nm2, c3) = take_ident(toks, c2)?;
                let ghost before = crate::ast::view_arg_pairs(args@);
                args.push((ClassName(ty2), FieldName(nm2)));
                proof {
                    assert(crate::ast::view_arg_pairs(args@) =~= before.push(
                        (tv[cur as int + 1]->Ident_0, tv[cur as int + 2]->Ident_0),
                    ));
                }
                cur = c3;
            },
            _ => {
                return Ok((args, cur));
            },
        }
    }
}

/// Parses a possibly empty comma-separated list of field names, up to the
/// closing parenthesis.
fn parse_super_field_list(toks: &Vec<Token>, pos: usize) -> (r: Result<
    (Vec<FieldName>, usize),
    ParseError,
>)
    requires
        pos <= toks@.len(),
    ensures
        match r {
            Ok((names, j)) => pos <= j <= toks@.len() && spec_parse_field_list(
                view_tokens(toks@),
                pos as int,
            ) == Some((crate::ast::view_field_names(names@), j as int)),
            Err(_) => spec_parse_field_list(view_tokens(toks@), pos as int) is None,
        },
    decreases toks@.len() - pos,
{
    broadcast use lemma_view_tokens, crate::ast::group_ast_views;

    let ghost tv = view_tokens(toks@);
    let mut names: Vec<FieldName> = Vec::new();
    match peek_kind(toks, pos) {
        Some(TokKind::RParen) => {
            proof {
                assert(crate::ast::view_field_names(names@) =~= Seq::<Seq<char>>::empty());
            }
            return Ok((names, pos));
        },
        None => {
            return Err(ParseError::UnexpectedEnd);
        },
        _ => {},
    }
    let n = toks.len();
    let (nm, cur) = take_ident(toks, pos)?;
    names.push(FieldName(nm));
    proof {
        assert(crate::ast::view_field_names(names@) =~= seq![tv[pos as int]->Ident_0]);
    }
    let mut cur = cur;
    loop
        invariant
            pos < cur <= toks@.len(),
            n == toks@.len(),
            tv == view_tokens(toks@),
            spec_parse_field_list(tv, pos as int) == spec_parse_more_fields(
                tv,
                cur as int,
                crate::ast::view_field_names(names@),
            ),
        decreases toks@.len() - cur,
    {
        match peek_kind(toks, cur) {
            Some(TokKind::Comma) => {
                let (nm2, c2) = take_ident(toks, cur + 1)?;
                let ghost before = crate::ast::view_field_names(names@);
                names.push(FieldName(nm2));
                proof {
                    assert(crate::ast::view_field_names(names@) =~= before.push(
                        tv[cur as int + 1]->Ident_0,
                    ));
                }
                cur = c2;
            },
            _ => {
                return Ok((names, cur));
            },
        }
    }
}

/// Parses one assignment `this . f = f ;`.
fn parse_assignment(toks: &Vec<Token>, pos: usize) -> (r: Result<
    ((FieldName, FieldName), usize),
    ParseError,
>)
    requires
        pos <= toks@.len(),
    ensures
        match r {
            Ok((a, j)) => pos < j <= toks@.len() && spec_parse_assignment(
                view_tokens(toks@),
                pos as int,
            ) == Some(((a.0@, a.1@), j as int)),
            Err(_) => spec_parse_assignment(view_tokens(toks@), pos as int) is None,
        },
{
    broadcast use lemma_view_tokens;

    let (this_word, p) = take_ident(toks, pos)?;
    if !FieldName(this_word).is_this() {
        return Err(ParseError::UnexpectedToken(pos));
    }
    let p = expect(toks, p, TokKind::Dot)?;
    let (lhs, p) = take_ident(toks, p)?;
    let p = expect(toks, p, TokKind::Eq)?;
    let (rhs, p) = take_ident(toks, p)?;
    let p = expect(toks, p, TokKind::Semi)?;
    Ok(((FieldName(lhs), FieldName(rhs)), p))
}

/// Parses a constructor
/// `C ( args ) { super ( fields ) ; this.f = f ; ... }`.
fn parse_constructor(toks: &Vec<Token>, pos: usize) -> (r: Result<
    (Constructor, usize),
    ParseError,
>)
    requires
        pos <= toks@.len(),
    ensures
        match r {
            Ok((c, j)) => pos < j <= toks@.len() && spec_parse_constructor(
                view_tokens(toks@),
                pos as int,
            ) == Some((c@, j as int)),
            Err(_) => spec_parse_constructor(view_tokens(toks@), pos as int) is None,
        },
{
    broadcast use lemma_view_tokens, crate::ast::group_ast_views;

    let ghost tv = view_tokens(toks@);
    let (name, p) = take_ident(toks, pos)?;
    let p = expect(toks, p, TokKind::LParen)?;
    let (args, ae) = parse_arg_list(toks, p)?;
    let ghost args_end = ae as int;
    let p = expect(toks, ae, TokKind::RParen)?;
    let p = expect(toks, p, TokKind::LBrace)?;
    let p = expect(toks, p, TokKind::KwSuper)?;
    let p = expect(toks, p, TokKind::LParen)?;
    let (super_call, se) = parse_super_field_list(toks, p)?;
    let ghost sup_end = se as int;
    let p = expect(toks, se, TokKind::RParen)?;
    let p = expect(toks, p, TokKind::Semi)?;
    let ghost asn_start = p as int;
    let mut assignments: Vec<(FieldName, FieldName)> = Vec::new();
    proof {
        assert(crate::ast::view_field_pairs(assignments@) =~= Seq::<(Seq<char>, Seq<char>)>::empty());
    }
    let n = toks.len();
    let mut cur = p;
    loop
        invariant
            pos < cur <= toks@.len(),
            n == toks@.len(),
            tv == view_tokens(toks@),
            0 <= pos < tv.len() && tv[pos as int] is Ident,
            name@ == tv[pos as int]->Ident_0,
            pos + 1 < tv.len() && tv[pos as int + 1] is LParen,
            spec_parse_arg_list(tv, pos as int + 2) == Some(
                (crate::ast::view_arg_pairs(args@), args_end),
            ),
            pos + 2 <= args_end && args_end + 4 < tv.len(),
            tv[args_end] is RParen && tv[args_end + 1] is LBrace && tv[args_end
                + 2] is KwSuper && tv[args_end + 3] is LParen,
            spec_parse_field_list(tv, args_end + 4) == Some(
                (crate::ast::view_field_names(super_call@), sup_end),
            ),
            args_end + 4 <= sup_end && sup_end + 1 < tv.len(),
            tv[sup_end] is RParen && tv[sup_end + 1] is Semi,
            asn_start == sup_end + 2,
            spec_parse_assignments(tv, asn_start, Seq::empty()) == spec_parse_assignments(
                tv,
                cur as int,
                crate::ast::view_field_pairs(assignments@),
            ),
        decreases toks@.len() - cur,
    {
        match peek_kind(toks, cur) {
            Some(TokKind::RBrace) => {
                return Ok((
                    Constructor { name: ClassName(name), args, super_call, assignments },
                    cur + 1,
                ));
            },
            Some(_) => {
                let (asn, next) = parse_assignment(toks, cur)?;
                let ghost before = crate::ast::view_field_pairs(assignments@);
                let ghost av = (asn.0@, asn.1@);
                assignments.push(asn);
                proof {
                    assert(crate::ast::view_field_pairs(assignments@) =~= before.push(av));
                }
                cur = next;
            },
            None => {
                return Err(ParseError::UnexpectedEnd);
            },
        }
    }
}

/// Parses one method `C m ( args ) { return term ; }`.
fn parse_method_definition(toks: &Vec<Token>, pos: usize) -> (r: Result<
    (MethodDefinition, usize),
    ParseError,
>)
    requires
        pos <= toks@.len(),
    ensures
        match r {
            Ok((m, j)) => pos < j <= toks@.len() && spec_parse_method(
                view_tokens(toks@),
                pos as int,
            ) == Some((m@, j as int)),
            Err(_) => spec_parse_method(view_tokens(toks@), pos as int) is None,
        },
{
    broadcast use lemma_view_tokens, crate::ast::group_ast_views;

    let (ret_ty, p) = take_ident(toks, pos)?;
    let (name, p) = take_ident(toks, p)?;
    let p = expect(toks, p, TokKind::LParen)?;
    let (args, p) = parse_arg_list(toks, p)?;
    let p = expect(toks, p, TokKind::RParen)?;
    let p = expect(toks, p, TokKind::LBrace)?;
    let p = expect(toks, p, TokKind::KwReturn)?;
    let (body, p) = parse_term(toks, p)?;
    let p = expect(toks, p, TokKind::Semi)?;
    let p = expect(toks, p, TokKind::RBrace)?;
    Ok((
        MethodDefinition {
            return_type: ClassName(ret_ty),
            method_name: MethodName(name),
            args,
            return_term: Box::new(body),
        },
        p,
    ))
}

/// Parses one class declaration.
fn parse_class_definition(toks: &Vec<Token>, pos: usize) -> (r: Result<
    (ClassDefinition, usize),
    ParseError,
>)
    requires
        pos <= toks@.len(),
    ensures
        match r {
            Ok((c, j)) => pos < j <= toks@.len() && spec_parse_class(
                view_tokens(toks@),
                pos as int,
            ) == Some((c@, j as int)),
            Err(_) => spec_parse_class(view_tokens(toks@), pos as int) is None,
        },
{
    broadcast use lemma_view_tokens, crate::ast::group_ast_views;

    let ghost tv = view_tokens(toks@);
    let p = expect(toks, pos, TokKind::KwClass)?;
    let (name, p) = take_ident(toks, p)?;
    let p = expect(toks, p, TokKind::KwExtends)?;
    let (super_ty, p) = take_ident(toks, p)?;
    let p = expect(toks, p, TokKind::LBrace)?;
    let ghost fields_start = p as int;
    let mut fields: Vec<crate::ast::ArgPair> = Vec::new();
    proof {
        assert(crate::ast::view_arg_pairs(fields@) =~= Seq::<(Seq<char>, Seq<char>)>::empty());
    }
    let n = toks.len();
    let mut cur = p;
    loop
        invariant
            pos < cur <= toks@.len(),
            n == toks@.len(),
            tv == view_tokens(toks@),
            0 <= pos && pos + 4 < tv.len(),
            tv[pos as int] is KwClass && tv[pos as int + 1] is Ident && tv[pos as int
                + 2] is KwExtends && tv[pos as int + 3] is Ident && tv[pos as int
                + 4] is LBrace,
            name@ == tv[pos as int + 1]->Ident_0,
            super_ty@ == tv[pos as int + 3]->Ident_0,
            fields_start == pos + 5,
            spec_parse_field_defs(tv, fields_start, Seq::empty()) == spec_parse_field_defs(
                tv,
                cur as int,
                crate::ast::view_arg_pairs(fields@),
            ),
        ensures
            !(tv.len() - cur >= 2 && tv[cur as int] is Ident && tv[cur as int + 1] is Ident),
        decreases toks@.len() - cur,
    {
        // a field is `C f ;`; the constructor after the fields starts
        // `C (`, so two identifiers in a row mean one more field
        let two_idents = if n - cur >= 2 {
            match (peek_kind(toks, cur), peek_kind(toks, cur + 1)) {
                (Some(TokKind::Ident), Some(TokKind::Ident)) => true,
                _ => false,
            }
        } else {
            false
        };
        if !two_idents {
            proof {
                assert(!(tv.len() - cur >= 2 && tv[cur as int] is Ident && tv[cur as int
                    + 1] is Ident));
            }
            break;
        }
        let (ty, c2) = take_ident(toks, cur)?;
        let (nm, c3) = take_ident(toks, c2)?;
        let c4 = expect(toks, c3, TokKind::Semi)?;
        let ghost before = crate::ast::view_arg_pairs(fields@);
        fields.push((ClassName(ty), FieldName(nm)));
        proof {
            assert(crate::ast::view_arg_pairs(fields@) =~= before.push(
                (tv[cur as int]->Ident_0, tv[cur as int + 1]->Ident_0),
            ));
        }
        cur = c4;
    }
    let ghost fields_end = cur as int;
    proof {
        assert(spec_parse_field_defs(tv, fields_end, crate::ast::view_arg_pairs(fields@))
            == Some((crate::ast::view_arg_pairs(fields@), fields_end)));
    }
    let (constructor, p2) = parse_constructor(toks, cur)?;
    let ghost methods_start = p2 as int;
    let mut methods: Vec<MethodDefinition> = Vec::new();
    proof {
        assert(crate::ast::view_methods(methods@) =~= Seq::<crate::ast::SpecMethod>::empty());
    }
    let mut cur = p2;
    loop
        invariant
            pos < cur <= toks@.len(),
            n == toks@.len(),
            tv == view_tokens(toks@),
            0 <= pos && pos + 4 < tv.len(),
            tv[pos as int] is KwClass && tv[pos as int + 1] is Ident && tv[pos as int
                + 2] is KwExtends && tv[pos as int + 3] is Ident && tv[pos as int
                + 4] is LBrace,
            name@ == tv[pos as int + 1]->Ident_0,
            super_ty@ == tv[pos as int + 3]->Ident_0,
            spec_parse_field_defs(tv, pos as int + 5, Seq::empty()) == Some(
                (crate::ast::view_arg_pairs(fields@), fields_end),
            ),
            pos + 5 <= fields_end,
            spec_parse_constructor(tv, fields_end) == Some((constructor@, methods_start)),
            fields_end < methods_start,
            spec_parse_methods(tv, methods_start, Seq::empty()) == spec_parse_methods(
                tv,
                cur as int,
                crate::ast::view_methods(methods@),
            ),
        decreases toks@.len() - cur,
    {
        match peek_kind(toks, cur) {
            Some(TokKind::RBrace) => {
                return Ok((
                    ClassDefinition {
                        name: ClassName(name),
                        super_type: ClassName(super_ty),
                        fields,
                        constructor,
                        methods,
                    },
                    cur + 1,
                ));
            },
            Some(_) => {
                let (m, next) = parse_method_definition(toks, cur)?;
                let ghost before = crate::ast::view_methods(methods@);
                let ghost mv = m@;
                methods.push(m);
                proof {
                    assert(crate::ast::view_methods(methods@) =~= before.push(mv));
                }
                cur = next;
            },
            None => {
                return Err(ParseError::UnexpectedEnd);
            },
        }
    }
}

/// Parses a whole program: class declarations up to the end of the input.
/// The result is exactly what the token grammar derives from the tokenized
/// text; a text the tokenizer or the grammar rejects is rejected.
pub fn parse(input: &str) -> (r: Result<Ast, ParseError>)
    ensures
        match r {
            Ok(ast) => spec_tokenize(input@) matches Some(ts) && spec_parse_program(ts) == Some(
                ast@,
            ),
            Err(_) => spec_tokenize(input@) is None || spec_parse_program(
                spec_tokenize(input@)->Some_0,
            ) is None,
        },
{
    broadcast use lemma_view_tokens, crate::ast::group_ast_views;

    let toks = match tokenize(input) {
        Ok(ts) => ts,
        Err(e) => {
            return Err(e);
        },
    };
    let ghost tv = view_tokens(toks@);
    let mut class_definitions: Vec<ClassDefinition> = Vec::new();
    proof {
        assert(crate::ast::view_classes(class_definitions@) =~= Seq::<
            crate::ast::SpecClass,
        >::empty());
    }
    let mut cur: usize = 0;
    let n = toks.len();
    while cur < n
        invariant
            cur <= n,
            n == toks@.len(),
            tv == view_tokens(toks@),
            spec_tokenize(input@) == Some(tv),
            spec_parse_classes(tv, 0, Seq::empty()) == spec_parse_classes(
                tv,
                cur as int,
                crate::ast::view_classes(class_definitions@),
            ),
        decreases n - cur,
    {
        let (c, next) = parse_class_definition(&toks, cur)?;
        let ghost before = crate::ast::view_classes(class_definitions@);
        let ghost cvw = c@;
        class_definitions.push(c);
        proof {
            assert(crate::ast::view_classes(class_definitions@) =~= before.push(cvw));
        }
        cur = next;
    }
    Ok(Ast { class_definitions })
}

/// Parses a single term followed by the end of the input. The result is
/// exactly what the token grammar derives; leftover tokens are rejected.
pub fn parse_eval_input(input: &str) -> (r: Result<Term, ParseError>)
    ensures
        match r {
            Ok(t) => spec_tokenize(input@) matches Some(ts) && spec_parse_eval_input(ts) == Some(
                t@,
            ),
            Err(_) => spec_tokenize(input@) is None || spec_parse_eval_input(
                spec_tokenize(input@)->Some_0,
            ) is None,
        },
{
    broadcast use lemma_view_tokens;

    let toks = match tokenize(input) {
        Ok(ts) => ts,
        Err(e) => {
            return Err(e);
        },
    };
    let (t, p) = match parse_term(&toks, 0) {
        Ok(tp) => tp,
        Err(e) => {
            return Err(e);
        },
    };
    if p < toks.len() {
        return Err(ParseError::TrailingInput(p));
    }
    Ok(t)
}

} // verus!
