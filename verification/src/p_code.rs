//! P-code: a small tree of operations attached to source tokens, and its
//! evaluator.
use vstd::prelude::*;
use vstd::string::StringExecFns;

use crate::lex::{Token, TokenV};
use crate::text::{decimal, decimal_string};

verus! {

/// An operation of the p-code tree.
#[derive(Debug)]
pub enum PCode {
    Nothing(),
    Error(String),
    Identifier(String),
    Bool(bool),
    Number(String),
    CharString(String),
    If(Box<Element>, Box<Element>, Box<Element>),
    Op(String, Box<Element>, Box<Element>),
    Unary(String, Box<Element>),
    Loop(Box<Element>, Box<Element>),
    Function(String, Vec<Box<Element>>, Box<Element>),
    Call(String, Vec<Box<Element>>),
}

/// A p-code operation together with the token it comes from.
#[derive(Debug)]
pub struct Element {
    p_code: PCode,
    token: Token,
}

/// The mathematical value of a [`PCode`].
pub enum PCodeV {
    Nothing,
    Error(Seq<char>),
    Identifier(Seq<char>),
    Bool(bool),
    Number(Seq<char>),
    CharString(Seq<char>),
    If(Box<ElementV>, Box<ElementV>, Box<ElementV>),
    Op(Seq<char>, Box<ElementV>, Box<ElementV>),
    Unary(Seq<char>, Box<ElementV>),
    Loop(Box<ElementV>, Box<ElementV>),
    Function(Seq<char>, Seq<ElementV>, Box<ElementV>),
    Call(Seq<char>, Seq<ElementV>),
}

/// The mathematical value of an [`Element`].
pub struct ElementV {
    pub p_code: PCodeV,
    pub token: TokenV,
}

pub closed spec fn element_view(e: Element) -> ElementV
    decreases e,
{
    ElementV { p_code: pcode_view(e.p_code), token: e.token@ }
}

pub open spec fn elements_view(es: Seq<Box<Element>>) -> Seq<ElementV>
    decreases es,
{
    Seq::new(es.len(), |i: int| if 0 <= i < es.len() { element_view(*es[i]) } else { arbitrary() })
}

pub open spec fn pcode_view(p: PCode) -> PCodeV
    decreases p,
{
    match p {
        PCode::Nothing() => PCodeV::Nothing,
        PCode::Error(s) => PCodeV::Error(s@),
        PCode::Identifier(s) => PCodeV::Identifier(s@),
        PCode::Bool(b) => PCodeV::Bool(b),
        PCode::Number(s) => PCodeV::Number(s@),
        PCode::CharString(s) => PCodeV::CharString(s@),
        PCode::If(c, t, f) => PCodeV::If(
            Box::new(element_view(*c)),
            Box::new(element_view(*t)),
            Box::new(element_view(*f)),
        ),
        PCode::Op(o, l, r) => PCodeV::Op(o@, Box::new(element_view(*l)), Box::new(element_view(*r))),
        PCode::Unary(o, x) => PCodeV::Unary(o@, Box::new(element_view(*x))),
        PCode::Loop(c, b) => PCodeV::Loop(Box::new(element_view(*c)), Box::new(element_view(*b))),
        PCode::Function(n, ps, b) => PCodeV::Function(n@, elements_view(ps@), Box::new(element_view(*b))),
        PCode::Call(n, ps) => PCodeV::Call(n@, elements_view(ps@)),
    }
}

impl View for Element {
    type V = ElementV;

    open spec fn view(&self) -> ElementV {
        element_view(*self)
    }
}

impl Element {
    pub fn new(p_code: PCode, token: Token) -> (e: Element)
        ensures
            e@ == (ElementV { p_code: pcode_view(p_code), token: token@ }),
    {
        Element { p_code, token }
    }

    pub fn p_code(&self) -> (r: &PCode)
        ensures
            pcode_view(*r) == self@.p_code,
    {
        &self.p_code
    }

    pub fn token(&self) -> (r: &Token)
        ensures
            r@ == self@.token,
    {
        &self.token
    }
}

fn copy_token(t: &Token) -> (r: Token)
    ensures
        r@ == t@,
{
    Token::new(t.token().clone(), t.string().clone(), t.start(), t.end(), t.line(), t.column())
}

fn clone_element(e: &Element) -> (r: Element)
    ensures
        r@ == e@,
    decreases e, 1int,
{
    let p_code = clone_pcode(&e.p_code);
    Element { p_code, token: copy_token(&e.token) }
}

fn clone_elements(es: &Vec<Box<Element>>) -> (r: Vec<Box<Element>>)
    ensures
        elements_view(r@) == elements_view(es@),
    decreases es, 2int,
{
    let mut r: Vec<Box<Element>> = Vec::new();
    let mut i: usize = 0;
    while i < es.len()
        invariant
            0 <= i <= es@.len(),
            r@.len() == i,
            forall|j: int| 0 <= j < i ==> element_view(*#[trigger] r@[j]) == element_view(*es@[j]),
        decreases es@.len() - i,
    {
        proof {
            assert(decreases_to!(es => es@));
            assert(decreases_to!(es@ => es@[i as int]));
        }
        let c = clone_element(&es[i]);
        r.push(Box::new(c));
        i = i + 1;
    }
    assert(elements_view(r@) =~= elements_view(es@));
    r
}

fn clone_pcode(p: &PCode) -> (r: PCode)
    ensures
        pcode_view(r) == pcode_view(*p),
    decreases p, 0int,
{
    match p {
        PCode::Nothing() => PCode::Nothing(),
        PCode::Error(s) => PCode::Error(s.clone()),
        PCode::Identifier(s) => PCode::Identifier(s.clone()),
        PCode::Bool(b) => PCode::Bool(*b),
        PCode::Number(s) => PCode::Number(s.clone()),
        PCode::CharString(s) => PCode::CharString(s.clone()),
        PCode::If(c, t, f) => PCode::If(
            Box::new(clone_element(c)),
            Box::new(clone_element(t)),
            Box::new(clone_element(f)),
        ),
        PCode::Op(o, l, r) => PCode::Op(o.clone(), Box::new(clone_element(l)), Box::new(clone_element(r))),
        PCode::Unary(o, x) => PCode::Unary(o.clone(), Box::new(clone_element(x))),
        PCode::Loop(c, b) => PCode::Loop(Box::new(clone_element(c)), Box::new(clone_element(b))),
        PCode::Function(n, ps, b) => PCode::Function(n.clone(), clone_elements(ps), Box::new(clone_element(b))),
        PCode::Call(n, ps) => PCode::Call(n.clone(), clone_elements(ps)),
    }
}

impl Clone for PCode {
    /// A copy of the whole tree below this operation.
    fn clone(&self) -> (r: PCode)
        ensures
            pcode_view(r) == pcode_view(*self),
    {
        clone_pcode(self)
    }
}

impl Clone for Element {
    /// A copy of the whole tree below this element.
    fn clone(&self) -> (r: Element)
        ensures
            r@ == self@,
    {
        clone_element(self)
    }
}

/// The outcome of evaluating p-code: a value, or no value at all because
/// the evaluation stops the program or never ends.
pub enum Outcome {
    Value(Result<ElementV, Seq<char>>),
    Stuck,
}

/// What evaluating `e` gives. A condition must evaluate to a boolean: an
/// `If` on another value is an error, and a condition that itself fails to
/// evaluate leaves the evaluation stuck. A `Loop` whose condition is true
/// never ends (the condition does not change between rounds). The
/// operations that have no evaluation yet are errors; every other value
/// evaluates to itself.
pub open spec fn eval_spec(e: ElementV) -> Outcome
    decreases e,
{
    match e.p_code {
        PCodeV::If(c, t, f) => match eval_spec(*c) {
            Outcome::Value(Ok(v)) => match v.p_code {
                PCodeV::Bool(true) => eval_spec(*t),
                PCodeV::Bool(false) => eval_spec(*f),
                _ => Outcome::Value(Err("not a boolean condition at "@ + decimal(c.token.start as nat))),
            },
            _ => Outcome::Stuck,
        },
        PCodeV::Unary(_, _) => Outcome::Value(Err("Unary not implemented"@)),
        PCodeV::Op(_, _, _) => Outcome::Value(Err("Op not implemented"@)),
        PCodeV::Loop(c, _) => match eval_spec(*c) {
            Outcome::Value(Ok(v)) => match v.p_code {
                PCodeV::Bool(true) => Outcome::Stuck,
                _ => Outcome::Value(Ok(ElementV { p_code: PCodeV::Nothing, token: e.token })),
            },
            _ => Outcome::Stuck,
        },
        PCodeV::Function(_, _, _) => Outcome::Value(Err("Function not implemented"@)),
        PCodeV::Call(_, _) => Outcome::Value(Err("Call not implemented"@)),
        _ => Outcome::Value(Ok(e)),
    }
}

/// A value: p-code that evaluates to itself.
pub open spec fn is_value(p: PCodeV) -> bool {
    match p {
        PCodeV::Nothing | PCodeV::Error(_) | PCodeV::Identifier(_) | PCodeV::Bool(_) | PCodeV::Number(_)
        | PCodeV::CharString(_) => true,
        _ => false,
    }
}

/// What an evaluation that succeeds gives is a value (`Nothing`, `Error`,
/// `Identifier`, `Bool`, `Number` or `CharString`), and evaluating it again
/// gives it back.
pub proof fn lemma_eval_gives_value(e: ElementV)
    ensures
        eval_spec(e) matches Outcome::Value(Ok(v)) ==> is_value(v.p_code) && eval_spec(v) == Outcome::Value(
            Ok(v),
        ),
    decreases e,
{
    match e.p_code {
        PCodeV::If(c, t, f) => {
            lemma_eval_gives_value(*t);
            lemma_eval_gives_value(*f);
        },
        _ => {},
    }
}

/// The value of a result of [`eval`].
pub open spec fn eval_result_view(r: Result<Element, String>) -> Result<ElementV, Seq<char>> {
    match r {
        Ok(e) => Ok(e@),
        Err(s) => Err(s@),
    }
}

/// Evaluates p-code (see [`eval_spec`]).
pub fn eval(p: Element) -> (r: Result<Element, String>)
    requires
        eval_spec(p@) is Value,
    ensures
        eval_spec(p@) == Outcome::Value(eval_result_view(r)),
{
    match try_eval(p) {
        Some(r) => r,
        None => {
            proof {
                assert(false);
            }
            Err(String::new())
        },
    }
}

/// Evaluates p-code as [`eval`] does, on every input: `None` where that
/// evaluation would stop the program or never end.
pub fn try_eval(p: Element) -> (r: Option<Result<Element, String>>)
    ensures
        match eval_spec(p@) {
            Outcome::Value(v) => r matches Some(res) && eval_result_view(res) == v,
            Outcome::Stuck => r is None,
        },
    decreases p,
{
    let Element { p_code, token } = p;
    match p_code {
        PCode::If(cond, p_then, p_else) => {
            let start = cond.token.start();
            match try_eval(*cond) {
                Some(Ok(v)) => match v.p_code {
                    PCode::Bool(true) => try_eval(*p_then),
                    PCode::Bool(false) => try_eval(*p_else),
                    _ => {
                        let mut msg = String::from_str("not a boolean condition at ");
                        let n = decimal_string(start);
                        msg.append(n.as_str());
                        Some(Err(msg))
                    },
                },
                _ => None,
            }
        },
        PCode::Unary(_operation, _x) => Some(Err(String::from_str("Unary not implemented"))),
        PCode::Op(_operation, _left, _right) => Some(Err(String::from_str("Op not implemented"))),
        PCode::Loop(cond, _body) => match try_eval(*cond) {
            Some(Ok(v)) => match v.p_code {
                PCode::Bool(true) => None,
                _ => Some(Ok(Element { p_code: PCode::Nothing(), token })),
            },
            _ => None,
        },
        PCode::Function(_name, _params, _body) => Some(Err(String::from_str("Function not implemented"))),
        PCode::Call(_name, _params) => Some(Err(String::from_str("Call not implemented"))),
        other => Some(Ok(Element { p_code: other, token })),
    }
}

} // verus!
