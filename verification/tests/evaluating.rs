use rustin::compiler::eval as expand;
use rustin::lex::Token;
use rustin::p_code::{eval, try_eval, Element, PCode};
use rustin::parser::Parsed;
use rustin::parser::push;
use rustin::trying::{is_matching, matched_words};

fn tok(start: usize) -> Token {
    Token::new("Identifier".to_string(), "t".to_string(), start, start + 1, 1, start + 1)
}

fn el(p: PCode, start: usize) -> Box<Element> {
    Box::new(Element::new(p, tok(start)))
}

fn ident(e: &Element) -> Option<String> {
    match e.p_code() {
        PCode::Identifier(s) => Some(s.clone()),
        _ => None,
    }
}

fn leaf(s: &str) -> Parsed {
    Parsed { at: 0, count: 1, p__: Vec::new(), val: s.to_string() }
}

#[test]
fn eval_if_true_takes_the_then_branch() {
    let e = Element::new(
        PCode::If(
            el(PCode::Bool(true), 3),
            el(PCode::Identifier("yes".to_string()), 5),
            el(PCode::Identifier("no".to_string()), 9),
        ),
        tok(0),
    );
    let r = eval(e).unwrap();
    assert_eq!(ident(&r), Some("yes".to_string()));
    assert_eq!(r.token().start(), 5);
}

#[test]
fn eval_if_false_takes_the_else_branch() {
    let e = Element::new(
        PCode::If(
            el(PCode::Bool(false), 3),
            el(PCode::Identifier("yes".to_string()), 5),
            el(PCode::Identifier("no".to_string()), 9),
        ),
        tok(0),
    );
    let r = eval(e).unwrap();
    assert_eq!(ident(&r), Some("no".to_string()));
    assert_eq!(r.token().start(), 9);
}

#[test]
fn eval_if_on_a_non_boolean_is_an_error() {
    let e = Element::new(
        PCode::If(
            el(PCode::Number("1".to_string()), 17),
            el(PCode::Nothing(), 20),
            el(PCode::Nothing(), 30),
        ),
        tok(0),
    );
    assert_eq!(eval(e).err(), Some("not a boolean condition at 17".to_string()));
}

#[test]
fn eval_nested_if_evaluates_the_condition() {
    let cond = el(
        PCode::If(el(PCode::Bool(true), 1), el(PCode::Bool(false), 2), el(PCode::Bool(true), 3)),
        0,
    );
    let e = Element::new(
        PCode::If(cond, el(PCode::Identifier("a".to_string()), 4), el(PCode::Identifier("b".to_string()), 5)),
        tok(0),
    );
    assert_eq!(ident(&eval(e).unwrap()), Some("b".to_string()));
}

#[test]
fn eval_unimplemented_operations_are_errors() {
    let unary = Element::new(PCode::Unary("-".to_string(), el(PCode::Nothing(), 1)), tok(0));
    assert_eq!(eval(unary).err(), Some("Unary not implemented".to_string()));
    let op = Element::new(PCode::Op("+".to_string(), el(PCode::Nothing(), 1), el(PCode::Nothing(), 2)), tok(0));
    assert_eq!(eval(op).err(), Some("Op not implemented".to_string()));
    let function = Element::new(PCode::Function("f".to_string(), Vec::new(), el(PCode::Nothing(), 1)), tok(0));
    assert_eq!(eval(function).err(), Some("Function not implemented".to_string()));
    let call = Element::new(PCode::Call("f".to_string(), vec![el(PCode::Nothing(), 1)]), tok(0));
    assert_eq!(eval(call).err(), Some("Call not implemented".to_string()));
}

#[test]
fn eval_loop_with_false_condition_gives_nothing() {
    let e = Element::new(PCode::Loop(el(PCode::Bool(false), 2), el(PCode::Identifier("x".to_string()), 4)), tok(11));
    let r = eval(e).unwrap();
    assert!(matches!(r.p_code(), PCode::Nothing()));
    assert_eq!(r.token().start(), 11);
}

#[test]
fn eval_plain_values_evaluate_to_themselves() {
    let r = eval(Element::new(PCode::CharString("s".to_string()), tok(6))).unwrap();
    assert!(matches!(r.p_code(), PCode::CharString(s) if s == "s"));
    assert_eq!(r.token().start(), 6);
    let r = eval(Element::new(PCode::Error("bad".to_string()), tok(1))).unwrap();
    assert!(matches!(r.p_code(), PCode::Error(s) if s == "bad"));
    let r = eval(Element::new(PCode::Bool(true), tok(1))).unwrap();
    assert!(matches!(r.p_code(), PCode::Bool(true)));
}

#[test]
fn element_keeps_its_parts() {
    let e = Element::new(PCode::Number("12".to_string()), tok(4));
    assert!(matches!(e.p_code(), PCode::Number(s) if s == "12"));
    assert_eq!((e.token().start(), e.token().end(), e.token().line(), e.token().column()), (4, 5, 1, 5));
    assert_eq!((e.token().token().as_str(), e.token().string().as_str()), ("Identifier", "t"));
}

#[test]
fn expand_replaces_each_placeholder() {
    let mut val = "$(1) = $(0); $(1)".to_string();
    expand(&mut val, vec![leaf("x"), leaf("y")]);
    assert_eq!(val, "y = x; y");
}

#[test]
fn expand_goes_in_the_order_of_the_elements() {
    // The text put in for `$(0)` holds `$(1)`, which the next step replaces.
    let mut val = "$(0)$(1)".to_string();
    expand(&mut val, vec![leaf("$(1)"), leaf("z")]);
    assert_eq!(val, "zz");
}

#[test]
fn expand_nested_nodes() {
    let inner = Parsed { at: 0, count: 3, p__: vec![leaf("a"), leaf("+"), leaf("b")], val: "add($(0), $(2))".to_string() };
    let mut val = "r = $(0);".to_string();
    expand(&mut val, vec![inner]);
    assert_eq!(val, "r = add(a, b);");
}

#[test]
fn expand_without_elements_changes_nothing() {
    let mut val = "keep $(0)".to_string();
    expand(&mut val, Vec::new());
    assert_eq!(val, "keep $(0)");
}

#[test]
fn expand_two_digit_placeholders() {
    let mut kids: Vec<Parsed> = Vec::new();
    for i in 0..11 {
        kids.push(leaf(&format!("k{}", i)));
    }
    let mut val = "$(10)|$(1)".to_string();
    expand(&mut val, kids);
    assert_eq!(val, "k10|k1");
}

#[test]
fn is_matching_reports_no_match() {
    assert!(!is_matching("abc".to_string(), "a".to_string()));
    assert!(!is_matching(String::new(), String::new()));
}

#[test]
fn push_appends_at_the_end() {
    let mut v: Vec<usize> = vec![1, 2];
    push(&mut v, 7);
    assert_eq!(v, vec![1, 2, 7]);
}

#[test]
fn matched_words_in_order() {
    let words = matched_words("[a-z]+", "zztop goes to holywood").unwrap();
    assert_eq!(words, vec!["zztop", "goes", "to", "holywood"]);
}

#[test]
fn matched_words_keep_multibyte_text() {
    let words = matched_words("é+", "aéé bé").unwrap();
    assert_eq!(words, vec!["éé", "é"]);
}

#[test]
fn matched_words_refuse_a_bad_pattern() {
    assert!(matched_words("(", "abc").is_none());
}

#[test]
fn element_clone_is_a_deep_copy() {
    let e = Element::new(
        PCode::Function(
            "f".to_string(),
            vec![el(PCode::Identifier("x".to_string()), 2)],
            el(PCode::If(el(PCode::Bool(false), 3), el(PCode::Nothing(), 4), el(PCode::Number("5".to_string()), 5)), 6),
        ),
        tok(1),
    );
    let c = e.clone();
    drop(e);
    assert_eq!(c.token().start(), 1);
    match c.p_code() {
        PCode::Function(name, params, body) => {
            assert_eq!(name, "f");
            assert_eq!(params.len(), 1);
            assert_eq!(ident(&params[0]), Some("x".to_string()));
            assert_eq!(params[0].token().start(), 2);
            let r = eval((**body).clone()).unwrap();
            assert!(matches!(r.p_code(), PCode::Number(s) if s == "5"));
        }
        _ => panic!("not a function"),
    }
}

#[test]
fn parsed_clone_is_a_deep_copy() {
    let inner = Parsed { at: 1, count: 2, p__: vec![leaf("a"), leaf("b")], val: "$(1)$(0)".to_string() };
    let root = Parsed { at: 0, count: 3, p__: vec![inner], val: "[$(0)]".to_string() };
    let copy = root.clone();
    assert_eq!((copy.at, copy.count, copy.p__[0].at, copy.p__[0].count), (0, 3, 1, 2));
    assert_eq!(rustin::compiler::compile_text(copy), "[ba]");
    assert_eq!(root.deep_clone().val, "[$(0)]");
}

#[test]
fn try_eval_refuses_a_loop_that_never_ends() {
    let e = Element::new(PCode::Loop(el(PCode::Bool(true), 2), el(PCode::Nothing(), 4)), tok(0));
    assert!(try_eval(e).is_none());
}

#[test]
fn try_eval_refuses_a_condition_that_fails() {
    let cond = el(PCode::Unary("!".to_string(), el(PCode::Bool(true), 1)), 0);
    let e = Element::new(PCode::If(cond, el(PCode::Nothing(), 2), el(PCode::Nothing(), 3)), tok(0));
    assert!(try_eval(e).is_none());
}

#[test]
fn try_eval_agrees_with_eval() {
    let e = Element::new(
        PCode::If(el(PCode::Bool(true), 1), el(PCode::Identifier("y".to_string()), 2), el(PCode::Nothing(), 3)),
        tok(0),
    );
    let r = try_eval(e.clone()).unwrap().unwrap();
    assert_eq!(ident(&r), ident(&eval(e).unwrap()));
    let bad = Element::new(PCode::Op("+".to_string(), el(PCode::Nothing(), 1), el(PCode::Nothing(), 2)), tok(0));
    assert_eq!(try_eval(bad).unwrap().err(), Some("Op not implemented".to_string()));
}

#[test]
fn eval_result_is_a_value_that_evaluates_to_itself() {
    let e = Element::new(
        PCode::If(el(PCode::Bool(false), 1), el(PCode::Nothing(), 2), el(PCode::Number("9".to_string()), 3)),
        tok(0),
    );
    let v = eval(e).unwrap();
    assert!(matches!(v.p_code(), PCode::Number(s) if s == "9"));
    let again = eval(v.clone()).unwrap();
    assert!(matches!(again.p_code(), PCode::Number(s) if s == "9"));
    assert_eq!(again.token().start(), v.token().start());
}
