use rustin::compiler::compile_text;
use rustin::lex::{lex, Lexicon, Token};
use rustin::parser::{Grammar, Parsed, Parser};

fn lexicon() -> Lexicon {
    let mut l = Lexicon::new();
    l.insert("+".to_string(), "\\+".to_string());
    l.insert(";".to_string(), ";".to_string());
    l.insert("@Number".to_string(), "\\b\\d+\\b".to_string());
    l.insert("@equals".to_string(), "=".to_string());
    l.insert("Identifier".to_string(), "([A-Za-z_][0-9A-Za-z_]*)".to_string());
    l
}

fn tokens(text: &str) -> Vec<Token> {
    lex(lexicon(), text.to_string()).unwrap()
}

fn grammar(entries: &[(&str, &str, &str)]) -> Grammar {
    let mut g = Grammar::new();
    for (name, rule, val) in entries {
        g.insert(name.to_string(), rule.to_string(), val.to_string());
    }
    g
}

#[test]
fn parse_and_generate_an_assignment() {
    let g = grammar(&[
        ("top", "&assign", "$(0)\n"),
        ("assign", "Identifier @equals Identifier", "let $(0) = $(2)"),
    ]);
    let mut p = Parser::new(g, tokens("a = b"));
    let root = p.parse("".to_string(), "top".to_string(), 0).unwrap();
    assert_eq!(root.val, "$(0)\n");
    assert_eq!(root.p__.len(), 1);
    assert_eq!((root.p__[0].at, root.p__[0].count), (0, 3));
    assert_eq!(compile_text(root), "let a = b\n");
    assert!(p.messages().is_empty());
}

#[test]
fn parse_leaves_hold_the_token_text() {
    let g = grammar(&[("assign", "Identifier @equals @Number", "$(0) <- $(2)")]);
    let mut p = Parser::new(g, tokens("x = 42"));
    let node = p.parse("".to_string(), "assign".to_string(), 0).unwrap();
    let leaves: Vec<(usize, usize, String)> = node.p__.iter().map(|k| (k.at, k.count, k.val.clone())).collect();
    assert_eq!(
        leaves,
        vec![(0, 1, "x".to_string()), (1, 1, "=".to_string()), (2, 1, "42".to_string())]
    );
    assert_eq!(compile_text(node), "x <- 42");
}

#[test]
fn parse_tries_longer_alternatives_first() {
    let g = grammar(&[
        ("e", "Identifier", "one($(0))"),
        ("e", "Identifier + Identifier", "two($(0),$(2))"),
    ]);
    let mut p = Parser::new(g, tokens("a + b"));
    let node = p.parse("".to_string(), "e".to_string(), 0).unwrap();
    assert_eq!(compile_text(node), "two(a,b)");
}

#[test]
fn parse_left_recursion_takes_one_step() {
    let g = grammar(&[("e", "&e + Identifier", "($(0)+$(2))"), ("e", "Identifier", "$(0)")]);
    let mut p = Parser::new(g, tokens("a + b + c"));
    let node = p.parse("".to_string(), "e".to_string(), 0).unwrap();
    assert_eq!((node.at, node.count), (0, 3));
    assert_eq!(compile_text(node), "(a+b)");
}

#[test]
fn parse_unknown_rule_gives_none() {
    let g = grammar(&[("top", "Identifier", "$(0)")]);
    let mut p = Parser::new(g, tokens("a"));
    assert!(p.parse("".to_string(), "nothing".to_string(), 0).is_none());
    assert!(p.messages().is_empty());
}

#[test]
fn parse_mismatch_gives_none_without_message() {
    let g = grammar(&[("top", "Identifier ;", "$(0);")]);
    let mut p = Parser::new(g, tokens("a b"));
    assert!(p.parse("".to_string(), "top".to_string(), 0).is_none());
    assert!(p.messages().is_empty());
}

#[test]
fn parse_expected_element_writes_a_message() {
    let g = grammar(&[("top", "Identifier !Expect:;", "$(0);")]);
    let mut p = Parser::new(g, tokens("a b"));
    assert!(p.parse("".to_string(), "top".to_string(), 0).is_none());
    assert_eq!(p.messages().clone(), vec!["!!!! top:: Syntax error at line 1 col 3 ; expected".to_string()]);
}

#[test]
fn parse_expected_element_that_matches_is_kept() {
    let g = grammar(&[("top", "Identifier !Expect:;", "$(0);")]);
    let mut p = Parser::new(g, tokens("a;"));
    let node = p.parse("".to_string(), "top".to_string(), 0).unwrap();
    assert_eq!(compile_text(node), "a;");
    assert!(p.messages().is_empty());
}

#[test]
fn parse_terminal_rule_reports_the_unexpected_token() {
    let g = grammar(&[("!Terminal:num", "@Number", "$(0)")]);
    let mut p = Parser::new(g, tokens("x"));
    assert!(p.parse("".to_string(), "num".to_string(), 0).is_none());
    assert_eq!(
        p.messages().clone(),
        vec!["1::!!!! num:: Syntax error at line 1 col 1 unexpexted \"x\"".to_string()]
    );
}

#[test]
fn parse_terminal_rule_matches() {
    let g = grammar(&[("!Terminal:num", "@Number", "n$(0)")]);
    let mut p = Parser::new(g, tokens("7"));
    let node = p.parse("".to_string(), "num".to_string(), 0).unwrap();
    assert_eq!(compile_text(node), "n7");
}

#[test]
fn parse_sub_rule_failure_with_expect_writes_a_message() {
    let g = grammar(&[
        ("top", "Identifier !Expect:&num", "$(0) $(1)"),
        ("num", "@Number", "$(0)"),
    ]);
    let mut p = Parser::new(g, tokens("a b"));
    assert!(p.parse("".to_string(), "top".to_string(), 0).is_none());
    assert_eq!(p.messages().clone(), vec!["!!!! top:: Syntax error at line 1 col 3 &num expected".to_string()]);
}

#[test]
fn parse_twice_gives_the_same_node() {
    let g = grammar(&[("assign", "Identifier @equals Identifier", "$(0):=$(2)")]);
    let mut p = Parser::new(g, tokens("a = b"));
    let first = p.parse("".to_string(), "assign".to_string(), 0).unwrap();
    let second = p.parse("ignored".to_string(), "assign".to_string(), 0).unwrap();
    assert_eq!(compile_text(first), compile_text(second));
}

#[test]
fn parse_at_a_later_position() {
    let g = grammar(&[("assign", "Identifier @equals Identifier", "$(0):=$(2)")]);
    let mut p = Parser::new(g, tokens("x ; a = b"));
    let node = p.parse("".to_string(), "assign".to_string(), 2).unwrap();
    assert_eq!((node.at, node.count), (2, 3));
    assert_eq!(compile_text(node), "a:=b");
}

#[test]
fn parse_alternative_longer_than_the_tokens_is_skipped() {
    let g = grammar(&[("top", "Identifier @equals Identifier", "long"), ("top", "Identifier", "short")]);
    let mut p = Parser::new(g, tokens("a"));
    let node = p.parse("".to_string(), "top".to_string(), 0).unwrap();
    assert_eq!(node.val, "short");
}

#[test]
fn grammar_insert_replaces_the_text_of_an_alternative() {
    let g = grammar(&[("top", "Identifier", "first"), ("top", "Identifier", "second")]);
    let mut p = Parser::new(g, tokens("a"));
    let node = p.parse("".to_string(), "top".to_string(), 0).unwrap();
    assert_eq!(node.val, "second");
}

#[test]
fn try_parse_agrees_with_parse() {
    let g = grammar(&[("assign", "Identifier @equals Identifier", "$(0):=$(2)")]);
    let mut p = Parser::new(g, tokens("a = b"));
    let node = p.try_parse("".to_string(), "assign".to_string(), 0).unwrap().unwrap();
    assert_eq!(compile_text(node), "a:=b");
}

#[test]
fn try_parse_refuses_a_word_that_cannot_be_cut() {
    // The first byte of "é" is not a whole character.
    let g = grammar(&[("top", "é", "x")]);
    let mut p = Parser::new(g, tokens("a"));
    assert!(p.try_parse("".to_string(), "top".to_string(), 0).is_none());
}

#[test]
fn try_parse_refuses_a_terminal_rule_past_the_tokens() {
    let g = grammar(&[("!Terminal:num", "@Number", "$(0)")]);
    let mut p = Parser::new(g, tokens("x"));
    assert!(p.try_parse("".to_string(), "num".to_string(), 1).is_none());
}

#[test]
fn try_parse_on_no_tokens_gives_no_node() {
    let g = grammar(&[("top", "Identifier", "$(0)")]);
    let mut p = Parser::new(g, Vec::new());
    assert_eq!(p.try_parse("".to_string(), "top".to_string(), 0).map(|o| o.is_none()), Some(true));
}

#[test]
fn parsed_tree_built_by_hand_generates() {
    let leaf = |s: &str| Parsed { at: 0, count: 1, p__: Vec::new(), val: s.to_string() };
    let root = Parsed { at: 0, count: 2, p__: vec![leaf("x"), leaf("y")], val: "f($(0), $(1))".to_string() };
    assert_eq!(compile_text(root), "f(x, y)");
}

#[test]
fn parse_traces_a_terminal_rule() {
    let g = grammar(&[("!Terminal:num", "@Number", "$(0)")]);
    let mut p = Parser::new(g, tokens("x"));
    assert!(p.parse("".to_string(), "num".to_string(), 0).is_none());
    assert_eq!(p.trace().clone(), vec!["1::!!!! num is terminal".to_string()]);
}

#[test]
fn parse_traces_each_match_with_its_depth() {
    let g = grammar(&[
        ("top", "&assign", "$(0)\n"),
        ("assign", "Identifier @equals Identifier", "let $(0) = $(2)"),
    ]);
    let mut p = Parser::new(g, tokens("a = b"));
    assert!(p.parse("".to_string(), "top".to_string(), 0).is_some());
    assert_eq!(
        p.trace().clone(),
        vec![
            "2::@@@@ Matched Identifier @equals Identifier 2 & at 2 ==> let $(0) = $(2)".to_string(),
            "1::@@@@ Matched &assign 0 & at 2 ==> $(0)\n".to_string(),
        ]
    );
}

#[test]
fn parse_traces_an_expected_element() {
    let g = grammar(&[("top", "Identifier !Expect:;", "$(0);")]);
    let mut p = Parser::new(g, tokens("a b"));
    assert!(p.parse("".to_string(), "top".to_string(), 0).is_none());
    assert_eq!(
        p.trace().clone(),
        vec!["1::!!!! Identifier !Expect:;:: mandatory::true element::<;>".to_string()]
    );
}

fn leaf_positions(p: &Parsed, out: &mut Vec<(usize, String)>) {
    if p.p__.is_empty() {
        out.push((p.at, p.val.clone()));
    } else {
        for k in &p.p__ {
            leaf_positions(k, out);
        }
    }
}

#[test]
fn parse_leaves_are_the_consecutive_tokens() {
    let g = grammar(&[
        ("top", "&assign ;", "$(0);"),
        ("assign", "Identifier @equals &e", "$(0)=$(2)"),
        ("e", "Identifier + Identifier", "$(0)+$(2)"),
    ]);
    let mut p = Parser::new(g, tokens("x ; a = b + c ;"));
    let node = p.parse("".to_string(), "top".to_string(), 2).unwrap();
    let mut leaves = Vec::new();
    leaf_positions(&node, &mut leaves);
    let expected: Vec<(usize, String)> =
        vec![(2, "a"), (3, "="), (4, "b"), (5, "+"), (6, "c"), (7, ";")].into_iter().map(|(a, s)| (a, s.to_string())).collect();
    assert_eq!(leaves, expected);
    assert_eq!(node.at + node.count - 1, 7);
    assert_eq!(node.count, node.p__.len());
    assert_eq!(compile_text(node), "a=b+c;");
}

#[test]
fn parse_with_every_alternative_too_long_gives_none_and_changes_nothing() {
    let g = grammar(&[("top", "Identifier @equals Identifier", "x"), ("top", "Identifier Identifier", "y")]);
    let mut p = Parser::new(g, tokens("a = b"));
    assert!(p.parse("".to_string(), "top".to_string(), 2).is_none());
    assert!(p.parse("".to_string(), "top".to_string(), 3).is_none());
    assert!(p.messages().is_empty());
    assert!(p.trace().is_empty());
}

#[test]
fn parse_fresh_first_alternative_of_tokens() {
    let g = grammar(&[("top", "Identifier", "short"), ("top", "Identifier @equals @Number", "long $(2)")]);
    let mut p = Parser::new(g, tokens("v = 3"));
    let node = p.parse("".to_string(), "top".to_string(), 0).unwrap();
    assert_eq!((node.at, node.count, node.val.as_str()), (0, 3, "long $(2)"));
    let leaves: Vec<(usize, String)> = node.p__.iter().map(|k| (k.at, k.val.clone())).collect();
    assert_eq!(leaves, vec![(0, "v".to_string()), (1, "=".to_string()), (2, "3".to_string())]);
    assert_eq!(p.trace().clone(), vec!["1::@@@@ Matched Identifier @equals @Number 2 & at 2 ==> long $(2)".to_string()]);
}
