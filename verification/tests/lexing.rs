use rustin::lex::{leftover_report, lex, sort_tokens, tokens_of_matches, try_lex, Lexicon, Token};
use rustin::line_col;

fn doc_lexicon() -> Lexicon {
    // Given out of order: the table keeps them in the order of their names.
    let mut l = Lexicon::new();
    l.insert("Identifier".to_string(), "([A-Za-z_][0-9A-Za-z_]*)".to_string());
    l.insert(";".to_string(), ";".to_string());
    l.insert(
        "@Number".to_string(),
        "\\b((?:0x[0-9a-f]+)|(?:\\d*[.]?\\d+(?:(?:[E|e][\\+\\-]?)\\d*[.]?\\d+)?))\\b".to_string(),
    );
    l.insert("@else".to_string(), "\\belse\\b".to_string());
    l.insert("@equals".to_string(), "=".to_string());
    l.insert("@if".to_string(), "\\bif\\b".to_string());
    l.insert("@then".to_string(), "\\bthen\\b".to_string());
    l
}

fn summary(ts: &Vec<Token>) -> Vec<(String, String, usize, usize)> {
    ts.iter().map(|t| (t.token().clone(), t.string().clone(), t.start(), t.end())).collect()
}

#[test]
fn line_col_counts_lines_and_columns() {
    assert_eq!(line_col("ab\ncd".to_string(), 0), (1, 1));
    assert_eq!(line_col("ab\ncd".to_string(), 2), (1, 3));
    assert_eq!(line_col("ab\ncd".to_string(), 3), (2, 1));
    assert_eq!(line_col("ab\ncd".to_string(), 5), (2, 3));
}

#[test]
fn line_col_counts_characters_not_bytes() {
    // "é" takes two bytes and is one column.
    assert_eq!(line_col("éa\nb".to_string(), 3), (1, 3));
    assert_eq!(line_col("éa\nb".to_string(), 4), (2, 1));
}

#[test]
fn lex_documented_example() {
    let text = "if zz and e45 then top = 54.6e+6\nelse if 14;".to_string();
    let tokens = lex(doc_lexicon(), text).unwrap();
    let expected: Vec<(String, String, usize, usize)> = vec![
        ("@if", "if", 0, 2),
        ("Identifier", "zz", 3, 5),
        ("Identifier", "and", 6, 9),
        ("Identifier", "e45", 10, 13),
        ("@then", "then", 14, 18),
        ("Identifier", "top", 19, 22),
        ("@equals", "=", 23, 24),
        ("@Number", "54.6e+6", 25, 32),
        ("@else", "else", 33, 37),
        ("@if", "if", 38, 40),
        ("@Number", "14", 41, 43),
        (";", ";", 43, 44),
    ]
    .into_iter()
    .map(|(k, s, a, b)| (k.to_string(), s.to_string(), a, b))
    .collect();
    assert_eq!(summary(&tokens), expected);
}

#[test]
fn lex_tokens_carry_line_and_column() {
    let text = "if zz and e45 then top = 54.6e+6\nelse if 14;".to_string();
    let tokens = lex(doc_lexicon(), text).unwrap();
    assert_eq!((tokens[0].line(), tokens[0].column()), (1, 1));
    assert_eq!((tokens[7].line(), tokens[7].column()), (1, 26));
    assert_eq!((tokens[8].line(), tokens[8].column()), (2, 1));
    assert_eq!((tokens[11].line(), tokens[11].column()), (2, 11));
}

#[test]
fn lex_tokens_sorted_by_start() {
    let text = "a = 1;\nb = a;".to_string();
    let tokens = lex(doc_lexicon(), text).unwrap();
    for w in tokens.windows(2) {
        assert!(w[0].start() <= w[1].start());
    }
    assert_eq!(tokens.len(), 8);
}

#[test]
fn lex_reports_what_no_kind_matches() {
    let text = "a $ b\n  ##".to_string();
    let r = lex(doc_lexicon(), text);
    assert_eq!(
        r.unwrap_err(),
        "lex invalid \"$\" at line:1 col:3 index:2\nlex invalid \"##\" at line:2 col:3 index:8\n".to_string()
    );
}

#[test]
fn lex_empty_text_gives_no_tokens() {
    let tokens = lex(doc_lexicon(), String::new()).unwrap();
    assert!(tokens.is_empty());
}

#[test]
fn lex_earlier_kinds_take_precedence() {
    // "if" is taken by `@if` before `Identifier` sees the text.
    let tokens = lex(doc_lexicon(), "if iffy".to_string()).unwrap();
    assert_eq!(
        summary(&tokens),
        vec![
            ("@if".to_string(), "if".to_string(), 0, 2),
            ("Identifier".to_string(), "iffy".to_string(), 3, 7),
        ]
    );
}

#[test]
fn lex_token_text_comes_from_what_is_left() {
    // `x` is blanked out before `a.*` runs, so its match holds the spaces.
    let mut lexicon = Lexicon::new();
    lexicon.insert("k2".to_string(), "a.*b".to_string());
    lexicon.insert("k1".to_string(), "x".to_string());
    let tokens = lex(lexicon, "axb".to_string()).unwrap();
    assert_eq!(
        summary(&tokens),
        vec![("k2".to_string(), "a b".to_string(), 0, 3), ("k1".to_string(), "x".to_string(), 1, 2)]
    );
}

#[test]
fn try_lex_refuses_an_expression_that_does_not_compile() {
    let mut lexicon = Lexicon::new();
    lexicon.insert("bad".to_string(), "(".to_string());
    assert!(try_lex(lexicon, "abc".to_string()).is_none());
}

#[test]
fn try_lex_agrees_with_lex() {
    let text = "if a then b".to_string();
    let a = try_lex(doc_lexicon(), text.clone()).unwrap().unwrap();
    let b = lex(doc_lexicon(), text).unwrap();
    assert_eq!(summary(&a), summary(&b));
}

#[test]
fn lexicon_keeps_kinds_in_name_order_once_each() {
    let mut l = Lexicon::new();
    l.insert("b".to_string(), "1".to_string());
    l.insert("a".to_string(), "2".to_string());
    l.insert("c".to_string(), "3".to_string());
    l.insert("a".to_string(), "4".to_string());
    l.insert("B".to_string(), "5".to_string());
    let kinds: Vec<(String, String)> = l.entries().clone();
    assert_eq!(
        kinds,
        vec![
            ("B".to_string(), "5".to_string()),
            ("a".to_string(), "4".to_string()),
            ("b".to_string(), "1".to_string()),
            ("c".to_string(), "3".to_string()),
        ]
    );
}

#[test]
fn lexicon_replaced_expression_is_used() {
    let mut l = Lexicon::new();
    l.insert("num".to_string(), "[a-z]+".to_string());
    l.insert("num".to_string(), "[0-9]+".to_string());
    let tokens = lex(l, "12 34".to_string()).unwrap();
    assert_eq!(tokens.len(), 2);
    assert_eq!(tokens[1].string().as_str(), "34");
}

#[test]
fn line_col_moves_forward_with_the_offset() {
    let text = "ab\né\n\nc".to_string();
    let mut last = (0, 0);
    for i in 0..=text.len() {
        if text.is_char_boundary(i) {
            let lc = line_col(text.clone(), i);
            assert!(lc > last);
            last = lc;
        }
    }
    assert_eq!(line_col(text.clone(), 0), (1, 1));
}

#[test]
fn line_col_depends_only_on_what_comes_before() {
    let text = "x\nyz".to_string();
    let cut = text[0..3].to_string() + "\n\n\nanything";
    assert_eq!(line_col(text.clone(), 3), line_col(cut, 3));
    assert_eq!(line_col("".to_string(), 0), (1, 1));
}

#[test]
fn tokens_of_matches_builds_tokens_and_blanks() {
    let text = "ab\ncd ab".to_string();
    let (ts, blanked) =
        tokens_of_matches(&"kw".to_string(), &text.clone(), &vec![(0, 2), (6, 8)], &text).unwrap();
    assert_eq!(summary(&ts), vec![("kw".to_string(), "ab".to_string(), 0, 2), ("kw".to_string(), "ab".to_string(), 6, 8)]);
    assert_eq!((ts[1].line(), ts[1].column()), (2, 4));
    assert_eq!(blanked, "  \ncd   ");
}

#[test]
fn tokens_of_matches_refuses_a_start_inside_a_character() {
    let text = "éa".to_string();
    let scratch = "  a".to_string();
    assert!(tokens_of_matches(&"k".to_string(), &scratch, &vec![(1, 2)], &text).is_none());
}

#[test]
fn leftover_report_lists_each_piece() {
    let text = "a $ b\n  ##".to_string();
    let scratch = "  $  \n  ##".to_string();
    let r = leftover_report(&text, &scratch, &vec![(2, 3), (8, 10)]).unwrap();
    assert_eq!(r, "lex invalid \"$\" at line:1 col:3 index:2\nlex invalid \"##\" at line:2 col:3 index:8\n");
    assert_eq!(leftover_report(&text, &scratch, &Vec::new()).unwrap(), "");
}

#[test]
fn sort_tokens_is_stable_by_start() {
    let t = |k: &str, s: usize| Token::new(k.to_string(), k.to_string(), s, s + 1, 1, s + 1);
    let sorted = sort_tokens(vec![t("c", 5), t("a", 1), t("b", 5), t("d", 0)]);
    let kinds: Vec<String> = sorted.iter().map(|x| x.token().clone()).collect();
    assert_eq!(kinds, vec!["d", "a", "c", "b"]);
}
