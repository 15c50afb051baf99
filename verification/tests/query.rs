use probe::ast::Expr;
use probe::lexer::{tokenize, TokenKind};
use probe::parser::{parse, Syntax};
use probe::parser::ParseError;
use probe::plan::{create_query_plan, create_structured_patterns};

fn keys(query: &str, exact: bool) -> Vec<String> {
    let plan = create_query_plan(query, exact).unwrap();
    plan.terms.iter().map(|t| t.stem.clone()).collect()
}

#[test]
fn words_are_folded_stemmed_and_indexed_in_order() {
    assert_eq!(keys("Connections caching", false), vec!["connect", "cach"]);
}

#[test]
fn stop_words_are_dropped() {
    assert_eq!(keys("the cache for miss", false), vec!["cach", "miss"]);
}

#[test]
fn exact_mode_keeps_words_verbatim() {
    assert_eq!(keys("The Connections", true), vec!["The", "Connections"]);
}

#[test]
fn repeated_terms_share_an_index() {
    let plan = create_query_plan("cache OR (caching AND miss)", false).unwrap();
    assert_eq!(plan.terms.len(), 2);
    match plan.ast {
        Expr::Or(l, r) => {
            assert!(matches!(*l, Expr::Term { index: 0, excluded: false }));
            match *r {
                Expr::And(a, b) => {
                    assert!(matches!(*a, Expr::Term { index: 0, excluded: false }));
                    assert!(matches!(*b, Expr::Term { index: 1, excluded: false }));
                }
                _ => panic!("expected a conjunction"),
            }
        }
        _ => panic!("expected a disjunction"),
    }
}

#[test]
fn implicit_and_binds_tighter_than_or() {
    let plan = create_query_plan("foo bar | baz", false).unwrap();
    match plan.ast {
        Expr::Or(l, r) => {
            assert!(matches!(*l, Expr::And(_, _)));
            assert!(matches!(*r, Expr::Term { index: 2, excluded: false }));
        }
        _ => panic!("expected a disjunction"),
    }
}

#[test]
fn negation_marks_terms_excluded() {
    let plan = create_query_plan("foo -bar NOT (baz qux)", false).unwrap();
    let excluded: Vec<bool> = plan.terms.iter().map(|t| t.excluded).collect();
    let required: Vec<bool> = plan.terms.iter().map(|t| t.required).collect();
    assert_eq!(excluded, vec![false, true, true, true]);
    assert_eq!(required, vec![true, false, false, false]);
}

#[test]
fn quoted_text_is_one_term() {
    let plan = create_query_plan("\"Hello  World\" plain", false).unwrap();
    assert_eq!(plan.terms[0].stem, "hello  world");
    assert_eq!(plan.terms[0].text, "Hello  World");
    assert_eq!(plan.terms[1].stem, "plain");
}

#[test]
fn parse_errors_are_told_apart() {
    assert_eq!(create_query_plan("", false).err(), Some(ParseError::EmptyExpression));
    assert_eq!(create_query_plan("the", false).err(), Some(ParseError::EmptyExpression));
    assert_eq!(create_query_plan("()", false).err(), Some(ParseError::EmptyExpression));
    assert_eq!(create_query_plan("(foo", false).err(), Some(ParseError::UnbalancedParentheses));
    assert_eq!(create_query_plan("foo)", false).err(), Some(ParseError::UnbalancedParentheses));
    assert_eq!(create_query_plan(") foo", false).err(), Some(ParseError::UnbalancedParentheses));
    assert_eq!(create_query_plan("foo AND", false).err(), Some(ParseError::TrailingOperator));
    assert_eq!(create_query_plan("foo OR OR bar", false).err(), Some(ParseError::TrailingOperator));
    assert_eq!(create_query_plan("NOT", false).err(), Some(ParseError::TrailingOperator));
    assert_eq!(create_query_plan("AND foo", false).err(), Some(ParseError::MissingOperand));
}

#[test]
fn patterns_escape_keys_and_bound_exact_words() {
    let plan = create_query_plan("a.b", true).unwrap();
    let patterns = create_structured_patterns(&plan);
    assert_eq!(patterns, vec![("\\ba\\.b\\b".to_string(), vec![0])]);
    let plan = create_query_plan("Connections", false).unwrap();
    let patterns = create_structured_patterns(&plan);
    assert_eq!(patterns, vec![("connect".to_string(), vec![0])]);
}

#[test]
fn evaluation_honours_or_ignores_exclusions() {
    let plan = create_query_plan("foo OR -bar", false).unwrap();
    assert!(plan.ast.evaluate(&vec![0], true));
    assert!(!plan.ast.evaluate(&vec![0, 1], true));
    assert!(plan.ast.evaluate(&vec![0, 1], false));
    assert!(plan.ast.matches(&vec![]));
    assert!(plan.ast.matches_ignoring_exclusions(&vec![1]));
}

#[test]
fn terms_are_found_by_their_keys() {
    let plan = create_query_plan("caching connections cache", false).unwrap();
    assert_eq!(plan.terms.len(), 2);
    assert_eq!(plan.term_index("cach"), Some(0));
    assert_eq!(plan.term_index("connect"), Some(1));
    assert_eq!(plan.term_index("cache"), None);
    assert_eq!(plan.terms[0].text, "caching");
    assert_eq!(plan.terms[0].index, 0);
    assert!(plan.terms[0].required && plan.terms[1].required);
}

#[test]
fn an_added_exclusion_rejects_every_set_that_holds_the_term() {
    let plan = create_query_plan("(foo OR bar) AND NOT baz", false).unwrap();
    for matched in [vec![0, 2], vec![1, 2], vec![0, 1, 2], vec![2]] {
        assert!(!plan.ast.matches(&matched));
    }
    assert!(plan.ast.matches(&vec![0]));
    assert!(plan.ast.matches(&vec![1, 0]));
    assert!(!plan.ast.matches(&vec![]));
}

#[test]
fn matched_keywords_are_the_words_of_the_query() {
    let plan = create_query_plan("Caching \"Open Files\" connections", false).unwrap();
    assert_eq!(plan.matched_keywords(&vec![2, 0]), vec!["connections", "Caching"]);
    assert_eq!(plan.matched_keywords(&vec![1, 7]), vec!["Open Files"]);
    assert!(plan.matched_keywords(&vec![]).is_empty());
}

fn kinds(query: &str) -> Vec<(TokenKind, String)> {
    let chars: Vec<char> = query.chars().collect();
    tokenize(&chars)
        .iter()
        .map(|t| (t.kind, chars[t.start..t.end].iter().collect::<String>()))
        .collect()
}

#[test]
fn tokens_keep_their_kind_and_span() {
    let text = |k: TokenKind, t: &str| (k, t.to_string());
    assert_eq!(
        kinds("foo-bar -baz (a|b)&c"),
        vec![
            text(TokenKind::Word, "foo-bar"), text(TokenKind::Not, "-"), text(TokenKind::Word, "baz"), text(TokenKind::Open, "("),
            text(TokenKind::Word, "a"), text(TokenKind::Or, "|"), text(TokenKind::Word, "b"), text(TokenKind::Close, ")"), text(TokenKind::And, "&"),
            text(TokenKind::Word, "c"),
        ]
    );
    assert_eq!(
        kinds("AND and OR Or NOT not"),
        vec![
            text(TokenKind::And, "AND"), text(TokenKind::Word, "and"), text(TokenKind::Or, "OR"), text(TokenKind::Word, "Or"),
            text(TokenKind::Not, "NOT"), text(TokenKind::Word, "not"),
        ]
    );
    assert_eq!(
        kinds("x\"two words\"y \"open end"),
        vec![text(TokenKind::Word, "x"), text(TokenKind::Quoted, "two words"), text(TokenKind::Word, "y"), text(TokenKind::Quoted, "open end")]
    );
    assert_eq!(kinds("\"\""), vec![text(TokenKind::Quoted, "")]);
    assert_eq!(kinds("  \t\n "), vec![]);
}

fn shape(tree: &Syntax) -> String {
    match tree {
        Syntax::Atom { token, negated } => format!("{}{}", if *negated { "!" } else { "" }, token),
        Syntax::And(l, r) => format!("({} & {})", shape(l), shape(r)),
        Syntax::Or(l, r) => format!("({} | {})", shape(l), shape(r)),
    }
}

fn parsed(query: &str) -> String {
    let chars: Vec<char> = query.chars().collect();
    shape(&parse(&tokenize(&chars)).unwrap())
}

#[test]
fn operators_associate_to_the_left_and_negation_reaches_into_groups() {
    assert_eq!(parsed("a b c"), "((0 & 1) & 2)");
    assert_eq!(parsed("a OR b OR c"), "((0 | 2) | 4)");
    assert_eq!(parsed("a OR b c"), "(0 | (2 & 3))");
    assert_eq!(parsed("(a OR b) c"), "((1 | 3) & 5)");
    assert_eq!(parsed("a AND NOT b"), "(0 & !3)");
    assert_eq!(parsed("NOT (a OR (b c)) d"), "((!2 | (!5 & !6)) & 9)");
    assert_eq!(parsed("NOT NOT a"), "!2");
    assert_eq!(parsed("-a"), "!1");
}
