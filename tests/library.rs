use mini_regex::matcher::{escape, Match, Matcher};
use mini_regex::parser::{parse, ErrorKind, PatternError};
use mini_regex::scanner::{Scanner, TrailingEscape};
use mini_regex::syntax_tree::{ExpressionType, ParsedRegexp, Quantifier};
use mini_regex::tokens::{Token, TokenName};

fn found(pattern: &str, target: &str) -> Vec<Match> {
    Matcher::new(pattern, target).expect("pattern should compile").collect_matches()
}

fn tokens(source: &str) -> Vec<Token> {
    let mut scanner = Scanner::new(source);
    let mut out = Vec::new();
    while let Some(token) = scanner.next().expect("no trailing escape") {
        out.push(token);
    }
    out
}

fn char_token(value: char, escaped: bool, position: usize) -> Token {
    Token { name: TokenName::Character { value, is_escaped_metacharacter: escaped }, position }
}

#[test]
fn scanner_emits_one_empty_token_for_the_empty_source() {
    assert_eq!(tokens(""), vec![Token { name: TokenName::Empty, position: 0 }]);
}

#[test]
fn scanner_emits_empty_tokens_around_pipes_and_parens() {
    let names: Vec<TokenName> = tokens("|a||()").into_iter().map(|t| t.name).collect();
    assert_eq!(
        names,
        vec![
            TokenName::Empty,
            TokenName::Pipe,
            TokenName::Character { value: 'a', is_escaped_metacharacter: false },
            TokenName::Pipe,
            TokenName::Empty,
            TokenName::Pipe,
            TokenName::LeftParen,
            TokenName::Empty,
            TokenName::RightParen,
        ]
    );
}

#[test]
fn scanner_emits_empty_token_after_trailing_pipe() {
    let last = *tokens("a|").last().unwrap();
    assert_eq!(last, Token { name: TokenName::Empty, position: 2 });
}

#[test]
fn scanner_reads_escapes_as_one_character() {
    assert_eq!(tokens("\\*x"), vec![char_token('*', true, 0), char_token('x', false, 2)]);
    assert_eq!(tokens("\\\\"), vec![char_token('\\', true, 0)]);
    assert_eq!(tokens("\\a"), vec![char_token('\\', false, 0), char_token('a', false, 1)]);
}

#[test]
fn scanner_does_not_treat_an_escaped_pipe_as_an_operator() {
    let names: Vec<TokenName> = tokens("a\\|").into_iter().map(|t| t.name).collect();
    assert_eq!(
        names,
        vec![
            TokenName::Character { value: 'a', is_escaped_metacharacter: false },
            TokenName::Character { value: '|', is_escaped_metacharacter: true },
        ]
    );
}

#[test]
fn scanner_rejects_a_trailing_backslash() {
    let mut scanner = Scanner::new("ab\\");
    assert!(scanner.next().is_ok());
    assert!(scanner.next().is_ok());
    assert_eq!(scanner.next(), Err(TrailingEscape { position: 2 }));
}

#[test]
fn scanner_keeps_its_source() {
    assert_eq!(Scanner::new("a(b)").get_source_string(), "a(b)");
}

#[test]
fn parser_builds_alternation_of_concatenations() {
    let tree = parse("ab|c").unwrap();
    assert!(matches!(tree.expression_type, ExpressionType::Alternation));
    assert_eq!(tree.children.len(), 2);
    assert!(matches!(tree.children[0].expression_type, ExpressionType::Concatenation));
    assert!(matches!(
        tree.children[1].expression_type,
        ExpressionType::CharacterExpression { value: Some('c'), quantifier: Quantifier::Once }
    ));
}

#[test]
fn parser_elides_single_child_nodes() {
    let tree = parse("a+").unwrap();
    assert!(matches!(
        tree.expression_type,
        ExpressionType::CharacterExpression { value: Some('a'), quantifier: Quantifier::OneOrMore }
    ));
    assert!(tree.children.is_empty());
}

#[test]
fn parser_attaches_quantifiers_to_groups_and_dots() {
    let tree = parse("(a|b)*.?").unwrap();
    assert!(matches!(tree.expression_type, ExpressionType::Concatenation));
    assert!(matches!(
        tree.children[0].expression_type,
        ExpressionType::Group { quantifier: Quantifier::ZeroOrMore }
    ));
    assert!(matches!(tree.children[0].children[0].expression_type, ExpressionType::Alternation));
    assert!(matches!(
        tree.children[1].expression_type,
        ExpressionType::CharacterExpression { value: None, quantifier: Quantifier::ZeroOrOne }
    ));
}

#[test]
fn parser_reads_empty_pattern_as_empty_expression() {
    let tree = parse("").unwrap();
    assert!(matches!(tree.expression_type, ExpressionType::EmptyExpression));
}

#[test]
fn parser_rejects_unbalanced_right_paren() {
    assert_eq!(
        parse("a)").err(),
        Some(PatternError { kind: ErrorKind::UnbalancedRightParen, position: 1 })
    );
}

#[test]
fn parser_rejects_unclosed_group() {
    assert_eq!(
        parse("(ab").err(),
        Some(PatternError { kind: ErrorKind::ExpectedRightParen, position: 3 })
    );
}

#[test]
fn parser_rejects_group_with_nothing_inside() {
    assert_eq!(
        parse("(").err(),
        Some(PatternError { kind: ErrorKind::ExpectedExpressionAfterLeftParen, position: 1 })
    );
}

#[test]
fn parser_rejects_leading_quantifier() {
    assert_eq!(
        parse("*a").err(),
        Some(PatternError { kind: ErrorKind::ExpectedExpressionBefore { found: '*' }, position: 0 })
    );
    assert_eq!(
        parse("a|+").err(),
        Some(PatternError { kind: ErrorKind::ExpectedExpressionBefore { found: '+' }, position: 2 })
    );
}

#[test]
fn parser_rejects_stacked_quantifiers() {
    assert_eq!(
        parse("a**").err(),
        Some(PatternError { kind: ErrorKind::ExpectedExpressionBefore { found: '*' }, position: 2 })
    );
    assert_eq!(
        parse("a+?").err(),
        Some(PatternError { kind: ErrorKind::ExpectedExpressionBefore { found: '?' }, position: 2 })
    );
}

#[test]
fn parser_rejects_trailing_backslash() {
    assert_eq!(parse("ab\\").err(), Some(PatternError { kind: ErrorKind::UnaryEscape, position: 2 }));
}

#[test]
fn matcher_new_reports_syntax_errors() {
    assert!(Matcher::new("(a", "a").is_err());
}

#[test]
fn escape_prefixes_every_metacharacter() {
    assert_eq!(escape("a.b"), "a\\.b");
    assert_eq!(escape("(x)|y?*+\\"), "\\(x\\)\\|y\\?\\*\\+\\\\");
    assert_eq!(escape("plain"), "plain");
    assert_eq!(escape(""), "");
}

#[test]
fn escaped_text_matches_itself_whole() {
    for s in ["a+b", "(1|2)*", "x.y?", "\\", "", "||", "a\\(b"] {
        let len = s.chars().count();
        assert_eq!(found(&escape(s), s).first().cloned(), Some(0..len), "text {:?}", s);
    }
}

#[test]
fn successive_matches_do_not_overlap() {
    for (pattern, target) in [("a*", "aaabaa"), ("b?", "abba"), ("(ab|a)*", "abaab"), (".", "xyz")] {
        let ms = found(pattern, target);
        for pair in ms.windows(2) {
            assert!(pair[0].end <= pair[1].start);
            if pair[0].start == pair[0].end {
                assert!(pair[0].end < pair[1].start);
            }
        }
    }
}

#[test]
fn iteration_ends_and_stays_ended() {
    let mut matcher = Matcher::new("x*", "xxyx").unwrap();
    let mut count = 0;
    while matcher.next().is_some() {
        count += 1;
        assert!(count < 100);
    }
    assert_eq!(matcher.next(), None);
    assert_eq!(matcher.next(), None);
}

#[test]
fn star_and_plus_take_the_longest_run() {
    assert_eq!(found("b+", "abbbc"), vec![1..4]);
    assert_eq!(found("a*c", "aaac"), vec![0..4]);
}

#[test]
fn greedy_run_gives_back_for_the_rest_of_the_pattern() {
    assert_eq!(found("a*ab", "aaab"), vec![0..4]);
    assert_eq!(found(".*x", "axbxc"), vec![0..4]);
}

#[test]
fn alternation_takes_first_branch_that_matches() {
    assert_eq!(found("a|ab", "ab"), vec![0..1]);
    assert_eq!(found("ab|a", "ab"), vec![0..2]);
}

#[test]
fn empty_only_patterns_match_at_every_offset() {
    assert_eq!(found("()", "ab"), vec![0..0, 1..1, 2..2]);
    assert_eq!(found("(|)", "a"), vec![0..0, 1..1]);
    assert_eq!(found("", ""), vec![0..0]);
}

#[test]
fn no_match_yields_nothing() {
    assert_eq!(found("z", "abc"), Vec::<Match>::new());
    assert_eq!(found("a", ""), Vec::<Match>::new());
}

#[test]
fn dot_matches_newline() {
    assert_eq!(found("a.b", "a\nb"), vec![0..3]);
}

#[test]
fn assigning_a_target_restarts_the_search() {
    let mut matcher = Matcher::new("ab", "abab").unwrap();
    assert_eq!(matcher.next(), Some(0..2));
    matcher.assign_match_target("xab");
    assert_eq!(matcher.collect_matches(), vec![1..3]);
    matcher.assign_match_target("ab");
    assert_eq!(matcher.next(), Some(0..2));
    assert_eq!(matcher.next(), None);
}

#[test]
fn optional_group_and_repeated_group() {
    assert_eq!(found("x(ab)?y", "xyxaby"), vec![0..2, 2..6]);
    assert_eq!(found("(ab)*", "ababa"), vec![0..4, 4..4, 5..5]);
}

#[test]
fn group_without_quantifier_matches_once() {
    assert_eq!(found("(ab)", "abab"), vec![0..2, 2..4]);
}

#[test]
fn deep_copy_keeps_the_tree() {
    let tree = parse("(a|b)*c").unwrap();
    let copy = tree.deep_copy();
    assert!(matches!(copy.expression_type, ExpressionType::Concatenation));
    assert_eq!(copy.children.len(), tree.children.len());
    assert!(matches!(copy.children[0].children[0].expression_type, ExpressionType::Alternation));
    assert_eq!(copy.children[0].children[0].children.len(), 2);
}

#[test]
fn backtracking_support_follows_quantifiers() {
    assert!(parse("a*").unwrap().supports_backtracking());
    assert!(parse("x(a|b+)").unwrap().supports_backtracking());
    assert!(!parse("ab|c").unwrap().supports_backtracking());
    assert!(!ParsedRegexp::new(ExpressionType::EmptyExpression).supports_backtracking());
}

#[test]
fn quantifier_symbols() {
    assert_eq!(Quantifier::Once.as_str(), "");
    assert_eq!(Quantifier::ZeroOrOne.as_str(), "?");
    assert_eq!(Quantifier::ZeroOrMore.as_str(), "*");
    assert_eq!(Quantifier::OneOrMore.as_str(), "+");
    let star = Some(Token { name: TokenName::Star, position: 0 });
    assert_eq!(Quantifier::from(&star), Quantifier::ZeroOrMore);
    assert_eq!(Quantifier::from(&None), Quantifier::Once);
}

#[test]
fn error_message_shows_source_and_caret() {
    let error = parse("ab)").err().unwrap();
    assert_eq!(
        error.message("ab)"),
        "syntax error in position 2: unbalanced ), used without a matching (\nab)\n  ^"
    );
    let error = parse("*").err().unwrap();
    assert_eq!(error.message("*"), "syntax error in position 0: expected expression before *\n*\n^");
}

#[test]
fn error_message_writes_multi_digit_positions() {
    let error = PatternError { kind: ErrorKind::ExpectedRightParen, position: 12 };
    let text = error.message("(abcdefghijk");
    assert!(text.starts_with("syntax error in position 12: expected ) after expression\n(abcdefghijk\n"));
    assert!(text.ends_with("            ^"));
}

#[test]
fn nodes_keep_their_source_text() {
    let tree = parse("ab|(c)+").unwrap();
    assert_eq!(tree.pattern_string(), "ab|(c)+");
    assert_eq!(tree.children[0].pattern_string(), "ab");
    assert_eq!(tree.children[1].pattern_string(), "(c)+");
    assert_eq!(tree.children[1].children[0].pattern_string(), "c");
}

#[test]
fn debug_text_lists_children() {
    let tree = parse("ab|c").unwrap();
    assert_eq!(
        tree.debug_as_strings(),
        "ParsedRegexp {\n  pattern: ab|c,\n  children = {\n    ab,\n    c,\n  },\n}"
    );
    let leaf = parse("x").unwrap();
    assert_eq!(leaf.debug_as_strings(), "ParsedRegexp {\n  pattern: x,\n  children = {  },\n}");
}

#[test]
fn lone_star_takes_the_whole_run() {
    assert_eq!(found("x+", "axxxbxx"), vec![1..4, 5..7]);
    assert_eq!(found(".*", "abc"), vec![0..3, 3..3]);
}

#[test]
fn literal_first_branch_wins_over_longer_branch() {
    assert_eq!(found("a|a+", "aaa"), vec![0..1, 1..2, 2..3]);
    assert_eq!(found("b|ab", "ab"), vec![0..2]);
}

#[test]
fn every_match_is_text_of_the_pattern() {
    let target = "xaabyab";
    for m in found("a+b|y", target) {
        let text: String = target.chars().skip(m.start).take(m.end - m.start).collect();
        assert!(text == "y" || (text.ends_with('b') && text.trim_end_matches('b').chars().all(|c| c == 'a')));
    }
}

#[test]
fn clone_copies_the_whole_tree() {
    let tree = parse("x(y|z)*").unwrap();
    let copy = tree.clone();
    assert_eq!(copy.debug_as_strings(), tree.debug_as_strings());
    assert_eq!(copy.children[1].children[0].children.len(), 2);
    assert_eq!(copy.children[1].children[0].children[1].pattern_string(), "z");
}

#[test]
fn structure_only_patterns_match_empty_everywhere() {
    assert_eq!(found("(())", "xy"), vec![0..0, 1..1, 2..2]);
    assert_eq!(found("|", "a"), vec![0..0, 1..1]);
}

#[test]
fn single_character_patterns_find_the_leftmost_run() {
    assert_eq!(found("b*", "abbc"), vec![0..0, 1..3, 3..3, 4..4]);
    assert_eq!(found("b?", "bb"), vec![0..1, 1..2, 2..2]);
    assert_eq!(found(".+", ""), Vec::<Match>::new());
}

#[test]
fn leading_operator_errors_name_the_first_character() {
    assert_eq!(
        parse(")a").err(),
        Some(PatternError { kind: ErrorKind::UnbalancedRightParen, position: 0 })
    );
    assert_eq!(
        parse("?").err(),
        Some(PatternError { kind: ErrorKind::ExpectedExpressionBefore { found: '?' }, position: 0 })
    );
    assert!(Matcher::new("+x", "x").is_err());
}

#[test]
fn concatenation_backtracks_through_every_run_length() {
    assert_eq!(found("a*a*ab", "aaab"), vec![0..4]);
    assert_eq!(found("a+b", "xab"), vec![1..3]);
    assert_eq!(found("b|a", "a"), vec![0..1]);
    assert_eq!(found("(b+|a)", "a"), vec![0..1]);
    assert_eq!(found("(a+)", "aa"), vec![0..2]);
}
