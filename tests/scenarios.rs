use mini_regex::matcher::{Match, Matcher};

fn all_matches(pattern: &str, target: &str) -> Vec<Match> {
    let mut matcher = Matcher::new(pattern, target).expect("pattern should compile");
    let mut found = Vec::new();
    while let Some(m) = matcher.next() {
        found.push(m);
    }
    found
}

#[test]
fn empty_pattern_matches_at_every_offset() {
    assert_eq!(all_matches("", "abc"), vec![0..0, 1..1, 2..2, 3..3]);
}

#[test]
fn single_character() {
    assert_eq!(all_matches("a", "banana"), vec![1..2, 3..4, 5..6]);
}

#[test]
fn star_is_greedy() {
    // The search resumes at 3, right after `aaa`, and `a*` matches the empty string
    // there before the next run of `a` is found.
    assert_eq!(all_matches("a*", "aaabaa"), vec![0..3, 3..3, 4..6, 6..6]);
}

#[test]
fn plus_then_literal() {
    assert_eq!(all_matches("a+b", "aaabab"), vec![0..4, 4..6]);
}

#[test]
fn repeated_group() {
    assert_eq!(all_matches("(ab)+", "ababcab"), vec![0..4, 5..7]);
}

#[test]
fn alternation_of_literals() {
    // `bc` stands at 2..4 and again at 4..6; the text at 3..5 is `cb`, which
    // `a|bc` cannot match.
    assert_eq!(all_matches("a|bc", "xabcbc"), vec![1..2, 2..4, 4..6]);
}

#[test]
fn dot_matches_each_character() {
    assert_eq!(all_matches(".", "ab"), vec![0..1, 1..2]);
}

#[test]
fn escaped_parentheses_around_dot_star() {
    // `.*` is greedy: it runs to the end and gives back only what `\)` needs, so the
    // match reaches the last `)` rather than the first.
    assert_eq!(all_matches("\\(.*\\)", "x(hi)y(ok)"), vec![1..10]);
}

#[test]
fn optional_then_literal() {
    assert_eq!(all_matches("a?b", "bab"), vec![0..1, 1..3]);
}

#[test]
fn repeated_alternation_then_literal() {
    assert_eq!(all_matches("(a|b)+c", "aabac"), vec![0..5]);
}
