use lexer::lexer::Lexer;
use lexer::token::Token;

fn make(rules: &[(&str, &str)]) -> Lexer {
    let mut lx = Lexer::new();
    for (name, pat) in rules {
        lx.add_pattern(name, pat);
    }
    lx
}

fn lines(ls: &[&str]) -> Vec<String> {
    ls.iter().map(|s| s.to_string()).collect()
}

fn check_tokens(tokens: &[Token], expect: &[(&str, &str, usize, usize)]) {
    assert_eq!(tokens.len(), expect.len());
    for (t, e) in tokens.iter().zip(expect.iter()) {
        assert_eq!(t.name, e.0);
        assert_eq!(t.content, e.1);
        assert_eq!(t.line, e.2);
        assert_eq!(t.col, e.3);
    }
}

#[test]
fn scenario_from_import() {
    let mut lx = make(&[
        ("Whitespace", "\\s+"),
        ("Keyword", "from"),
        ("Keyword", "import"),
        ("Identifier", "\\w+"),
    ]);
    let r = lx.tokenize(&lines(&["from x import y"]));
    assert!(r.is_ok());
    check_tokens(
        lx.tokens(),
        &[
            ("Keyword", "from", 1, 1),
            ("Whitespace", " ", 1, 5),
            ("Identifier", "x", 1, 6),
            ("Whitespace", " ", 1, 7),
            ("Keyword", "import", 1, 8),
            ("Whitespace", " ", 1, 14),
            ("Identifier", "y", 1, 15),
        ],
    );
}

#[test]
fn priority_tie_break() {
    let mut lx = make(&[("Keyword", "import"), ("Identifier", "\\w+")]);
    let r = lx.tokenize(&lines(&["import"]));
    assert!(r.is_ok());
    check_tokens(lx.tokens(), &[("Keyword", "import", 1, 1)]);
}

#[test]
fn priority_wins_over_length() {
    // The earlier rule wins even though the later one would match more.
    let mut lx = make(&[("Short", "ab"), ("Long", "abcd"), ("Rest", "cd")]);
    let r = lx.tokenize(&lines(&["abcd"]));
    assert!(r.is_ok());
    check_tokens(lx.tokens(), &[("Short", "ab", 1, 1), ("Rest", "cd", 1, 3)]);
}

#[test]
fn partial_result_on_failure() {
    let mut lx = make(&[
        ("Identifier", "[a-zA-Z_]\\w*"),
        ("Equal", "="),
        ("Digit", "\\d+"),
        ("Whitespace", "\\s+"),
    ]);
    let r = lx.tokenize(&lines(&["x = 1", "@@@"]));
    let e = r.unwrap_err();
    assert_eq!(e.line, 2);
    assert_eq!(e.col, 1);
    assert_eq!(e.text, "@@@");
    // Everything from line 1 is kept; nothing of line 2 made it.
    check_tokens(
        lx.tokens(),
        &[
            ("Identifier", "x", 1, 1),
            ("Whitespace", " ", 1, 2),
            ("Equal", "=", 1, 3),
            ("Whitespace", " ", 1, 4),
            ("Digit", "1", 1, 5),
        ],
    );
}

#[test]
fn failure_mid_line_keeps_earlier_tokens() {
    let mut lx = make(&[("Identifier", "[a-z]+"), ("Whitespace", " ")]);
    let r = lx.tokenize(&lines(&["ab $cd"]));
    let e = r.unwrap_err();
    assert_eq!(e.line, 1);
    assert_eq!(e.col, 4);
    assert_eq!(e.text, "ab $cd");
    check_tokens(lx.tokens(), &[("Identifier", "ab", 1, 1), ("Whitespace", " ", 1, 3)]);
}

#[test]
fn column_monotonicity() {
    let mut lx = make(&[("Word", "[a-z]+"), ("Space", "\\s+"), ("Num", "[0-9]+")]);
    let r = lx.tokenize(&lines(&["foo  42 bar"]));
    assert!(r.is_ok());
    let tokens = lx.tokens();
    assert!(tokens.len() > 1);
    for w in tokens.windows(2) {
        assert_eq!(w[1].col, w[0].col + w[0].content.chars().count());
    }
}

#[test]
fn line_reset() {
    let mut lx = make(&[("Word", "\\w+"), ("Space", "\\s+")]);
    let r = lx.tokenize(&lines(&["one two", "three"]));
    assert!(r.is_ok());
    check_tokens(
        lx.tokens(),
        &[
            ("Word", "one", 1, 1),
            ("Space", " ", 1, 4),
            ("Word", "two", 1, 5),
            ("Word", "three", 2, 1),
        ],
    );
}

#[test]
fn round_trip() {
    let mut lx = make(&[("Word", "\\w+"), ("Space", "\\s+"), ("Punct", "[.,;]")]);
    let input = ["one two, three;", "  four."];
    let r = lx.tokenize(&lines(&input));
    assert!(r.is_ok());
    let rebuilt: String = lx.tokens().iter().map(|t| t.content.as_str()).collect();
    assert_eq!(rebuilt, input.concat());
}

#[test]
fn empty_input() {
    let mut lx = make(&[("Word", "\\w+")]);
    let r = lx.tokenize(&lines(&[]));
    assert!(r.is_ok());
    assert_eq!(lx.tokens().len(), 0);
}

#[test]
fn empty_line_yields_no_tokens() {
    let mut lx = make(&[("Word", "\\w+")]);
    let r = lx.tokenize(&lines(&["", "a", ""]));
    assert!(r.is_ok());
    check_tokens(lx.tokens(), &[("Word", "a", 2, 1)]);
}

#[test]
fn no_rules_empty_input_is_ok() {
    // With no rules at all, empty input still scans to nothing.
    let mut lx = Lexer::new();
    let r = lx.tokenize(&lines(&[]));
    assert!(r.is_ok());
    assert_eq!(lx.tokens().len(), 0);
}

#[test]
fn no_rules_nonempty_input_fails_at_once() {
    // With no rules, any non-empty line fails at its first column.
    let mut lx = Lexer::new();
    let e = lx.tokenize(&lines(&["a"])).unwrap_err();
    assert_eq!(e.line, 1);
    assert_eq!(e.col, 1);
    assert_eq!(lx.tokens().len(), 0);
}

#[test]
fn zero_length_match_is_an_error() {
    // The first rule matches the empty string at column 1, so even though
    // the second rule could consume the line, the scan stops there.
    let mut lx = make(&[("Star", "x*"), ("Word", "y+")]);
    let e = lx.tokenize(&lines(&["yyy"])).unwrap_err();
    assert_eq!(e.line, 1);
    assert_eq!(e.col, 1);
    assert_eq!(lx.tokens().len(), 0);
}

#[test]
fn zero_length_match_after_progress() {
    let mut lx = make(&[("Star", "x*")]);
    let e = lx.tokenize(&lines(&["xxxy"])).unwrap_err();
    assert_eq!(e.line, 1);
    assert_eq!(e.col, 4);
    check_tokens(lx.tokens(), &[("Star", "xxx", 1, 1)]);
}

#[test]
fn invalid_pattern_never_matches() {
    // "(" does not compile as a regular expression: the rule is skipped
    // rather than anything panicking, and later rules still apply.
    let mut lx = make(&[("Bad", "("), ("Word", "[a-z]+")]);
    let r = lx.tokenize(&lines(&["abc"]));
    assert!(r.is_ok());
    check_tokens(lx.tokens(), &[("Word", "abc", 1, 1)]);

    let mut only_bad = make(&[("Bad", "(")]);
    let e = only_bad.tokenize(&lines(&["abc"])).unwrap_err();
    assert_eq!(e.line, 1);
    assert_eq!(e.col, 1);
}

#[test]
fn matches_are_anchored() {
    // A digit occurs later in the line, but no rule matches at column 1:
    // a rule must never match text found mid-string.
    let mut lx = make(&[("Digit", "\\d+")]);
    let e = lx.tokenize(&lines(&["ab1"])).unwrap_err();
    assert_eq!(e.line, 1);
    assert_eq!(e.col, 1);
    assert_eq!(lx.tokens().len(), 0);
}

#[test]
fn columns_count_characters() {
    // Columns advance by characters, not bytes: the two Greek letters are
    // four bytes but two characters wide.
    let mut lx = make(&[("Greek", "[\u{3b1}\u{3b2}]+"), ("Space", "\\s+"), ("Word", "[a-z]+")]);
    let r = lx.tokenize(&lines(&["\u{3b1}\u{3b2} x"]));
    assert!(r.is_ok());
    check_tokens(
        lx.tokens(),
        &[
            ("Greek", "\u{3b1}\u{3b2}", 1, 1),
            ("Space", " ", 1, 3),
            ("Word", "x", 1, 4),
        ],
    );
}

#[test]
fn tokenize_accumulates_across_calls() {
    let mut lx = make(&[("Word", "\\w+")]);
    assert!(lx.tokenize(&lines(&["a"])).is_ok());
    assert!(lx.tokenize(&lines(&["b"])).is_ok());
    check_tokens(lx.tokens(), &[("Word", "a", 1, 1), ("Word", "b", 1, 1)]);
}

#[test]
fn value_type_constructors() {
    let p = lexer::pattern::Pattern::new("Digit".to_string(), "\\d+".to_string());
    assert_eq!(p.name, "Digit");
    assert_eq!(p.pattern, "\\d+");
    let t = lexer::token::Token::new("Digit".to_string(), "42".to_string(), 3, 7);
    assert_eq!(t.name, "Digit");
    assert_eq!(t.content, "42");
    assert_eq!(t.line, 3);
    assert_eq!(t.col, 7);
}

#[test]
fn determinism() {
    let rules: &[(&str, &str)] = &[("Word", "\\w+"), ("Space", "\\s+"), ("Dot", "\\.")];
    let input = ["from x import y", "a.b c"];
    let mut first = make(rules);
    let r1 = first.tokenize(&lines(&input));
    let mut second = make(rules);
    let r2 = second.tokenize(&lines(&input));
    assert_eq!(r1.is_ok(), r2.is_ok());
    assert_eq!(first.tokens().len(), second.tokens().len());
    for (a, b) in first.tokens().iter().zip(second.tokens().iter()) {
        assert_eq!(a.name, b.name);
        assert_eq!(a.content, b.content);
        assert_eq!(a.line, b.line);
        assert_eq!(a.col, b.col);
    }
}
