use lexer::lexer::Lexer;
use lexer::lexer::ScanError;

fn lines(ls: &[&str]) -> Vec<String> {
    ls.iter().map(|s| s.to_string()).collect()
}

#[test]
fn diagnostic_block() {
    let mut lx = Lexer::new();
    lx.add_pattern("Identifier", "[a-zA-Z_]\\w*");
    lx.add_pattern("Equal", "=");
    lx.add_pattern("Digit", "\\d+");
    lx.add_pattern("Whitespace", "\\s+");
    let e = lx.tokenize(&lines(&["x = 1", "@@@"])).unwrap_err();
    assert_eq!(
        e.diagnostic(),
        "2: @@@\n   ^\nLexerError: Invalid token at line 2, col 1\n"
    );
}

#[test]
fn diagnostic_caret_under_wide_column() {
    let mut lx = Lexer::new();
    lx.add_pattern("A", "a+");
    let e = lx.tokenize(&lines(&["aaaaaaaaaaa@"])).unwrap_err();
    assert_eq!(e.line, 1);
    assert_eq!(e.col, 12);
    let expected = [
        "1: aaaaaaaaaaa@",
        "              ^",
        "LexerError: Invalid token at line 1, col 12",
        "",
    ]
    .join("\n");
    assert_eq!(e.diagnostic(), expected);
}

#[test]
fn diagnostic_from_fields_alone() {
    // The diagnostic is a pure function of the failure site.
    let e = ScanError { line: 3, col: 2, text: "ab".to_string() };
    assert_eq!(
        e.diagnostic(),
        "3: ab\n    ^\nLexerError: Invalid token at line 3, col 2\n"
    );
}

#[test]
fn format_tokens_aligns_fields() {
    let mut lx = Lexer::new();
    lx.add_pattern("Id", "[a-z]+");
    lx.add_pattern("Sp", "\\s+");
    assert!(lx.tokenize(&lines(&["ab c"])).is_ok());
    let expected = ["1:1 ab (Id)", "1:3    (Sp)", "1:4 c  (Id)", ""].join("\n");
    assert_eq!(lx.format_tokens(), expected);
}

#[test]
fn format_tokens_aligns_wide_columns() {
    let mut lx = Lexer::new();
    lx.add_pattern("A", "a+");
    lx.add_pattern("Sp", "\\s+");
    lx.add_pattern("B", "b");
    assert!(lx.tokenize(&lines(&["aaaaaaaaaa b"])).is_ok());
    let expected = [
        "1:1  aaaaaaaaaa (A)",
        "1:11            (Sp)",
        "1:12 b          (B)",
        "",
    ]
    .join("\n");
    assert_eq!(lx.format_tokens(), expected);
}

#[test]
fn format_tokens_empty() {
    let lx = Lexer::new();
    assert_eq!(lx.format_tokens(), "");
}
