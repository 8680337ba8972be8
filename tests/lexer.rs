use ballpoint::lexer::{lex, LexError, TokenKind};

fn tokens(text: &str) -> Vec<(TokenKind, String)> {
    let chars: Vec<char> = text.chars().collect();
    let toks = lex(&chars).expect("lexes");
    toks.iter()
        .map(|t| (t.kind, chars[t.start..t.end].iter().collect::<String>()))
        .collect()
}

fn lex_error(text: &str) -> LexError {
    let chars: Vec<char> = text.chars().collect();
    lex(&chars).expect_err("fails")
}

#[test]
fn it_parses_glue() {
    assert_eq!(tokens("<> test"), vec![(TokenKind::Glue, "test".to_string())]);
}

#[test]
fn it_parses_tags() {
    assert_eq!(tokens("# this is a tag\n"), vec![(TokenKind::Tag, "this is a tag".to_string())]);
}

#[test]
fn it_parses_choices() {
    assert_eq!(
        tokens("* this is a choice\r\n"),
        vec![(TokenKind::Choice(1), "this is a choice".to_string())]
    );
}

#[test]
fn it_parses_comments() {
    assert_eq!(tokens("// test"), vec![(TokenKind::Comment, "test".to_string())]);
    let text = "/*
            test
        */";
    assert_eq!(
        tokens(text),
        vec![(TokenKind::Comment, "\n            test\n        ".to_string())]
    );
}

#[test]
fn it_parses_suppressions() {
    assert_eq!(tokens("[test]"), vec![(TokenKind::Suppression, "test".to_string())]);
}

#[test]
fn it_parses_diverts() {
    assert_eq!(tokens("-> to_the_place"), vec![(TokenKind::Divert, "to_the_place".to_string())]);
}

#[test]
fn it_parses_a_line() {
    assert_eq!(tokens("// test"), vec![(TokenKind::Comment, "test".to_string())]);
    assert_eq!(tokens("* test"), vec![(TokenKind::Choice(1), "test".to_string())]);
}

#[test]
fn it_parses_a_document() {
    let text = "
// This is a sample document
* First choice
* Second choice
"
    .trim();
    let expected = vec![
        (TokenKind::Comment, "This is a sample document".to_string()),
        (TokenKind::Choice(1), "First choice".to_string()),
        (TokenKind::Choice(1), "Second choice".to_string()),
    ];
    assert_eq!(tokens(text), expected);
}

#[test]
fn it_parses_headers_and_depths() {
    assert_eq!(
        tokens("=== knot ===\n= stitch\n  ** deeper\n-> knot.stitch\nplain text  \n\n"),
        vec![
            (TokenKind::Knot, "knot".to_string()),
            (TokenKind::Stitch, "stitch".to_string()),
            (TokenKind::Choice(2), "deeper".to_string()),
            (TokenKind::Divert, "knot.stitch".to_string()),
            (TokenKind::Text, "plain text  ".to_string()),
        ]
    );
}

#[test]
fn it_rejects_an_unterminated_block_comment() {
    assert_eq!(lex_error("text\n/* never closed"), LexError::UnterminatedComment(5));
}

#[test]
fn it_rejects_an_unterminated_suppression() {
    assert_eq!(lex_error("[open"), LexError::UnterminatedSuppression(0));
}

#[test]
fn it_rejects_a_malformed_divert() {
    assert_eq!(lex_error("-> 9lives"), LexError::InvalidIdentifier(0));
    assert_eq!(lex_error("-> a.b.c"), LexError::InvalidIdentifier(0));
    assert_eq!(lex_error("== 1bad"), LexError::InvalidIdentifier(0));
}

#[test]
fn empty_source_has_no_tokens() {
    assert_eq!(tokens(""), Vec::new());
    assert_eq!(tokens("\n\r\n   \n"), Vec::new());
}

#[test]
fn trailing_blanks_stay_in_token_text() {
    assert_eq!(tokens("<> a "), vec![(TokenKind::Glue, "a ".to_string())]);
    assert_eq!(tokens("# a "), vec![(TokenKind::Tag, "a ".to_string())]);
    assert_eq!(tokens("* a "), vec![(TokenKind::Choice(1), "a ".to_string())]);
    assert_eq!(tokens("** a \r\n"), vec![(TokenKind::Choice(2), "a ".to_string())]);
    assert_eq!(
        tokens("// a \n* b"),
        vec![(TokenKind::Comment, "a ".to_string()), (TokenKind::Choice(1), "b".to_string())]
    );
}

#[test]
fn only_the_terminator_is_dropped() {
    assert_eq!(tokens("a\r\r\n"), vec![(TokenKind::Text, "a\r".to_string())]);
    assert_eq!(tokens("a \r"), vec![(TokenKind::Text, "a ".to_string())]);
}

#[test]
fn divert_targets_end_before_trailing_blanks() {
    assert_eq!(tokens("-> knot \t"), vec![(TokenKind::Divert, "knot".to_string())]);
    assert_eq!(tokens("-> k.s "), vec![(TokenKind::Divert, "k.s".to_string())]);
}
