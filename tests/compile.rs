use ballpoint::parser::ParseError;
use ballpoint::{from_str, Error};

fn json(src: &str) -> String {
    from_str(src).expect("compiles").to_json()
}

#[test]
fn forward_and_backward_diverts_resolve() {
    assert_eq!(
        json("=== a ===\nHi\n-> b\n=== b ===\nBye\n-> a\n"),
        r#"{"inkVersion":20,"root":["done",{"a":["^Hi","\n",{"->":"b"}],"b":["^Bye","\n",{"->":"a"}]}]}"#
    );
}

#[test]
fn stitches_resolve_locally_and_by_qualified_name() {
    assert_eq!(
        json("-> k.s\n== k\n-> s\n= s\nIn\n"),
        r#"{"inkVersion":20,"root":[{"->":"k.s"},{"k":[{"->":"k.s"},{"s":["^In","\n","done"]}]}]}"#
    );
}

#[test]
fn unresolved_divert_fails() {
    assert_eq!(from_str("Hi\n-> nowhere\n").err(), Some(Error::UnresolvedDivert(6, 13)));
    assert_eq!(from_str("== k\n-> k.missing\n").err(), Some(Error::UnresolvedDivert(8, 17)));
}

#[test]
fn duplicate_knots_fail() {
    assert_eq!(from_str("== a\nx\n== a\ny\n").err(), Some(Error::DuplicateSymbol(3, 10)));
}

#[test]
fn duplicate_stitches_fail_within_a_knot_only() {
    assert_eq!(from_str("== a\n= s\n= s\n").err(), Some(Error::DuplicateSymbol(7, 11)));
    assert!(from_str("== a\n= s\n== b\n= s\n").is_ok());
}

#[test]
fn stitch_outside_knot_fails() {
    assert_eq!(from_str("= s\n").err(), Some(Error::Parse(ParseError::StitchOutsideKnot(2))));
}

#[test]
fn choice_nesting_too_deep_fails() {
    assert_eq!(from_str("** deep\n").err(), Some(Error::Parse(ParseError::BadNesting(3))));
}

#[test]
fn lexical_errors_surface() {
    assert!(matches!(from_str("/* open").err(), Some(Error::Lex(_))));
}

#[test]
fn comments_produce_no_entries() {
    let with = json("// a note\nHello\n/* block\nnote */\nWorld\n");
    let without = json("Hello\nWorld\n");
    assert_eq!(with, without);
    assert_eq!(with, r#"{"inkVersion":20,"root":["^Hello","\n","^World","\n","done"]}"#);
}

#[test]
fn compiling_twice_gives_the_same_document() {
    let src = "Intro\n* A\n** A1\n-> end_k\n* B\n=== end_k ===\nBye\n";
    assert_eq!(json(src), json(src));
}

#[test]
fn glue_suppresses_newline() {
    assert_eq!(
        json("We hurried home\n<> to Savile Row\n"),
        r#"{"inkVersion":20,"root":["^We hurried home","^to Savile Row","\n","done"]}"#
    );
}

#[test]
fn choices_become_named_children() {
    assert_eq!(
        json("Hello\n* A\n** A1\n* B\n"),
        r#"{"inkVersion":20,"root":["^Hello","\n","done",{"c-0":["^A","\n","done",{"c-0":["^A1","\n","done"]}],"c-1":["^B","\n","done"]}]}"#
    );
}

#[test]
fn suppressed_text_is_discarded() {
    assert_eq!(json("[aside]\nShown\n"), r#"{"inkVersion":20,"root":["^Shown","\n","done"]}"#);
}

#[test]
fn glue_keeps_the_space_before_the_join() {
    assert_eq!(
        json("We hurried home \n<> to Savile Row\n"),
        r#"{"inkVersion":20,"root":["^We hurried home ","^to Savile Row","\n","done"]}"#
    );
}
