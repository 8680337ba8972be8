use ballpoint::story::{Entry, Story};
use ballpoint::{from_str, INK_VERSION};

fn entry(story: &Story, e: Entry) -> String {
    story.entry_to_json(e)
}

#[test]
fn it_serializes_empty() {
    let story = Story::empty(20);
    let json: serde_json::Value = serde_json::from_str(&story.to_json()).expect("Unable to serialize");
    assert_eq!(json["root"], serde_json::Value::Array(Vec::new()));
}

#[test]
fn it_serializes_evaluation() {
    assert_eq!(r#""ev""#, entry(&Story::empty(20), Entry::BeginEvaluation));
}

#[test]
fn it_serializes_end_evaluation() {
    assert_eq!(r#""/ev""#, entry(&Story::empty(20), Entry::EndEvaluation));
}

#[test]
fn it_serializes_str() {
    assert_eq!(r#""str""#, entry(&Story::empty(20), Entry::BeginString));
}

#[test]
fn it_serializes_end_str() {
    assert_eq!(r#""/str""#, entry(&Story::empty(20), Entry::EndString));
}

#[test]
fn it_serializes_strings() {
    let story = from_str("test").expect("Unable to serialize");
    assert_eq!(r#""^test""#, entry(&story, Entry::PushString(0, 4)));
}

#[test]
fn it_serializes_newlines() {
    assert_eq!(r#""\n""#, entry(&Story::empty(20), Entry::Newline));
}

#[test]
fn it_serializes_ends() {
    assert_eq!(r#""done""#, entry(&Story::empty(20), Entry::End));
}

#[test]
fn it_can_serialize() {
    let story = Story::empty(20);
    let text = story.to_json();
    assert_eq!(r#"{"inkVersion":20,"root":[]}"#, text);
    let json: serde_json::Value = serde_json::from_str(&text).expect("Unable to serialize story");
    assert_eq!(json["inkVersion"], serde_json::Value::from(20));
    assert_eq!(json["root"], serde_json::Value::Array(Vec::new()));
}

#[test]
fn hello_world() {
    let story = from_str("Hello, world!\n").expect("Unable to parse");
    let json = story.to_json();
    assert_eq!(r#"{"inkVersion":20,"root":["^Hello, world!","\n","done"]}"#, json);
    let value: serde_json::Value = serde_json::from_str(&json).expect("Unable to serialize");
    let root = value["root"].as_array().expect("root is an array");
    assert_eq!(root.len(), 3);
    assert_eq!(root[0], serde_json::Value::from("^Hello, world!"));
    assert_eq!(root[1], serde_json::Value::from("\n"));
    assert_eq!(root[2], serde_json::Value::from("done"));
}

#[test]
fn hello_world_without_trailing_newline() {
    let story = from_str("Hello, world!").expect("Unable to parse");
    assert_eq!(r#"{"inkVersion":20,"root":["^Hello, world!","\n","done"]}"#, story.to_json());
    assert_eq!(story.ink_version(), INK_VERSION);
}

#[test]
fn tags_and_escapes() {
    let story = from_str("Say \"hi\" \\ now\n# blue\n").expect("compiles");
    assert_eq!(
        r##"{"inkVersion":20,"root":["^Say \"hi\" \\ now","\n",{"#":"blue"},"done"]}"##,
        story.to_json()
    );
}

#[test]
fn control_characters_are_escaped() {
    let story = from_str("a\u{1}b").expect("compiles");
    assert_eq!(r#"{"inkVersion":20,"root":["^a\u0001b","\n","done"]}"#, story.to_json());
}

#[test]
fn backspace_and_form_feed_use_short_escapes() {
    let story = from_str("a\u{8}b\u{c}c").expect("compiles");
    assert_eq!(r#"{"inkVersion":20,"root":["^a\bb\fc","\n","done"]}"#, story.to_json());
    let value: serde_json::Value = serde_json::from_str(&story.to_json()).expect("valid JSON");
    assert_eq!(value["root"][0], serde_json::Value::from("^a\u{8}b\u{c}c"));
}

#[test]
fn entry_values_are_unescaped() {
    let story = from_str("== k\n# tag \"x\"\n-> k\n").expect("compiles");
    let values: Vec<String> = story.entries_vec().iter().map(|p| story.entry_value(p.entry)).collect();
    assert!(values.contains(&"tag \"x\"".to_string()));
    assert!(values.contains(&"k".to_string()));
    assert_eq!(story.name_string(1), "k");
}
