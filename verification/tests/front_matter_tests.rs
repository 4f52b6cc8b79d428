use format_tools::error::PipelineError;
use format_tools::front_matter::{
    inject_metadata_to_markdown, keep_other_entries, read_front_matter, render_entry, MetaValue,
};

fn chars(s: &str) -> Vec<char> {
    s.chars().collect()
}

fn text(s: &str) -> MetaValue {
    MetaValue::String(s.to_string())
}

fn object(entries: Vec<(&str, MetaValue)>) -> MetaValue {
    MetaValue::Object(entries.into_iter().map(|(k, v)| (k.to_string(), v)).collect())
}

fn merge(content: &str, metadata: &MetaValue) -> Option<String> {
    inject_metadata_to_markdown(content, metadata).expect("metadata is a mapping")
}

#[test]
fn block_is_put_before_a_document_without_front_matter() {
    let metadata = object(vec![
        ("title", text("Doc")),
        ("draft", MetaValue::Bool(true)),
        ("count", MetaValue::Number("3".to_string())),
        ("tags", MetaValue::Array(vec![text("a"), text("b")])),
    ]);
    assert_eq!(
        merge("# Title\n", &metadata),
        Some("---\ntitle: Doc\ndraft: true\ncount: 3\ntags:\n  - a\n  - b\n---\n\n# Title\n".to_string())
    );
}

#[test]
fn false_is_written_out() {
    let metadata = object(vec![("toc", MetaValue::Bool(false))]);
    assert_eq!(merge("x", &metadata), Some("---\ntoc: false\n---\n\nx".to_string()));
}

#[test]
fn new_values_win_over_old_ones() {
    let metadata = object(vec![("title", text("New"))]);
    assert_eq!(
        merge("---\ntitle: Old\nauthor: Me\n---\n\nBody\n", &metadata),
        Some("---\nauthor: Me\ntitle: New\n---\nBody\n".to_string())
    );
}

#[test]
fn old_list_goes_with_its_key() {
    let metadata = object(vec![("tags", MetaValue::Array(vec![text("x")]))]);
    assert_eq!(
        merge("---\ntags:\n  - a\n  - b\nlang: en\n---\nBody", &metadata),
        Some("---\nlang: en\ntags:\n  - x\n---\nBody".to_string())
    );
}

#[test]
fn lines_before_the_first_key_are_kept() {
    let metadata = object(vec![("a", text("2"))]);
    assert_eq!(
        merge("---\n  note\na: 1\nb: 1\n---\nBody", &metadata),
        Some("---\n  note\nb: 1\na: 2\n---\nBody".to_string())
    );
}

#[test]
fn only_one_blank_line_is_taken_from_the_body() {
    let metadata = object(vec![("a", text("1"))]);
    assert_eq!(merge("---\n---\n\n\nBody", &metadata), Some("---\na: 1\n---\n\nBody".to_string()));
}

#[test]
fn closing_line_may_end_the_document() {
    let metadata = object(vec![("a", text("1"))]);
    assert_eq!(merge("---\nb: 2\n---", &metadata), Some("---\nb: 2\na: 1\n---\n".to_string()));
}

#[test]
fn unclosed_block_is_no_front_matter() {
    let metadata = object(vec![("a", text("1"))]);
    assert_eq!(merge("---\nb: 2\n", &metadata), Some("---\na: 1\n---\n\n---\nb: 2\n".to_string()));
}

#[test]
fn dashes_inside_a_line_do_not_close_the_block() {
    let metadata = object(vec![("a", text("1"))]);
    assert_eq!(
        merge("---\nb: x---y\n----\n---\nBody", &metadata),
        Some("---\nb: x---y\n----\na: 1\n---\nBody".to_string())
    );
}

#[test]
fn unsupported_values_are_left_out() {
    let metadata = object(vec![
        ("n", MetaValue::Null),
        ("o", object(vec![("k", text("v"))])),
        ("e", MetaValue::Array(vec![])),
        ("m", MetaValue::Array(vec![MetaValue::Number("1".to_string()), text("s"), MetaValue::Null])),
    ]);
    assert_eq!(merge("Body", &metadata), Some("---\nm:\n  - s\n---\n\nBody".to_string()));
}

#[test]
fn nothing_to_write_leaves_the_document() {
    assert_eq!(merge("Body", &object(vec![])), None);
    assert_eq!(merge("Body", &object(vec![("n", MetaValue::Null)])), None);
    assert_eq!(
        merge("Body", &object(vec![("l", MetaValue::Array(vec![MetaValue::Bool(true)]))])),
        None
    );
}

#[test]
fn metadata_must_be_a_mapping() {
    for bad in [
        MetaValue::Null,
        MetaValue::Bool(true),
        MetaValue::Number("1".to_string()),
        text("x"),
        MetaValue::Array(vec![]),
    ] {
        match inject_metadata_to_markdown("Body", &bad) {
            Err(PipelineError::InvalidMetadata) => {}
            other => panic!("unexpected result {:?}", other),
        }
    }
}

#[test]
fn merging_twice_gives_the_same_front_matter() {
    let metadata = object(vec![
        ("title", text("Doc")),
        ("tags", MetaValue::Array(vec![text("a"), text("b")])),
        ("draft", MetaValue::Bool(false)),
    ]);
    for start in ["Body\n", "---\ntitle: Old\nkeep: yes\n---\n\nBody\n", "---\n---\nBody"] {
        let once = merge(start, &metadata).unwrap();
        let twice = merge(&once, &metadata).unwrap();
        let thrice = merge(&twice, &metadata).unwrap();
        let (block_once, _) = read_front_matter(&chars(&once)).unwrap();
        let (block_twice, _) = read_front_matter(&chars(&twice)).unwrap();
        assert_eq!(block_once, block_twice);
        assert_eq!(twice, thrice);
    }
}

#[test]
fn old_entries_of_new_names_are_gone() {
    let metadata = object(vec![("a", text("new")), ("c", MetaValue::Bool(true))]);
    let merged = merge("---\na: 1\nb: 2\na: 3\n  - x\nc: 4\n---\nBody", &metadata).unwrap();
    assert_eq!(merged, "---\nb: 2\na: new\nc: true\n---\nBody");
}

#[test]
fn front_matter_is_read_line_by_line() {
    let (block, body) = read_front_matter(&chars("---\na: 1\n\nb: 2\n---\nBody")).unwrap();
    assert_eq!(block, vec![chars("a: 1"), chars(""), chars("b: 2")]);
    assert_eq!(body, 19);
    assert!(read_front_matter(&chars("--- \na: 1\n---\n")).is_none());
    assert!(read_front_matter(&chars("text\n---\na: 1\n---\n")).is_none());
    assert!(read_front_matter(&chars("---")).is_none());
}

#[test]
fn entries_are_taken_out_with_their_lines() {
    let block = vec![chars("a: 1"), chars("  more"), chars("b:"), chars("  - x"), chars("c: 3")];
    let kept = keep_other_entries(&block, &vec![chars("a"), chars("c")]);
    assert_eq!(kept, vec![chars("b:"), chars("  - x")]);
    let kept = keep_other_entries(&block, &vec![chars("b")]);
    assert_eq!(kept, vec![chars("a: 1"), chars("  more"), chars("c: 3")]);
}

#[test]
fn one_entry_is_written_as_its_lines() {
    assert_eq!(render_entry("k", &text("v w")), vec![chars("k: v w")]);
    assert_eq!(render_entry("k", &MetaValue::Number("-1.5e3".to_string())), vec![chars("k: -1.5e3")]);
    assert_eq!(
        render_entry("k", &MetaValue::Array(vec![text("a"), MetaValue::Null, text("b")])),
        vec![chars("k:"), chars("  - a"), chars("  - b")]
    );
    assert!(render_entry("k", &MetaValue::Null).is_empty());
}
