use syon::ast::Value;
use syon::parser::parse_document;

// --- Basic parsing ---

#[test]
fn parse_scalar() {
    let doc = parse_document("hello").unwrap();
    assert_eq!(doc.body, Value::Scalar("hello".into()));
}

#[test]
fn parse_block_mapping() {
    let doc = parse_document("name: Alice\nage: 30\n").unwrap();
    if let Value::Mapping(m) = &doc.body {
        assert_eq!(m.entries[0].key, "name");
        assert_eq!(m.entries[0].value, Value::Scalar("Alice".into()));
        assert_eq!(m.entries[1].key, "age");
        assert_eq!(m.entries[1].value, Value::Scalar("30".into()));
    } else {
        panic!("expected Mapping");
    }
}

#[test]
fn parse_block_sequence() {
    let doc = parse_document("- alpha\n- beta\n").unwrap();
    if let Value::Sequence(seq) = &doc.body {
        assert_eq!(seq.items.len(), 2);
        assert_eq!(seq.items[0], Value::Scalar("alpha".into()));
    } else {
        panic!("expected Sequence");
    }
}

// --- Forbidden construct rejection ---

#[test]
fn reject_yaml_tag() {
    let result = parse_document("key: !!str value\n");
    assert!(result.is_err());
    let msg = result.unwrap_err().to_string();
    assert!(msg.contains("tag"), "expected 'tag' in: {msg}");
}

#[test]
fn reject_anchor() {
    let result = parse_document("key: &anchor value\n");
    assert!(result.is_err());
    let msg = result.unwrap_err().to_string();
    assert!(msg.contains("anchor"), "expected 'anchor' in: {msg}");
}

#[test]
fn reject_alias() {
    let result = parse_document("a: &anc val\nb: *anc\n");
    assert!(result.is_err());
    let msg = result.unwrap_err().to_string();
    assert!(msg.contains("alias") || msg.contains("anchor"), "got: {msg}");
}

#[test]
fn reject_flow_mapping() {
    let result = parse_document("{key: value}\n");
    assert!(result.is_err());
    let msg = result.unwrap_err().to_string();
    assert!(msg.contains("flow"), "expected 'flow' in: {msg}");
}

#[test]
fn reject_flow_sequence() {
    let result = parse_document("key: [a, b]\n");
    assert!(result.is_err());
    let msg = result.unwrap_err().to_string();
    assert!(msg.contains("flow"), "expected 'flow' in: {msg}");
}

#[test]
fn reject_explicit_document_start() {
    let result = parse_document("---\nkey: value\n");
    assert!(result.is_err());
}

#[test]
fn reject_complex_key() {
    let result = parse_document("? complex key\n: value\n");
    assert!(result.is_err());
}

#[test]
fn reject_duplicate_keys() {
    let result = parse_document("a: 1\na: 2\n");
    assert!(result.is_err());
    let msg = result.unwrap_err().to_string();
    assert!(msg.contains("duplicate"), "expected 'duplicate' in: {msg}");
}

// --- Literal block ---

#[test]
fn parse_standalone_literal_block() {
    let input = "[[[\nline one\nline two\n]]]\n";
    let doc = parse_document(input).unwrap();
    assert!(
        matches!(&doc.body, Value::LiteralBlock(s) if s.contains("line one")),
        "expected LiteralBlock, got {:?}",
        doc.body
    );
}

// --- Comment extraction ---

#[test]
fn leading_comment_extracted() {
    let input = "# top comment\nkey: val\n";
    let doc = parse_document(input).unwrap();
    // Comments are currently attached to trailing_comments at document level.
    assert!(!doc.trailing_comments.is_empty());
    assert_eq!(doc.trailing_comments[0].text, "top comment");
}

#[test]
fn inline_comment_extracted() {
    let input = "key: value # side note\n";
    let doc = parse_document(input).unwrap();
    assert!(doc.trailing_comments.iter().any(|c| c.text == "side note"));
}

#[test]
fn hash_without_space_not_a_comment() {
    let input = "id: abc#123\n";
    let doc = parse_document(input).unwrap();
    // "abc#123" should be the scalar value, not split into value + comment.
    assert!(doc.trailing_comments.is_empty());
    if let Value::Mapping(m) = &doc.body {
        assert_eq!(m.entries[0].value, Value::Scalar("abc#123".into()));
    } else {
        panic!("expected Mapping");
    }
}
