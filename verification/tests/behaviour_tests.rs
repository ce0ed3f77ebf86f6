use syon::ast::{Comment, Document, Mapping, MappingEntry, Sequence, Value};
use syon::comments::extract_comments;
use syon::error::SyonError;
use syon::events::{ScalarStyle, YamlEvent};
use syon::json::{error_json, to_json};
use syon::parser::{parse_document, try_parse_literal_block, ParseError};
use syon::preflight::preflight;
use syon::receiver::receive_events;

fn scalar(s: &str) -> Value {
    Value::Scalar(s.to_string())
}

// --- Preflight -------------------------------------------------------------

#[test]
fn preflight_names_line_of_document_start() {
    assert_eq!(
        preflight("a: 1\n---\n"),
        Err(ParseError::Forbidden(
            "line 2: explicit document start `---` is not allowed in SYON".into()
        ))
    );
    assert!(preflight("  --- x\n").is_err());
    assert_eq!(preflight("---x\n"), Ok(()));
}

#[test]
fn preflight_names_complex_key() {
    assert_eq!(
        preflight("ok: 1\n?\n"),
        Err(ParseError::Forbidden("line 2: complex key `?` is not allowed in SYON".into()))
    );
    assert_eq!(preflight("?x: 1\n"), Ok(()));
}

#[test]
fn preflight_names_flow_column_in_bytes() {
    assert_eq!(
        preflight("key: [a, b]\n"),
        Err(ParseError::Forbidden(
            "line 1 col 6: flow collection `[` is not allowed in SYON".into()
        ))
    );
    // "é" takes two bytes, so the brace stands at byte column 5.
    assert_eq!(
        preflight("é: {x}\n"),
        Err(ParseError::Forbidden(
            "line 1 col 5: flow collection `{` is not allowed in SYON".into()
        ))
    );
    assert_eq!(
        preflight("  {x}\n"),
        Err(ParseError::Forbidden(
            "line 1 col 1: flow collection `{` is not allowed in SYON".into()
        ))
    );
}

#[test]
fn preflight_rejects_flow_first_in_any_value() {
    assert_eq!(
        preflight("- [a, b]\n"),
        Err(ParseError::Forbidden(
            "line 1 col 3: flow collection `[` is not allowed in SYON".into()
        ))
    );
    assert_eq!(
        preflight("key:  [a, b]\n"),
        Err(ParseError::Forbidden(
            "line 1 col 7: flow collection `[` is not allowed in SYON".into()
        ))
    );
    assert!(preflight("- - {x: 1}\n").is_err());
    assert!(preflight("- key:\t{x: 1}\n").is_err());
    assert!(preflight("-\t[a]\n").is_err());
    assert!(preflight("- key: \t{x: 1}\n").is_err());
    assert!(matches!(parse_document("- [a, b]\n"), Err(ParseError::Forbidden(m)) if m.contains("flow")));
    assert!(preflight("-[a]\n").is_ok());
}

#[test]
fn preflight_rejects_document_end_and_tab_markers() {
    assert_eq!(
        preflight("key: value\n...\n"),
        Err(ParseError::Forbidden("line 2: document end `...` is not allowed in SYON".into()))
    );
    assert!(matches!(parse_document("key: value\n...\n"), Err(ParseError::Forbidden(_))));
    assert!(preflight("a: &x 1\n---\tb: *x\n").is_err());
    assert!(preflight("?\tk\n").is_err());
    assert_eq!(preflight("...x\n"), Ok(()));
}

#[test]
fn block_scalars_rejected() {
    assert_eq!(
        parse_document("a: |\n  text\n"),
        Err(ParseError::Forbidden("block scalar `|` / `>` is not allowed in SYON".into()))
    );
    assert!(matches!(parse_document("a: >\n  text\n"), Err(ParseError::Forbidden(_))));
}

#[test]
fn preflight_ignores_braces_in_quotes_and_mid_value() {
    assert_eq!(preflight("a: \"{x}\"\n"), Ok(()));
    assert_eq!(preflight("a: b{x}\n"), Ok(()));
    assert_eq!(preflight("a:{x}\n"), Ok(()));
    assert_eq!(preflight("a: \"q\\\" {x}\"\n"), Ok(()));
    assert_eq!(preflight(""), Ok(()));
}

// --- Comments --------------------------------------------------------------

#[test]
fn comments_carry_their_line_numbers() {
    let c = extract_comments("# one\nk: v #  two  \nid: a#b\nq: \"x # y\"\n#\n");
    assert_eq!(
        c,
        vec![(1, "one".to_string()), (2, "two".to_string()), (5, String::new())]
    );
}

#[test]
fn comment_after_tab_and_escaped_quote() {
    let c = extract_comments("a: \"x\\\" # no\" # yes\nb:\t# tab\n");
    assert_eq!(c, vec![(1, "yes".to_string()), (2, "tab".to_string())]);
}

// --- Literal blocks --------------------------------------------------------

#[test]
fn literal_block_body_is_verbatim() {
    let v = try_parse_literal_block("[[[\n  indented: {x}\n]]]\nrest\n]]]").unwrap();
    assert_eq!(v, Value::LiteralBlock("  indented: {x}\n]]]\nrest".into()));
    // The block must close on the last line: nothing may follow it.
    assert_eq!(try_parse_literal_block("[[[\na\n]]]\nkey: v"), None);
    assert!(parse_document("[[[\na\n]]]\nkey: v").is_err());
    assert_eq!(try_parse_literal_block("[[[\nno close\n"), None);
    assert_eq!(try_parse_literal_block("x\n[[[\n]]]\n"), None);
    assert_eq!(try_parse_literal_block("[[[\n]]]"), Some(Value::LiteralBlock(String::new())));
}

#[test]
fn literal_block_ignores_yaml_syntax() {
    // Invalid YAML (and forbidden constructs) inside the block do not matter.
    let doc = parse_document("  [[[\n--- {a: [\n&x *y !!z\n]]]  \n").unwrap();
    assert_eq!(doc.body, Value::LiteralBlock("--- {a: [\n&x *y !!z".into()));
    assert!(doc.trailing_comments.is_empty());
}

// --- Documents -------------------------------------------------------------

#[test]
fn empty_document_is_empty_mapping() {
    let doc = parse_document("").unwrap();
    assert_eq!(doc.body, Value::Mapping(Mapping { entries: Vec::new() }));
    let doc = parse_document("# only a comment\n").unwrap();
    assert_eq!(doc.body, Value::Mapping(Mapping { entries: Vec::new() }));
    assert_eq!(doc.trailing_comments, vec![Comment { text: "only a comment".into() }]);
}

#[test]
fn scalars_stay_text() {
    for s in ["42", "3.14", "true", "null", "yes", "0o17"] {
        let doc = parse_document(s).unwrap();
        assert_eq!(doc.body, scalar(s), "{s}");
    }
    let doc = parse_document("\"quoted\"").unwrap();
    assert_eq!(doc.body, scalar("quoted"));
}

#[test]
fn nested_structure() {
    let doc = parse_document("a:\n  - x\n  - b: c\nd: e\n").unwrap();
    let expected = Value::Mapping(Mapping {
        entries: vec![
            MappingEntry {
                key: "a".into(),
                value: Value::Sequence(Sequence {
                    items: vec![
                        scalar("x"),
                        Value::Mapping(Mapping {
                            entries: vec![MappingEntry {
                                key: "b".into(),
                                value: scalar("c"),
                                leading_comments: vec![],
                                trailing_comment: None,
                            }],
                        }),
                    ],
                }),
                leading_comments: vec![],
                trailing_comment: None,
            },
            MappingEntry {
                key: "d".into(),
                value: scalar("e"),
                leading_comments: vec![],
                trailing_comment: None,
            },
        ],
    });
    assert_eq!(doc.body, expected);
}

#[test]
fn duplicate_keys_rejected_at_any_depth() {
    let e = parse_document("outer:\n  a: 1\n  a: 2\n").unwrap_err();
    assert_eq!(e, ParseError::Syntax("duplicate key \"a\"".into()));
    assert_eq!(e.to_string(), "syntax error: duplicate key \"a\"");
    // The same key in different mappings is fine.
    assert!(parse_document("x:\n  a: 1\ny:\n  a: 2\n").is_ok());
}

#[test]
fn duplicate_key_message_uses_debug_quoting() {
    let e = parse_document("\"a\\tb\": 1\n\"a\\tb\": 2\n").unwrap_err();
    assert_eq!(e, ParseError::Syntax("duplicate key \"a\\tb\"".into()));
}

#[test]
fn first_error_is_reported() {
    let e = parse_document("a: &x 1\nb: !!str 2\n").unwrap_err();
    assert_eq!(
        e,
        ParseError::Forbidden("anchor `&name` is not allowed in SYON".into())
    );
    let e = parse_document("a: !!str 1\nb: &x 2\n").unwrap_err();
    assert_eq!(
        e,
        ParseError::Forbidden("tag `!tag` / `!!type` is not allowed in SYON".into())
    );
}

#[test]
fn preflight_error_comes_before_yaml_errors() {
    let e = parse_document("a: &x 1\nb: [1]\n").unwrap_err();
    assert_eq!(
        e.to_string(),
        "forbidden: line 2 col 4: flow collection `[` is not allowed in SYON"
    );
}

#[test]
fn syntax_error_from_scanner() {
    match parse_document("a: \"unterminated\n") {
        Err(ParseError::Syntax(m)) => assert!(!m.is_empty()),
        other => panic!("expected a syntax error, got {other:?}"),
    }
}

#[test]
fn non_scalar_key_rejected() {
    let evs = vec![
        YamlEvent::StreamStart,
        YamlEvent::DocumentStart(false),
        YamlEvent::MappingStart(0, false),
        YamlEvent::SequenceStart(0, false),
        YamlEvent::SequenceEnd,
        YamlEvent::Scalar("v".into(), ScalarStyle::Plain, 0, false),
        YamlEvent::MappingEnd,
        YamlEvent::DocumentEnd,
        YamlEvent::StreamEnd,
    ];
    assert_eq!(
        receive_events(&evs),
        Err(ParseError::Forbidden("mapping keys must be plain scalars".into()))
    );
}

#[test]
fn receiver_builds_values_from_events() {
    let evs = vec![
        YamlEvent::StreamStart,
        YamlEvent::DocumentStart(false),
        YamlEvent::SequenceStart(0, false),
        YamlEvent::Scalar("a".into(), ScalarStyle::Plain, 0, false),
        YamlEvent::Scalar("b".into(), ScalarStyle::Plain, 0, false),
        YamlEvent::SequenceEnd,
        YamlEvent::DocumentEnd,
        YamlEvent::StreamEnd,
    ];
    assert_eq!(
        receive_events(&evs),
        Ok(Some(Value::Sequence(Sequence { items: vec![scalar("a"), scalar("b")] })))
    );
    assert_eq!(receive_events(&vec![]), Ok(None));
    assert_eq!(
        receive_events(&vec![YamlEvent::DocumentStart(true)]),
        Err(ParseError::Forbidden(
            "explicit document start `---` is not allowed in SYON".into()
        ))
    );
    assert_eq!(
        receive_events(&vec![YamlEvent::Alias(1)]),
        Err(ParseError::Forbidden("alias `*name` is not allowed in SYON".into()))
    );
}

// --- Errors ----------------------------------------------------------------

#[test]
fn error_texts() {
    assert_eq!(ParseError::Forbidden("x".into()).to_string(), "forbidden: x");
    assert_eq!(ParseError::Syntax("y".into()).to_string(), "syntax error: y");
    assert_eq!(SyonError::Forbidden("x".into()).to_string(), "forbidden: x");
    assert_eq!(SyonError::Syntax("y".into()).to_string(), "syntax error: y");
}

// --- JSON ------------------------------------------------------------------

#[test]
fn json_rendering() {
    let doc = parse_document("a:\n  - x\n  - \"q\\\"t\"\nb: c\nempty_map: \n").unwrap();
    let json = to_json(&doc.body, 0);
    assert_eq!(
        json,
        "{\n  \"a\": [\n    \"x\",\n    \"q\\\"t\"\n  ],\n  \"b\": \"c\",\n  \"empty_map\": \"~\"\n}"
    );
}

#[test]
fn json_escapes_control_characters() {
    let v = Value::LiteralBlock("tab\there\u{1}\\".into());
    assert_eq!(to_json(&v, 3), "\"tab\\there\\u0001\\\\\"");
    assert_eq!(to_json(&Value::Sequence(Sequence { items: vec![] }), 0), "[]");
    assert_eq!(to_json(&Value::Mapping(Mapping { entries: vec![] }), 2), "{}");
}

#[test]
fn json_indents_at_depth() {
    let v = Value::Sequence(Sequence { items: vec![scalar("a")] });
    assert_eq!(to_json(&v, 1), "[\n    \"a\"\n  ]");
}

#[test]
fn document_fields() {
    let d = Document { body: scalar("x"), trailing_comments: vec![] };
    assert_eq!(d.body, scalar("x"));
}

#[test]
fn crlf_line_endings() {
    assert_eq!(
        preflight("a: 1\r\n---\r\n"),
        Err(ParseError::Forbidden(
            "line 2: explicit document start `---` is not allowed in SYON".into()
        ))
    );
    assert_eq!(
        extract_comments("a # x\r\nb # y\r"),
        vec![(1, "x".to_string()), (2, "y".to_string())]
    );
}

#[test]
fn error_json_is_a_json_object() {
    let j = error_json("bad \"x\" \\ y");
    assert_eq!(j, "{\"error\":\"bad \\\"x\\\" \\\\ y\"}");
    let v: serde_json::Value = serde_json::from_str(&j).unwrap();
    assert_eq!(v["error"], "bad \"x\" \\ y");
}
