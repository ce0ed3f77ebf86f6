use syon::ast::{Comment, Document, Mapping, MappingEntry, Sequence, Value};
use syon::events::{ScalarStyle, YamlEvent};
use syon::lexer::{tokenize, Token};
use syon::parser::{document_from_events, parse_document, ParseError};
use syon::receiver::receive_events;

fn text_value(s: &str) -> Value {
    Value::Scalar(s.to_string())
}

fn plain(s: &str) -> YamlEvent {
    YamlEvent::Scalar(s.to_string(), ScalarStyle::Plain, 0, false)
}

fn mapping_of(pairs: Vec<YamlEvent>) -> Vec<YamlEvent> {
    let mut evs = vec![
        YamlEvent::StreamStart,
        YamlEvent::DocumentStart(false),
        YamlEvent::MappingStart(0, false),
    ];
    evs.extend(pairs);
    evs.push(YamlEvent::MappingEnd);
    evs.push(YamlEvent::DocumentEnd);
    evs.push(YamlEvent::StreamEnd);
    evs
}

// --- Tabs in indentation ---------------------------------------------------

#[test]
fn tokenize_rejects_tab_indentation() {
    assert_eq!(
        tokenize("a:\n\tb: 1\n"),
        Err("line 2: tabs are not allowed in indentation".to_string())
    );
    assert_eq!(
        tokenize("a: 1\n  \tb: 2\n"),
        Err("line 2: tabs are not allowed in indentation".to_string())
    );
}

#[test]
fn tokenize_accepts_tabs_outside_indentation() {
    // A blank line of tabs and a tab after the content are no indentation.
    let ts = tokenize("a: 1\n\t\t\nb:\tc\n").unwrap();
    assert_eq!(
        ts,
        vec![
            Token::Indent(0),
            Token::Ident("a".into()),
            Token::Colon,
            Token::Integer(1),
            Token::Newline,
            Token::Newline,
            Token::Indent(0),
            Token::Ident("b:\tc".into()),
            Token::Newline,
        ]
    );
}

// --- Reserved words as keys ------------------------------------------------

#[test]
fn tokenize_rejects_reserved_bare_keys() {
    assert_eq!(
        tokenize("true: 1\n"),
        Err("line 1: reserved word `true` cannot be a bare key".to_string())
    );
    assert_eq!(
        tokenize("a: 1\n  null : x\n"),
        Err("line 2: reserved word `null` cannot be a bare key".to_string())
    );
    assert_eq!(
        tokenize("false:\n"),
        Err("line 1: reserved word `false` cannot be a bare key".to_string())
    );
}

#[test]
fn tokenize_accepts_reserved_words_elsewhere() {
    let ts = tokenize("\"true\": null\n- false\nnullish: true\n").unwrap();
    assert_eq!(
        ts,
        vec![
            Token::Indent(0),
            Token::Ident("\"true\"".into()),
            Token::Colon,
            Token::Null,
            Token::Newline,
            Token::Indent(0),
            Token::Dash,
            Token::Bool(false),
            Token::Newline,
            Token::Indent(0),
            Token::Ident("nullish".into()),
            Token::Colon,
            Token::Bool(true),
            Token::Newline,
        ]
    );
}

#[test]
fn tokenize_reports_the_first_faulty_line() {
    assert_eq!(
        tokenize("null: 1\n\tx: 2\n"),
        Err("line 1: reserved word `null` cannot be a bare key".to_string())
    );
}

#[test]
fn parse_rejects_reserved_bare_keys() {
    assert_eq!(
        parse_document("true: 1\n"),
        Err(ParseError::Forbidden("reserved word `true` cannot be a bare key".into()))
    );
    assert_eq!(
        parse_document("a:\n  null: 1\n"),
        Err(ParseError::Forbidden("reserved word `null` cannot be a bare key".into()))
    );
}

#[test]
fn parse_accepts_quoted_reserved_keys_and_reserved_values() {
    let doc = parse_document("\"true\": false\nb: null\n").unwrap();
    assert_eq!(
        doc.body,
        Value::Mapping(Mapping {
            entries: vec![
                MappingEntry {
                    key: "true".into(),
                    value: text_value("false"),
                    leading_comments: vec![],
                    trailing_comment: None,
                },
                MappingEntry {
                    key: "b".into(),
                    value: text_value("null"),
                    leading_comments: vec![],
                    trailing_comment: None,
                },
            ],
        })
    );
    let doc = parse_document("- true\n- null\n").unwrap();
    assert_eq!(
        doc.body,
        Value::Sequence(Sequence { items: vec![text_value("true"), text_value("null")] })
    );
}

#[test]
fn receiver_rejects_plain_reserved_key_only() {
    let evs = mapping_of(vec![plain("false"), plain("x")]);
    assert_eq!(
        receive_events(&evs),
        Err(ParseError::Forbidden("reserved word `false` cannot be a bare key".into()))
    );
    let quoted = YamlEvent::Scalar("false".into(), ScalarStyle::DoubleQuoted, 0, false);
    let evs = mapping_of(vec![quoted, plain("null")]);
    let v = receive_events(&evs).unwrap().unwrap();
    assert_eq!(
        v,
        Value::Mapping(Mapping {
            entries: vec![MappingEntry {
                key: "false".into(),
                value: text_value("null"),
                leading_comments: vec![],
                trailing_comment: None,
            }],
        })
    );
}

// --- Building a document from events --------------------------------------

#[test]
fn document_from_events_builds_value_and_comments() {
    let evs = mapping_of(vec![plain("a"), plain("1")]);
    let doc = document_from_events("a: 1 # one\n# end\n", &evs).unwrap();
    assert_eq!(
        doc,
        Document {
            body: Value::Mapping(Mapping {
                entries: vec![MappingEntry {
                    key: "a".into(),
                    value: text_value("1"),
                    leading_comments: vec![],
                    trailing_comment: None,
                }],
            }),
            trailing_comments: vec![
                Comment { text: "one".into() },
                Comment { text: "end".into() },
            ],
        }
    );
}

#[test]
fn document_from_events_checks_source_first() {
    let evs = mapping_of(vec![plain("a"), plain("1")]);
    // A literal block ignores the events.
    let doc = document_from_events("[[[\nraw: x\n]]]\n", &evs).unwrap();
    assert_eq!(doc.body, Value::LiteralBlock("raw: x".into()));
    assert!(doc.trailing_comments.is_empty());
    // A forbidden line wins over the events.
    assert_eq!(
        document_from_events("a: 1\n---\n", &evs),
        Err(ParseError::Forbidden(
            "line 2: explicit document start `---` is not allowed in SYON".into()
        ))
    );
    // No value at all gives an empty mapping.
    let empty = vec![YamlEvent::StreamStart, YamlEvent::StreamEnd];
    let doc = document_from_events("# only\n", &empty).unwrap();
    assert_eq!(doc.body, Value::Mapping(Mapping { entries: vec![] }));
    assert_eq!(doc.trailing_comments, vec![Comment { text: "only".into() }]);
}

#[test]
fn document_from_events_reports_event_errors() {
    let evs = mapping_of(vec![plain("a"), plain("1"), plain("a"), plain("2")]);
    assert_eq!(
        document_from_events("a: 1\na: 2\n", &evs),
        Err(ParseError::Syntax("duplicate key \"a\"".into()))
    );
}

// --- Copies ------------------------------------------------------------------

#[test]
fn clone_copies_whole_documents() {
    let doc = parse_document("a:\n  - x\n  - b: \"y\" # c\n").unwrap();
    let copy = doc.clone();
    assert_eq!(copy, doc);
    let entry = match &doc.body {
        Value::Mapping(m) => m.entries[0].clone(),
        _ => panic!("expected a mapping"),
    };
    assert_eq!(entry.key, "a");
    let items = match &entry.value {
        Value::Sequence(q) => q.clone(),
        _ => panic!("expected a sequence"),
    };
    assert_eq!(items.items.len(), 2);
    assert_eq!(items.items[0], text_value("x"));
}

// --- JSON text reads back ----------------------------------------------------

fn json_str(s: &str) -> serde_json::Value {
    serde_json::Value::String(s.to_string())
}

#[test]
fn to_json_text_reads_back_as_the_value() {
    let v = Value::Mapping(Mapping {
        entries: vec![
            MappingEntry {
                key: "q\"k\\".into(),
                value: Value::Sequence(Sequence {
                    items: vec![
                        text_value("tab\there\u{1}é"),
                        Value::LiteralBlock("line one\nline two".into()),
                        Value::Mapping(Mapping { entries: vec![] }),
                        Value::Sequence(Sequence { items: vec![] }),
                    ],
                }),
                leading_comments: vec![],
                trailing_comment: None,
            },
            MappingEntry {
                key: "b".into(),
                value: text_value("42"),
                leading_comments: vec![],
                trailing_comment: None,
            },
        ],
    });
    let mut inner = serde_json::Map::new();
    inner.insert(
        "q\"k\\".to_string(),
        serde_json::Value::Array(vec![
            json_str("tab\there\u{1}é"),
            json_str("line one\nline two"),
            serde_json::Value::Object(serde_json::Map::new()),
            serde_json::Value::Array(vec![]),
        ]),
    );
    inner.insert("b".to_string(), json_str("42"));
    let expected = serde_json::Value::Object(inner);
    for depth in [0usize, 3] {
        let text = syon::json::to_json(&v, depth);
        let read: serde_json::Value = serde_json::from_str(&text).unwrap();
        assert_eq!(read, expected);
    }
}
