use syon::lexer::{find_key_colon, tokenize, tokenize_value, Token};

#[test]
fn tokenize_simple_mapping() {
    let src = "name: Alice\nage: 30\n";
    let tokens = tokenize(src).unwrap();
    assert!(tokens.contains(&Token::Ident("name".into())));
    assert!(tokens.contains(&Token::Colon));
    assert!(tokens.contains(&Token::Ident("Alice".into())));
    assert!(tokens.contains(&Token::Integer(30)));
}

#[test]
fn tokenize_sequence_items() {
    let src = "- foo\n- bar\n";
    let tokens = tokenize(src).unwrap();
    assert_eq!(tokens.iter().filter(|t| **t == Token::Dash).count(), 2);
    assert!(tokens.contains(&Token::Ident("foo".into())));
    assert!(tokens.contains(&Token::Ident("bar".into())));
}

#[test]
fn tokenize_null_and_booleans() {
    let src = "a: null\nb: true\nc: false\n";
    let tokens = tokenize(src).unwrap();
    assert!(tokens.contains(&Token::Null));
    assert!(tokens.contains(&Token::Bool(true)));
    assert!(tokens.contains(&Token::Bool(false)));
}

#[test]
fn tokenize_quoted_string() {
    let src = "msg: \"hello world\"\n";
    let tokens = tokenize(src).unwrap();
    assert!(tokens.contains(&Token::QuotedStr("hello world".into())));
}

#[test]
fn tokenize_float() {
    let src = "ratio: 3.14\n";
    let tokens = tokenize(src).unwrap();
    // A float token keeps its literal text, whose `f64` value is 3.14.
    assert!(tokens
        .iter()
        .any(|t| matches!(t, Token::Float(s) if s.parse::<f64>() == Ok(3.14))));
}

#[test]
fn tokenize_exact_stream_of_a_mapping_line() {
    let tokens = tokenize("  key: value\n").unwrap();
    assert_eq!(
        tokens,
        vec![
            Token::Indent(2),
            Token::Ident("key".into()),
            Token::Colon,
            Token::Ident("value".into()),
            Token::Newline
        ]
    );
}

#[test]
fn tokenize_blank_line_is_a_newline() {
    assert_eq!(tokenize("\n   \n").unwrap(), vec![Token::Newline, Token::Newline]);
}

#[test]
fn tokenize_key_without_value() {
    let tokens = tokenize("parent:\n").unwrap();
    assert_eq!(
        tokens,
        vec![Token::Indent(0), Token::Ident("parent".into()), Token::Colon, Token::Newline]
    );
}

#[test]
fn tokenize_integer_edges() {
    let t = tokenize("- -9223372036854775808\n- +7\n- 9223372036854775808\n- 1-2\n- -0\n").unwrap();
    assert!(t.contains(&Token::Integer(i64::MIN)));
    assert!(t.contains(&Token::Integer(0)));
    // INTEGER is `-?[0-9]+` within the range of i64.
    assert!(t.contains(&Token::Ident("+7".into())));
    assert!(t.contains(&Token::Ident("9223372036854775808".into())));
    assert!(t.contains(&Token::Ident("1-2".into())));
}

#[test]
fn tokenize_float_grammar() {
    let t = tokenize("- 1.5\n- -0.25\n- 1e5\n- .5\n- 5.\n- 1.5e3\n- inf\n- NaN\n").unwrap();
    for f in ["1.5", "-0.25"] {
        assert!(t.contains(&Token::Float(f.into())), "{f}");
    }
    for s in ["1e5", ".5", "5.", "1.5e3", "inf", "NaN"] {
        assert!(t.contains(&Token::Ident(s.into())), "{s}");
    }
}

#[test]
fn tokenize_inf_and_nan_are_identifiers() {
    let ts = tokenize("x: inf\ny: NaN\n").unwrap();
    assert!(ts.contains(&Token::Ident("inf".into())));
    assert!(ts.contains(&Token::Ident("NaN".into())));
    assert!(!ts.iter().any(|t| matches!(t, Token::Float(_))));
}

#[test]
fn tokenize_quoted_escapes() {
    let t = tokenize("- \"a\\\"b\\nc\"\n- ~\n").unwrap();
    assert!(t.contains(&Token::QuotedStr("a\"b\nc".into())));
    assert!(t.contains(&Token::Null));
    let t = tokenize("m: \"a\\tb\"\n").unwrap();
    assert!(t.contains(&Token::QuotedStr("a\tb".into())));
    let t = tokenize("- \"x\\\\y\"\n- \"\\u00e9\\u0041\"\n- \"\\uD800\"\n- \"\\q\"\n- \"\\\\n\"\n").unwrap();
    assert!(t.contains(&Token::QuotedStr("x\\y".into())));
    assert!(t.contains(&Token::QuotedStr("éA".into())));
    assert!(t.contains(&Token::QuotedStr("\\uD800".into())));
    assert!(t.contains(&Token::QuotedStr("\\q".into())));
    assert!(t.contains(&Token::QuotedStr("\\n".into())));
}

#[test]
fn tokenize_value_pushes_one_token() {
    let mut out = vec![Token::Dash];
    assert_eq!(tokenize_value("true", &mut out), Ok(()));
    assert_eq!(tokenize_value("42", &mut out), Ok(()));
    assert_eq!(tokenize_value("\"q\"", &mut out), Ok(()));
    assert_eq!(tokenize_value("-3.5", &mut out), Ok(()));
    assert_eq!(tokenize_value("word", &mut out), Ok(()));
    assert_eq!(
        out,
        vec![
            Token::Dash,
            Token::Bool(true),
            Token::Integer(42),
            Token::QuotedStr("q".into()),
            Token::Float("-3.5".into()),
            Token::Ident("word".into())
        ]
    );
}

#[test]
fn tokenize_indent_counts_bytes() {
    // U+3000 IDEOGRAPHIC SPACE is white space of three bytes.
    let t = tokenize("\u{3000}x\n").unwrap();
    assert_eq!(t[0], Token::Indent(3));
}

#[test]
fn find_key_colon_skips_quoted_and_unspaced_colons() {
    assert_eq!(find_key_colon("a: b"), Some(1));
    assert_eq!(find_key_colon("\"a: b\": c"), Some(6));
    assert_eq!(find_key_colon("http://x: y"), Some(8));
    assert_eq!(find_key_colon("key:"), Some(3));
    assert_eq!(find_key_colon("no colon here"), None);
    assert_eq!(find_key_colon("a:b"), None);
}

#[test]
fn tokenize_cuts_key_at_the_colon() {
    let t = tokenize("é: x\n").unwrap();
    assert_eq!(
        t,
        vec![
            Token::Indent(0),
            Token::Ident("é".into()),
            Token::Colon,
            Token::Ident("x".into()),
            Token::Newline
        ]
    );
    let t = tokenize("éa: x\n").unwrap();
    assert!(t.contains(&Token::Ident("éa".into())));
    assert!(t.contains(&Token::Ident("x".into())));
}

#[test]
fn tokenize_crlf_lines() {
    let t = tokenize("a: 1\r\n- b\r\n").unwrap();
    assert_eq!(
        t,
        vec![
            Token::Indent(0),
            Token::Ident("a".into()),
            Token::Colon,
            Token::Integer(1),
            Token::Newline,
            Token::Indent(0),
            Token::Dash,
            Token::Ident("b".into()),
            Token::Newline
        ]
    );
}
