use speclex::{tokenize, Node, SourceLocation, Token};

fn collect_tokens(input: &str) -> Vec<Token> {
    let mut t = tokenize(input);
    let mut out: Vec<Token> = Vec::new();
    while let Some((token, _)) = t.next() {
        out.push(token);
    }
    out
}

fn collect_nodes(input: &str) -> Vec<Node> {
    let mut t = tokenize(input);
    let mut out: Vec<Node> = Vec::new();
    while let Some(node) = t.next() {
        out.push(node);
    }
    out
}

#[test]
fn tokenize_simple() {
    let mut t = tokenize("a");
    assert!(t.next() == Some((Token::Ident("a".to_string()), SourceLocation { line: 1, column: 1 })));
    assert!(t.next() == None);
}

#[test]
fn comment_then_dimension() {
    let tokens = collect_tokens("/* c */ 1.5em");
    assert_eq!(tokens.len(), 2);
    assert!(tokens[0] == Token::WhiteSpace);
    match &tokens[1] {
        Token::Dimension(value, unit) => {
            assert_eq!(value.representation, "1.5");
            assert_eq!(value.int_value, None);
            let parsed: f64 = value.representation.parse().unwrap();
            assert!((parsed - 1.5).abs() < 1e-6);
            assert_eq!(unit, "em");
        },
        other => panic!("expected a dimension, got {:?}", other),
    }
}

#[test]
fn hash_and_id_hash() {
    let tokens = collect_tokens("#foo #123");
    assert_eq!(
        tokens,
        vec![
            Token::IDHash("foo".to_string()),
            Token::WhiteSpace,
            Token::Hash("123".to_string()),
        ]
    );
}

#[test]
fn quoted_url_and_bad_url() {
    assert_eq!(collect_tokens("url( \"x\" )"), vec![Token::URL("x".to_string())]);
    assert_eq!(collect_tokens("url(a b)"), vec![Token::BadURL]);
}

#[test]
fn unquoted_url() {
    assert_eq!(collect_tokens("url(a)"), vec![Token::URL("a".to_string())]);
    assert_eq!(collect_tokens("URL(  a  )"), vec![Token::URL("a".to_string())]);
}

#[test]
fn unicode_ranges() {
    assert_eq!(collect_tokens("U+4??"), vec![Token::UnicodeRange(0x400, 0x4FF)]);
    assert_eq!(collect_tokens("U+20-7E"), vec![Token::UnicodeRange(0x20, 0x7E)]);
    assert_eq!(collect_tokens("u+1f600"), vec![Token::UnicodeRange(0x1F600, 0x1F600)]);
}

#[test]
fn bad_string_leaves_newline() {
    let tokens = collect_tokens("\"ab\nc\"");
    assert_eq!(
        tokens,
        vec![
            Token::BadString,
            Token::WhiteSpace,
            Token::Ident("c".to_string()),
            Token::BadString,
        ]
    );
}

#[test]
fn string_with_escapes() {
    assert_eq!(collect_tokens("\"ab\""), vec![Token::QuotedString("ab".to_string())]);
    assert_eq!(collect_tokens("'a\\'b'"), vec![Token::QuotedString("a'b".to_string())]);
    assert_eq!(collect_tokens("\"a\\\nb\""), vec![Token::QuotedString("ab".to_string())]);
}

#[test]
fn hex_escape_in_ident() {
    assert_eq!(collect_tokens("\\41 x"), vec![Token::Ident("Ax".to_string())]);
    assert_eq!(collect_tokens("\\0 x"), vec![Token::Ident("\u{FFFD}x".to_string())]);
}

#[test]
fn preprocess_examples() {
    assert_eq!(speclex::preprocess("a\r\nb\rc\u{C}d\0e"), "a\nb\nc\nd\u{FFFD}e");
    let once = speclex::preprocess("x\r\r\n\u{C}y\0");
    let twice = speclex::preprocess(&once);
    assert_eq!(once, twice);
}

#[test]
fn numeric_tokens() {
    let tokens = collect_tokens("12 +3.5 -4e2 50%");
    assert_eq!(tokens.len(), 7);
    match &tokens[0] {
        Token::Number(v) => {
            assert_eq!(v.representation, "12");
            assert_eq!(v.int_value, Some(12));
        },
        other => panic!("expected a number, got {:?}", other),
    }
    match &tokens[2] {
        Token::Number(v) => {
            assert_eq!(v.representation, "+3.5");
            assert_eq!(v.int_value, None);
        },
        other => panic!("expected a number, got {:?}", other),
    }
    match &tokens[4] {
        Token::Number(v) => {
            assert_eq!(v.representation, "-4e2");
            assert_eq!(v.int_value, None);
        },
        other => panic!("expected a number, got {:?}", other),
    }
    match &tokens[6] {
        Token::Percentage(v) => {
            assert_eq!(v.representation, "50");
            assert_eq!(v.int_value, Some(50));
        },
        other => panic!("expected a percentage, got {:?}", other),
    }
}

#[test]
fn int_value_round_trip_examples() {
    let tokens = collect_tokens("+7 -0042");
    match &tokens[0] {
        Token::Number(v) => {
            let reparsed: i64 = v.representation.trim_start_matches('+').parse().unwrap();
            assert_eq!(v.int_value, Some(reparsed));
        },
        other => panic!("expected a number, got {:?}", other),
    }
    match &tokens[2] {
        Token::Number(v) => {
            let reparsed: i64 = v.representation.parse().unwrap();
            assert_eq!(v.int_value, Some(reparsed));
        },
        other => panic!("expected a number, got {:?}", other),
    }
}

#[test]
fn int_value_saturates() {
    let tokens = collect_tokens("99999999999999999999 -99999999999999999999");
    match &tokens[0] {
        Token::Number(v) => assert_eq!(v.int_value, Some(i64::MAX)),
        other => panic!("expected a number, got {:?}", other),
    }
    match &tokens[2] {
        Token::Number(v) => assert_eq!(v.int_value, Some(i64::MIN)),
        other => panic!("expected a number, got {:?}", other),
    }
}

#[test]
fn punctuation_tokens() {
    assert_eq!(
        collect_tokens("~= |= ^= $= *= ||"),
        vec![
            Token::IncludeMatch,
            Token::WhiteSpace,
            Token::DashMatch,
            Token::WhiteSpace,
            Token::PrefixMatch,
            Token::WhiteSpace,
            Token::SuffixMatch,
            Token::WhiteSpace,
            Token::SubstringMatch,
            Token::WhiteSpace,
            Token::Column,
        ]
    );
    assert_eq!(collect_tokens("<!-- -->"), vec![Token::CDO, Token::WhiteSpace, Token::CDC]);
    assert_eq!(
        collect_tokens("[](){};:,"),
        vec![
            Token::LeftBracket,
            Token::RightBracket,
            Token::LeftParen,
            Token::RightParen,
            Token::LeftCurlyBracket,
            Token::RightCurlyBracket,
            Token::Semicolon,
            Token::Colon,
            Token::Comma,
        ]
    );
}

#[test]
fn function_and_at_keyword() {
    assert_eq!(
        collect_tokens("@media f(x)"),
        vec![
            Token::AtKeyword("media".to_string()),
            Token::WhiteSpace,
            Token::Function("f".to_string()),
            Token::Ident("x".to_string()),
            Token::RightParen,
        ]
    );
}

#[test]
fn locations_track_lines() {
    let nodes = collect_nodes("a\nbc");
    assert_eq!(nodes.len(), 3);
    assert_eq!(nodes[0].1, SourceLocation { line: 1, column: 1 });
    assert_eq!(nodes[1].1, SourceLocation { line: 1, column: 2 });
    assert_eq!(nodes[2].1, SourceLocation { line: 2, column: 1 });
}

#[test]
fn tokenization_covers_input() {
    let input = "x/*c*/ y { color: red; }";
    let mut t = tokenize(input);
    let mut total: usize = 0;
    let mut last = t.position;
    while t.next().is_some() {
        total += t.position - last;
        last = t.position;
    }
    total += t.position - last;
    assert_eq!(total, t.length);
    assert_eq!(t.position, t.length);
}

#[test]
fn hash_and_at_delims() {
    assert_eq!(
        collect_tokens("# @ ."),
        vec![
            Token::Delim('#'),
            Token::WhiteSpace,
            Token::Delim('@'),
            Token::WhiteSpace,
            Token::Delim('.'),
        ]
    );
}

#[test]
fn dash_ident_and_cdc() {
    assert_eq!(collect_tokens("-foo"), vec![Token::Ident("-foo".to_string())]);
    assert_eq!(
        collect_tokens("-->-"),
        vec![Token::CDC, Token::Delim('-')]
    );
}

#[test]
fn u_plus_without_range() {
    assert_eq!(
        collect_tokens("u+"),
        vec![Token::Ident("u".to_string()), Token::Delim('+')]
    );
}

#[test]
fn unterminated_string_is_bad() {
    assert_eq!(collect_tokens("\"abc"), vec![Token::BadString]);
}

#[test]
fn empty_and_unclosed_url() {
    assert_eq!(collect_tokens("url()"), vec![Token::URL(String::new())]);
    assert_eq!(collect_tokens("url(  )"), vec![Token::URL(String::new())]);
    assert_eq!(collect_tokens("url(\"x\""), vec![Token::URL("x".to_string())]);
}

#[test]
fn unterminated_comment_consumes_all() {
    assert_eq!(collect_tokens("a/* no end"), vec![Token::Ident("a".to_string())]);
}
