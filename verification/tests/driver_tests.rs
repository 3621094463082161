use speclex::{next_token_start, spec_tokenize, tokenize, Token};
use std::sync::Arc;

fn sequential_tokens(input: &str) -> Vec<Token> {
    let mut t = tokenize(input);
    let mut out: Vec<Token> = Vec::new();
    while let Some((token, _)) = t.next() {
        out.push(token);
    }
    out
}

#[test]
fn test_next_token_start() {
    let css = Arc::new("cls1 : cls2 {prop: val;}".to_string());

    assert!(next_token_start(css.clone(), 8) == 11);
    assert!(next_token_start(css.clone(), 4) == 4);
    assert!(next_token_start(css.clone(), 13) == 13);
    assert!(next_token_start(css.clone(), 14) == 17);
    assert!(next_token_start(css.clone(), 0) == 0);
}

#[test]
fn next_token_start_idempotent_examples() {
    let css = Arc::new("cls1 : cls2 {prop: val;}".to_string());
    for k in [0usize, 4, 8, 13, 14, 20, 24] {
        let first = next_token_start(css.clone(), k);
        let second = next_token_start(css.clone(), first);
        assert_eq!(first, second);
    }
}

#[test]
fn parallel_equals_sequential_small() {
    let input = "cls1 : cls2 {prop: val;}";
    let expected = vec![
        Token::Ident("cls1".to_string()),
        Token::WhiteSpace,
        Token::Colon,
        Token::WhiteSpace,
        Token::Ident("cls2".to_string()),
        Token::WhiteSpace,
        Token::LeftCurlyBracket,
        Token::Ident("prop".to_string()),
        Token::Colon,
        Token::WhiteSpace,
        Token::Ident("val".to_string()),
        Token::Semicolon,
        Token::RightCurlyBracket,
    ];
    assert_eq!(sequential_tokens(input), expected);
    for n in 1..=3usize {
        let (stats, nodes) = spec_tokenize(input, n);
        let tokens: Vec<Token> = nodes.into_iter().map(|p| p.0).collect();
        assert_eq!(tokens, expected);
        assert_eq!(stats.mispredictions.len(), n);
        assert_eq!(stats.mispredictions[0], false);
    }
}

#[test]
fn parallel_equals_sequential_varied() {
    let inputs = [
        "",
        "a",
        "/* only a comment */",
        "url( \"x\" ) 12px #foo \"str\" u+4?? \\41 x",
        "a{b:c}\nd{e:f'g\nh'}",
        "0123456789 0123456789 0123456789 0123456789",
    ];
    for input in inputs {
        let expected = sequential_tokens(input);
        for n in 1..=7usize {
            let (stats, nodes) = spec_tokenize(input, n);
            let tokens: Vec<Token> = nodes.into_iter().map(|p| p.0).collect();
            assert_eq!(tokens, expected, "input {:?} with {} partitions", input, n);
            assert_eq!(stats.mispredictions.len(), n);
        }
    }
}

#[test]
fn misprediction_is_repaired() {
    // A long string straddles the partition cut, so the predictor's guess
    // inside it is wrong; validation re-lexes and the output still matches.
    let input = "\"aaaaaaaaaaaaaaaaaaaaaaaaaaaaaa\" b";
    let expected = sequential_tokens(input);
    for n in 2..=4usize {
        let (stats, nodes) = spec_tokenize(input, n);
        let tokens: Vec<Token> = nodes.into_iter().map(|p| p.0).collect();
        assert_eq!(tokens, expected);
        assert_eq!(stats.mispredictions.len(), n);
        assert!(stats.mispredictions.iter().any(|m| *m));
    }
    let (stats, _) = spec_tokenize(input, 2);
    assert_eq!(stats.mispredictions, vec![false, true]);
}

#[test]
fn next_token_start_inside_long_string() {
    // The cut at offset 12 lies inside a 22-character string token, so the
    // predictor, which rewinds only a bounded number of characters, answers
    // from inside the string's body rather than at a real token boundary.
    let s = Arc::new("x \"aaaaaaaaaaaaaaaaaaaa\" y \"b".to_string());
    assert_eq!(next_token_start(s.clone(), 12), 24);
    assert_eq!(next_token_start(s.clone(), 24), 28);
}

#[test]
fn more_partitions_than_characters() {
    let input = "a{b}";
    let expected = sequential_tokens(input);
    let (stats, nodes) = spec_tokenize(input, 50);
    let tokens: Vec<Token> = nodes.into_iter().map(|p| p.0).collect();
    assert_eq!(tokens, expected);
    assert_eq!(stats.mispredictions.len(), 50);
}
