use tantivy::tokenizer::TokenStream as _;
use tantivy::tokenizer::Tokenizer as _;
use tantivy::tokenizer::{RawTokenizer, WhitespaceTokenizer};
use tantivy_analysis_contrib::token::{collect_tokens, Token, VecTokenStream};

fn lib_tokens(stream: &mut dyn tantivy::tokenizer::TokenStream) -> Vec<Token> {
    let mut out = Vec::new();
    while stream.advance() {
        let t = stream.token();
        out.push(Token {
            offset_from: t.offset_from,
            offset_to: t.offset_to,
            position: t.position,
            text: t.text.clone(),
            position_length: t.position_length,
        });
    }
    out
}

#[allow(dead_code)]
fn whitespace_stream(text: &str) -> VecTokenStream {
    let mut tokenizer = WhitespaceTokenizer::default();
    let mut stream = tokenizer.token_stream(text);
    VecTokenStream::new(lib_tokens(&mut stream))
}

#[allow(dead_code)]
fn raw_stream(text: &str) -> VecTokenStream {
    let mut tokenizer = RawTokenizer::default();
    let mut stream = tokenizer.token_stream(text);
    VecTokenStream::new(lib_tokens(&mut stream))
}
use tantivy_analysis_contrib::commons::limit::LimitTokenCountFilter;

fn token_stream_helper(text: &str, max_token: usize) -> Vec<Token> {
    let wrapper = LimitTokenCountFilter::new(max_token).transform(WhitespaceTokenizer::default());
    let mut stream = wrapper.token_stream(whitespace_stream(text));
    collect_tokens(&mut stream)
}

#[test]
fn limit_test_lower() {
    let result = token_stream_helper("This is a text", 5);
    let expected: Vec<Token> = vec![
        Token {
            offset_from: 0,
            offset_to: 4,
            position: 0,
            text: "This".to_string(),
            position_length: 1,
        },
        Token {
            offset_from: 5,
            offset_to: 7,
            position: 1,
            text: "is".to_string(),
            position_length: 1,
        },
        Token {
            offset_from: 8,
            offset_to: 9,
            position: 2,
            text: "a".to_string(),
            position_length: 1,
        },
        Token {
            offset_from: 10,
            offset_to: 14,
            position: 3,
            text: "text".to_string(),
            position_length: 1,
        },
    ];

    assert_eq!(result, expected);
}

#[test]
fn limit_test_equals() {
    let result = token_stream_helper("This is a text", 4);
    let expected: Vec<Token> = vec![
        Token {
            offset_from: 0,
            offset_to: 4,
            position: 0,
            text: "This".to_string(),
            position_length: 1,
        },
        Token {
            offset_from: 5,
            offset_to: 7,
            position: 1,
            text: "is".to_string(),
            position_length: 1,
        },
        Token {
            offset_from: 8,
            offset_to: 9,
            position: 2,
            text: "a".to_string(),
            position_length: 1,
        },
        Token {
            offset_from: 10,
            offset_to: 14,
            position: 3,
            text: "text".to_string(),
            position_length: 1,
        },
    ];

    assert_eq!(result, expected);
}

#[test]
fn limit_test_greater() {
    let result = token_stream_helper("This is a text", 3);
    let expected: Vec<Token> = vec![
        Token {
            offset_from: 0,
            offset_to: 4,
            position: 0,
            text: "This".to_string(),
            position_length: 1,
        },
        Token {
            offset_from: 5,
            offset_to: 7,
            position: 1,
            text: "is".to_string(),
            position_length: 1,
        },
        Token {
            offset_from: 8,
            offset_to: 9,
            position: 2,
            text: "a".to_string(),
            position_length: 1,
        },
    ];

    assert_eq!(result, expected);
}

#[test]
fn mod_test_lower() {
    let result = token_stream_helper("This is a text", 5);
    let expected: Vec<Token> = vec![
        Token {
            offset_from: 0,
            offset_to: 4,
            position: 0,
            text: "This".to_string(),
            position_length: 1,
        },
        Token {
            offset_from: 5,
            offset_to: 7,
            position: 1,
            text: "is".to_string(),
            position_length: 1,
        },
        Token {
            offset_from: 8,
            offset_to: 9,
            position: 2,
            text: "a".to_string(),
            position_length: 1,
        },
        Token {
            offset_from: 10,
            offset_to: 14,
            position: 3,
            text: "text".to_string(),
            position_length: 1,
        },
    ];

    assert_eq!(result, expected);
}

#[test]
fn mod_test_equals() {
    let result = token_stream_helper("This is a text", 4);
    let expected: Vec<Token> = vec![
        Token {
            offset_from: 0,
            offset_to: 4,
            position: 0,
            text: "This".to_string(),
            position_length: 1,
        },
        Token {
            offset_from: 5,
            offset_to: 7,
            position: 1,
            text: "is".to_string(),
            position_length: 1,
        },
        Token {
            offset_from: 8,
            offset_to: 9,
            position: 2,
            text: "a".to_string(),
            position_length: 1,
        },
        Token {
            offset_from: 10,
            offset_to: 14,
            position: 3,
            text: "text".to_string(),
            position_length: 1,
        },
    ];

    assert_eq!(result, expected);
}

#[test]
fn mod_test_greater() {
    let result = token_stream_helper("This is a text", 3);
    let expected: Vec<Token> = vec![
        Token {
            offset_from: 0,
            offset_to: 4,
            position: 0,
            text: "This".to_string(),
            position_length: 1,
        },
        Token {
            offset_from: 5,
            offset_to: 7,
            position: 1,
            text: "is".to_string(),
            position_length: 1,
        },
        Token {
            offset_from: 8,
            offset_to: 9,
            position: 2,
            text: "a".to_string(),
            position_length: 1,
        },
    ];

    assert_eq!(result, expected);
}
