use tantivy::tokenizer::TokenStream as _;
use tantivy::tokenizer::Tokenizer as _;
use tantivy::tokenizer::RawTokenizer;
use tantivy_analysis_contrib::icu::tokenizer::{BreakPoint, ICUTokenizer};
use tantivy_analysis_contrib::icu::{Direction, ICUNormalizer2TokenFilter, ICUTransformTokenFilter, Mode};
use tantivy_analysis_contrib::token::{collect_tokens, Token, VecTokenStream};

fn lib_tokens(stream: &mut dyn tantivy::tokenizer::TokenStream) -> Vec<Token> {
    let mut out = Vec::new();
    while stream.advance() {
        let t = stream.token();
        out.push(Token {
            offset_from: t.offset_from,
            offset_to: t.offset_to,
            position: t.position,
            text: t.text.clone(),
            position_length: t.position_length,
        });
    }
    out
}

fn raw_stream(text: &str) -> VecTokenStream {
    let mut tokenizer = RawTokenizer::default();
    let mut stream = tokenizer.token_stream(text);
    VecTokenStream::new(lib_tokens(&mut stream))
}

/// Stands for ICU's conversions on the texts of these tests, on which they
/// give the text back.
fn unchanged(text: &str) -> Option<String> {
    Some(text.to_string())
}

fn normalize_raw(text: &str, mode: Mode) -> Vec<Token> {
    let wrapper = ICUNormalizer2TokenFilter::new::<String>(mode, Ok(()))
        .unwrap()
        .transform(RawTokenizer::default());
    let mut stream = wrapper.token_stream(raw_stream(text), unchanged);
    let mut tokens = Vec::new();
    while stream.advance() {
        tokens.push(stream.token().clone());
    }
    tokens
}

fn transform_raw(text: &str, compound_id: &str, direction: Direction) -> Vec<Token> {
    let wrapper =
        ICUTransformTokenFilter::new::<String>(compound_id.to_string(), None, direction, Ok(()))
            .unwrap()
            .transform(RawTokenizer::default());
    let mut stream = wrapper.token_stream(raw_stream(text), unchanged);
    let mut tokens = Vec::new();
    while stream.advance() {
        tokens.push(stream.token().clone());
    }
    tokens
}

fn empty_token() -> Vec<Token> {
    vec![Token {
        offset_from: 0,
        offset_to: 0,
        position: 0,
        text: "".to_string(),
        position_length: 1,
    }]
}

#[test]
fn mod_test_empty() {
    assert_eq!(empty_token(), normalize_raw("", Mode::NFKCCasefold));
}

#[test]
fn normalizer_test_empty() {
    assert_eq!(empty_token(), normalize_raw("", Mode::NFKCCasefold));
}

#[test]
fn transform_test_empty() {
    assert_eq!(empty_token(), transform_raw("", "Any-Latin", Direction::Forward));
}

/// The tokens for `text`, whose word break iterator starts at 0 and then
/// finds `breaks` (position, rule status).
fn words(text: &str, breaks: &[(i32, i32)]) -> Vec<Token> {
    let breaks: Vec<BreakPoint> = breaks
        .iter()
        .map(|&(position, rule_status)| BreakPoint {
            position,
            rule_status,
        })
        .collect();
    let mut stream = ICUTokenizer.try_token_stream(text, 0, breaks).unwrap();
    collect_tokens(&mut stream)
}

#[test]
fn tokenizer_test_empty() {
    let expected: Vec<Token> = vec![];
    // ICU finds no boundary after 0 in "", and marks the boundary after
    // "." or " " with the status of segments that are no words (0).
    assert_eq!(words("", &[]), expected);
    assert_eq!(words(".", &[(1, 0)]), expected);
    assert_eq!(words(" ", &[(1, 0)]), expected);
}
