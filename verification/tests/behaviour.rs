use tantivy::tokenizer::TokenStream as _;
use tantivy::tokenizer::Tokenizer as _;
use tantivy::tokenizer::{RawTokenizer, WhitespaceTokenizer};
use tantivy_analysis_contrib::commons::edge_ngram::{EdgeNgramError, EdgeNgramTokenFilter};
use tantivy_analysis_contrib::commons::elision::ElisionTokenFilter;
use tantivy_analysis_contrib::commons::length::LengthTokenFilter;
use tantivy_analysis_contrib::commons::limit::LimitTokenCountFilter;
use tantivy_analysis_contrib::commons::path::{PathTokenizer, PathTokenizerBuilder};
use tantivy_analysis_contrib::commons::reverse::{reversed_string, ReverseTokenFilter};
use tantivy_analysis_contrib::commons::stop::{StopTokenFilter, StopWordsError};
use tantivy_analysis_contrib::commons::trim::tokens_fit as trim_tokens_fit;
use tantivy_analysis_contrib::commons::trim::{char_is_whitespace, TrimTokenFilter};
use tantivy_analysis_contrib::icu::normalizer::{ICUNormalizer2TokenFilter, Mode};
use tantivy_analysis_contrib::icu::tokenizer::{search_ends, BreakPoint, ICUTokenizer};
use tantivy_analysis_contrib::icu::transform::{Direction, ICUTransformTokenFilter};
use tantivy_analysis_contrib::icu::apply_conversion;
use tantivy_analysis_contrib::token::{collect_tokens, Token, TokenStream, VecTokenStream};

fn lib_tokens(stream: &mut dyn tantivy::tokenizer::TokenStream) -> Vec<Token> {
    let mut out = Vec::new();
    while stream.advance() {
        let t = stream.token();
        out.push(Token {
            offset_from: t.offset_from,
            offset_to: t.offset_to,
            position: t.position,
            text: t.text.clone(),
            position_length: t.position_length,
        });
    }
    out
}

fn whitespace_stream(text: &str) -> VecTokenStream {
    let mut tokenizer = WhitespaceTokenizer::default();
    let mut stream = tokenizer.token_stream(text);
    VecTokenStream::new(lib_tokens(&mut stream))
}

fn raw_stream(text: &str) -> VecTokenStream {
    let mut tokenizer = RawTokenizer::default();
    let mut stream = tokenizer.token_stream(text);
    VecTokenStream::new(lib_tokens(&mut stream))
}

fn texts(tokens: &[Token]) -> Vec<String> {
    tokens.iter().map(|t| t.text.clone()).collect()
}

fn token(text: &str, from: usize, to: usize, position: usize) -> Token {
    Token {
        offset_from: from,
        offset_to: to,
        position,
        text: text.to_string(),
        position_length: 1,
    }
}

#[test]
fn edge_ngram_rejects_a_zero_minimum() {
    assert_eq!(
        EdgeNgramTokenFilter::new(0, None, false),
        Err(EdgeNgramError::InvalidMinimum)
    );
    assert_eq!(
        EdgeNgramTokenFilter::new(0, Some(3), true),
        Err(EdgeNgramError::InvalidMinimum)
    );
}

#[test]
fn edge_ngram_rejects_a_maximum_below_the_minimum() {
    assert_eq!(
        EdgeNgramTokenFilter::new(3, Some(2), false),
        Err(EdgeNgramError::MaximumLowerThanMinimum { min: 3, max: 2 })
    );
    assert!(EdgeNgramTokenFilter::new(3, Some(3), false).is_ok());
    assert!(EdgeNgramTokenFilter::new(3, None, false).is_ok());
}

#[test]
fn edge_ngram_prefixes_of_quick() {
    let filter = EdgeNgramTokenFilter::new(2, Some(4), false).unwrap();
    let wrapper = filter.transform(WhitespaceTokenizer::default());
    let mut stream = wrapper.token_stream(whitespace_stream("Quick"));
    let tokens = collect_tokens(&mut stream);
    assert_eq!(texts(&tokens), vec!["Qu", "Qui", "Quic"]);
    for t in &tokens {
        assert_eq!((t.offset_from, t.offset_to, t.position), (0, 5, 0));
    }
}

#[test]
fn edge_ngram_keeps_the_original_token_when_asked() {
    let filter = EdgeNgramTokenFilter::new(2, Some(3), true).unwrap();
    let wrapper = filter.transform(WhitespaceTokenizer::default());
    let mut stream = wrapper.token_stream(whitespace_stream("Quick a"));
    let tokens = collect_tokens(&mut stream);
    assert_eq!(texts(&tokens), vec!["Qu", "Qui", "Quick", "a"]);
}

#[test]
fn reverse_twice_gives_the_tokens_back() {
    let once = ReverseTokenFilter.transform(WhitespaceTokenizer::default());
    let twice = ReverseTokenFilter.transform(WhitespaceTokenizer::default());
    let text = "Do have a nice dày";
    let mut stream = twice.token_stream(once.token_stream(whitespace_stream(text)));
    let tokens = collect_tokens(&mut stream);
    let mut original = whitespace_stream(text);
    assert_eq!(tokens, collect_tokens(&mut original));
}

#[test]
fn reversed_string_reverses_characters() {
    assert_eq!(reversed_string(&"abç".to_string()), "çba");
    assert_eq!(reversed_string(&String::new()), "");
}

#[test]
fn length_filter_twice_is_the_same_as_once() {
    let text = "a bb ccc dddd eeeee";
    let once = LengthTokenFilter::new(Some(2), Some(4)).transform(WhitespaceTokenizer::default());
    let again = LengthTokenFilter::new(Some(2), Some(4)).transform(WhitespaceTokenizer::default());
    let mut single = once.token_stream(whitespace_stream(text));
    let single = collect_tokens(&mut single);
    assert_eq!(texts(&single), vec!["bb", "ccc", "dddd"]);
    let mut double = again.token_stream(once.token_stream(whitespace_stream(text)));
    assert_eq!(collect_tokens(&mut double), single);
}

#[test]
fn length_filter_without_bounds_keeps_everything() {
    let wrapper = LengthTokenFilter::new(None, None).transform(WhitespaceTokenizer::default());
    let mut stream = wrapper.token_stream(whitespace_stream("a bb ccc"));
    assert_eq!(texts(&collect_tokens(&mut stream)), vec!["a", "bb", "ccc"]);
}

#[test]
fn limit_of_limit_takes_the_smaller_count() {
    let text = "one two three four five";
    let three = LimitTokenCountFilter::new(3).transform(WhitespaceTokenizer::default());
    let two = LimitTokenCountFilter::from(2).transform(WhitespaceTokenizer::default());
    let mut stream = two.token_stream(three.token_stream(whitespace_stream(text)));
    assert_eq!(texts(&collect_tokens(&mut stream)), vec!["one", "two"]);
    let mut stream = three.token_stream(two.token_stream(whitespace_stream(text)));
    assert_eq!(texts(&collect_tokens(&mut stream)), vec!["one", "two"]);
}

#[test]
fn limit_zero_keeps_nothing() {
    let zero = LimitTokenCountFilter::new(0).transform(WhitespaceTokenizer::default());
    let mut stream = zero.token_stream(whitespace_stream("one two"));
    assert!(collect_tokens(&mut stream).is_empty());
}

#[test]
fn path_reverse_domain() {
    let tokenizer = PathTokenizer {
        reverse: true,
        skip: 0,
        delimiter: '.',
        replacement: None,
    };
    let mut stream = tokenizer.token_stream("mail.google.com");
    let tokens = collect_tokens(&mut stream);
    assert_eq!(
        tokens,
        vec![
            token("com", 12, 15, 0),
            token("google.com", 5, 15, 0),
            token("mail.google.com", 0, 15, 0),
        ]
    );
}

#[test]
fn path_last_token_is_the_whole_path() {
    let tokenizer = PathTokenizer::default();
    let mut stream = tokenizer.token_stream("/a/b/c");
    let tokens = collect_tokens(&mut stream);
    assert_eq!(texts(&tokens), vec!["/a", "/a/b", "/a/b/c"]);
    assert_eq!(tokens.last().unwrap().offset_to, 6);
}

#[test]
fn path_builder_defaults_match_default() {
    let built = PathTokenizerBuilder::default().build().unwrap();
    let default = PathTokenizer::default();
    assert_eq!(built.reverse, default.reverse);
    assert_eq!(built.skip, default.skip);
    assert_eq!(built.delimiter, default.delimiter);
    assert_eq!(built.replacement, default.replacement);
    assert_eq!(default.delimiter, '/');
    assert_eq!(default.replacement, None);
}

#[test]
fn path_builder_sets_fields() {
    let built = PathTokenizerBuilder::default()
        .reverse(true)
        .skip(2)
        .delimiter('.')
        .replacement('|')
        .build()
        .unwrap();
    assert!(built.reverse);
    assert_eq!(built.skip, 2);
    assert_eq!(built.delimiter, '.');
    assert_eq!(built.replacement, Some('|'));
}

#[test]
fn path_from_conversions() {
    let t = PathTokenizer::from('.');
    assert_eq!((t.reverse, t.skip, t.delimiter, t.replacement), (false, 0, '.', None));
    let t = PathTokenizer::from(3usize);
    assert_eq!((t.reverse, t.skip, t.delimiter, t.replacement), (false, 3, '/', None));
    let t = PathTokenizer::from(('.', '|'));
    assert_eq!(
        (t.reverse, t.skip, t.delimiter, t.replacement),
        (false, 0, '.', Some('|'))
    );
    let t = PathTokenizer::from((1usize, '.', '|'));
    assert_eq!(
        (t.reverse, t.skip, t.delimiter, t.replacement),
        (false, 1, '.', Some('|'))
    );
    let t = PathTokenizer::from((1usize, '.'));
    assert_eq!((t.reverse, t.skip, t.delimiter, t.replacement), (false, 1, '.', None));
}

#[test]
fn path_replacement_changes_the_separator() {
    let tokenizer = PathTokenizer::from(('/', '|'));
    let mut stream = tokenizer.token_stream("/a/b");
    assert_eq!(texts(&collect_tokens(&mut stream)), vec!["|a", "|a|b"]);
}

#[test]
fn trim_removes_outer_whitespace_only() {
    let mut stream = TrimTokenFilter.transform(raw_stream("  a b  "));
    let tokens = collect_tokens(&mut stream);
    assert_eq!(texts(&tokens), vec!["a b"]);
}

#[test]
fn trim_twice_is_the_same_as_once() {
    let mut once = TrimTokenFilter.transform(raw_stream("\t x y \n"));
    let once = collect_tokens(&mut once);
    let mut twice = TrimTokenFilter.transform(TrimTokenFilter.transform(raw_stream("\t x y \n")));
    assert_eq!(texts(&collect_tokens(&mut twice)), texts(&once));
}

#[test]
fn whitespace_characters() {
    assert!(char_is_whitespace(' '));
    assert!(char_is_whitespace('\n'));
    assert!(char_is_whitespace('\u{3000}'));
    assert!(!char_is_whitespace('a'));
}

#[test]
fn stop_filter_removes_the_stop_words() {
    let filter = StopTokenFilter::from_words(vec![b"a".to_vec(), b"the".to_vec()]).unwrap();
    let mut stream = filter.transform(whitespace_stream("the cat is a cat"));
    let tokens = collect_tokens(&mut stream);
    assert_eq!(texts(&tokens), vec!["cat", "is", "cat"]);
    assert_eq!(tokens[0].position, 1);
}

#[test]
fn elision_removes_the_article() {
    let wrapper = ElisionTokenFilter::from_iter_str(vec!["l"], false)
        .transform(WhitespaceTokenizer::default());
    let mut stream = wrapper.token_stream(whitespace_stream("l'avion L'avion"));
    let tokens = collect_tokens(&mut stream);
    assert_eq!(tokens[0], token("avion", 2, 7, 0));
    assert_eq!(tokens[1], token("L'avion", 8, 15, 1));
}

#[test]
fn elision_ignoring_case() {
    let wrapper = ElisionTokenFilter::from_iter_string(vec!["l".to_string()], true)
        .transform(WhitespaceTokenizer::default());
    let mut stream = wrapper.token_stream(whitespace_stream("L'avion d'avion"));
    let tokens = collect_tokens(&mut stream);
    assert_eq!(tokens[0], token("avion", 2, 7, 0));
    assert_eq!(tokens[1], token("d'avion", 8, 15, 1));
}

fn breaks(points: &[(i32, i32)]) -> Vec<BreakPoint> {
    points
        .iter()
        .map(|&(position, rule_status)| BreakPoint {
            position,
            rule_status,
        })
        .collect()
}

#[test]
fn icu_tokenizer_words_from_boundaries() {
    let b = breaks(&[(3, 200), (4, 0), (5, 0), (8, 200)]);
    let mut stream = ICUTokenizer.try_token_stream("foo, bar", 0, b).unwrap();
    let tokens = collect_tokens(&mut stream);
    assert_eq!(tokens, vec![token("foo", 0, 3, 0), token("bar", 5, 8, 1)]);
}

#[test]
fn icu_tokenizer_without_boundaries_is_empty() {
    let mut stream = ICUTokenizer.token_stream("", 0, Vec::new());
    assert!(!stream.advance());
}

#[test]
fn icu_tokenizer_refuses_a_search_that_never_ends() {
    let chars: Vec<char> = "a ,".chars().collect();
    let b = breaks(&[(1, 200), (3, 100)]);
    assert!(!search_ends(&chars, 0, &b));
    assert!(ICUTokenizer.try_token_stream("a ,", 0, b).is_none());
    let b = breaks(&[(1, 200), (3, 0)]);
    assert!(search_ends(&chars, 0, &b));
}

fn upper(text: &str) -> Option<String> {
    if text == "fail" {
        None
    } else {
        Some(text.to_uppercase())
    }
}

#[test]
fn normalizer_converts_and_keeps_failures() {
    let filter = ICUNormalizer2TokenFilter::new::<String>(Mode::NFC, Ok(())).unwrap();
    assert_eq!(filter.mode(), Mode::NFC);
    let wrapper = filter.transform(WhitespaceTokenizer::default());
    let mut stream = wrapper.token_stream(whitespace_stream("abc fail d"), upper);
    assert!(stream.advance());
    assert_eq!(*stream.token(), token("ABC", 0, 3, 0));
    assert!(stream.advance());
    assert_eq!(*stream.token(), token("fail", 4, 8, 1));
    assert!(stream.advance());
    assert_eq!(*stream.token(), token("D", 9, 10, 2));
    assert!(!stream.advance());
}

#[test]
fn normalizer_reports_the_construction_error() {
    let r = ICUNormalizer2TokenFilter::new(Mode::NFKC, Err("no data"));
    assert_eq!(r.err(), Some("no data"));
    let f = ICUNormalizer2TokenFilter::from(Mode::NFKCCasefold);
    assert_eq!(f.mode(), Mode::NFKCCasefold);
}

#[test]
fn transform_filter_keeps_its_settings() {
    let f = ICUTransformTokenFilter::new::<String>(
        "Any-Latin".to_string(),
        None,
        Direction::Reverse,
        Ok(()),
    )
    .unwrap();
    assert_eq!(f.compound_id(), "Any-Latin");
    assert_eq!(f.rules(), &None);
    assert_eq!(f.direction(), Direction::Reverse);
    let r = ICUTransformTokenFilter::new(
        "Bogus".to_string(),
        Some("x > y;".to_string()),
        Direction::Forward,
        Err(7),
    );
    assert_eq!(r.err(), Some(7));
}

#[test]
fn transform_stream_converts_tokens() {
    let f = ICUTransformTokenFilter::new::<String>(
        "Any-Upper".to_string(),
        None,
        Direction::Forward,
        Ok(()),
    )
    .unwrap();
    let wrapper = f.transform(WhitespaceTokenizer::default());
    let mut stream = wrapper.token_stream(whitespace_stream("fail ok"), upper);
    assert!(stream.advance());
    assert_eq!(stream.token().text, "fail");
    assert!(stream.advance());
    assert_eq!(*stream.token(), token("OK", 5, 7, 1));
    assert!(!stream.advance());
}

#[test]
fn apply_conversion_replaces_only_the_text() {
    let t = token("abc", 1, 4, 2);
    assert_eq!(apply_conversion(&t, Some("x".to_string())), token("x", 1, 4, 2));
    assert_eq!(apply_conversion(&t, None), t);
}

#[test]
fn default_token_and_vec_stream() {
    let t = Token::default();
    assert_eq!(t.position, usize::MAX);
    assert_eq!(t.position_length, 1);
    assert_eq!((t.offset_from, t.offset_to), (0, 0));
    assert!(t.text.is_empty());
    let mut s = VecTokenStream::new(vec![token("a", 0, 1, 0), token("b", 2, 3, 1)]);
    assert!(s.advance());
    assert_eq!(s.token().text, "a");
    assert_eq!(collect_tokens(&mut s), vec![token("b", 2, 3, 1)]);
}

#[test]
fn path_fits_detects_offsets_below_zero() {
    let tokenizer = PathTokenizer {
        reverse: true,
        skip: 0,
        delimiter: '.',
        replacement: Some('é'),
    };
    assert!(!tokenizer.fits("a.b"));
    assert!(tokenizer.fits("ab"));
    assert!(PathTokenizer::default().fits("/a/b"));
    let skip_multibyte = PathTokenizer {
        reverse: true,
        skip: 1,
        delimiter: 'é',
        replacement: None,
    };
    assert!(skip_multibyte.fits("aéb"));
}

#[test]
fn trim_tokens_fit_checks_the_end_offset() {
    assert!(trim_tokens_fit(&vec![token(" ab ", 0, 4, 0)]));
    assert!(!trim_tokens_fit(&vec![token("ab ", 0, 1, 0)]));
    assert!(trim_tokens_fit(&vec![token("   ", 0, 0, 0)]));
}

#[test]
fn elision_tokens_fit_checks_the_start_offset() {
    let wrapper = ElisionTokenFilter::from_iter_str(vec!["l"], false)
        .transform(WhitespaceTokenizer::default());
    assert!(wrapper.tokens_fit(&vec![token("l'a", 0, 3, 0)]));
    assert!(wrapper.tokens_fit(&vec![token("ab", usize::MAX - 2, usize::MAX, 0)]));
    assert!(wrapper.tokens_fit(&vec![token("m'a", usize::MAX - 1, usize::MAX, 0)]));
    assert!(wrapper.tokens_fit(&vec![token("l'a", usize::MAX - 2, usize::MAX, 0)]));
    assert!(!wrapper.tokens_fit(&vec![token("l'a", usize::MAX - 1, usize::MAX, 0)]));
}

#[test]
fn elision_filter_reports_its_elisions() {
    let f = ElisionTokenFilter::from_iter_str(vec!["L", "qu"], true);
    assert!(f.contains("l"));
    assert!(f.contains("qu"));
    assert!(!f.contains("L"));
    let f = ElisionTokenFilter::from_iter_string(vec!["L".to_string()], false);
    assert!(f.contains("L"));
    assert!(!f.contains("l"));
}

#[test]
fn stop_words_out_of_order_are_refused() {
    let r = StopTokenFilter::from_words(vec![b"the".to_vec(), b"a".to_vec()]);
    assert_eq!(r.err(), Some(StopWordsError::OutOfOrder));
    let r = StopTokenFilter::from_words(vec![b"a".to_vec(), b"a".to_vec(), b"b".to_vec()]);
    assert!(r.is_ok());
    let filter = r.unwrap().clone();
    let mut stream = filter.transform(whitespace_stream("a b c"));
    assert_eq!(texts(&collect_tokens(&mut stream)), vec!["c"]);
}

#[test]
fn edge_ngram_of_a_single_size() {
    assert_eq!(
        EdgeNgramTokenFilter::with_size(0),
        Err(EdgeNgramError::InvalidMinimum)
    );
    let filter = EdgeNgramTokenFilter::with_size(2).unwrap();
    assert_eq!(filter, EdgeNgramTokenFilter::new(2, Some(2), false).unwrap());
    let wrapper = filter.transform(WhitespaceTokenizer::default());
    let mut stream = wrapper.token_stream(whitespace_stream("Quick a"));
    assert_eq!(texts(&collect_tokens(&mut stream)), vec!["Qu"]);
}

#[test]
fn edge_ngram_error_messages() {
    assert_eq!(
        EdgeNgramError::InvalidMinimum.message(),
        "Minimum must be greater than 0"
    );
    assert_eq!(
        EdgeNgramError::MaximumLowerThanMinimum { min: 3, max: 2 }.message(),
        "Maximum '2' must be greater or equals to minimum '3' or should be 'None'"
    );
    assert_eq!(
        EdgeNgramError::MaximumLowerThanMinimum { min: 120, max: 10 }.message(),
        "Maximum '10' must be greater or equals to minimum '120' or should be 'None'"
    );
}

#[test]
fn path_tokens_are_prefixes_with_a_multibyte_delimiter() {
    let tokenizer = PathTokenizer::from('é');
    let mut stream = tokenizer.token_stream("aébéc");
    let tokens = collect_tokens(&mut stream);
    assert_eq!(
        tokens,
        vec![token("a", 0, 1, 0), token("aéb", 0, 4, 0), token("aébéc", 0, 7, 0)]
    );
}
