//! Unicode normalization of tokens (NFC, NFD, NFKC, NFKD, NFKC casefold).
use vstd::prelude::*;

use super::{apply_conversion, converted_token, result_view};
use crate::token::{Token, TokenStream, TokenView};

verus! {

/// Normalization algorithms.
#[derive(Clone, Debug, Copy, PartialEq, Eq)]
pub enum Mode {
    /// Normalization Form Canonical Composition.
    NFC,
    /// Normalization Form Canonical Decomposition.
    NFD,
    /// Normalization Form Compatibility Composition.
    NFKC,
    /// Normalization Form Compatibility Decomposition.
    NFKD,
    /// Normalization Form Compatibility Composition with casefolding.
    NFKCCasefold,
}

/// Filter that converts the text of tokens into a normal form.
#[derive(Clone, Copy, Debug)]
pub struct ICUNormalizer2TokenFilter {
    mode: Mode,
}

impl ICUNormalizer2TokenFilter {
    pub closed spec fn spec_mode(&self) -> Mode {
        self.mode
    }

    /// A normalizer filter for `mode`. `check` is the outcome of building
    /// ICU's normalizer for that mode: the filter is returned when it
    /// succeeded, its error otherwise.
    pub fn new<E>(mode: Mode, check: Result<(), E>) -> (r: Result<Self, E>)
        ensures
            check is Ok <==> r is Ok,
            check matches Err(e) ==> r == Err::<Self, E>(e),
            r matches Ok(f) ==> f.spec_mode() == mode,
    {
        match check {
            Ok(()) => Ok(ICUNormalizer2TokenFilter { mode }),
            Err(e) => Err(e),
        }
    }

    /// The normalization algorithm.
    pub fn mode(&self) -> (m: Mode)
        ensures
            m == self.spec_mode(),
    {
        self.mode
    }

    /// Builds the filter around `tokenizer`.
    pub fn transform<T>(self, tokenizer: T) -> (w: ICUNormalizer2FilterWrapper<T>)
        ensures
            w.spec_mode() == self.spec_mode(),
            w.spec_inner() == tokenizer,
    {
        ICUNormalizer2FilterWrapper::new(tokenizer, self.mode)
    }
}

impl From<Mode> for ICUNormalizer2TokenFilter {
    /// The filter for `mode`, with no check that ICU has its normalizer.
    fn from(mode: Mode) -> (f: Self)
        ensures
            f.spec_mode() == mode,
    {
        ICUNormalizer2TokenFilter { mode }
    }
}

impl vstd::std_specs::convert::FromSpecImpl<Mode> for ICUNormalizer2TokenFilter {
    open spec fn obeys_from_spec() -> bool {
        true
    }

    closed spec fn from_spec(mode: Mode) -> Self {
        ICUNormalizer2TokenFilter { mode }
    }
}

/// A tokenizer followed by the normalizer.
#[derive(Debug, Clone)]
pub struct ICUNormalizer2FilterWrapper<T> {
    mode: Mode,
    inner: T,
}

impl<T> ICUNormalizer2FilterWrapper<T> {
    pub closed spec fn spec_mode(&self) -> Mode {
        self.mode
    }

    pub closed spec fn spec_inner(&self) -> T {
        self.inner
    }

    /// Wraps `inner` with the normalization `mode`.
    pub fn new(inner: T, mode: Mode) -> (w: Self)
        ensures
            w.spec_mode() == mode,
            w.spec_inner() == inner,
    {
        Self { mode, inner }
    }

    /// The normalized stream of `tail`, the stream that the inner tokenizer
    /// produced; `normalizer` performs the normalization of this wrapper's
    /// mode: it gives the normalized text, or `None` when it fails.
    pub fn token_stream<S: TokenStream, F: Fn(&str) -> Option<String>>(
        &self,
        tail: S,
        normalizer: F,
    ) -> (s: ICUNormalizer2TokenStream<S, F>)
        requires
            tail.wf(),
            forall|text: &str| normalizer.requires((text,)),
        ensures
            s.wf(),
            s.tail_remaining() == tail.remaining(),
            s.spec_normalizer() == normalizer,
    {
        ICUNormalizer2TokenStream::new(tail, normalizer)
    }
}

/// The stream of the tokens of its tail, normalized: a token whose
/// normalization fails keeps its text.
pub struct ICUNormalizer2TokenStream<T, F> {
    normalizer: F,
    tail: T,
    token: Token,
}

impl<T: TokenStream, F: Fn(&str) -> Option<String>> ICUNormalizer2TokenStream<T, F> {
    pub closed spec fn wf(&self) -> bool {
        &&& self.tail.wf()
        &&& forall|text: &str| self.normalizer.requires((text,))
    }

    /// The tokens of the tail that are still to be normalized.
    pub closed spec fn tail_remaining(&self) -> Seq<TokenView> {
        self.tail.remaining()
    }

    pub closed spec fn current(&self) -> TokenView {
        self.token@
    }

    /// The normalization applied to each token.
    pub closed spec fn spec_normalizer(&self) -> F {
        self.normalizer
    }

    /// Normalizes the tokens of `tail` with `normalizer`.
    pub fn new(tail: T, normalizer: F) -> (s: Self)
        requires
            tail.wf(),
            forall|text: &str| normalizer.requires((text,)),
        ensures
            s.wf(),
            s.tail_remaining() == tail.remaining(),
            s.spec_normalizer() == normalizer,
    {
        Self { normalizer, tail, token: Token::default() }
    }

    /// Moves to the next token: the next token of the tail, with the text
    /// that the normalizer returned for the tail token's text, or its own
    /// text when the normalizer returned `None`.
    pub fn advance(&mut self) -> (r: bool)
        requires
            old(self).wf(),
        ensures
            final(self).wf(),
            r == (old(self).tail_remaining().len() > 0),
            r ==> final(self).tail_remaining() == old(self).tail_remaining().drop_first(),
            !r ==> final(self).tail_remaining() == old(self).tail_remaining(),
            r ==> exists|text: &str, result: Option<String>|
                {
                    &&& text@ == old(self).tail_remaining()[0].text
                    &&& #[trigger] old(self).spec_normalizer().ensures((text,), result)
                    &&& final(self).current() == converted_token(
                        old(self).tail_remaining()[0],
                        result_view(result),
                    )
                },
            final(self).spec_normalizer() == old(self).spec_normalizer(),
    {
        if !self.tail.advance() {
            return false;
        }
        let text = self.tail.token().text.as_str();
        let result = (self.normalizer)(text);
        self.token = apply_conversion(self.tail.token(), result);
        assert(text@ == old(self).tail_remaining()[0].text);
        assert(old(self).spec_normalizer().ensures((text,), result));
        true
    }

    /// The current token.
    pub fn token(&self) -> (t: &Token)
        ensures
            t@ == self.current(),
    {
        &self.token
    }
}

} // verus!
