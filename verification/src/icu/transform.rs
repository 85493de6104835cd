//! ICU transforms of tokens, such as transliteration (`Any-Latin`).
use vstd::prelude::*;

use super::{apply_conversion, converted_token, result_view};
use crate::token::{Token, TokenStream, TokenView};

verus! {

/// Direction of a transform.
#[derive(Clone, Copy, Debug, PartialEq, Eq)]
pub enum Direction {
    /// Forward
    Forward,
    /// Reverse
    Reverse,
}

/// Filter that transforms the text of tokens, for example to perform
/// transliteration, with an ICU transform given by a compound id, optional
/// custom rules and a direction.
#[derive(Clone, Debug)]
pub struct ICUTransformTokenFilter {
    /// Compound transform id, such as `Any-Latin; Lower`.
    compound_id: String,
    /// Custom transform rules.
    rules: Option<String>,
    /// Direction
    direction: Direction,
}

impl ICUTransformTokenFilter {
    pub closed spec fn spec_compound_id(&self) -> Seq<char> {
        self.compound_id@
    }

    pub closed spec fn spec_rules(&self) -> Option<Seq<char>> {
        match self.rules {
            Some(r) => Some(r@),
            None => None,
        }
    }

    pub closed spec fn spec_direction(&self) -> Direction {
        self.direction
    }

    /// A transform filter for `compound_id`, `rules` and `direction`.
    /// `check` is the outcome of building ICU's transliterator with them:
    /// the filter is returned when it succeeded, its error otherwise.
    pub fn new<E>(
        compound_id: String,
        rules: Option<String>,
        direction: Direction,
        check: Result<(), E>,
    ) -> (r: Result<Self, E>)
        ensures
            check is Ok <==> r is Ok,
            check matches Err(e) ==> r == Err::<Self, E>(e),
            r matches Ok(f) ==> f.spec_compound_id() == compound_id@ && f.spec_rules() == (
            match rules {
                Some(s) => Some(s@),
                None => None,
            }) && f.spec_direction() == direction,
    {
        match check {
            Ok(()) => Ok(Self { compound_id, rules, direction }),
            Err(e) => Err(e),
        }
    }

    /// The compound id.
    pub fn compound_id(&self) -> (s: &String)
        ensures
            s@ == self.spec_compound_id(),
    {
        &self.compound_id
    }

    /// The custom rules, if any.
    pub fn rules(&self) -> (s: &Option<String>)
        ensures
            self.spec_rules() == (match *s {
                Some(r) => Some(r@),
                None => None,
            }),
    {
        &self.rules
    }

    /// The direction.
    pub fn direction(&self) -> (d: Direction)
        ensures
            d == self.spec_direction(),
    {
        self.direction
    }

    /// Builds the filter around `tokenizer`.
    pub fn transform<T>(self, tokenizer: T) -> (w: ICUTransformFilterWrapper<T>)
        ensures
            w.spec_compound_id() == self.spec_compound_id(),
            w.spec_rules() == self.spec_rules(),
            w.spec_direction() == self.spec_direction(),
            w.spec_inner() == tokenizer,
    {
        ICUTransformFilterWrapper::new(tokenizer, self.compound_id, self.rules, self.direction)
    }
}

/// A tokenizer followed by the transform.
#[derive(Debug, Clone)]
pub struct ICUTransformFilterWrapper<T> {
    compound_id: String,
    rules: Option<String>,
    direction: Direction,
    inner: T,
}

impl<T> ICUTransformFilterWrapper<T> {
    pub closed spec fn spec_compound_id(&self) -> Seq<char> {
        self.compound_id@
    }

    pub closed spec fn spec_rules(&self) -> Option<Seq<char>> {
        match self.rules {
            Some(r) => Some(r@),
            None => None,
        }
    }

    pub closed spec fn spec_direction(&self) -> Direction {
        self.direction
    }

    pub closed spec fn spec_inner(&self) -> T {
        self.inner
    }

    /// Wraps `inner` with the transform.
    pub fn new(inner: T, compound_id: String, rules: Option<String>, direction: Direction) -> (w:
        Self)
        ensures
            w.spec_compound_id() == compound_id@,
            w.spec_rules() == (match rules {
                Some(r) => Some(r@),
                None => None,
            }),
            w.spec_direction() == direction,
            w.spec_inner() == inner,
    {
        Self { compound_id, rules, direction, inner }
    }

    /// The transformed stream of `tail`, the stream that the inner tokenizer
    /// produced; `transliterator` performs this wrapper's transform: it
    /// gives the transformed text, or `None` when it fails.
    pub fn token_stream<S: TokenStream, F: Fn(&str) -> Option<String>>(
        &self,
        tail: S,
        transliterator: F,
    ) -> (s: ICUTransformTokenStream<S, F>)
        requires
            tail.wf(),
            forall|text: &str| transliterator.requires((text,)),
        ensures
            s.wf(),
            s.tail_remaining() == tail.remaining(),
            s.spec_transform() == transliterator,
    {
        ICUTransformTokenStream::new(tail, transliterator)
    }
}

/// The stream of the tokens of its tail, transformed: a token whose
/// transform fails keeps its text.
pub struct ICUTransformTokenStream<T, F> {
    transform: F,
    tail: T,
    token: Token,
}

impl<T: TokenStream, F: Fn(&str) -> Option<String>> ICUTransformTokenStream<T, F> {
    pub closed spec fn wf(&self) -> bool {
        &&& self.tail.wf()
        &&& forall|text: &str| self.transform.requires((text,))
    }

    /// The tokens of the tail that are still to be transformed.
    pub closed spec fn tail_remaining(&self) -> Seq<TokenView> {
        self.tail.remaining()
    }

    pub closed spec fn current(&self) -> TokenView {
        self.token@
    }

    /// The transform applied to each token.
    pub closed spec fn spec_transform(&self) -> F {
        self.transform
    }

    /// Transforms the tokens of `tail` with `transform`.
    pub fn new(tail: T, transform: F) -> (s: Self)
        requires
            tail.wf(),
            forall|text: &str| transform.requires((text,)),
        ensures
            s.wf(),
            s.tail_remaining() == tail.remaining(),
            s.spec_transform() == transform,
    {
        Self { transform, tail, token: Token::default() }
    }

    /// Moves to the next token: the next token of the tail, with the text
    /// that the transform returned for the tail token's text, or its own
    /// text when the transform returned `None`.
    pub fn advance(&mut self) -> (r: bool)
        requires
            old(self).wf(),
        ensures
            final(self).wf(),
            r == (old(self).tail_remaining().len() > 0),
            r ==> final(self).tail_remaining() == old(self).tail_remaining().drop_first(),
            !r ==> final(self).tail_remaining() == old(self).tail_remaining(),
            r ==> exists|text: &str, result: Option<String>|
                {
                    &&& text@ == old(self).tail_remaining()[0].text
                    &&& #[trigger] old(self).spec_transform().ensures((text,), result)
                    &&& final(self).current() == converted_token(
                        old(self).tail_remaining()[0],
                        result_view(result),
                    )
                },
            final(self).spec_transform() == old(self).spec_transform(),
    {
        if !self.tail.advance() {
            return false;
        }
        let text = self.tail.token().text.as_str();
        let result = (self.transform)(text);
        self.token = apply_conversion(self.tail.token(), result);
        assert(text@ == old(self).tail_remaining()[0].text);
        assert(old(self).spec_transform().ensures((text,), result));
        true
    }

    /// The current token.
    pub fn token(&self) -> (t: &Token)
        ensures
            t@ == self.current(),
    {
        &self.token
    }
}

} // verus!
