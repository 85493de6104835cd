//! Reverses the text of each token.
use vstd::prelude::*;

use crate::text::{chars_of, push_char};
use crate::token::{Token, TokenStream, TokenView};

verus! {

/// A token whose text is reversed, character by character.
pub open spec fn reverse_token(t: TokenView) -> TokenView {
    t.with_text(t.text.reverse())
}

/// Reverses the text of every token of `ts`.
pub open spec fn reverse_tokens(ts: Seq<TokenView>) -> Seq<TokenView> {
    ts.map_values(|t: TokenView| reverse_token(t))
}

/// Reversing the tokens twice gives them back: the filter applied twice
/// leaves every token as it was.
pub proof fn reverse_twice_is_identity(ts: Seq<TokenView>)
    ensures
        reverse_tokens(reverse_tokens(ts)) == ts,
{
    assert forall|i: int| 0 <= i < ts.len() implies #[trigger] reverse_tokens(reverse_tokens(ts))[i]
        == ts[i] by {
        assert(ts[i].text.reverse().reverse() =~= ts[i].text);
    }
    assert(reverse_tokens(reverse_tokens(ts)) =~= ts);
}

/// The filter keeps the number of tokens and every field but the text, and
/// the text keeps its characters, in reverse order.
pub proof fn reverse_keeps_tokens(ts: Seq<TokenView>)
    ensures
        reverse_tokens(ts).len() == ts.len(),
        forall|i: int|
            0 <= i < ts.len() ==> {
                let r = #[trigger] reverse_tokens(ts)[i];
                &&& r.offset_from == ts[i].offset_from
                &&& r.offset_to == ts[i].offset_to
                &&& r.position == ts[i].position
                &&& r.position_length == ts[i].position_length
                &&& r.text.len() == ts[i].text.len()
                &&& forall|j: int|
                    0 <= j < r.text.len() ==> r.text[j] == ts[i].text[ts[i].text.len() - 1 - j]
            },
{
}

/// The characters of `s` in reverse order.
pub fn reversed_string(s: &String) -> (r: String)
    ensures
        r@ == s@.reverse(),
{
    let chars = chars_of(s.as_str());
    let mut r = String::new();
    let mut i = chars.len();
    while i > 0
        invariant
            i <= chars.len(),
            chars@ == s@,
            r@ == s@.reverse().take(s@.len() - i),
        decreases i,
    {
        i = i - 1;
        push_char(&mut r, chars[i]);
        assert(r@ =~= s@.reverse().take(s@.len() - i));
    }
    assert(r@ =~= s@.reverse());
    r
}

/// This filter reverses the text of each token.
#[derive(Clone, Copy, Debug)]
pub struct ReverseTokenFilter;

impl ReverseTokenFilter {
    /// Builds the filter around `tokenizer`.
    pub fn transform<T>(self, tokenizer: T) -> (w: ReverseFilterWrapper<T>)
        ensures
            w.spec_inner() == tokenizer,
    {
        ReverseFilterWrapper::new(tokenizer)
    }
}

/// A tokenizer followed by the reverse filter.
#[derive(Clone, Debug)]
pub struct ReverseFilterWrapper<T> {
    inner: T,
}

impl<T> ReverseFilterWrapper<T> {
    pub closed spec fn spec_inner(&self) -> T {
        self.inner
    }

    /// Wraps `inner`.
    pub fn new(inner: T) -> (w: Self)
        ensures
            w.spec_inner() == inner,
    {
        Self { inner }
    }

    /// The reversed stream of `tail`, the stream that the inner tokenizer
    /// produced.
    pub fn token_stream<S: TokenStream>(&self, tail: S) -> (s: ReverseTokenStream<S>)
        requires
            tail.wf(),
        ensures
            s.wf(),
            s.remaining() == reverse_tokens(tail.remaining()),
    {
        ReverseTokenStream::new(tail)
    }
}

/// The stream of the tokens of its tail, with their text reversed.
pub struct ReverseTokenStream<T> {
    tail: T,
    token: Token,
}

impl<T: TokenStream> ReverseTokenStream<T> {
    /// Reverses the tokens of `tail`.
    pub fn new(tail: T) -> (s: Self)
        requires
            tail.wf(),
        ensures
            s.wf(),
            s.remaining() == reverse_tokens(tail.remaining()),
    {
        Self { tail, token: Token::default() }
    }
}

impl<T: TokenStream> TokenStream for ReverseTokenStream<T> {
    closed spec fn wf(&self) -> bool {
        self.tail.wf()
    }

    closed spec fn remaining(&self) -> Seq<TokenView> {
        reverse_tokens(self.tail.remaining())
    }

    closed spec fn current(&self) -> TokenView {
        self.token@
    }

    fn advance(&mut self) -> (r: bool) {
        if !self.tail.advance() {
            return false;
        }
        let buffer = reversed_string(&self.tail.token().text);
        self.token = self.tail.token().with_text(buffer);
        assert(self.remaining() =~= old(self).remaining().drop_first());
        true
    }

    fn token(&self) -> (t: &Token) {
        &self.token
    }
}

} // verus!
