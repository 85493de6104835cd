//! Limits the number of tokens.
use vstd::prelude::*;

use crate::token::{Token, TokenStream, TokenView};

verus! {

/// The first `max_tokens` tokens of `ts` (all of them if there are fewer).
pub open spec fn limit_tokens(max_tokens: usize, ts: Seq<TokenView>) -> Seq<TokenView> {
    if ts.len() <= max_tokens {
        ts
    } else {
        ts.take(max_tokens as int)
    }
}

/// The filter keeps the first tokens: as many as the limit allows, all of
/// them when there are fewer.
pub proof fn limit_keeps_prefix(max_tokens: usize, ts: Seq<TokenView>)
    ensures
        limit_tokens(max_tokens, ts).len() == if ts.len() <= max_tokens {
            ts.len()
        } else {
            max_tokens as nat
        },
        forall|i: int|
            0 <= i < limit_tokens(max_tokens, ts).len() ==> #[trigger] limit_tokens(
                max_tokens,
                ts,
            )[i] == ts[i],
{
}

/// Limiting to `a` tokens what was limited to `b` tokens limits to the
/// smaller of the two.
pub proof fn limit_of_limit(a: usize, b: usize, ts: Seq<TokenView>)
    ensures
        limit_tokens(a, limit_tokens(b, ts)) == limit_tokens(if a < b {
            a
        } else {
            b
        }, ts),
{
    assert(limit_tokens(a, limit_tokens(b, ts)) =~= limit_tokens(if a < b {
        a
    } else {
        b
    }, ts));
}

/// Filter that limits the number of tokens.
#[derive(Clone, Copy, Debug)]
pub struct LimitTokenCountFilter {
    max_tokens: usize,
}

impl LimitTokenCountFilter {
    pub closed spec fn spec_max_tokens(&self) -> usize {
        self.max_tokens
    }

    /// Creates a new [LimitTokenCountFilter]: `max_tokens` is the maximum
    /// number of tokens that will be indexed.
    pub fn new(max_tokens: usize) -> (f: Self)
        ensures
            f.spec_max_tokens() == max_tokens,
    {
        Self { max_tokens }
    }

    /// Builds the filter around `tokenizer`.
    pub fn transform<T>(self, tokenizer: T) -> (w: LimitTokenCountFilterWrapper<T>)
        ensures
            w.spec_count() == self.spec_max_tokens(),
            w.spec_inner() == tokenizer,
    {
        LimitTokenCountFilterWrapper::new(tokenizer, self.max_tokens)
    }
}

impl From<usize> for LimitTokenCountFilter {
    /// The same filter as [LimitTokenCountFilter::new].
    fn from(max_tokens: usize) -> (f: Self)
        ensures
            f.spec_max_tokens() == max_tokens,
    {
        Self { max_tokens }
    }
}

impl vstd::std_specs::convert::FromSpecImpl<usize> for LimitTokenCountFilter {
    open spec fn obeys_from_spec() -> bool {
        true
    }

    closed spec fn from_spec(max_tokens: usize) -> Self {
        LimitTokenCountFilter { max_tokens }
    }
}

/// A tokenizer followed by the limit filter.
#[derive(Clone, Debug)]
pub struct LimitTokenCountFilterWrapper<T> {
    count: usize,
    inner: T,
}

impl<T> LimitTokenCountFilterWrapper<T> {
    pub closed spec fn spec_count(&self) -> usize {
        self.count
    }

    pub closed spec fn spec_inner(&self) -> T {
        self.inner
    }

    /// Wraps `inner`, keeping at most `count` tokens.
    pub fn new(inner: T, count: usize) -> (w: Self)
        ensures
            w.spec_count() == count,
            w.spec_inner() == inner,
    {
        Self { count, inner }
    }

    /// The limited stream of `tail`, the stream that the inner tokenizer
    /// produced.
    pub fn token_stream<S: TokenStream>(&self, tail: S) -> (s: LimitTokenCountStream<S>)
        requires
            tail.wf(),
        ensures
            s.wf(),
            s.remaining() == limit_tokens(self.spec_count(), tail.remaining()),
            s.spec_tail() == tail,
            s.spec_count() == self.spec_count(),
    {
        LimitTokenCountStream::new(tail, self.count)
    }
}

/// The stream of the first tokens of its tail.
pub struct LimitTokenCountStream<T> {
    tail: T,
    count: usize,
}

impl<T: TokenStream> LimitTokenCountStream<T> {
    /// The stream that the tokens are taken from.
    pub closed spec fn spec_tail(&self) -> T {
        self.tail
    }

    /// How many more tokens the stream may take.
    pub closed spec fn spec_count(&self) -> usize {
        self.count
    }

    /// The stream of the first `count` tokens of `tail`.
    pub fn new(tail: T, count: usize) -> (s: Self)
        requires
            tail.wf(),
        ensures
            s.wf(),
            s.remaining() == limit_tokens(count, tail.remaining()),
            s.spec_tail() == tail,
            s.spec_count() == count,
    {
        Self { tail, count }
    }
}

impl<T: TokenStream> TokenStream for LimitTokenCountStream<T> {
    closed spec fn wf(&self) -> bool {
        self.tail.wf()
    }

    closed spec fn remaining(&self) -> Seq<TokenView> {
        limit_tokens(self.count, self.tail.remaining())
    }

    closed spec fn current(&self) -> TokenView {
        self.tail.current()
    }

    /// Once the limit is reached, the tail is no longer advanced: it is left
    /// as it was.
    fn advance(&mut self) -> (r: bool)
        ensures
            old(self).spec_count() == 0 ==> !r && final(self).spec_tail() == old(self).spec_tail(),
            r ==> final(self).spec_count() == old(self).spec_count() - 1,
            !r ==> final(self).spec_count() == old(self).spec_count(),
    {
        if self.count == 0 {
            assert(self.remaining() =~= Seq::<TokenView>::empty());
            return false;
        }
        let ghost rem = self.tail.remaining();
        if !self.tail.advance() {
            return false;
        }
        self.count = self.count - 1;
        assert(self.remaining() =~= limit_tokens((self.count + 1) as usize, rem).drop_first());
        true
    }

    fn token(&self) -> (t: &Token) {
        self.tail.token()
    }
}

} // verus!
