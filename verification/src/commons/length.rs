//! Keeps the tokens whose length, in bytes, lies within bounds.
use vstd::prelude::*;

use crate::text::{byte_len, utf8_len};
use crate::token::{Token, TokenStream, TokenView};

verus! {

/// Whether a text of `size` bytes is within `min` and `max` (both inclusive,
/// `None` meaning no bound).
pub open spec fn length_ok(min: Option<usize>, max: Option<usize>, size: nat) -> bool {
    &&& (min matches Some(v) ==> v <= size)
    &&& (max matches Some(v) ==> size <= v)
}

/// The tokens of `ts` whose text length is within bounds, in order.
pub open spec fn keep_by_length(min: Option<usize>, max: Option<usize>, ts: Seq<TokenView>) -> Seq<
    TokenView,
>
    decreases ts.len(),
{
    if ts.len() == 0 {
        Seq::empty()
    } else {
        let rest = keep_by_length(min, max, ts.drop_first());
        if length_ok(min, max, utf8_len(ts[0].text)) {
            seq![ts[0]] + rest
        } else {
            rest
        }
    }
}

/// The filter keeps exactly the tokens of the right length, in their
/// order: what it keeps has the right length, and each token of the right
/// length is kept; a token of the wrong length is dropped.
pub proof fn length_filter_keeps_right_lengths(
    min: Option<usize>,
    max: Option<usize>,
    ts: Seq<TokenView>,
)
    ensures
        forall|i: int|
            0 <= i < keep_by_length(min, max, ts).len() ==> length_ok(
                min,
                max,
                utf8_len(#[trigger] keep_by_length(min, max, ts)[i].text),
            ),
        forall|i: int|
            0 <= i < ts.len() && length_ok(min, max, utf8_len(ts[i].text)) ==> keep_by_length(
                min,
                max,
                ts,
            ).contains(#[trigger] ts[i]),
        keep_by_length(min, max, ts).len() <= ts.len(),
    decreases ts.len(),
{
    if ts.len() > 0 {
        let rest = keep_by_length(min, max, ts.drop_first());
        length_filter_keeps_right_lengths(min, max, ts.drop_first());
        assert forall|i: int|
            0 <= i < ts.len() && length_ok(min, max, utf8_len(ts[i].text)) implies keep_by_length(
            min,
            max,
            ts,
        ).contains(#[trigger] ts[i]) by {
            if i == 0 {
                assert(keep_by_length(min, max, ts)[0] == ts[0]);
            } else {
                assert(ts[i] == ts.drop_first()[i - 1]);
                let j = choose|j: int| 0 <= j < rest.len() && rest[j] == ts[i];
                if length_ok(min, max, utf8_len(ts[0].text)) {
                    assert(keep_by_length(min, max, ts)[j + 1] == ts[i]);
                } else {
                    assert(keep_by_length(min, max, ts)[j] == ts[i]);
                }
            }
        }
        if length_ok(min, max, utf8_len(ts[0].text)) {
            assert forall|i: int| 0 <= i < keep_by_length(min, max, ts).len() implies length_ok(
                min,
                max,
                utf8_len(#[trigger] keep_by_length(min, max, ts)[i].text),
            ) by {
                if i > 0 {
                    assert(keep_by_length(min, max, ts)[i] == rest[i - 1]);
                }
            }
        }
    }
}

/// Filtering twice with the same bounds gives what filtering once gives.
pub proof fn length_filter_idempotent(min: Option<usize>, max: Option<usize>, ts: Seq<TokenView>)
    ensures
        keep_by_length(min, max, keep_by_length(min, max, ts)) == keep_by_length(min, max, ts),
    decreases ts.len(),
{
    if ts.len() > 0 {
        length_filter_idempotent(min, max, ts.drop_first());
        let rest = keep_by_length(min, max, ts.drop_first());
        if length_ok(min, max, utf8_len(ts[0].text)) {
            assert((seq![ts[0]] + rest).drop_first() =~= rest);
        }
    }
}

/// This filter removes the tokens whose length, in bytes, is below `min` or
/// above `max` (both inclusive).
#[derive(Clone, Copy, Debug)]
pub struct LengthTokenFilter {
    min: Option<usize>,
    max: Option<usize>,
}

impl LengthTokenFilter {
    pub closed spec fn spec_min(&self) -> Option<usize> {
        self.min
    }

    pub closed spec fn spec_max(&self) -> Option<usize> {
        self.max
    }

    /// Get a new token filter.
    /// * min : minimum length a token should have (inclusive)
    /// * max : maximum length a token should have (inclusive)
    pub fn new(min: Option<usize>, max: Option<usize>) -> (f: Self)
        ensures
            f.spec_min() == min,
            f.spec_max() == max,
    {
        LengthTokenFilter { min, max }
    }

    /// Builds the filter around `tokenizer`.
    pub fn transform<T>(self, tokenizer: T) -> (w: LengthFilterWrapper<T>)
        ensures
            w.spec_min() == self.spec_min(),
            w.spec_max() == self.spec_max(),
            w.spec_inner() == tokenizer,
    {
        LengthFilterWrapper::new(tokenizer, self.min, self.max)
    }
}

/// A tokenizer followed by the length filter.
#[derive(Clone, Debug)]
pub struct LengthFilterWrapper<T> {
    min: Option<usize>,
    max: Option<usize>,
    inner: T,
}

impl<T> LengthFilterWrapper<T> {
    pub closed spec fn spec_min(&self) -> Option<usize> {
        self.min
    }

    pub closed spec fn spec_max(&self) -> Option<usize> {
        self.max
    }

    pub closed spec fn spec_inner(&self) -> T {
        self.inner
    }

    /// Wraps `inner` with the given bounds.
    pub fn new(inner: T, min: Option<usize>, max: Option<usize>) -> (w: Self)
        ensures
            w.spec_min() == min,
            w.spec_max() == max,
            w.spec_inner() == inner,
    {
        Self { min, max, inner }
    }

    /// The filtered stream of `tail`, the stream that the inner tokenizer
    /// produced.
    pub fn token_stream<S: TokenStream>(&self, tail: S) -> (s: LengthTokenStream<S>)
        requires
            tail.wf(),
        ensures
            s.wf(),
            s.remaining() == keep_by_length(self.spec_min(), self.spec_max(), tail.remaining()),
    {
        LengthTokenStream::new(tail, self.min, self.max)
    }
}

/// The stream of the tokens of its tail whose length is within bounds.
pub struct LengthTokenStream<T> {
    tail: T,
    min: Option<usize>,
    max: Option<usize>,
}

impl<T: TokenStream> LengthTokenStream<T> {
    /// Filters `tail` with the given bounds.
    pub fn new(tail: T, min: Option<usize>, max: Option<usize>) -> (s: Self)
        requires
            tail.wf(),
        ensures
            s.wf(),
            s.remaining() == keep_by_length(min, max, tail.remaining()),
    {
        Self { tail, min, max }
    }
}

impl<T: TokenStream> TokenStream for LengthTokenStream<T> {
    closed spec fn wf(&self) -> bool {
        self.tail.wf()
    }

    closed spec fn remaining(&self) -> Seq<TokenView> {
        keep_by_length(self.min, self.max, self.tail.remaining())
    }

    closed spec fn current(&self) -> TokenView {
        self.tail.current()
    }

    fn advance(&mut self) -> (r: bool) {
        let ghost target = keep_by_length(self.min, self.max, self.tail.remaining());
        let mut result = true;
        let mut length_ok = false;
        while result && !length_ok
            invariant
                self.tail.wf(),
                self.min == old(self).min,
                self.max == old(self).max,
                target == old(self).remaining(),
                !result ==> self.tail.remaining().len() == 0 && target == keep_by_length(
                    self.min,
                    self.max,
                    self.tail.remaining(),
                ),
                result && length_ok ==> target == seq![self.tail.current()] + keep_by_length(
                    self.min,
                    self.max,
                    self.tail.remaining(),
                ),
                result && !length_ok ==> target == keep_by_length(
                    self.min,
                    self.max,
                    self.tail.remaining(),
                ),
            decreases self.tail.remaining().len() + (if result {
                1int
            } else {
                0int
            }),
        {
            let ghost rem = self.tail.remaining();
            result = self.tail.advance();
            if result {
                let size = byte_len(&self.tail.token().text);
                length_ok = (match self.min {
                    Some(v) => v <= size,
                    None => true,
                }) && (match self.max {
                    Some(v) => size <= v,
                    None => true,
                });
            } else {
                assert(keep_by_length(self.min, self.max, rem) =~= Seq::<TokenView>::empty());
            }
        }
        result
    }

    fn token(&self) -> (t: &Token) {
        self.tail.token()
    }
}

} // verus!
