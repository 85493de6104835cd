//! Edge n-grams: the prefixes of each token, from a minimum to a maximum
//! number of characters.
use vstd::prelude::*;

use crate::text::push_char;
use crate::token::{Token, TokenStream, TokenView};

verus! {

/// Edge ngram errors
#[derive(Copy, Clone, Debug, Ord, PartialOrd, Eq, PartialEq, Hash)]
pub enum EdgeNgramError {
    /// Error raised when the minimum is 0.
    InvalidMinimum,
    /// Error raised when the maximum is not [None](None) and
    /// strictly lower than the minimum.
    MaximumLowerThanMinimum {
        /// Minimum ngram.
        min: usize,
        /// Maximum ngram.
        max: usize,
    },
}

/// The decimal digit `d`.
pub open spec fn digit_char(d: nat) -> char {
    if d == 0 {
        '0'
    } else if d == 1 {
        '1'
    } else if d == 2 {
        '2'
    } else if d == 3 {
        '3'
    } else if d == 4 {
        '4'
    } else if d == 5 {
        '5'
    } else if d == 6 {
        '6'
    } else if d == 7 {
        '7'
    } else if d == 8 {
        '8'
    } else {
        '9'
    }
}

/// The decimal writing of `n`.
pub open spec fn decimal(n: nat) -> Seq<char>
    decreases n,
{
    if n < 10 {
        seq![digit_char(n)]
    } else {
        decimal(n / 10).push(digit_char(n % 10))
    }
}

/// The message of an error.
pub open spec fn error_message(e: EdgeNgramError) -> Seq<char> {
    match e {
        EdgeNgramError::InvalidMinimum => "Minimum must be greater than 0"@,
        EdgeNgramError::MaximumLowerThanMinimum { min, max } => "Maximum '"@ + decimal(max as nat)
            + "' must be greater or equals to minimum '"@ + decimal(min as nat)
            + "' or should be 'None'"@,
    }
}

/// Appends the decimal writing of `n` to `s`.
fn push_decimal(s: &mut String, n: usize)
    ensures
        final(s)@ == old(s)@ + decimal(n as nat),
    decreases n,
{
    let ghost start = s@;
    if n >= 10 {
        push_decimal(s, n / 10);
    }
    let d = n % 10;
    let c = if d == 0 {
        '0'
    } else if d == 1 {
        '1'
    } else if d == 2 {
        '2'
    } else if d == 3 {
        '3'
    } else if d == 4 {
        '4'
    } else if d == 5 {
        '5'
    } else if d == 6 {
        '6'
    } else if d == 7 {
        '7'
    } else if d == 8 {
        '8'
    } else {
        '9'
    };
    push_char(s, c);
    assert(c == digit_char((n % 10) as nat));
    assert(s@ =~= start + decimal(n as nat));
}

impl EdgeNgramError {
    /// The message that describes the error.
    pub fn message(&self) -> (m: String)
        ensures
            m@ == error_message(*self),
    {
        match self {
            EdgeNgramError::InvalidMinimum => String::from_str("Minimum must be greater than 0"),
            EdgeNgramError::MaximumLowerThanMinimum { min, max } => {
                let mut m = String::from_str("Maximum '");
                push_decimal(&mut m, *max);
                m.append("' must be greater or equals to minimum '");
                push_decimal(&mut m, *min);
                m.append("' or should be 'None'");
                assert(m@ =~= error_message(*self));
                m
            },
        }
    }
}

/// Token filter that produces the n-grams from the start of each token:
/// `Quick` gives `Q`, `Qu`, `Qui`, `Quic`, `Quick`.
///
/// * `min`: the smallest n-gram, in characters (e.g. with min=3, `Quick`
///   gives `Qui`, `Quic` and `Quick`).
/// * `max`: the largest n-gram, in characters (e.g. with max=3, `Quick`
///   gives `Q`, `Qu` and `Qui`); with `None` the n-grams go up to the end of
///   the token.
/// * `keep_original_token`: the whole token is also produced when it is
///   longer than `max`, or shorter than `min`.
#[derive(Clone, Copy, Debug, Ord, PartialOrd, Eq, PartialEq, Hash)]
pub struct EdgeNgramTokenFilter {
    min: usize,
    max: Option<usize>,
    keep_original_token: bool,
}

/// The configuration that [`EdgeNgramTokenFilter::new`] accepts: a
/// positive minimum, and a maximum, if any, not below it.
pub open spec fn valid_bounds(min: usize, max: Option<usize>) -> bool {
    &&& min > 0
    &&& match max {
        Some(m) => min <= m,
        None => true,
    }
}

impl EdgeNgramTokenFilter {
    /// A filter always has bounds that [`EdgeNgramTokenFilter::new`]
    /// accepts.
    #[verifier::type_invariant]
    spec fn bounds_valid(self) -> bool {
        valid_bounds(self.min, self.max)
    }

    pub closed spec fn spec_min(&self) -> usize {
        self.min
    }

    pub closed spec fn spec_max(&self) -> Option<usize> {
        self.max
    }

    pub closed spec fn spec_keep_original_token(&self) -> bool {
        self.keep_original_token
    }

    /// Creates a new `EdgeNgramTokenFilter` with the min and max ngram
    /// provided: `min` must be positive, and `max` greater than or equal to
    /// `min`; `None` means no maximum.
    pub fn new(min: usize, max: Option<usize>, keep_original_token: bool) -> (r: Result<
        Self,
        EdgeNgramError,
    >)
        ensures
            valid_bounds(min, max) ==> (r matches Ok(f) && f.spec_min() == min && f.spec_max()
                == max && f.spec_keep_original_token() == keep_original_token),
            min == 0 ==> r == Err::<Self, EdgeNgramError>(EdgeNgramError::InvalidMinimum),
            min > 0 && !valid_bounds(min, max) ==> r == Err::<Self, EdgeNgramError>(
                EdgeNgramError::MaximumLowerThanMinimum { min, max: max->0 },
            ),
    {
        if min == 0 {
            return Err(EdgeNgramError::InvalidMinimum);
        }
        if let Some(m) = max {
            if m < min {
                return Err(EdgeNgramError::MaximumLowerThanMinimum { min, max: m });
            }
        }
        Ok(EdgeNgramTokenFilter { min, max, keep_original_token })
    }

    /// The filter for n-grams of exactly `ngram` characters, without the
    /// original token: `new(ngram, Some(ngram), false)`, which refuses only
    /// a size of 0.
    pub fn with_size(ngram: usize) -> (r: Result<Self, EdgeNgramError>)
        ensures
            ngram > 0 ==> (r matches Ok(f) && f.spec_min() == ngram && f.spec_max() == Some(ngram)
                && !f.spec_keep_original_token()),
            ngram == 0 ==> r == Err::<Self, EdgeNgramError>(EdgeNgramError::InvalidMinimum),
    {
        Self::new(ngram, Some(ngram), false)
    }

    /// Builds the filter around `tokenizer`.
    pub fn transform<T>(self, tokenizer: T) -> (w: EdgeNgramFilterWrapper<T>)
        ensures
            w.wf(),
            w.min_value() == self.spec_min(),
            w.max_value() == self.spec_max(),
            w.keep_original_token() == self.spec_keep_original_token(),
    {
        proof {
            use_type_invariant(&self);
        }
        EdgeNgramFilterWrapper::new(tokenizer, self.min, self.max, self.keep_original_token)
    }
}

/// A tokenizer followed by the edge n-gram filter.
#[derive(Clone, Debug)]
pub struct EdgeNgramFilterWrapper<T> {
    min: usize,
    max: Option<usize>,
    keep_original_token: bool,
    inner: T,
}

impl<T> EdgeNgramFilterWrapper<T> {
    pub closed spec fn wf(&self) -> bool {
        valid_bounds(self.min, self.max)
    }

    pub closed spec fn min_value(&self) -> usize {
        self.min
    }

    pub closed spec fn max_value(&self) -> Option<usize> {
        self.max
    }

    pub closed spec fn keep_original_token(&self) -> bool {
        self.keep_original_token
    }

    pub closed spec fn spec_inner(&self) -> T {
        self.inner
    }

    pub(crate) fn new(
        inner: T,
        min: usize,
        max: Option<usize>,
        keep_original_token: bool,
    ) -> (w: Self)
        requires
            valid_bounds(min, max),
        ensures
            w.wf(),
            w.min_value() == min,
            w.max_value() == max,
            w.keep_original_token() == keep_original_token,
            w.spec_inner() == inner,
    {
        EdgeNgramFilterWrapper { min, max, keep_original_token, inner }
    }

    /// The stream of edge n-grams of the tokens of `tail`, the stream that
    /// the inner tokenizer produced.
    pub fn token_stream<S: TokenStream>(&self, tail: S) -> (s: EdgeNgramFilterStream<S>)
        requires
            self.wf(),
            tail.wf(),
        ensures
            s.wf(),
            s.remaining() == all_ngrams(
                tail.remaining(),
                self.min_value() as nat,
                self.max_value(),
                self.keep_original_token(),
            ),
    {
        EdgeNgramFilterStream {
            tail,
            token: Token::default(),
            min: self.min,
            max: self.max,
            count: self.min,
            keep_original_token: self.keep_original_token,
            current_len: 0,
            stop_length: 0,
        }
    }
}

/// Where the n-grams of a token of `n` characters stop.
pub open spec fn ngram_stop(max: Option<usize>, n: nat) -> nat {
    match max {
        Some(m) => if (m as nat) < n {
            m as nat
        } else {
            n
        },
        None => n,
    }
}

/// What the stream still produces for token `t` once it has reached the
/// n-gram of `c` characters: the n-grams of `c`, `c + 1`, ... characters up
/// to the stop, then the whole token when it is kept and the stop fell
/// short of its end.
pub open spec fn ngrams_from(t: TokenView, min: nat, max: Option<usize>, keep: bool, c: nat) -> Seq<
    TokenView,
>
    decreases ngram_stop(max, t.text.len()) + 1 - c,
{
    let n = t.text.len();
    let stop = ngram_stop(max, n);
    if c > stop {
        if keep {
            seq![t]
        } else {
            Seq::empty()
        }
    } else {
        let this = t.with_text(t.text.take(c as int));
        if c == stop && (stop == n || (max is Some && !keep)) {
            seq![this]
        } else {
            seq![this] + ngrams_from(t, min, max, keep, c + 1)
        }
    }
}

/// The tokens produced for one input token.
pub open spec fn token_ngrams(t: TokenView, min: nat, max: Option<usize>, keep: bool) -> Seq<
    TokenView,
> {
    if keep && t.text.len() < min {
        seq![t]
    } else {
        ngrams_from(t, min, max, keep, min)
    }
}

/// The tokens produced for a sequence of input tokens.
pub open spec fn all_ngrams(ts: Seq<TokenView>, min: nat, max: Option<usize>, keep: bool) -> Seq<
    TokenView,
>
    decreases ts.len(),
{
    if ts.len() == 0 {
        Seq::empty()
    } else {
        token_ngrams(ts[0], min, max, keep) + all_ngrams(ts.drop_first(), min, max, keep)
    }
}

/// The prefixes of `t` of `from`, `from + 1`, ..., `to` characters, each
/// with the offsets and position of `t`.
pub open spec fn prefixes(t: TokenView, from: nat, to: nat) -> Seq<TokenView> {
    Seq::new(
        if from <= to {
            (to + 1 - from) as nat
        } else {
            0
        },
        |j: int| t.with_text(t.text.take(from + j)),
    )
}

proof fn lemma_ngrams_from(t: TokenView, min: nat, max: Option<usize>, keep: bool, c: nat)
    requires
        c <= ngram_stop(max, t.text.len()),
    ensures
        ngrams_from(t, min, max, keep, c) == prefixes(t, c, ngram_stop(max, t.text.len())) + (
        if keep && ngram_stop(max, t.text.len()) < t.text.len() {
            seq![t]
        } else {
            Seq::empty()
        }),
    decreases ngram_stop(max, t.text.len()) + 1 - c,
{
    let n = t.text.len();
    let stop = ngram_stop(max, n);
    let extra = if keep && stop < n {
        seq![t]
    } else {
        Seq::<TokenView>::empty()
    };
    if c == stop && (stop == n || (max is Some && !keep)) {
        assert(ngrams_from(t, min, max, keep, c) =~= prefixes(t, c, stop) + extra);
    } else if c == stop {
        assert(ngrams_from(t, min, max, keep, c + 1) == extra);
        assert(ngrams_from(t, min, max, keep, c) =~= prefixes(t, c, stop) + extra);
    } else {
        lemma_ngrams_from(t, min, max, keep, c + 1);
        assert(ngrams_from(t, min, max, keep, c) =~= prefixes(t, c, stop) + extra);
    }
}

/// What the filter produces for one token, whose length in characters is
/// `n`, where the n-grams stop at `stop` (the smaller of `max` and `n`):
/// * with `keep_original_token` and `n < min`: the token itself;
/// * otherwise its prefixes of `min` up to `stop` characters (none when
///   `stop < min`), followed, with `keep_original_token` and `stop < n`,
///   by the whole token.
/// Each produced token has the offsets and position of the input token.
pub proof fn edge_ngrams_of_token(t: TokenView, min: nat, max: Option<usize>, keep: bool)
    requires
        min >= 1,
        max matches Some(m) ==> m >= min,
    ensures
        token_ngrams(t, min, max, keep) == if keep && t.text.len() < min {
            seq![t]
        } else {
            prefixes(t, min, ngram_stop(max, t.text.len())) + if keep && ngram_stop(
                max,
                t.text.len(),
            ) < t.text.len() {
                seq![t]
            } else {
                Seq::empty()
            }
        },
{
    let n = t.text.len();
    let stop = ngram_stop(max, n);
    if !(keep && n < min) {
        if min <= stop {
            lemma_ngrams_from(t, min, max, keep, min);
        } else {
            assert(stop == n);
            assert(prefixes(t, min, stop) =~= Seq::<TokenView>::empty());
            assert(token_ngrams(t, min, max, keep) =~= Seq::<TokenView>::empty());
        }
    }
}

/// The stream that produces the edge n-grams of the tokens of its tail.
pub struct EdgeNgramFilterStream<T> {
    tail: T,
    /// Current token to emit.
    token: Token,
    /// Minimum n-gram, greater than 0.
    min: usize,
    /// Maximum n-gram, `None` means no limit.
    max: Option<usize>,
    /// The n-gram to emit next.
    count: usize,
    /// Do we have to keep the original token?
    keep_original_token: bool,
    /// Number of characters of the tail's current token.
    current_len: usize,
    /// Where the n-grams of the current token stop.
    stop_length: usize,
}

impl<T: TokenStream> EdgeNgramFilterStream<T> {
    /// What is left of the tail's current token.
    closed spec fn pending_current(&self) -> Seq<TokenView> {
        if self.count != self.min {
            ngrams_from(
                self.tail.current(),
                self.min as nat,
                self.max,
                self.keep_original_token,
                self.count as nat,
            )
        } else {
            Seq::empty()
        }
    }

    closed spec fn in_progress_ok(&self) -> bool {
        let t = self.tail.current();
        &&& self.count > self.min
        &&& self.current_len == t.text.len()
        &&& self.stop_length == ngram_stop(self.max, t.text.len())
        &&& self.count <= self.stop_length + 1
        &&& self.token@.with_text(t.text) == t
    }
}

impl<T: TokenStream> TokenStream for EdgeNgramFilterStream<T> {
    closed spec fn wf(&self) -> bool {
        &&& self.tail.wf()
        &&& self.min >= 1
        &&& (self.max matches Some(m) ==> m >= self.min)
        &&& (self.count != self.min ==> self.in_progress_ok())
    }

    closed spec fn remaining(&self) -> Seq<TokenView> {
        self.pending_current() + all_ngrams(
            self.tail.remaining(),
            self.min as nat,
            self.max,
            self.keep_original_token,
        )
    }

    closed spec fn current(&self) -> TokenView {
        self.token@
    }

    fn advance(&mut self) -> (r: bool) {
        let ghost target = old(self).remaining();
        loop
            invariant
                self.wf(),
                self.remaining() == target,
                target == old(self).remaining(),
                self.min == old(self).min,
                self.max == old(self).max,
                self.keep_original_token == old(self).keep_original_token,
            decreases self.tail.remaining().len() * 2 + (if self.count != self.min {
                1int
            } else {
                0int
            }),
        {
            let ghost min = self.min as nat;
            let ghost max = self.max;
            let ghost keep = self.keep_original_token;
            if self.count == self.min {
                let ghost rem = self.tail.remaining();
                if !self.tail.advance() {
                    assert(all_ngrams(rem, min, max, keep) =~= Seq::<TokenView>::empty());
                    assert(self.remaining() =~= Seq::<TokenView>::empty());
                    return false;
                }
                assert(all_ngrams(rem, min, max, keep) == token_ngrams(rem[0], min, max, keep)
                    + all_ngrams(self.tail.remaining(), min, max, keep));
                self.token = self.tail.token().duplicate();
                self.current_len = self.tail.token().text.as_str().unicode_len();
                if self.keep_original_token && self.current_len < self.min {
                    assert(self.remaining() =~= target.drop_first());
                    return true;
                }
                self.stop_length = match self.max {
                    Some(m) => if m < self.current_len {
                        m
                    } else {
                        self.current_len
                    },
                    None => self.current_len,
                };
            }
            let ghost t = self.tail.current();
            let ghost rest = all_ngrams(self.tail.remaining(), min, max, keep);
            assert(target == ngrams_from(t, min, max, keep, self.count as nat) + rest);
            if self.count <= self.stop_length {
                let token_string = self.tail.token().text.as_str().substring_char(
                    0,
                    self.count,
                ).to_owned();
                self.token.text = token_string;
                if self.count == self.stop_length {
                    if self.stop_length == self.current_len || (self.max.is_some()
                        && !self.keep_original_token) {
                        self.count = self.min;
                    } else {
                        self.count = self.count + 1;
                    }
                } else {
                    self.count = self.count + 1;
                }
                assert(self.remaining() =~= target.drop_first());
                return true;
            } else {
                self.count = self.min;
                if self.keep_original_token {
                    self.token.text = self.tail.token().text.clone();
                    assert(self.token@ == t);
                    assert(self.remaining() =~= target.drop_first());
                    return true;
                }
                assert(self.remaining() =~= target);
            }
        }
    }

    fn token(&self) -> (t: &Token) {
        &self.token
    }
}

} // verus!
