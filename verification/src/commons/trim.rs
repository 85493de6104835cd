//! Trims leading and trailing whitespace from tokens.
use vstd::prelude::*;

use crate::text::{byte_len, chars_of, string_from_chars, utf8_len};
use crate::token::{views, Token, TokenStream, TokenView};

verus! {

/// Whether `c` has the Unicode `White_Space` property, which is what
/// `char::is_whitespace` tests.
pub open spec fn is_whitespace(c: char) -> bool {
    let u = c as u32;
    ||| 0x09 <= u <= 0x0D
    ||| u == 0x20
    ||| u == 0x85
    ||| u == 0xA0
    ||| u == 0x1680
    ||| 0x2000 <= u <= 0x200A
    ||| u == 0x2028
    ||| u == 0x2029
    ||| u == 0x202F
    ||| u == 0x205F
    ||| u == 0x3000
}

/// `char::is_whitespace`.
pub fn char_is_whitespace(c: char) -> (r: bool)
    ensures
        r == is_whitespace(c),
{
    let u = c as u32;
    (0x09 <= u && u <= 0x0D) || u == 0x20 || u == 0x85 || u == 0xA0 || u == 0x1680 || (0x2000 <= u
        && u <= 0x200A) || u == 0x2028 || u == 0x2029 || u == 0x202F || u == 0x205F || u == 0x3000
}

/// Number of whitespace characters at the start of `s`.
pub open spec fn leading_whitespace(s: Seq<char>) -> nat
    decreases s.len(),
{
    if s.len() > 0 && is_whitespace(s[0]) {
        1 + leading_whitespace(s.drop_first())
    } else {
        0
    }
}

/// Number of whitespace characters at the end of `s`.
pub open spec fn trailing_whitespace(s: Seq<char>) -> nat
    decreases s.len(),
{
    if s.len() > 0 && is_whitespace(s.last()) {
        1 + trailing_whitespace(s.drop_last())
    } else {
        0
    }
}

/// Whether `s` holds only whitespace (or nothing).
pub open spec fn all_whitespace(s: Seq<char>) -> bool {
    forall|i: int| 0 <= i < s.len() ==> is_whitespace(#[trigger] s[i])
}

/// `s` without its leading and trailing whitespace.
pub open spec fn trim_text(s: Seq<char>) -> Seq<char> {
    if all_whitespace(s) {
        Seq::empty()
    } else {
        s.subrange(leading_whitespace(s) as int, s.len() - trailing_whitespace(s))
    }
}

/// The trimmed token: when the text holds something else than whitespace,
/// `offset_from` moves forward by the number of leading whitespace
/// characters and `offset_to` moves back by the byte length of the text
/// minus the number of trailing whitespace characters; otherwise both
/// offsets become `offset_from`.
pub open spec fn trim_token(t: TokenView) -> TokenView {
    if all_whitespace(t.text) {
        TokenView { offset_to: t.offset_from, text: Seq::empty(), ..t }
    } else {
        TokenView {
            offset_from: (t.offset_from + leading_whitespace(t.text)) as usize,
            offset_to: (t.offset_to - (utf8_len(t.text) - trailing_whitespace(t.text))) as usize,
            text: trim_text(t.text),
            ..t
        }
    }
}

/// The offsets of the trimmed token fit in a `usize`.
pub open spec fn trim_fits(t: TokenView) -> bool {
    all_whitespace(t.text) || (t.offset_from + leading_whitespace(t.text) <= usize::MAX
        && utf8_len(t.text) - trailing_whitespace(t.text) <= t.offset_to)
}

/// Trims every token of `ts`.
pub open spec fn trim_tokens(ts: Seq<TokenView>) -> Seq<TokenView> {
    ts.map_values(|t: TokenView| trim_token(t))
}

/// Every token of `ts` can be trimmed.
pub open spec fn all_trim_fit(ts: Seq<TokenView>) -> bool {
    forall|i: int| 0 <= i < ts.len() ==> trim_fits(#[trigger] ts[i])
}

proof fn lemma_leading_whitespace(s: Seq<char>)
    ensures
        leading_whitespace(s) <= s.len(),
        forall|i: int| 0 <= i < leading_whitespace(s) ==> is_whitespace(#[trigger] s[i]),
        leading_whitespace(s) < s.len() ==> !is_whitespace(s[leading_whitespace(s) as int]),
        all_whitespace(s) <==> leading_whitespace(s) == s.len(),
    decreases s.len(),
{
    if s.len() > 0 {
        lemma_leading_whitespace(s.drop_first());
        if is_whitespace(s[0]) {
            assert forall|i: int| 0 <= i < leading_whitespace(s) implies is_whitespace(
                #[trigger] s[i],
            ) by {
                if i > 0 {
                    assert(s[i] == s.drop_first()[i - 1]);
                }
            }
            if all_whitespace(s.drop_first()) {
                assert forall|i: int| 0 <= i < s.len() implies is_whitespace(#[trigger] s[i]) by {
                    if i > 0 {
                        assert(s[i] == s.drop_first()[i - 1]);
                    }
                }
            }
            if all_whitespace(s) {
                assert forall|i: int| 0 <= i < s.drop_first().len() implies is_whitespace(
                    #[trigger] s.drop_first()[i],
                ) by {
                    assert(s.drop_first()[i] == s[i + 1]);
                }
            }
        } else {
            assert(!is_whitespace(s[0]));
        }
    }
}

proof fn lemma_trailing_whitespace(s: Seq<char>)
    ensures
        trailing_whitespace(s) <= s.len(),
        forall|i: int|
            s.len() - trailing_whitespace(s) <= i < s.len() ==> is_whitespace(#[trigger] s[i]),
        trailing_whitespace(s) < s.len() ==> !is_whitespace(
            s[s.len() - trailing_whitespace(s) - 1],
        ),
    decreases s.len(),
{
    if s.len() > 0 {
        lemma_trailing_whitespace(s.drop_last());
        if is_whitespace(s.last()) {
            assert forall|i: int|
                s.len() - trailing_whitespace(s) <= i < s.len() implies is_whitespace(
                #[trigger] s[i],
            ) by {
                if i < s.len() - 1 {
                    assert(s[i] == s.drop_last()[i]);
                }
            }
            if trailing_whitespace(s) < s.len() {
                assert(s[s.len() - trailing_whitespace(s) - 1] == s.drop_last()[s.drop_last().len()
                    - trailing_whitespace(s.drop_last()) - 1]);
            }
        }
    }
}

/// The trimmed text starts and ends with a character that is no whitespace
/// (or is empty, exactly when the text holds only whitespace), and trimming
/// it again changes nothing.
pub proof fn trim_removes_outer_whitespace(s: Seq<char>)
    ensures
        trim_text(s).len() == 0 <==> all_whitespace(s),
        trim_text(s).len() > 0 ==> !is_whitespace(trim_text(s)[0]) && !is_whitespace(
            trim_text(s).last(),
        ),
        trim_text(trim_text(s)) == trim_text(s),
{
    lemma_leading_whitespace(s);
    lemma_trailing_whitespace(s);
    if !all_whitespace(s) {
        let l = leading_whitespace(s);
        let t = trailing_whitespace(s);
        assert(l < s.len());
        assert(l < s.len() - t) by {
            if l >= s.len() - t {
                assert(is_whitespace(s[l as int]));
            }
        }
        let r = trim_text(s);
        assert(r[0] == s[l as int]);
        assert(r.last() == s[s.len() - t - 1]);
        assert(!all_whitespace(r));
        assert(leading_whitespace(r) == 0);
        assert(trailing_whitespace(r) == 0);
        assert(trim_text(r) =~= r);
    }
}

/// The numbers of leading and trailing whitespace characters of `chars`;
/// the first is the length exactly when it holds only whitespace, and the
/// second is 0 then.
fn whitespace_bounds(chars: &Vec<char>) -> (r: (usize, usize))
    ensures
        r.0 == leading_whitespace(chars@),
        (r.0 == chars.len()) == all_whitespace(chars@),
        !all_whitespace(chars@) ==> r.1 == trailing_whitespace(chars@) && r.0 + r.1 < chars.len(),
        all_whitespace(chars@) ==> r.1 == 0,
{
    let len = chars.len();
    proof {
        lemma_leading_whitespace(chars@);
        lemma_trailing_whitespace(chars@);
    }
    let mut start: usize = 0;
    while start < len && char_is_whitespace(chars[start])
        invariant
            start <= len == chars@.len(),
            forall|i: int| 0 <= i < start ==> is_whitespace(#[trigger] chars@[i]),
            start <= leading_whitespace(chars@) <= len,
            leading_whitespace(chars@) < len ==> !is_whitespace(
                chars@[leading_whitespace(chars@) as int],
            ),
        decreases len - start,
    {
        start = start + 1;
    }
    if start == len {
        assert(all_whitespace(chars@));
        return (start, 0);
    }
    assert(start == leading_whitespace(chars@));
    assert(!all_whitespace(chars@));
    let mut back: usize = 0;
    while back < len && char_is_whitespace(chars[len - 1 - back])
        invariant
            back <= len == chars@.len(),
            start < len,
            !is_whitespace(chars@[start as int]),
            forall|i: int| len - back <= i < len ==> is_whitespace(#[trigger] chars@[i]),
            back <= trailing_whitespace(chars@) <= len,
            trailing_whitespace(chars@) < len ==> !is_whitespace(
                chars@[len - trailing_whitespace(chars@) - 1],
            ),
            back < len - start,
        decreases len - back,
    {
        back = back + 1;
        assert(back < len - start) by {
            if back >= len - start {
                assert(chars@[start as int] == chars@[len - back]);
            }
        }
    }
    assert(back == trailing_whitespace(chars@));
    (start, back)
}

/// Whether `token` can be trimmed: its new offsets stay within a `usize`.
pub fn token_fits(token: &Token) -> (r: bool)
    ensures
        r == trim_fits(token@),
{
    let chars = chars_of(token.text.as_str());
    let (start, back) = whitespace_bounds(&chars);
    if start == chars.len() {
        return true;
    }
    let size = byte_len(&token.text);
    proof {
        crate::text::lemma_utf8_len_bounds(chars@);
    }
    token.offset_from.checked_add(start).is_some() && size - back <= token.offset_to
}

/// Whether every token of `tokens` can be trimmed.
pub fn tokens_fit(tokens: &Vec<Token>) -> (r: bool)
    ensures
        r == all_trim_fit(views(tokens@)),
{
    let mut i: usize = 0;
    while i < tokens.len()
        invariant
            i <= tokens.len(),
            forall|j: int| 0 <= j < i ==> trim_fits(#[trigger] tokens@[j]@),
        decreases tokens.len() - i,
    {
        if !token_fits(&tokens[i]) {
            assert(views(tokens@)[i as int] == tokens@[i as int]@);
            return false;
        }
        i = i + 1;
    }
    assert forall|j: int| 0 <= j < views(tokens@).len() implies trim_fits(
        #[trigger] views(tokens@)[j],
    ) by {
        assert(views(tokens@)[j] == tokens@[j]@);
    }
    true
}

/// Trimming keeps a contiguous slice of the text unchanged: the slice that
/// remains once every whitespace character at the start and at the end is
/// taken away. Every character before and after the slice is whitespace,
/// and the slice, when not empty, starts and ends with a character that is
/// no whitespace; a text of whitespace only gives the empty text, and both
/// offsets become the start offset. Otherwise the start offset moves
/// forward by the number of characters cut at the start, and the end offset
/// moves back by the byte length of the text minus the number of characters
/// cut at the end (so the original code computes it). The trimmed token
/// keeps its position and position length.
pub proof fn trim_keeps_the_inner_slice(t: TokenView)
    ensures
        exists|i: int, j: int|
            {
                &&& 0 <= i <= j <= t.text.len()
                &&& #[trigger] trim_token(t).text == t.text.subrange(i, j)
                &&& forall|x: int| 0 <= x < i ==> is_whitespace(#[trigger] t.text[x])
                &&& forall|x: int| j <= x < t.text.len() ==> is_whitespace(#[trigger] t.text[x])
                &&& i < j ==> !is_whitespace(t.text[i]) && !is_whitespace(t.text[j - 1])
                &&& (i == j <==> forall|x: int|
                    0 <= x < t.text.len() ==> is_whitespace(#[trigger] t.text[x]))
                &&& i == j ==> trim_token(t).offset_from == t.offset_from
                    && trim_token(t).offset_to == t.offset_from
                &&& (i < j && trim_fits(t)) ==> trim_token(t).offset_from == t.offset_from + i
                    && trim_token(t).offset_to == t.offset_to - (utf8_len(t.text) - (t.text.len()
                    - j))
            },
        trim_token(t).position == t.position,
        trim_token(t).position_length == t.position_length,
{
    let s = t.text;
    lemma_leading_whitespace(s);
    lemma_trailing_whitespace(s);
    if all_whitespace(s) {
        let n = s.len() as int;
        assert(trim_token(t).text =~= s.subrange(n, n));
        assert(trim_token(t).text == s.subrange(n, n));
        assert(trim_token(t).offset_from == t.offset_from && trim_token(t).offset_to
            == t.offset_from);
    } else {
        let l = leading_whitespace(s) as int;
        let r = s.len() - trailing_whitespace(s);
        assert(l < s.len());
        assert(l < r) by {
            if l >= r {
                assert(is_whitespace(s[l]));
            }
        }
        assert(trim_token(t).text == s.subrange(l, r));
        assert(!forall|x: int| 0 <= x < s.len() ==> is_whitespace(#[trigger] s[x]));
        assert(!is_whitespace(s[r - 1]));
        crate::text::lemma_utf8_len_bounds(s);
        assert(trim_fits(t) ==> trim_token(t).offset_from == t.offset_from + l
            && trim_token(t).offset_to == t.offset_to - (utf8_len(s) - (s.len() - r)));
    }
}

/// Filter that trims leading and trailing whitespace from tokens.
#[derive(Clone, Copy, Debug)]
pub struct TrimTokenFilter;

impl TrimTokenFilter {
    /// The trimmed stream of `tail`.
    pub fn transform<S: TokenStream>(&self, tail: S) -> (s: TrimTokenStream<S>)
        requires
            tail.wf(),
            all_trim_fit(tail.remaining()),
        ensures
            s.wf(),
            s.remaining() == trim_tokens(tail.remaining()),
    {
        TrimTokenStream { tail, token: Token::default() }
    }
}

/// The stream of the tokens of its tail, trimmed.
pub struct TrimTokenStream<T> {
    tail: T,
    token: Token,
}

impl<T: TokenStream> TokenStream for TrimTokenStream<T> {
    closed spec fn wf(&self) -> bool {
        self.tail.wf() && all_trim_fit(self.tail.remaining())
    }

    closed spec fn remaining(&self) -> Seq<TokenView> {
        trim_tokens(self.tail.remaining())
    }

    closed spec fn current(&self) -> TokenView {
        self.token@
    }

    fn advance(&mut self) -> (r: bool) {
        let ghost rem = self.tail.remaining();
        if !self.tail.advance() {
            return false;
        }
        assert(trim_fits(rem[0]));
        assert(all_trim_fit(self.tail.remaining())) by {
            assert forall|i: int| 0 <= i < self.tail.remaining().len() implies trim_fits(
                #[trigger] self.tail.remaining()[i],
            ) by {
                assert(self.tail.remaining()[i] == rem[i + 1]);
            }
        }
        let tail_token = self.tail.token();
        let chars = chars_of(tail_token.text.as_str());
        let len = chars.len();
        let (start, back) = whitespace_bounds(&chars);
        if start == len {
            self.token = Token {
                offset_from: tail_token.offset_from,
                offset_to: tail_token.offset_from,
                position: tail_token.position,
                text: String::new(),
                position_length: tail_token.position_length,
            };
        } else {
            let size = byte_len(&tail_token.text);
            proof {
                crate::text::lemma_utf8_len_bounds(chars@);
            }
            let text = string_from_chars(&chars, start, len - back);
            self.token = Token {
                offset_from: tail_token.offset_from + start,
                offset_to: tail_token.offset_to - (size - back),
                position: tail_token.position,
                text,
                position_length: tail_token.position_length,
            };
        }
        assert(self.remaining() =~= old(self).remaining().drop_first());
        true
    }

    fn token(&self) -> (t: &Token) {
        &self.token
    }
}

} // verus!
