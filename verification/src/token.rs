//! Tokens and the token stream abstraction that every filter is built on.
use vstd::prelude::*;

verus! {

/// A token: a piece of text with its byte offsets in the analysed text and
/// its position in the token sequence.
#[derive(Clone, Debug, PartialEq, Eq)]
pub struct Token {
    /// Offset (byte index) of the first character of the token.
    pub offset_from: usize,
    /// Offset (byte index) just after the last character of the token.
    pub offset_to: usize,
    /// Position, expressed in number of tokens.
    pub position: usize,
    /// Actual text content of the token.
    pub text: String,
    /// The length expressed in terms of number of original tokens.
    pub position_length: usize,
}

/// The mathematical value of a [`Token`]: its text as a sequence of characters.
pub struct TokenView {
    pub offset_from: usize,
    pub offset_to: usize,
    pub position: usize,
    pub text: Seq<char>,
    pub position_length: usize,
}

impl TokenView {
    /// The same token with another text.
    pub open spec fn with_text(self, text: Seq<char>) -> TokenView {
        TokenView { text, ..self }
    }
}

impl View for Token {
    type V = TokenView;

    open spec fn view(&self) -> TokenView {
        TokenView {
            offset_from: self.offset_from,
            offset_to: self.offset_to,
            position: self.position,
            text: self.text@,
            position_length: self.position_length,
        }
    }
}

/// The token a stream holds before its first advance: empty text, no offset,
/// a position that wraps to 0 on the first increment, and a length of one.
pub open spec fn default_token_view() -> TokenView {
    TokenView {
        offset_from: 0,
        offset_to: 0,
        position: usize::MAX as usize,
        text: Seq::empty(),
        position_length: 1,
    }
}

/// The views of a sequence of tokens.
pub open spec fn views(tokens: Seq<Token>) -> Seq<TokenView> {
    tokens.map_values(|t: Token| t@)
}

impl Default for Token {
    fn default() -> (t: Token)
        ensures
            t@ == default_token_view(),
    {
        Token {
            offset_from: 0,
            offset_to: 0,
            position: usize::MAX,
            text: String::new(),
            position_length: 1,
        }
    }
}

impl Token {
    /// A copy of this token.
    pub fn duplicate(&self) -> (t: Token)
        ensures
            t@ == self@,
    {
        Token {
            offset_from: self.offset_from,
            offset_to: self.offset_to,
            position: self.position,
            text: self.text.clone(),
            position_length: self.position_length,
        }
    }

    /// A copy of this token that carries `text` instead of its own text.
    pub fn with_text(&self, text: String) -> (t: Token)
        ensures
            t@ == self@.with_text(text@),
    {
        Token {
            offset_from: self.offset_from,
            offset_to: self.offset_to,
            position: self.position,
            text,
            position_length: self.position_length,
        }
    }
}

/// A stream of tokens. `remaining` is what the following calls of `advance`
/// will produce, in order; `current` is the token that `token` returns.
pub trait TokenStream {
    spec fn wf(&self) -> bool;

    spec fn remaining(&self) -> Seq<TokenView>;

    spec fn current(&self) -> TokenView;

    /// Moves to the next token; returns `false` when there is none left.
    fn advance(&mut self) -> (r: bool)
        requires
            old(self).wf(),
        ensures
            final(self).wf(),
            r == (old(self).remaining().len() > 0),
            r ==> final(self).current() == old(self).remaining()[0],
            r ==> final(self).remaining() == old(self).remaining().drop_first(),
            !r ==> final(self).remaining() == old(self).remaining(),
    ;

    /// The current token.
    fn token(&self) -> (t: &Token)
        requires
            self.wf(),
        ensures
            t@ == self.current(),
    ;
}

/// Drains `stream` and returns every token it produces, in order.
pub fn collect_tokens<S: TokenStream>(stream: &mut S) -> (v: Vec<Token>)
    requires
        old(stream).wf(),
    ensures
        final(stream).wf(),
        views(v@) == old(stream).remaining(),
        final(stream).remaining().len() == 0,
{
    let mut v: Vec<Token> = Vec::new();
    loop
        invariant
            stream.wf(),
            views(v@) + stream.remaining() == old(stream).remaining(),
        decreases stream.remaining().len(),
    {
        let ghost before = stream.remaining();
        if !stream.advance() {
            assert(views(v@) =~= old(stream).remaining());
            return v;
        }
        let t = stream.token().duplicate();
        v.push(t);
        assert(views(v@) + stream.remaining() =~= old(stream).remaining()) by {
            assert(before =~= seq![before[0]] + before.drop_first());
        }
    }
}

/// A stream over tokens that were produced beforehand, for instance by a
/// tokenizer: it hands them out one after the other.
pub struct VecTokenStream {
    tokens: Vec<Token>,
    index: usize,
    token: Token,
}

impl VecTokenStream {
    /// A stream that will produce `tokens`, in order.
    pub fn new(tokens: Vec<Token>) -> (s: VecTokenStream)
        ensures
            s.wf(),
            s.remaining() == views(tokens@),
            s.current() == default_token_view(),
    {
        let s = VecTokenStream { tokens, index: 0, token: Token::default() };
        assert(s.tokens@.skip(0) =~= s.tokens@);
        s
    }
}

impl TokenStream for VecTokenStream {
    closed spec fn wf(&self) -> bool {
        self.index <= self.tokens.len()
    }

    closed spec fn remaining(&self) -> Seq<TokenView> {
        views(self.tokens@.skip(self.index as int))
    }

    closed spec fn current(&self) -> TokenView {
        self.token@
    }

    fn advance(&mut self) -> (r: bool) {
        if self.index < self.tokens.len() {
            self.token = self.tokens[self.index].duplicate();
            self.index = self.index + 1;
            assert(views(self.tokens@.skip(self.index as int)) =~= views(
                old(self).tokens@.skip(old(self).index as int),
            ).drop_first());
            true
        } else {
            false
        }
    }

    fn token(&self) -> (t: &Token) {
        &self.token
    }
}

} // verus!
