//! Removes elisions: `l'avion` becomes `avion`.
use rustc_hash::FxHashSet;
use vstd::prelude::*;

use crate::text::{byte_len, chars_of, string_from_chars, utf8_len};
use crate::token::{views, Token, TokenStream, TokenView};

verus! {

/// A set of elisions, such as `l`, `m`, `qu`. It is held in an
/// `FxHashSet<String>`.
#[verifier::external_body]
#[derive(Debug, PartialEq, Eq)]
pub struct ElisionSet {
    set: FxHashSet<String>,
}

/// The strings that an [ElisionSet] holds.
pub uninterp spec fn elision_contents(s: ElisionSet) -> Set<Seq<char>>;

/// `str::to_lowercase`: the lowercase mapping of every character, as the
/// Unicode tables built into `std` give it.
pub uninterp spec fn lowercase(s: Seq<char>) -> Seq<char>;

/// `str::to_lowercase`.
#[verifier::external_body]
fn to_lowercase(s: &str) -> (r: String)
    ensures
        r@ == lowercase(s@),
{
    s.to_lowercase()
}

impl Clone for ElisionSet {
    /// `HashSet::clone`: a set holding the same strings.
    #[verifier::external_body]
    fn clone(&self) -> (r: Self)
        ensures
            elision_contents(r) == elision_contents(*self),
    {
        ElisionSet { set: self.set.clone() }
    }
}

impl ElisionSet {
    /// `FxHashSet::default`: an empty set.
    #[verifier::external_body]
    fn empty() -> (s: ElisionSet)
        ensures
            elision_contents(s) == Set::<Seq<char>>::empty(),
    {
        ElisionSet { set: FxHashSet::default() }
    }

    /// `HashSet::insert`: afterwards the set also holds `value`.
    #[verifier::external_body]
    fn insert(&mut self, value: String)
        ensures
            elision_contents(*final(self)) == elision_contents(*old(self)).insert(value@),
    {
        self.set.insert(value);
    }

    /// `HashSet::contains`: whether the set holds a string equal to `value`.
    #[verifier::external_body]
    fn contains(&self, value: &str) -> (r: bool)
        ensures
            r == elision_contents(*self).contains(value@),
    {
        self.set.contains(value)
    }
}

/// The form an elision is stored and looked up in.
pub open spec fn elision_key(s: Seq<char>, ignore_case: bool) -> Seq<char> {
    if ignore_case {
        lowercase(s)
    } else {
        s
    }
}

/// Index of the first occurrence of `c` in `s`.
pub open spec fn first_index_of(s: Seq<char>, c: char) -> Option<nat>
    decreases s.len(),
{
    if s.len() == 0 {
        None
    } else if s[0] == c {
        Some(0)
    } else {
        match first_index_of(s.drop_first(), c) {
            Some(k) => Some(k + 1),
            None => None,
        }
    }
}

/// The token without its elision: when the text up to its first apostrophe
/// is an elision, the text becomes what follows the apostrophe and
/// `offset_from` moves past the apostrophe.
pub open spec fn elide_token(t: TokenView, elisions: Set<Seq<char>>, ignore_case: bool) -> TokenView {
    match first_index_of(t.text, '\'') {
        Some(k) => {
            let prefix = t.text.take(k as int);
            if elisions.contains(elision_key(prefix, ignore_case)) {
                TokenView {
                    offset_from: (t.offset_from + utf8_len(prefix) + 1) as usize,
                    text: t.text.skip((k + 1) as int),
                    ..t
                }
            } else {
                t
            }
        },
        None => t,
    }
}

/// Whether the start offset of the elided token fits in a `usize`: it
/// moves past the apostrophe only when the text before it is an elision.
pub open spec fn elision_fits(t: TokenView, elisions: Set<Seq<char>>, ignore_case: bool) -> bool {
    match first_index_of(t.text, '\'') {
        Some(k) => elisions.contains(elision_key(t.text.take(k as int), ignore_case)) ==> t.offset_from
            + utf8_len(t.text.take(k as int)) + 1 <= usize::MAX,
        None => true,
    }
}

/// Removes the elisions of every token of `ts`.
pub open spec fn elide_tokens(ts: Seq<TokenView>, elisions: Set<Seq<char>>, ignore_case: bool) -> Seq<
    TokenView,
> {
    ts.map_values(|t: TokenView| elide_token(t, elisions, ignore_case))
}

/// Every token of `ts` can be elided.
pub open spec fn all_elision_fit(ts: Seq<TokenView>, elisions: Set<Seq<char>>, ignore_case: bool) -> bool {
    forall|i: int| 0 <= i < ts.len() ==> elision_fits(#[trigger] ts[i], elisions, ignore_case)
}

/// The elision of `text`, if it has one: the byte length of the text before
/// its first apostrophe, when that text is an elision, and the text after
/// the apostrophe.
fn find_elision(text: &String, elisions: &ElisionSet, ignore_case: bool) -> (r: Option<
    (usize, String),
>)
    ensures
        match first_index_of(text@, '\'') {
            Some(k) => if elision_contents(*elisions).contains(
                elision_key(text@.take(k as int), ignore_case),
            ) {
                r matches Some(e) && e.0 == utf8_len(text@.take(k as int)) && e.1@ == text@.skip(
                    (k + 1) as int,
                )
            } else {
                r is None
            },
            None => r is None,
        },
{
    let chars = chars_of(text.as_str());
    let mut index: usize = 0;
    while index < chars.len() && chars[index] != '\''
        invariant
            index <= chars.len(),
            forall|j: int| 0 <= j < index ==> chars@[j] != '\'',
        decreases chars.len() - index,
    {
        index = index + 1;
    }
    if index < chars.len() {
        proof {
            lemma_first_index_of(chars@, '\'', index as nat);
        }
        let prefix = string_from_chars(&chars, 0, index);
        assert(prefix@ =~= chars@.take(index as int));
        let contains = if ignore_case {
            elisions.contains(to_lowercase(prefix.as_str()).as_str())
        } else {
            elisions.contains(prefix.as_str())
        };
        if contains {
            let rest = string_from_chars(&chars, index + 1, chars.len());
            assert(chars@.subrange(index + 1, chars@.len() as int) =~= chars@.skip(index + 1));
            Some((byte_len(&prefix), rest))
        } else {
            None
        }
    } else {
        proof {
            lemma_no_index_of(chars@, '\'');
        }
        None
    }
}

proof fn lemma_first_index_of(s: Seq<char>, c: char, k: nat)
    requires
        k < s.len(),
        s[k as int] == c,
        forall|j: int| 0 <= j < k ==> s[j] != c,
    ensures
        first_index_of(s, c) == Some(k),
    decreases k,
{
    if k > 0 {
        lemma_first_index_of(s.drop_first(), c, (k - 1) as nat);
    }
}

proof fn lemma_no_index_of(s: Seq<char>, c: char)
    requires
        forall|j: int| 0 <= j < s.len() ==> s[j] != c,
    ensures
        first_index_of(s, c) is None,
    decreases s.len(),
{
    if s.len() > 0 {
        lemma_no_index_of(s.drop_first(), c);
    }
}

proof fn lemma_first_index_bound(s: Seq<char>, c: char)
    ensures
        first_index_of(s, c) matches Some(k) ==> k < s.len() && s[k as int] == c,
    decreases s.len(),
{
    if s.len() > 0 && s[0] != c {
        lemma_first_index_bound(s.drop_first(), c);
    }
}

/// Removing an elision keeps a suffix of the text, and the end offset, the
/// position and the position length of the token; a token without
/// apostrophe is left as it is.
pub proof fn elision_keeps_a_suffix(t: TokenView, elisions: Set<Seq<char>>, ignore_case: bool)
    ensures
        elide_token(t, elisions, ignore_case).offset_to == t.offset_to,
        elide_token(t, elisions, ignore_case).position == t.position,
        elide_token(t, elisions, ignore_case).position_length == t.position_length,
        exists|k: int|
            0 <= k <= t.text.len() && #[trigger] t.text.skip(k) == elide_token(
                t,
                elisions,
                ignore_case,
            ).text,
        first_index_of(t.text, '\'') is None ==> elide_token(t, elisions, ignore_case) == t,
{
    lemma_first_index_bound(t.text, '\'');
    let r = elide_token(t, elisions, ignore_case);
    if r.text == t.text {
        assert(t.text.skip(0) =~= t.text);
    } else {
        let k = first_index_of(t.text, '\'')->0;
        assert(t.text.skip((k + 1) as int) == r.text);
    }
}

/// The elision is cut at the first apostrophe. When the token's text has an
/// apostrophe at `k` and none before it, and the text before it (lowercased
/// when case is ignored) is an elision, the token loses that text and the
/// apostrophe: its text becomes what follows, and its start offset moves
/// past them (when it fits in a `usize`). Otherwise (no apostrophe, or the
/// text before the first one is no elision) the token is left as it is.
/// The end offset, position and position length never change.
pub proof fn elision_cut_at_first_apostrophe(
    t: TokenView,
    elisions: Set<Seq<char>>,
    ignore_case: bool,
    k: int,
)
    requires
        0 <= k < t.text.len(),
        t.text[k] == '\'',
        forall|j: int| 0 <= j < k ==> t.text[j] != '\'',
    ensures
        elisions.contains(elision_key(t.text.take(k), ignore_case)) ==> {
            &&& elide_token(t, elisions, ignore_case).text == t.text.skip(k + 1)
            &&& t.offset_from + utf8_len(t.text.take(k)) + 1 <= usize::MAX ==> elide_token(
                t,
                elisions,
                ignore_case,
            ).offset_from == t.offset_from + utf8_len(t.text.take(k)) + 1
        },
        !elisions.contains(elision_key(t.text.take(k), ignore_case)) ==> elide_token(
            t,
            elisions,
            ignore_case,
        ) == t,
        elide_token(t, elisions, ignore_case).offset_to == t.offset_to,
        elide_token(t, elisions, ignore_case).position == t.position,
        elide_token(t, elisions, ignore_case).position_length == t.position_length,
{
    lemma_first_index_of(t.text, '\'', k as nat);
}

/// A token whose text has no apostrophe is left as it is.
pub proof fn elision_needs_an_apostrophe(t: TokenView, elisions: Set<Seq<char>>, ignore_case: bool)
    requires
        forall|j: int| 0 <= j < t.text.len() ==> t.text[j] != '\'',
    ensures
        elide_token(t, elisions, ignore_case) == t,
{
    lemma_no_index_of(t.text, '\'');
}

/// A token filter that removes elisions from tokens: with `l` among the
/// elisions, the token `l'avion` becomes `avion`.
#[derive(Clone, Debug, PartialEq, Eq)]
pub struct ElisionTokenFilter {
    /// Set of elisions
    pub elisions: ElisionSet,
    /// Indicates that elisions are case-insensitive
    pub ignore_case: bool,
}

impl ElisionTokenFilter {
    /// Construct a new [ElisionTokenFilter] from elisions given as [String]s:
    /// * `elisions`: list of elisions to remove from tokens
    /// * `ignore_case`: indicate that elisions are case-insensitive (they are
    ///   then stored in lowercase)
    pub fn from_iter_string(elisions: Vec<String>, ignore_case: bool) -> (f: Self)
        ensures
            f.ignore_case == ignore_case,
            elision_contents(f.elisions) == Set::new(
                |k: Seq<char>|
                    exists|i: int|
                        0 <= i < elisions.len() && k == elision_key(
                            #[trigger] elisions@[i]@,
                            ignore_case,
                        ),
            ),
    {
        let mut set = ElisionSet::empty();
        let mut i: usize = 0;
        while i < elisions.len()
            invariant
                i <= elisions.len(),
                elision_contents(set) == Set::new(
                    |k: Seq<char>|
                        exists|j: int|
                            0 <= j < i && k == elision_key(#[trigger] elisions@[j]@, ignore_case),
                ),
            decreases elisions.len() - i,
        {
            let value = if ignore_case {
                to_lowercase(elisions[i].as_str())
            } else {
                elisions[i].clone()
            };
            set.insert(value);
            i = i + 1;
            assert(elision_contents(set) =~= Set::new(
                |k: Seq<char>|
                    exists|j: int|
                        0 <= j < i && k == elision_key(#[trigger] elisions@[j]@, ignore_case),
            ));
        }
        Self { elisions: set, ignore_case }
    }

    /// Construct a new [ElisionTokenFilter] from elisions given as [str]s:
    /// * `elisions`: list of elisions to remove from tokens
    /// * `ignore_case`: indicate that elisions are case-insensitive (they are
    ///   then stored in lowercase)
    pub fn from_iter_str(elisions: Vec<&str>, ignore_case: bool) -> (f: Self)
        ensures
            f.ignore_case == ignore_case,
            elision_contents(f.elisions) == Set::new(
                |k: Seq<char>|
                    exists|i: int|
                        0 <= i < elisions.len() && k == elision_key(
                            #[trigger] elisions@[i]@,
                            ignore_case,
                        ),
            ),
    {
        let mut set = ElisionSet::empty();
        let mut i: usize = 0;
        while i < elisions.len()
            invariant
                i <= elisions.len(),
                elision_contents(set) == Set::new(
                    |k: Seq<char>|
                        exists|j: int|
                            0 <= j < i && k == elision_key(#[trigger] elisions@[j]@, ignore_case),
                ),
            decreases elisions.len() - i,
        {
            let value = if ignore_case {
                to_lowercase(elisions[i])
            } else {
                elisions[i].to_owned()
            };
            set.insert(value);
            i = i + 1;
            assert(elision_contents(set) =~= Set::new(
                |k: Seq<char>|
                    exists|j: int|
                        0 <= j < i && k == elision_key(#[trigger] elisions@[j]@, ignore_case),
            ));
        }
        Self { elisions: set, ignore_case }
    }

    /// Whether `value` is among the stored elisions (stored in lowercase
    /// when the filter ignores case).
    pub fn contains(&self, value: &str) -> (r: bool)
        ensures
            r == elision_contents(self.elisions).contains(value@),
    {
        self.elisions.contains(value)
    }

    /// Builds the filter around `tokenizer`.
    pub fn transform<T>(self, tokenizer: T) -> (w: ElisionFilterWrapper<T>)
        ensures
            elision_contents(w.spec_elisions()) == elision_contents(self.elisions),
            w.spec_ignore_case() == self.ignore_case,
            w.spec_inner() == tokenizer,
    {
        ElisionFilterWrapper { elisions: self.elisions, ignore_case: self.ignore_case, inner: tokenizer }
    }
}

/// A tokenizer followed by the elision filter.
#[derive(Clone, Debug)]
pub struct ElisionFilterWrapper<T> {
    elisions: ElisionSet,
    ignore_case: bool,
    inner: T,
}

impl<T> ElisionFilterWrapper<T> {
    pub closed spec fn spec_elisions(&self) -> ElisionSet {
        self.elisions
    }

    pub closed spec fn spec_ignore_case(&self) -> bool {
        self.ignore_case
    }

    pub closed spec fn spec_inner(&self) -> T {
        self.inner
    }

    /// Whether every token of `tokens` can be elided by this filter: the
    /// start offset of each token that loses an elision stays within a
    /// `usize`.
    pub fn tokens_fit(&self, tokens: &Vec<Token>) -> (r: bool)
        ensures
            r == all_elision_fit(
                views(tokens@),
                elision_contents(self.spec_elisions()),
                self.spec_ignore_case(),
            ),
    {
        let ghost e = elision_contents(self.elisions);
        let mut i: usize = 0;
        while i < tokens.len()
            invariant
                i <= tokens.len(),
                e == elision_contents(self.elisions),
                forall|j: int| 0 <= j < i ==> elision_fits(#[trigger] tokens@[j]@, e, self.ignore_case),
            decreases tokens.len() - i,
        {
            let fits = match find_elision(&tokens[i].text, &self.elisions, self.ignore_case) {
                Some((prefix_len, _)) => match tokens[i].offset_from.checked_add(prefix_len) {
                    Some(end) => end < usize::MAX,
                    None => false,
                },
                None => true,
            };
            if !fits {
                assert(views(tokens@)[i as int] == tokens@[i as int]@);
                return false;
            }
            i = i + 1;
        }
        assert forall|j: int| 0 <= j < views(tokens@).len() implies elision_fits(
            #[trigger] views(tokens@)[j],
            e,
            self.ignore_case,
        ) by {
            assert(views(tokens@)[j] == tokens@[j]@);
        }
        true
    }

    /// The stream of the tokens of `tail`, the stream that the inner
    /// tokenizer produced, without their elisions.
    pub fn token_stream<'a, S: TokenStream>(&'a self, tail: S) -> (s: ElisionTokenStream<'a, S>)
        requires
            tail.wf(),
            all_elision_fit(
                tail.remaining(),
                elision_contents(self.spec_elisions()),
                self.spec_ignore_case(),
            ),
        ensures
            s.wf(),
            s.remaining() == elide_tokens(
                tail.remaining(),
                elision_contents(self.spec_elisions()),
                self.spec_ignore_case(),
            ),
    {
        ElisionTokenStream {
            tail,
            elisions: &self.elisions,
            ignore_case: self.ignore_case,
            token: Token::default(),
        }
    }
}

/// The stream of the tokens of its tail, without their elisions.
pub struct ElisionTokenStream<'a, T> {
    tail: T,
    elisions: &'a ElisionSet,
    ignore_case: bool,
    token: Token,
}

impl<'a, T: TokenStream> TokenStream for ElisionTokenStream<'a, T> {
    closed spec fn wf(&self) -> bool {
        &&& self.tail.wf()
        &&& all_elision_fit(self.tail.remaining(), elision_contents(*self.elisions), self.ignore_case)
    }

    closed spec fn remaining(&self) -> Seq<TokenView> {
        elide_tokens(self.tail.remaining(), elision_contents(*self.elisions), self.ignore_case)
    }

    closed spec fn current(&self) -> TokenView {
        self.token@
    }

    fn advance(&mut self) -> (r: bool) {
        let ghost rem = self.tail.remaining();
        let ghost e = elision_contents(*self.elisions);
        if !self.tail.advance() {
            return false;
        }
        assert(elision_fits(rem[0], e, self.ignore_case));
        assert(all_elision_fit(self.tail.remaining(), e, self.ignore_case)) by {
            assert forall|i: int| 0 <= i < self.tail.remaining().len() implies elision_fits(
                #[trigger] self.tail.remaining()[i],
                e,
                self.ignore_case,
            ) by {
                assert(self.tail.remaining()[i] == rem[i + 1]);
            }
        }
        let tail_token = self.tail.token();
        self.token = match find_elision(&tail_token.text, self.elisions, self.ignore_case) {
            Some((prefix_len, rest)) => Token {
                offset_from: tail_token.offset_from + prefix_len + 1,
                offset_to: tail_token.offset_to,
                position: tail_token.position,
                text: rest,
                position_length: tail_token.position_length,
            },
            None => tail_token.duplicate(),
        };
        assert(self.remaining() =~= old(self).remaining().drop_first());
        true
    }

    fn token(&self) -> (t: &Token) {
        &self.token
    }
}

} // verus!
