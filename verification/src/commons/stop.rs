//! Removes stop words, held in an `fst::Set`.
use vstd::prelude::*;
use vstd::utf8::encode_utf8;

use crate::token::{Token, TokenStream, TokenView};

verus! {

#[verifier::external_type_specification]
#[verifier::external_body]
#[verifier::reject_recursive_types(D)]
pub struct ExFstSet<D>(fst::Set<D>);

#[verifier::external_type_specification]
#[verifier::external_body]
pub struct ExFstError(fst::Error);

/// The byte strings that an `fst::Set` holds.
pub uninterp spec fn stop_words_of(set: fst::Set<Vec<u8>>) -> Set<Seq<u8>>;

/// Whether the bytes of an `fst::Set` form a valid FST, which reading the
/// set needs: on other bytes a read may panic.
pub uninterp spec fn fst_valid(set: fst::Set<Vec<u8>>) -> bool;

/// Lexicographic order of byte strings, as `[u8]` compares them.
pub open spec fn bytes_le(a: Seq<u8>, b: Seq<u8>) -> bool
    decreases a.len(),
{
    if a.len() == 0 {
        true
    } else if b.len() == 0 {
        false
    } else if a[0] != b[0] {
        a[0] < b[0]
    } else {
        bytes_le(a.drop_first(), b.drop_first())
    }
}

/// Whether `words` come in lexicographic order (repetitions allowed).
pub open spec fn in_order(words: Seq<Seq<u8>>) -> bool {
    forall|i: int| 0 <= i < words.len() - 1 ==> #[trigger] bytes_le(words[i], words[i + 1])
}

/// The byte strings of `words`.
pub open spec fn word_bytes(words: Seq<Vec<u8>>) -> Seq<Seq<u8>> {
    words.map_values(|w: Vec<u8>| w@)
}

/// `fst::Set::from_iter`: builds the set of `words` in memory. It fails
/// exactly when a word comes after a greater one; the set it builds is a
/// valid FST holding the words.
#[verifier::external_body]
fn set_from_iter(words: Vec<Vec<u8>>) -> (r: Result<fst::Set<Vec<u8>>, fst::Error>)
    ensures
        r is Ok <==> in_order(word_bytes(words@)),
        r matches Ok(s) ==> fst_valid(s) && stop_words_of(s) == word_bytes(words@).to_set(),
{
    fst::Set::from_iter(words)
}

/// `Clone::clone` of `fst::Set<Vec<u8>>`: a copy of the same bytes, so it
/// holds the same strings and is valid when the original is.
#[verifier::external_body]
fn clone_set(set: &fst::Set<Vec<u8>>) -> (r: fst::Set<Vec<u8>>)
    ensures
        stop_words_of(r) == stop_words_of(*set),
        fst_valid(*set) ==> fst_valid(r),
{
    set.clone()
}

/// `fst::Set::contains`: whether the set, a valid FST, holds the UTF-8
/// bytes of `key`.
#[verifier::external_body]
fn set_contains(set: &fst::Set<Vec<u8>>, key: &str) -> (r: bool)
    requires
        fst_valid(*set),
    ensures
        r == stop_words_of(*set).contains(encode_utf8(key@)),
{
    set.contains(key)
}

/// The tokens of `ts` that are not stop words, in order.
pub open spec fn remove_stop_words(stop_words: Set<Seq<u8>>, ts: Seq<TokenView>) -> Seq<TokenView>
    decreases ts.len(),
{
    if ts.len() == 0 {
        Seq::empty()
    } else {
        let rest = remove_stop_words(stop_words, ts.drop_first());
        if stop_words.contains(encode_utf8(ts[0].text)) {
            rest
        } else {
            seq![ts[0]] + rest
        }
    }
}

/// No token that the filter keeps is a stop word, and every token that is
/// no stop word is kept.
pub proof fn stop_filter_removes_stop_words(stop_words: Set<Seq<u8>>, ts: Seq<TokenView>)
    ensures
        forall|i: int|
            0 <= i < remove_stop_words(stop_words, ts).len() ==> !stop_words.contains(
                encode_utf8(#[trigger] remove_stop_words(stop_words, ts)[i].text),
            ),
        forall|i: int|
            0 <= i < ts.len() && !stop_words.contains(encode_utf8(ts[i].text))
                ==> remove_stop_words(stop_words, ts).contains(#[trigger] ts[i]),
    decreases ts.len(),
{
    if ts.len() > 0 {
        let rest = remove_stop_words(stop_words, ts.drop_first());
        stop_filter_removes_stop_words(stop_words, ts.drop_first());
        assert forall|i: int|
            0 <= i < ts.len() && !stop_words.contains(
                encode_utf8(ts[i].text),
            ) implies remove_stop_words(stop_words, ts).contains(#[trigger] ts[i]) by {
            if i == 0 {
                assert(remove_stop_words(stop_words, ts)[0] == ts[0]);
            } else {
                assert(ts[i] == ts.drop_first()[i - 1]);
                let j = choose|j: int| 0 <= j < rest.len() && rest[j] == ts[i];
                if !stop_words.contains(encode_utf8(ts[0].text)) {
                    assert(remove_stop_words(stop_words, ts)[j + 1] == ts[i]);
                } else {
                    assert(remove_stop_words(stop_words, ts)[j] == ts[i]);
                }
            }
        }
        if !stop_words.contains(encode_utf8(ts[0].text)) {
            assert forall|i: int|
                0 <= i < remove_stop_words(stop_words, ts).len() implies !stop_words.contains(
                encode_utf8(#[trigger] remove_stop_words(stop_words, ts)[i].text),
            ) by {
                if i > 0 {
                    assert(remove_stop_words(stop_words, ts)[i] == rest[i - 1]);
                }
            }
        }
    }
}

/// Why a list of stop words was refused.
#[derive(Clone, Copy, Debug, PartialEq, Eq)]
pub enum StopWordsError {
    /// The words were not in lexicographic order.
    OutOfOrder,
}

/// This filter removes the tokens that are stop words, such as articles.
pub struct StopTokenFilter {
    /// List of stop words.
    stop_words: fst::Set<Vec<u8>>,
}

impl StopTokenFilter {
    #[verifier::type_invariant]
    spec fn valid(self) -> bool {
        fst_valid(self.stop_words)
    }

    /// The stop words.
    pub closed spec fn spec_stop_words(&self) -> Set<Seq<u8>> {
        stop_words_of(self.stop_words)
    }

    /// The filter for the stop words `words` (as UTF-8 bytes), which must
    /// come in lexicographic order; otherwise the list is refused.
    pub fn from_words(words: Vec<Vec<u8>>) -> (r: Result<Self, StopWordsError>)
        ensures
            r is Ok <==> in_order(word_bytes(words@)),
            r matches Ok(f) ==> f.spec_stop_words() == word_bytes(words@).to_set(),
            r matches Err(e) ==> e == StopWordsError::OutOfOrder,
    {
        match set_from_iter(words) {
            Ok(stop_words) => Ok(StopTokenFilter { stop_words }),
            Err(_) => Err(StopWordsError::OutOfOrder),
        }
    }

    /// The stream of the tokens of `tail` that are not stop words.
    pub fn transform<'a, S: TokenStream>(&'a self, tail: S) -> (s: StopTokenStream<'a, S>)
        requires
            tail.wf(),
        ensures
            s.wf(),
            s.remaining() == remove_stop_words(self.spec_stop_words(), tail.remaining()),
    {
        proof {
            use_type_invariant(self);
        }
        StopTokenStream { tail, stop_words: &self.stop_words }
    }
}

impl Clone for StopTokenFilter {
    /// A filter with the same stop words.
    fn clone(&self) -> (r: Self)
        ensures
            r.spec_stop_words() == self.spec_stop_words(),
    {
        proof {
            use_type_invariant(self);
        }
        StopTokenFilter { stop_words: clone_set(&self.stop_words) }
    }
}

/// The stream of the tokens of its tail that are not stop words.
pub struct StopTokenStream<'a, T> {
    tail: T,
    stop_words: &'a fst::Set<Vec<u8>>,
}

impl<'a, T: TokenStream> TokenStream for StopTokenStream<'a, T> {
    closed spec fn wf(&self) -> bool {
        self.tail.wf() && fst_valid(*self.stop_words)
    }

    closed spec fn remaining(&self) -> Seq<TokenView> {
        remove_stop_words(stop_words_of(*self.stop_words), self.tail.remaining())
    }

    closed spec fn current(&self) -> TokenView {
        self.tail.current()
    }

    fn advance(&mut self) -> (r: bool) {
        let ghost target = self.remaining();
        loop
            invariant
                self.tail.wf(),
                fst_valid(*self.stop_words),
                self.stop_words == old(self).stop_words,
                target == old(self).remaining(),
                target == self.remaining(),
            decreases self.tail.remaining().len(),
        {
            let ghost rem = self.tail.remaining();
            if !self.tail.advance() {
                assert(self.remaining() =~= Seq::<TokenView>::empty());
                return false;
            }
            if !set_contains(self.stop_words, self.tail.token().text.as_str()) {
                return true;
            }
        }
    }

    fn token(&self) -> (t: &Token) {
        self.tail.token()
    }
}

} // verus!
