//! Tokenizer for hierarchical paths: `/part1/part2/part3` gives `/part1`,
//! `/part1/part2` and `/part1/part2/part3`.
use vstd::prelude::*;
use vstd::utf8::encode_utf8;

use crate::text::{
    byte_len, chars_of, lemma_encode_utf8_concat, lemma_utf8_len_bounds, lemma_utf8_len_concat, lemma_utf8_len_single, push_char,
    string_from_chars, utf8_len, char_utf8_len,
};
use crate::token::{Token, TokenStream, TokenView};

verus! {

/// The delimiter that a default [PathTokenizer] uses.
pub const DEFAULT_SEPARATOR: char = '/';

/// The parts of `s` between the occurrences of `d`, as `str::split` gives
/// them: one more part than there are occurrences, some possibly empty.
pub open spec fn split_on(s: Seq<char>, d: char) -> Seq<Seq<char>>
    decreases s.len(),
{
    if s.len() == 0 {
        seq![Seq::empty()]
    } else {
        let init = split_on(s.drop_last(), d);
        if s.last() == d {
            init.push(Seq::empty())
        } else {
            init.update(init.len() - 1, init.last().push(s.last()))
        }
    }
}

/// A split always has at least one part.
pub proof fn lemma_split_on_nonempty(s: Seq<char>, d: char)
    ensures
        split_on(s, d).len() >= 1,
    decreases s.len(),
{
    if s.len() > 0 {
        lemma_split_on_nonempty(s.drop_last(), d);
    }
}

/// The parts that are turned into tokens, before any is skipped: in text
/// order, or in reverse order for a reverse tokenizer; the empty part before
/// a leading delimiter (after a trailing one, in reverse) is left out.
pub open spec fn ordered_parts(s: Seq<char>, d: char, reverse: bool) -> Seq<Seq<char>> {
    let parts = split_on(s, d);
    let ordered = if reverse {
        parts.reverse()
    } else {
        parts
    };
    if starts_at_delimiter(s, d, reverse) {
        ordered.drop_first()
    } else {
        ordered
    }
}

/// Whether `s` starts with `d` (ends with it, in reverse).
pub open spec fn starts_at_delimiter(s: Seq<char>, d: char, reverse: bool) -> bool {
    s.len() > 0 && (if reverse {
        s.last() == d
    } else {
        s[0] == d
    })
}

/// The state after skipping `n` parts: the parts left, whether a separator
/// goes before the next part, and the byte offset reached (each skipped
/// separator counts for one byte).
pub open spec fn skip_parts(parts: Seq<Seq<char>>, n: nat, flag: bool, offset: int) -> (Seq<
    Seq<char>,
>, bool, int)
    decreases n,
{
    if n == 0 || parts.len() == 0 {
        (parts, flag, offset)
    } else {
        skip_parts(
            parts.drop_first(),
            (n - 1) as nat,
            true,
            offset + (if flag {
                1int
            } else {
                0int
            }) + utf8_len(parts[0]),
        )
    }
}

/// The offsets met while skipping fit in a `usize`.
pub open spec fn skip_fits(parts: Seq<Seq<char>>, n: nat, flag: bool, offset: int) -> bool
    decreases n,
{
    if n == 0 || parts.len() == 0 {
        true
    } else {
        let next = offset + (if flag {
            1int
        } else {
            0int
        }) + utf8_len(parts[0]);
        next <= usize::MAX && skip_fits(parts.drop_first(), (n - 1) as nat, true, next)
    }
}

/// The buffer after adding `part`: the separator goes first (last, in
/// reverse) when `flag` is set, and the part is appended (prepended).
pub open spec fn grow_buffer(
    buffer: Seq<char>,
    part: Seq<char>,
    flag: bool,
    sep: char,
    reverse: bool,
) -> Seq<char> {
    if reverse {
        part + (if flag {
            seq![sep]
        } else {
            Seq::empty()
        }) + buffer
    } else {
        buffer + (if flag {
            seq![sep]
        } else {
            Seq::empty()
        }) + part
    }
}

/// The token for a buffer: it starts at `offset` (ends there, in reverse).
pub open spec fn path_token(buffer: Seq<char>, offset: usize, reverse: bool) -> TokenView {
    TokenView {
        offset_from: if reverse {
            (offset - utf8_len(buffer)) as usize
        } else {
            offset
        },
        offset_to: if reverse {
            offset
        } else {
            (offset + utf8_len(buffer)) as usize
        },
        position: 0,
        text: buffer,
        position_length: 1,
    }
}

/// The tokens still to come from a buffer and the parts left.
pub open spec fn path_pending(
    buffer: Seq<char>,
    parts: Seq<Seq<char>>,
    flag: bool,
    offset: usize,
    sep: char,
    reverse: bool,
) -> Seq<TokenView>
    decreases parts.len(),
{
    if parts.len() == 0 {
        Seq::empty()
    } else {
        let next = grow_buffer(buffer, parts[0], flag, sep, reverse);
        seq![path_token(next, offset, reverse)] + path_pending(
            next,
            parts.drop_first(),
            true,
            offset,
            sep,
            reverse,
        )
    }
}

/// The offsets of the tokens still to come fit in a `usize`.
pub open spec fn path_pending_fits(
    buffer: Seq<char>,
    parts: Seq<Seq<char>>,
    flag: bool,
    offset: usize,
    sep: char,
    reverse: bool,
) -> bool
    decreases parts.len(),
{
    if parts.len() == 0 {
        true
    } else {
        let next = grow_buffer(buffer, parts[0], flag, sep, reverse);
        &&& (if reverse {
            utf8_len(next) <= offset
        } else {
            offset + utf8_len(next) <= usize::MAX
        })
        &&& path_pending_fits(next, parts.drop_first(), true, offset, sep, reverse)
    }
}

/// Path tokenizer. It tokenizes `/part1/part2/part3` into `/part1`,
/// `/part1/part2` and `/part1/part2/part3`.
///
/// With `reverse` it tokenizes backward: `mail.google.com` (with `.` as
/// delimiter) gives `com`, `google.com` and `mail.google.com`.
#[derive(Clone, Copy, Debug)]
pub struct PathTokenizer {
    /// Do the tokenization backward.
    pub reverse: bool,
    /// Number of parts to skip.
    pub skip: usize,
    /// Delimiter of path parts.
    pub delimiter: char,
    /// Character that replaces the delimiter in the tokens; `None` keeps the
    /// delimiter.
    pub replacement: Option<char>,
}

/// The separator that a tokenizer puts between parts.
pub open spec fn separator_of(t: PathTokenizer) -> char {
    match t.replacement {
        Some(r) => r,
        None => t.delimiter,
    }
}

/// Where the tokenizer stands after skipping parts.
pub open spec fn path_start(t: PathTokenizer, s: Seq<char>) -> (Seq<Seq<char>>, bool, int) {
    skip_parts(
        ordered_parts(s, t.delimiter, t.reverse),
        t.skip as nat,
        starts_at_delimiter(s, t.delimiter, t.reverse),
        0,
    )
}

/// The offset the tokens start from (end at, in reverse).
pub open spec fn path_base_offset(t: PathTokenizer, s: Seq<char>) -> int {
    if t.reverse {
        utf8_len(s) - path_start(t, s).2
    } else {
        path_start(t, s).2
    }
}

/// The tokens of `s`.
pub open spec fn path_tokens(t: PathTokenizer, s: Seq<char>) -> Seq<TokenView> {
    path_pending(
        Seq::empty(),
        path_start(t, s).0,
        path_start(t, s).1,
        path_base_offset(t, s) as usize,
        separator_of(t),
        t.reverse,
    )
}

/// Every offset computed while tokenizing `s` fits in a `usize`.
pub open spec fn path_fits(t: PathTokenizer, s: Seq<char>) -> bool {
    &&& skip_fits(
        ordered_parts(s, t.delimiter, t.reverse),
        t.skip as nat,
        starts_at_delimiter(s, t.delimiter, t.reverse),
        0,
    )
    &&& 0 <= path_base_offset(t, s) <= usize::MAX
    &&& path_pending_fits(
        Seq::empty(),
        path_start(t, s).0,
        path_start(t, s).1,
        path_base_offset(t, s) as usize,
        separator_of(t),
        t.reverse,
    )
}

impl Default for PathTokenizer {
    /// A [PathTokenizer] with no skip and `/` as delimiter and replacement.
    fn default() -> (t: Self)
        ensures
            t == (PathTokenizer {
                reverse: false,
                skip: 0,
                delimiter: DEFAULT_SEPARATOR,
                replacement: None,
            }),
    {
        PathTokenizer { reverse: false, skip: 0, delimiter: DEFAULT_SEPARATOR, replacement: None }
    }
}

impl From<char> for PathTokenizer {
    /// A tokenizer with `delimiter` as delimiter.
    fn from(delimiter: char) -> (t: Self) {
        PathTokenizer { reverse: false, skip: 0, delimiter, replacement: None }
    }
}

impl vstd::std_specs::convert::FromSpecImpl<char> for PathTokenizer {
    open spec fn obeys_from_spec() -> bool {
        true
    }

    open spec fn from_spec(delimiter: char) -> Self {
        PathTokenizer { reverse: false, skip: 0, delimiter, replacement: None }
    }
}

impl From<usize> for PathTokenizer {
    /// A tokenizer that skips `skip` parts.
    fn from(skip: usize) -> (t: Self) {
        PathTokenizer { reverse: false, skip, delimiter: DEFAULT_SEPARATOR, replacement: None }
    }
}

impl vstd::std_specs::convert::FromSpecImpl<usize> for PathTokenizer {
    open spec fn obeys_from_spec() -> bool {
        true
    }

    open spec fn from_spec(skip: usize) -> Self {
        PathTokenizer { reverse: false, skip, delimiter: DEFAULT_SEPARATOR, replacement: None }
    }
}

impl From<(char, char)> for PathTokenizer {
    /// A tokenizer with a delimiter and its replacement.
    fn from(value: (char, char)) -> (t: Self) {
        PathTokenizer { reverse: false, skip: 0, delimiter: value.0, replacement: Some(value.1) }
    }
}

impl vstd::std_specs::convert::FromSpecImpl<(char, char)> for PathTokenizer {
    open spec fn obeys_from_spec() -> bool {
        true
    }

    open spec fn from_spec(value: (char, char)) -> Self {
        PathTokenizer { reverse: false, skip: 0, delimiter: value.0, replacement: Some(value.1) }
    }
}

impl From<(usize, char, char)> for PathTokenizer {
    /// A tokenizer with a number of parts to skip, a delimiter and its
    /// replacement.
    fn from(value: (usize, char, char)) -> (t: Self) {
        PathTokenizer {
            reverse: false,
            skip: value.0,
            delimiter: value.1,
            replacement: Some(value.2),
        }
    }
}

impl vstd::std_specs::convert::FromSpecImpl<(usize, char, char)> for PathTokenizer {
    open spec fn obeys_from_spec() -> bool {
        true
    }

    open spec fn from_spec(value: (usize, char, char)) -> Self {
        PathTokenizer {
            reverse: false,
            skip: value.0,
            delimiter: value.1,
            replacement: Some(value.2),
        }
    }
}

impl From<(usize, char)> for PathTokenizer {
    /// A tokenizer with a number of parts to skip and a delimiter.
    fn from(value: (usize, char)) -> (t: Self) {
        PathTokenizer { reverse: false, skip: value.0, delimiter: value.1, replacement: None }
    }
}

impl vstd::std_specs::convert::FromSpecImpl<(usize, char)> for PathTokenizer {
    open spec fn obeys_from_spec() -> bool {
        true
    }

    open spec fn from_spec(value: (usize, char)) -> Self {
        PathTokenizer { reverse: false, skip: value.0, delimiter: value.1, replacement: None }
    }
}

/// Error of [PathTokenizerBuilder::build].
#[derive(Clone, Debug, PartialEq, Eq)]
pub enum PathTokenizerBuilderError {
    /// A field without default value was not set.
    UninitializedField(&'static str),
    /// The values set are not valid.
    ValidationError(String),
}

/// Builder of [PathTokenizer]: every field it is not given keeps the value
/// of [PathTokenizer::default].
#[derive(Clone, Debug)]
pub struct PathTokenizerBuilder {
    reverse: Option<bool>,
    skip: Option<usize>,
    delimiter: Option<char>,
    replacement: Option<Option<char>>,
}

impl Default for PathTokenizerBuilder {
    fn default() -> (b: Self)
        ensures
            b.spec_reverse() is None,
            b.spec_skip() is None,
            b.spec_delimiter() is None,
            b.spec_replacement() is None,
    {
        PathTokenizerBuilder { reverse: None, skip: None, delimiter: None, replacement: None }
    }
}

impl PathTokenizerBuilder {
    pub closed spec fn spec_reverse(&self) -> Option<bool> {
        self.reverse
    }

    pub closed spec fn spec_skip(&self) -> Option<usize> {
        self.skip
    }

    pub closed spec fn spec_delimiter(&self) -> Option<char> {
        self.delimiter
    }

    pub closed spec fn spec_replacement(&self) -> Option<Option<char>> {
        self.replacement
    }

    /// Sets whether the tokenization goes backward.
    pub fn reverse(self, value: bool) -> (b: Self)
        ensures
            b.spec_reverse() == Some(value),
            b.spec_skip() == self.spec_skip(),
            b.spec_delimiter() == self.spec_delimiter(),
            b.spec_replacement() == self.spec_replacement(),
    {
        PathTokenizerBuilder { reverse: Some(value), ..self }
    }

    /// Sets the number of parts to skip.
    pub fn skip(self, value: usize) -> (b: Self)
        ensures
            b.spec_reverse() == self.spec_reverse(),
            b.spec_skip() == Some(value),
            b.spec_delimiter() == self.spec_delimiter(),
            b.spec_replacement() == self.spec_replacement(),
    {
        PathTokenizerBuilder { skip: Some(value), ..self }
    }

    /// Sets the delimiter of path parts.
    pub fn delimiter(self, value: char) -> (b: Self)
        ensures
            b.spec_reverse() == self.spec_reverse(),
            b.spec_skip() == self.spec_skip(),
            b.spec_delimiter() == Some(value),
            b.spec_replacement() == self.spec_replacement(),
    {
        PathTokenizerBuilder { delimiter: Some(value), ..self }
    }

    /// Sets the character that replaces the delimiter in tokens.
    pub fn replacement(self, value: char) -> (b: Self)
        ensures
            b.spec_reverse() == self.spec_reverse(),
            b.spec_skip() == self.spec_skip(),
            b.spec_delimiter() == self.spec_delimiter(),
            b.spec_replacement() == Some(Some(value)),
    {
        PathTokenizerBuilder { replacement: Some(Some(value)), ..self }
    }

    /// The tokenizer with the values set, and the default ones elsewhere.
    pub fn build(&self) -> (r: Result<PathTokenizer, PathTokenizerBuilderError>)
        ensures
            r == Ok::<PathTokenizer, PathTokenizerBuilderError>(
                PathTokenizer {
                    reverse: match self.spec_reverse() {
                        Some(v) => v,
                        None => false,
                    },
                    skip: match self.spec_skip() {
                        Some(v) => v,
                        None => 0,
                    },
                    delimiter: match self.spec_delimiter() {
                        Some(v) => v,
                        None => DEFAULT_SEPARATOR,
                    },
                    replacement: match self.spec_replacement() {
                        Some(v) => v,
                        None => None,
                    },
                },
            ),
    {
        Ok(
            PathTokenizer {
                reverse: match self.reverse {
                    Some(v) => v,
                    None => false,
                },
                skip: match self.skip {
                    Some(v) => v,
                    None => 0,
                },
                delimiter: match self.delimiter {
                    Some(v) => v,
                    None => DEFAULT_SEPARATOR,
                },
                replacement: match self.replacement {
                    Some(v) => v,
                    None => None,
                },
            },
        )
    }
}

/// The parts of `chars` between occurrences of `d`.
fn split_parts(chars: &Vec<char>, d: char) -> (parts: Vec<String>)
    ensures
        parts@.map_values(|p: String| p@) == split_on(chars@, d),
{
    let mut parts: Vec<String> = Vec::new();
    let mut start: usize = 0;
    let mut i: usize = 0;
    assert(chars@.take(0) =~= Seq::<char>::empty());
    assert(parts@.map_values(|p: String| p@).push(chars@.subrange(0, 0)) =~= seq![
        Seq::<char>::empty(),
    ]);
    while i < chars.len()
        invariant
            start <= i <= chars.len(),
            split_on(chars@.take(i as int), d) == parts@.map_values(|p: String| p@).push(
                chars@.subrange(start as int, i as int),
            ),
        decreases chars.len() - i,
    {
        let ghost before = parts@.map_values(|p: String| p@);
        assert(chars@.take(i + 1).drop_last() =~= chars@.take(i as int));
        assert(chars@.take(i + 1).last() == chars@[i as int]);
        if chars[i] == d {
            let part = string_from_chars(chars, start, i);
            let ghost part_view = part@;
            parts.push(part);
            assert(parts@.map_values(|p: String| p@) =~= before.push(part_view));
            start = i + 1;
            i = i + 1;
            assert(chars@.subrange(start as int, i as int) =~= Seq::<char>::empty());
            assert(split_on(chars@.take(i as int), d) =~= parts@.map_values(|p: String| p@).push(
                chars@.subrange(start as int, i as int),
            ));
        } else {
            i = i + 1;
            assert(chars@.subrange(start as int, i as int) =~= chars@.subrange(
                start as int,
                (i - 1) as int,
            ).push(chars@[i - 1]));
            assert(split_on(chars@.take(i as int), d) =~= parts@.map_values(|p: String| p@).push(
                chars@.subrange(start as int, i as int),
            ));
        }
    }
    let last = string_from_chars(chars, start, chars.len());
    parts.push(last);
    assert(chars@.take(chars.len() as int) =~= chars@);
    assert(parts@.map_values(|p: String| p@) =~= split_on(chars@, d));
    parts
}

impl PathTokenizer {
    /// The parts of `chars` in the order they are tokenized, those before
    /// `index` left out, and whether the text starts at a delimiter (ends
    /// at one, in reverse).
    fn ordered_split(&self, chars: &Vec<char>) -> (r: (Vec<String>, usize, bool))
        ensures
            r.1 <= r.0.len(),
            r.0@.skip(r.1 as int).map_values(|p: String| p@) == ordered_parts(
                chars@,
                self.delimiter,
                self.reverse,
            ),
            r.2 == starts_at_delimiter(chars@, self.delimiter, self.reverse),
    {
        let len = chars.len();
        let starts_with = len > 0 && (if self.reverse {
            chars[len - 1] == self.delimiter
        } else {
            chars[0] == self.delimiter
        });
        let split = split_parts(&chars, self.delimiter);
        let mut order: Vec<String> = Vec::new();
        let ghost split_view = split@.map_values(|p: String| p@);
        if self.reverse {
            let mut k = split.len();
            while k > 0
                invariant
                    k <= split.len(),
                    split_view == split@.map_values(|p: String| p@),
                    order@.map_values(|p: String| p@) == split_view.reverse().take(
                        split.len() - k,
                    ),
                decreases k,
            {
                k = k - 1;
                let ghost prev = order@.map_values(|p: String| p@);
                let piece = split[k].clone();
                assert(piece@ == split_view[k as int]);
                order.push(piece);
                assert(order@.map_values(|p: String| p@) =~= prev.push(split_view[k as int]));
                assert(order@.map_values(|p: String| p@) =~= split_view.reverse().take(
                    split.len() - k,
                ));
            }
            assert(order@.map_values(|p: String| p@) =~= split_view.reverse());
        } else {
            order = split;
        }
        let mut index: usize = if starts_with {
            1
        } else {
            0
        };
        proof {
            lemma_split_on_nonempty(chars@, self.delimiter);
        }
        assert(split_view.len() >= 1);
        assert(order@.skip(index as int).map_values(|p: String| p@) =~= ordered_parts(
            chars@,
            self.delimiter,
            self.reverse,
        ));
        (order, index, starts_with)
    }

    /// Whether every offset met while tokenizing `text` stays within a
    /// `usize`: where one does not, the tokenization overflows or goes
    /// below zero.
    pub fn fits(&self, text: &str) -> (r: bool)
        ensures
            r == path_fits(*self, text@),
    {
        let chars = chars_of(text);
        let (order, mut index, mut starts_with) = self.ordered_split(&chars);
        let ghost parts0 = ordered_parts(text@, self.delimiter, self.reverse);
        let ghost sw0 = starts_at_delimiter(text@, self.delimiter, self.reverse);
        let mut offset: usize = 0;
        let mut i = self.skip;
        while i > 0
            invariant
                index <= order.len(),
                i <= self.skip,
                skip_parts(
                    order@.skip(index as int).map_values(|p: String| p@),
                    i as nat,
                    starts_with,
                    offset as int,
                ) == path_start(*self, text@),
                skip_fits(
                    order@.skip(index as int).map_values(|p: String| p@),
                    i as nat,
                    starts_with,
                    offset as int,
                ) == skip_fits(parts0, self.skip as nat, sw0, 0),
                parts0 == ordered_parts(text@, self.delimiter, self.reverse),
                sw0 == starts_at_delimiter(text@, self.delimiter, self.reverse),
            decreases i,
        {
            let ghost parts = order@.skip(index as int).map_values(|p: String| p@);
            if index < order.len() {
                let part_len = byte_len(&order[index]);
                assert(parts[0] == order@[index as int]@);
                index = index + 1;
                assert(order@.skip(index as int).map_values(|p: String| p@) =~= parts.drop_first());
                let step: usize = if starts_with {
                    1
                } else {
                    0
                };
                match offset.checked_add(step) {
                    None => {
                        return false;
                    },
                    Some(o) => match o.checked_add(part_len) {
                        None => {
                            return false;
                        },
                        Some(next) => {
                            offset = next;
                        },
                    },
                }
                starts_with = true;
            } else {
                assert(parts.len() == 0);
            }
            i = i - 1;
        }
        let ghost rest = order@.skip(index as int).map_values(|p: String| p@);
        assert(rest == path_start(*self, text@).0 && starts_with == path_start(*self, text@).1
            && offset == path_start(*self, text@).2 && skip_fits(parts0, self.skip as nat, sw0, 0))
            by {
            assert(i == 0 || rest.len() == 0);
        }
        let base: usize = if self.reverse {
            let total = byte_len(&text.to_owned());
            if offset > total {
                return false;
            }
            total - offset
        } else {
            offset
        };
        assert(base == path_base_offset(*self, text@));
        let separator = match self.replacement {
            Some(r) => r,
            None => self.delimiter,
        };
        let mut sep_text = String::new();
        push_char(&mut sep_text, separator);
        assert(sep_text@ =~= seq![separator]);
        let sep_len = byte_len(&sep_text);
        let ghost mut buffer: Seq<char> = Seq::empty();
        proof {
            lemma_utf8_len_bounds(buffer);
        }
        let mut blen: usize = 0;
        let mut flag = starts_with;
        let mut k = index;
        while k < order.len()
            invariant
                index <= k <= order.len(),
                blen == utf8_len(buffer),
                sep_len == utf8_len(seq![separator]),
                separator == separator_of(*self),
                path_fits(*self, text@) == path_pending_fits(
                    buffer,
                    order@.skip(k as int).map_values(|p: String| p@),
                    flag,
                    base,
                    separator,
                    self.reverse,
                ),
            decreases order.len() - k,
        {
            let ghost parts = order@.skip(k as int).map_values(|p: String| p@);
            let part_len = byte_len(&order[k]);
            assert(parts[0] == order@[k as int]@);
            let ghost next = grow_buffer(buffer, parts[0], flag, separator, self.reverse);
            proof {
                lemma_grow_buffer_len(buffer, parts[0], flag, separator, self.reverse);
            }
            let extra: usize = if flag {
                sep_len
            } else {
                0
            };
            let grown: usize = match blen.checked_add(extra) {
                None => {
                    return false;
                },
                Some(a) => match a.checked_add(part_len) {
                    None => {
                        return false;
                    },
                    Some(b) => b,
                },
            };
            if self.reverse {
                if grown > base {
                    return false;
                }
            } else if base.checked_add(grown).is_none() {
                return false;
            }
            proof {
                buffer = next;
            }
            blen = grown;
            flag = true;
            k = k + 1;
            assert(order@.skip(k as int).map_values(|p: String| p@) =~= parts.drop_first());
        }
        true
    }

    /// The stream of the tokens of `text`.
    pub fn token_stream(&self, text: &str) -> (s: PathTokenStream)
        requires
            path_fits(*self, text@),
        ensures
            s.wf(),
            s.remaining() == path_tokens(*self, text@),
    {
        let chars = chars_of(text);
        let (order, mut index, mut starts_with) = self.ordered_split(&chars);
        let mut offset: usize = 0;
        let mut i = self.skip;
        while i > 0
            invariant
                index <= order.len(),
                i <= self.skip,
                skip_parts(
                    order@.skip(index as int).map_values(|p: String| p@),
                    i as nat,
                    starts_with,
                    offset as int,
                ) == path_start(*self, text@),
                skip_fits(
                    order@.skip(index as int).map_values(|p: String| p@),
                    i as nat,
                    starts_with,
                    offset as int,
                ),
            decreases i,
        {
            let ghost parts = order@.skip(index as int).map_values(|p: String| p@);
            if index < order.len() {
                let token = &order[index];
                index = index + 1;
                assert(order@.skip(index as int).map_values(|p: String| p@) =~= parts.drop_first());
                if starts_with {
                    offset = offset + 1;
                } else {
                    starts_with = true;
                }
                offset = offset + byte_len(token);
            } else {
                assert(parts.len() == 0);
            }
            i = i - 1;
        }
        let ghost rest = order@.skip(index as int).map_values(|p: String| p@);
        assert(rest == path_start(*self, text@).0 && starts_with == path_start(*self, text@).1
            && offset == path_start(*self, text@).2) by {
            assert(i == 0 || rest.len() == 0);
        }
        if self.reverse {
            offset = byte_len(&text.to_owned()) - offset;
        }
        let separator = match self.replacement {
            Some(r) => r,
            None => self.delimiter,
        };
        PathTokenStream {
            parts: order,
            index,
            buffer: String::new(),
            token: Token::default(),
            separator,
            offset,
            starts_with,
            reverse: self.reverse,
        }
    }
}

/// The byte length of a grown buffer.
proof fn lemma_grow_buffer_len(buffer: Seq<char>, part: Seq<char>, flag: bool, sep: char, reverse: bool)
    ensures
        utf8_len(grow_buffer(buffer, part, flag, sep, reverse)) == utf8_len(buffer) + utf8_len(part)
            + (if flag {
            utf8_len(seq![sep])
        } else {
            0
        }),
{
    let sp = if flag {
        seq![sep]
    } else {
        Seq::<char>::empty()
    };
    if reverse {
        lemma_utf8_len_concat(part, sp);
        lemma_utf8_len_concat(part + sp, buffer);
    } else {
        lemma_utf8_len_concat(buffer, sp);
        lemma_utf8_len_concat(buffer + sp, part);
    }
    lemma_utf8_len_bounds(Seq::<char>::empty());
}

/// The stream of the tokens of a path.
pub struct PathTokenStream {
    parts: Vec<String>,
    index: usize,
    buffer: String,
    token: Token,
    separator: char,
    offset: usize,
    starts_with: bool,
    reverse: bool,
}

impl PathTokenStream {
    closed spec fn parts_left(&self) -> Seq<Seq<char>> {
        self.parts@.skip(self.index as int).map_values(|p: String| p@)
    }
}

impl TokenStream for PathTokenStream {
    closed spec fn wf(&self) -> bool {
        &&& self.index <= self.parts.len()
        &&& path_pending_fits(
            self.buffer@,
            self.parts_left(),
            self.starts_with,
            self.offset,
            self.separator,
            self.reverse,
        )
    }

    closed spec fn remaining(&self) -> Seq<TokenView> {
        path_pending(
            self.buffer@,
            self.parts_left(),
            self.starts_with,
            self.offset,
            self.separator,
            self.reverse,
        )
    }

    closed spec fn current(&self) -> TokenView {
        self.token@
    }

    fn advance(&mut self) -> (r: bool) {
        if self.index < self.parts.len() {
            let ghost parts = self.parts_left();
            let ghost flag = self.starts_with;
            let part = &self.parts[self.index];
            self.index = self.index + 1;
            assert(self.parts_left() =~= parts.drop_first());
            let mut next = String::new();
            if self.reverse {
                next.append(part.as_str());
                if self.starts_with {
                    push_char(&mut next, self.separator);
                }
                next.append(self.buffer.as_str());
            } else {
                next.append(self.buffer.as_str());
                if self.starts_with {
                    push_char(&mut next, self.separator);
                }
                next.append(part.as_str());
            }
            assert(next@ =~= grow_buffer(old(self).buffer@, parts[0], flag, self.separator, self.reverse));
            self.starts_with = true;
            self.buffer = next;
            let size = byte_len(&self.buffer);
            let offset_from = if self.reverse {
                self.offset - size
            } else {
                self.offset
            };
            let offset_to = if self.reverse {
                self.offset
            } else {
                self.offset + size
            };
            self.token = Token {
                offset_from,
                offset_to,
                position: 0,
                text: self.buffer.clone(),
                position_length: 1,
            };
            assert(self.remaining() =~= old(self).remaining().drop_first());
            true
        } else {
            false
        }
    }

    fn token(&self) -> (t: &Token) {
        &self.token
    }
}

/// The parts joined back, with `sep` between two parts.
pub open spec fn join_parts(parts: Seq<Seq<char>>, sep: char) -> Seq<char>
    decreases parts.len(),
{
    if parts.len() == 0 {
        Seq::empty()
    } else if parts.len() == 1 {
        parts[0]
    } else {
        join_parts(parts.drop_last(), sep) + seq![sep] + parts.last()
    }
}

/// Joining the parts of a split with the delimiter gives the text back.
proof fn lemma_join_split(s: Seq<char>, d: char)
    ensures
        join_parts(split_on(s, d), d) == s,
    decreases s.len(),
{
    if s.len() == 0 {
        assert(split_on(s, d) =~= seq![Seq::<char>::empty()]);
        assert(s =~= Seq::<char>::empty());
    } else {
        let init = split_on(s.drop_last(), d);
        lemma_join_split(s.drop_last(), d);
        lemma_split_on_nonempty(s.drop_last(), d);
        let parts = split_on(s, d);
        if s.last() == d {
            assert(parts.drop_last() =~= init);
            assert(s =~= s.drop_last() + seq![d] + Seq::<char>::empty());
        } else {
            let last = init.last().push(s.last());
            if init.len() == 1 {
                assert(parts =~= seq![last]);
                assert(s =~= s.drop_last().push(s.last()));
            } else {
                assert(parts.drop_last() =~= init.drop_last());
                assert(parts.last() == last);
                assert(join_parts(init, d) == join_parts(init.drop_last(), d) + seq![d]
                    + init.last());
                assert(join_parts(parts, d) == join_parts(init.drop_last(), d) + seq![d] + last);
                assert(s.drop_last() == join_parts(init, d));
                assert(s =~= s.drop_last().push(s.last()));
                assert((join_parts(init.drop_last(), d) + seq![d] + init.last()).push(s.last())
                    =~= join_parts(init.drop_last(), d) + seq![d] + last);
            }
        }
    }
}

/// A join can also be taken apart at its first part.
proof fn lemma_join_first(parts: Seq<Seq<char>>, sep: char)
    requires
        parts.len() >= 2,
    ensures
        join_parts(parts, sep) == parts[0] + seq![sep] + join_parts(parts.drop_first(), sep),
    decreases parts.len(),
{
    let front = parts.drop_last();
    let back = parts.drop_first();
    if parts.len() > 2 {
        lemma_join_first(front, sep);
        assert(front.drop_first() =~= back.drop_last());
        assert(front[0] == parts[0]);
        assert(back.last() == parts.last());
        assert(join_parts(back, sep) == join_parts(back.drop_last(), sep) + seq![sep]
            + back.last());
        assert(join_parts(parts, sep) == join_parts(front, sep) + seq![sep] + parts.last());
        assert(join_parts(parts, sep) =~= parts[0] + seq![sep] + join_parts(back, sep));
    } else {
        assert(front =~= seq![parts[0]]);
        assert(back =~= seq![parts[1]]);
        assert(join_parts(front, sep) == parts[0]);
        assert(join_parts(back, sep) == parts[1]);
        assert(join_parts(parts, sep) == join_parts(front, sep) + seq![sep] + parts.last());
    }
}

/// A text that starts with the delimiter splits into an empty first part
/// and at least one more.
proof fn lemma_split_leading(s: Seq<char>, d: char)
    requires
        s.len() >= 1,
        s[0] == d,
    ensures
        split_on(s, d).len() >= 2,
        split_on(s, d)[0] == Seq::<char>::empty(),
    decreases s.len(),
{
    if s.len() == 1 {
        assert(s.drop_last() =~= Seq::<char>::empty());
        assert(split_on(s.drop_last(), d) =~= seq![Seq::<char>::empty()]);
    } else {
        assert(s.drop_last()[0] == d);
        lemma_split_leading(s.drop_last(), d);
    }
}

/// The last token of a forward stream: the buffer followed by the parts
/// joined with the separator.
proof fn lemma_forward_last(
    buffer: Seq<char>,
    parts: Seq<Seq<char>>,
    flag: bool,
    offset: usize,
    sep: char,
)
    requires
        parts.len() >= 1,
    ensures
        path_pending(buffer, parts, flag, offset, sep, false).len() == parts.len(),
        path_pending(buffer, parts, flag, offset, sep, false).last() == path_token(
            buffer + (if flag {
                seq![sep]
            } else {
                Seq::empty()
            }) + join_parts(parts, sep),
            offset,
            false,
        ),
    decreases parts.len(),
{
    let next = grow_buffer(buffer, parts[0], flag, sep, false);
    let flag_sep = if flag {
        seq![sep]
    } else {
        Seq::<char>::empty()
    };
    let pend = path_pending(buffer, parts, flag, offset, sep, false);
    let rest = path_pending(next, parts.drop_first(), true, offset, sep, false);
    assert(pend == seq![path_token(next, offset, false)] + rest);
    if parts.len() == 1 {
        assert(parts.drop_first() =~= Seq::<Seq<char>>::empty());
        assert(rest =~= Seq::<TokenView>::empty());
        assert(next =~= buffer + flag_sep + join_parts(parts, sep));
    } else {
        lemma_forward_last(next, parts.drop_first(), true, offset, sep);
        assert(pend.last() == rest.last());
        lemma_join_first(parts, sep);
        assert(next + seq![sep] + join_parts(parts.drop_first(), sep) =~= buffer + flag_sep
            + join_parts(parts, sep));
    }
}

/// The last token of a reverse stream: the parts, put back in text order,
/// joined with the separator, followed by the buffer.
proof fn lemma_reverse_last(
    buffer: Seq<char>,
    parts: Seq<Seq<char>>,
    flag: bool,
    offset: usize,
    sep: char,
)
    requires
        parts.len() >= 1,
    ensures
        path_pending(buffer, parts, flag, offset, sep, true).len() == parts.len(),
        path_pending(buffer, parts, flag, offset, sep, true).last() == path_token(
            join_parts(parts.reverse(), sep) + (if flag {
                seq![sep]
            } else {
                Seq::empty()
            }) + buffer,
            offset,
            true,
        ),
    decreases parts.len(),
{
    let next = grow_buffer(buffer, parts[0], flag, sep, true);
    let flag_sep = if flag {
        seq![sep]
    } else {
        Seq::<char>::empty()
    };
    let pend = path_pending(buffer, parts, flag, offset, sep, true);
    let rest_pend = path_pending(next, parts.drop_first(), true, offset, sep, true);
    assert(pend == seq![path_token(next, offset, true)] + rest_pend);
    if parts.len() == 1 {
        assert(parts.drop_first() =~= Seq::<Seq<char>>::empty());
        assert(rest_pend =~= Seq::<TokenView>::empty());
        assert(parts.reverse() =~= seq![parts[0]]);
        assert(next =~= join_parts(parts.reverse(), sep) + flag_sep + buffer);
    } else {
        lemma_reverse_last(next, parts.drop_first(), true, offset, sep);
        assert(pend.last() == rest_pend.last());
        let rest = parts.drop_first().reverse();
        assert(parts.reverse().drop_last() =~= rest);
        assert(parts.reverse().last() == parts[0]);
        assert(join_parts(rest, sep) + seq![sep] + next =~= join_parts(parts.reverse(), sep)
            + flag_sep + buffer);
    }
}

/// With no part skipped and the delimiter kept as separator, the last
/// token is the whole text, from offset 0 to its length in bytes:
/// `/part1/part2/part3` ends with `/part1/part2/part3` (forward), and
/// `mail.google.com` ends with `mail.google.com` (reverse).
pub proof fn path_last_token_is_whole_text(t: PathTokenizer, s: Seq<char>)
    requires
        t.skip == 0,
        separator_of(t) == t.delimiter,
        utf8_len(s) <= usize::MAX,
    ensures
        path_tokens(t, s).len() >= 1,
        path_tokens(t, s).last().text == s,
        path_tokens(t, s).last().offset_from == 0,
        path_tokens(t, s).last().offset_to == utf8_len(s),
{
    let d = t.delimiter;
    let split = split_on(s, d);
    lemma_join_split(s, d);
    lemma_split_on_nonempty(s, d);
    let starts = starts_at_delimiter(s, d, t.reverse);
    let parts = ordered_parts(s, d, t.reverse);
    assert(path_start(t, s) == (parts, starts, 0int));
    let sep_seq = if starts {
        seq![d]
    } else {
        Seq::<char>::empty()
    };
    if !t.reverse {
        if starts {
            lemma_split_leading(s, d);
            lemma_join_first(split, d);
        }
        assert(parts.len() >= 1);
        lemma_forward_last(Seq::empty(), parts, starts, 0, d);
        assert(Seq::<char>::empty() + sep_seq + join_parts(parts, d) =~= s);
        assert(path_base_offset(t, s) == 0);
    } else {
        if starts {
            let init = split_on(s.drop_last(), d);
            lemma_join_split(s.drop_last(), d);
            lemma_split_on_nonempty(s.drop_last(), d);
            assert(split == init.push(Seq::<char>::empty()));
            assert(parts.reverse() =~= init);
            assert(join_parts(parts.reverse(), d) + sep_seq + Seq::<char>::empty() =~= s);
        } else {
            assert(parts.reverse() =~= split);
            assert(join_parts(parts.reverse(), d) + sep_seq + Seq::<char>::empty() =~= s);
        }
        assert(parts.len() >= 1);
        lemma_reverse_last(Seq::empty(), parts, starts, path_base_offset(t, s) as usize, d);
    }
}

/// Whether `a` is a prefix of `b`.
pub open spec fn is_prefix(a: Seq<char>, b: Seq<char>) -> bool {
    a.len() <= b.len() && b.take(a.len() as int) == a
}

/// Whether `a` is a suffix of `b`.
pub open spec fn is_suffix(a: Seq<char>, b: Seq<char>) -> bool {
    a.len() <= b.len() && b.skip(b.len() - a.len()) == a
}

proof fn lemma_pending_grows(
    buffer: Seq<char>,
    parts: Seq<Seq<char>>,
    flag: bool,
    offset: usize,
    sep: char,
    reverse: bool,
)
    ensures
        path_pending(buffer, parts, flag, offset, sep, reverse).len() == parts.len(),
        forall|i: int|
            0 <= i < parts.len() ==> {
                let tok = #[trigger] path_pending(buffer, parts, flag, offset, sep, reverse)[i];
                &&& (if reverse {
                    is_suffix(buffer, tok.text) && tok.offset_to == offset
                } else {
                    is_prefix(buffer, tok.text) && tok.offset_from == offset
                })
                &&& (i + 1 < parts.len() ==> if reverse {
                    is_suffix(
                        tok.text,
                        path_pending(buffer, parts, flag, offset, sep, reverse)[i + 1].text,
                    )
                } else {
                    is_prefix(
                        tok.text,
                        path_pending(buffer, parts, flag, offset, sep, reverse)[i + 1].text,
                    )
                })
            },
    decreases parts.len(),
{
    if parts.len() > 0 {
        let next = grow_buffer(buffer, parts[0], flag, sep, reverse);
        let pend = path_pending(buffer, parts, flag, offset, sep, reverse);
        let rest = path_pending(next, parts.drop_first(), true, offset, sep, reverse);
        lemma_pending_grows(next, parts.drop_first(), true, offset, sep, reverse);
        assert forall|i: int| 0 <= i < parts.len() implies {
            let tok = #[trigger] pend[i];
            &&& (if reverse {
                is_suffix(buffer, tok.text) && tok.offset_to == offset
            } else {
                is_prefix(buffer, tok.text) && tok.offset_from == offset
            })
            &&& (i + 1 < parts.len() ==> if reverse {
                is_suffix(tok.text, pend[i + 1].text)
            } else {
                is_prefix(tok.text, pend[i + 1].text)
            })
        } by {
            if reverse {
                assert(is_suffix(buffer, next)) by {
                    assert(next.skip(next.len() - buffer.len()) =~= buffer);
                }
            } else {
                assert(is_prefix(buffer, next)) by {
                    assert(next.take(buffer.len() as int) =~= buffer);
                }
            }
            if i == 0 {
                if i + 1 < parts.len() {
                    assert(pend[1] == rest[0]);
                }
            } else {
                assert(pend[i] == rest[i - 1]);
                if i + 1 < parts.len() {
                    assert(pend[i + 1] == rest[i]);
                }
                let tt = pend[i].text;
                if reverse {
                    assert(tt.skip(tt.len() - buffer.len()) =~= tt.skip(tt.len() - next.len()).skip(
                        next.len() - buffer.len(),
                    ));
                } else {
                    assert(tt.take(buffer.len() as int) =~= tt.take(next.len() as int).take(
                        buffer.len() as int,
                    ));
                }
            }
        }
    }
}

/// Every token of a path is a prefix of the next one and they all start at
/// the same offset; in reverse, every token is a suffix of the next one and
/// they all end at the same offset.
pub proof fn path_tokens_grow(t: PathTokenizer, s: Seq<char>)
    ensures
        forall|i: int|
            0 <= i < path_tokens(t, s).len() - 1 ==> if t.reverse {
                is_suffix(#[trigger] path_tokens(t, s)[i].text, path_tokens(t, s)[i + 1].text)
                    && path_tokens(t, s)[i].offset_to == path_tokens(t, s)[i + 1].offset_to
            } else {
                is_prefix(#[trigger] path_tokens(t, s)[i].text, path_tokens(t, s)[i + 1].text)
                    && path_tokens(t, s)[i].offset_from == path_tokens(t, s)[i + 1].offset_from
            },
{
    lemma_pending_grows(
        Seq::empty(),
        path_start(t, s).0,
        path_start(t, s).1,
        path_base_offset(t, s) as usize,
        separator_of(t),
        t.reverse,
    );
}

/// The shape of the tokens still to come from a buffer and the parts left.
proof fn lemma_pending_shape(
    buffer: Seq<char>,
    parts: Seq<Seq<char>>,
    flag: bool,
    offset: usize,
    sep: char,
    reverse: bool,
)
    requires
        path_pending_fits(buffer, parts, flag, offset, sep, reverse),
    ensures
        path_pending(buffer, parts, flag, offset, sep, reverse).len() == parts.len(),
        forall|i: int|
            0 <= i < parts.len() ==> {
                let tk = #[trigger] path_pending(buffer, parts, flag, offset, sep, reverse)[i];
                &&& tk.position == 0
                &&& tk.position_length == 1
                &&& tk.offset_from <= tk.offset_to
                &&& tk.offset_to - tk.offset_from == utf8_len(tk.text)
                &&& (if reverse {
                    tk.offset_to == offset
                } else {
                    tk.offset_from == offset
                })
            },
    decreases parts.len(),
{
    if parts.len() > 0 {
        let next = grow_buffer(buffer, parts[0], flag, sep, reverse);
        let all = path_pending(buffer, parts, flag, offset, sep, reverse);
        let rest = path_pending(next, parts.drop_first(), true, offset, sep, reverse);
        lemma_pending_shape(next, parts.drop_first(), true, offset, sep, reverse);
        assert forall|i: int| 0 <= i < parts.len() implies {
            let tk = #[trigger] all[i];
            &&& tk.position == 0
            &&& tk.position_length == 1
            &&& tk.offset_from <= tk.offset_to
            &&& tk.offset_to - tk.offset_from == utf8_len(tk.text)
            &&& (if reverse {
                tk.offset_to == offset
            } else {
                tk.offset_from == offset
            })
        } by {
            if i > 0 {
                assert(all[i] == rest[i - 1]);
            }
        }
    }
}

/// Every path token has position 0 and position length 1, and spans as
/// many bytes as its text holds: it starts at the offset the tokens start
/// from (in reverse, it ends at the offset they end at).
pub proof fn path_token_offsets(t: PathTokenizer, s: Seq<char>)
    requires
        path_fits(t, s),
    ensures
        forall|i: int|
            0 <= i < path_tokens(t, s).len() ==> {
                let tk = #[trigger] path_tokens(t, s)[i];
                &&& tk.position == 0
                &&& tk.position_length == 1
                &&& tk.offset_from <= tk.offset_to
                &&& tk.offset_to - tk.offset_from == utf8_len(tk.text)
                &&& (if t.reverse {
                    tk.offset_to == path_base_offset(t, s)
                } else {
                    tk.offset_from == path_base_offset(t, s)
                })
            },
{
    lemma_pending_shape(
        Seq::empty(),
        path_start(t, s).0,
        path_start(t, s).1,
        path_base_offset(t, s) as usize,
        separator_of(t),
        t.reverse,
    );
}

/// The bytes that `parts` cover in the text: their own bytes, and one byte
/// for the delimiter before each part but the first (before the first too
/// when `flag` is set).
pub open spec fn span(parts: Seq<Seq<char>>, flag: bool) -> nat
    decreases parts.len(),
{
    if parts.len() == 0 {
        0
    } else {
        (if flag {
            1nat
        } else {
            0nat
        }) + utf8_len(parts[0]) + span(parts.drop_first(), true)
    }
}

/// The bytes of all the parts.
pub open spec fn parts_len(parts: Seq<Seq<char>>) -> nat
    decreases parts.len(),
{
    if parts.len() == 0 {
        0
    } else {
        utf8_len(parts[0]) + parts_len(parts.drop_first())
    }
}

proof fn lemma_span_parts_len(parts: Seq<Seq<char>>, flag: bool)
    ensures
        span(parts, flag) == parts_len(parts) + (if parts.len() == 0 {
            0
        } else {
            parts.len() - 1 + (if flag {
                1int
            } else {
                0int
            })
        }),
    decreases parts.len(),
{
    if parts.len() > 0 {
        lemma_span_parts_len(parts.drop_first(), true);
    }
}

proof fn lemma_parts_len_push(parts: Seq<Seq<char>>, x: Seq<char>)
    ensures
        parts_len(parts.push(x)) == parts_len(parts) + utf8_len(x),
    decreases parts.len(),
{
    if parts.len() == 0 {
        assert(parts.push(x).drop_first() =~= Seq::<Seq<char>>::empty());
        assert(parts.push(x)[0] == x);
        assert(parts_len(parts.push(x).drop_first()) == 0);
    } else {
        assert(parts.push(x).drop_first() =~= parts.drop_first().push(x));
        assert(parts.push(x)[0] == parts[0]);
        lemma_parts_len_push(parts.drop_first(), x);
    }
}

proof fn lemma_parts_len_reverse(parts: Seq<Seq<char>>)
    ensures
        parts_len(parts.reverse()) == parts_len(parts),
    decreases parts.len(),
{
    if parts.len() > 0 {
        let init = parts.drop_last();
        assert(parts.reverse().drop_first() =~= init.reverse());
        assert(parts.reverse()[0] == parts.last());
        lemma_parts_len_reverse(init);
        assert(init.push(parts.last()) =~= parts);
        lemma_parts_len_push(init, parts.last());
    }
}

proof fn lemma_join_len(parts: Seq<Seq<char>>, d: char)
    requires
        parts.len() >= 1,
        utf8_len(seq![d]) == 1,
    ensures
        utf8_len(join_parts(parts, d)) == parts_len(parts) + parts.len() - 1,
    decreases parts.len(),
{
    if parts.len() == 1 {
        assert(parts.drop_first() =~= Seq::<Seq<char>>::empty());
        assert(parts_len(parts.drop_first()) == 0);
    } else {
        let init = parts.drop_last();
        lemma_join_len(init, d);
        lemma_utf8_len_concat(join_parts(init, d), seq![d]);
        lemma_utf8_len_concat(join_parts(init, d) + seq![d], parts.last());
        assert(init.push(parts.last()) =~= parts);
        lemma_parts_len_push(init, parts.last());
    }
}

proof fn lemma_split_leading_delimiter(s: Seq<char>, d: char)
    requires
        s.len() > 0,
        s[0] == d,
    ensures
        split_on(s, d).len() >= 2,
        split_on(s, d)[0] == Seq::<char>::empty(),
    decreases s.len(),
{
    if s.len() == 1 {
        assert(s.drop_last() =~= Seq::<char>::empty());
    } else {
        lemma_split_leading_delimiter(s.drop_last(), d);
    }
}

/// With a one-byte delimiter, the parts to tokenize cover the whole text.
proof fn lemma_ordered_span(s: Seq<char>, d: char, reverse: bool)
    requires
        utf8_len(seq![d]) == 1,
    ensures
        span(ordered_parts(s, d, reverse), starts_at_delimiter(s, d, reverse)) == utf8_len(s),
{
    let split = split_on(s, d);
    lemma_split_on_nonempty(s, d);
    lemma_join_split(s, d);
    lemma_join_len(split, d);
    let ordered = if reverse {
        split.reverse()
    } else {
        split
    };
    lemma_parts_len_reverse(split);
    lemma_span_parts_len(ordered, false);
    if starts_at_delimiter(s, d, reverse) {
        if reverse {
            assert(split.last() == Seq::<char>::empty());
            assert(ordered[0] == split.last());
        } else {
            lemma_split_leading_delimiter(s, d);
        }
        lemma_utf8_len_bounds(Seq::<char>::empty());
        assert(span(ordered, false) == span(ordered.drop_first(), true));
    }
}

proof fn lemma_skip_span(parts: Seq<Seq<char>>, n: nat, flag: bool, offset: int)
    requires
        0 <= offset,
        offset + span(parts, flag) <= usize::MAX,
    ensures
        skip_fits(parts, n, flag, offset),
        offset <= skip_parts(parts, n, flag, offset).2,
        skip_parts(parts, n, flag, offset).2 + span(
            skip_parts(parts, n, flag, offset).0,
            skip_parts(parts, n, flag, offset).1,
        ) == offset + span(parts, flag),
    decreases n,
{
    if n > 0 && parts.len() > 0 {
        let next = offset + (if flag {
            1int
        } else {
            0int
        }) + utf8_len(parts[0]);
        lemma_skip_span(parts.drop_first(), (n - 1) as nat, true, next);
    }
}

proof fn lemma_pending_span(
    buffer: Seq<char>,
    parts: Seq<Seq<char>>,
    flag: bool,
    offset: usize,
    sep: char,
    reverse: bool,
)
    requires
        utf8_len(seq![sep]) == 1,
        reverse ==> utf8_len(buffer) + span(parts, flag) <= offset,
        !reverse ==> offset + utf8_len(buffer) + span(parts, flag) <= usize::MAX,
    ensures
        path_pending_fits(buffer, parts, flag, offset, sep, reverse),
    decreases parts.len(),
{
    if parts.len() > 0 {
        let next = grow_buffer(buffer, parts[0], flag, sep, reverse);
        lemma_grow_buffer_len(buffer, parts[0], flag, sep, reverse);
        lemma_pending_span(next, parts.drop_first(), true, offset, sep, reverse);
    }
}

/// With a delimiter and a replacement of one byte each (ASCII), every
/// offset met while tokenizing a text held in memory fits in a `usize`:
/// such a tokenization never overflows nor goes below zero.
pub proof fn path_fits_with_ascii_separators(t: PathTokenizer, s: Seq<char>)
    requires
        (t.delimiter as u32) < 0x80,
        (separator_of(t) as u32) < 0x80,
        utf8_len(s) <= usize::MAX,
    ensures
        path_fits(t, s),
{
    lemma_utf8_len_single(t.delimiter);
    lemma_utf8_len_single(separator_of(t));
    lemma_ordered_span(s, t.delimiter, t.reverse);
    let parts = ordered_parts(s, t.delimiter, t.reverse);
    let flag = starts_at_delimiter(s, t.delimiter, t.reverse);
    lemma_skip_span(parts, t.skip as nat, flag, 0);
    let start = path_start(t, s);
    lemma_utf8_len_bounds(Seq::<char>::empty());
    lemma_pending_span(
        Seq::empty(),
        start.0,
        start.1,
        path_base_offset(t, s) as usize,
        separator_of(t),
        t.reverse,
    );
}

proof fn lemma_tokens_chain(t: PathTokenizer, s: Seq<char>, i: int, j: int)
    requires
        0 <= i <= j < path_tokens(t, s).len(),
    ensures
        if t.reverse {
            is_suffix(path_tokens(t, s)[i].text, path_tokens(t, s)[j].text)
        } else {
            is_prefix(path_tokens(t, s)[i].text, path_tokens(t, s)[j].text)
        },
    decreases j - i,
{
    let toks = path_tokens(t, s);
    if i == j {
        assert(toks[i].text.take(toks[i].text.len() as int) =~= toks[i].text);
        assert(toks[i].text.skip(0) =~= toks[i].text);
    } else {
        lemma_tokens_chain(t, s, i, j - 1);
        path_tokens_grow(t, s);
        let a = toks[i].text;
        let b = toks[j - 1].text;
        let c = toks[j].text;
        assert(if t.reverse {
            is_suffix(b, c)
        } else {
            is_prefix(b, c)
        });
        if t.reverse {
            assert(c.skip(c.len() - a.len()) =~= c.skip(c.len() - b.len()).skip(b.len() - a.len()));
        } else {
            assert(c.take(a.len() as int) =~= c.take(b.len() as int).take(a.len() as int));
        }
    }
}

/// With an ASCII delimiter kept as separator and no part skipped, the text
/// of every token is the slice of the input between its offsets: its UTF-8
/// bytes are the bytes of the input from `offset_from` to `offset_to`.
pub proof fn path_tokens_are_slices(t: PathTokenizer, s: Seq<char>)
    requires
        t.skip == 0,
        separator_of(t) == t.delimiter,
        (t.delimiter as u32) < 0x80,
        utf8_len(s) <= usize::MAX,
    ensures
        path_fits(t, s),
        forall|i: int|
            0 <= i < path_tokens(t, s).len() ==> {
                let tk = #[trigger] path_tokens(t, s)[i];
                &&& tk.offset_from <= tk.offset_to <= utf8_len(s)
                &&& encode_utf8(tk.text) == encode_utf8(s).subrange(
                    tk.offset_from as int,
                    tk.offset_to as int,
                )
            },
{
    path_fits_with_ascii_separators(t, s);
    path_token_offsets(t, s);
    path_last_token_is_whole_text(t, s);
    let toks = path_tokens(t, s);
    let n = toks.len();
    assert(path_start(t, s).2 == 0);
    assert forall|i: int| 0 <= i < toks.len() implies {
        let tk = #[trigger] toks[i];
        &&& tk.offset_from <= tk.offset_to <= utf8_len(s)
        &&& encode_utf8(tk.text) == encode_utf8(s).subrange(
            tk.offset_from as int,
            tk.offset_to as int,
        )
    } by {
        let tk = toks[i];
        lemma_tokens_chain(t, s, i, n - 1);
        let a = tk.text;
        if t.reverse {
            let pre = s.take(s.len() - a.len());
            assert(s =~= pre + a);
            lemma_encode_utf8_concat(pre, a);
            assert(encode_utf8(s).subrange(utf8_len(pre) as int, utf8_len(s) as int)
                =~= encode_utf8(a));
        } else {
            let rest = s.skip(a.len() as int);
            assert(s =~= a + rest);
            lemma_encode_utf8_concat(a, rest);
            assert(encode_utf8(s).subrange(0, utf8_len(a) as int) =~= encode_utf8(a));
        }
    }
}

/// `x` with every `d` replaced by `r`.
pub open spec fn replace_char(x: Seq<char>, d: char, r: char) -> Seq<char> {
    x.map_values(|c: char| if c == d {
        r
    } else {
        c
    })
}

/// No part holds `d`.
pub open spec fn free_of(parts: Seq<Seq<char>>, d: char) -> bool {
    forall|k: int, j: int| 0 <= k < parts.len() && 0 <= j < parts[k].len() ==> #[trigger] parts[k][j] != d
}

proof fn lemma_split_free(s: Seq<char>, d: char)
    ensures
        free_of(split_on(s, d), d),
    decreases s.len(),
{
    if s.len() > 0 {
        lemma_split_free(s.drop_last(), d);
        lemma_split_on_nonempty(s.drop_last(), d);
        let init = split_on(s.drop_last(), d);
        let parts = split_on(s, d);
        if s.last() != d {
            assert forall|k: int, j: int| 0 <= k < parts.len() && 0 <= j < parts[k].len() implies #[trigger] parts[k][j]
                != d by {
                if k < init.len() - 1 {
                    assert(parts[k] == init[k]);
                } else {
                    let last = init.last().push(s.last());
                    assert(parts[k] == last);
                    if j < init.last().len() {
                        assert(last[j] == init[init.len() - 1][j]);
                    }
                }
            }
        } else {
            assert forall|k: int, j: int| 0 <= k < parts.len() && 0 <= j < parts[k].len() implies #[trigger] parts[k][j]
                != d by {
                assert(parts[k] == init[k]);
            }
        }
    }
}

proof fn lemma_ordered_free(s: Seq<char>, d: char, reverse: bool)
    ensures
        free_of(ordered_parts(s, d, reverse), d),
{
    lemma_split_free(s, d);
    let split = split_on(s, d);
    let ordered = if reverse {
        split.reverse()
    } else {
        split
    };
    assert(free_of(ordered, d)) by {
        if reverse {
            assert forall|k: int, j: int| 0 <= k < ordered.len() && 0 <= j < ordered[k].len() implies #[trigger] ordered[k][j]
                != d by {
                assert(ordered[k] == split[split.len() - 1 - k]);
            }
        }
    }
    lemma_split_on_nonempty(s, d);
    if starts_at_delimiter(s, d, reverse) {
        let o = ordered.drop_first();
        assert forall|k: int, j: int| 0 <= k < o.len() && 0 <= j < o[k].len() implies #[trigger] o[k][j] != d by {
            assert(o[k] == ordered[k + 1]);
            assert(ordered[k + 1][j] != d);
        }
        assert(ordered_parts(s, d, reverse) == o);
    } else {
        assert(ordered_parts(s, d, reverse) == ordered);
    }
}

proof fn lemma_skip_free(parts: Seq<Seq<char>>, n: nat, flag: bool, offset: int, d: char)
    requires
        free_of(parts, d),
    ensures
        free_of(skip_parts(parts, n, flag, offset).0, d),
    decreases n,
{
    if n > 0 && parts.len() > 0 {
        let rest = parts.drop_first();
        assert forall|k: int, j: int| 0 <= k < rest.len() && 0 <= j < rest[k].len() implies #[trigger] rest[k][j]
            != d by {
            assert(rest[k] == parts[k + 1]);
        }
        let next = offset + (if flag {
            1int
        } else {
            0int
        }) + utf8_len(parts[0]);
        lemma_skip_free(rest, (n - 1) as nat, true, next, d);
    }
}

proof fn lemma_replace_len(x: Seq<char>, d: char, r: char)
    requires
        char_utf8_len(d) == char_utf8_len(r),
    ensures
        utf8_len(replace_char(x, d, r)) == utf8_len(x),
    decreases x.len(),
{
    if x.len() > 0 {
        let y = replace_char(x, d, r);
        lemma_replace_len(x.drop_first(), d, r);
        assert(x =~= seq![x[0]] + x.drop_first());
        assert(y =~= seq![y[0]] + replace_char(x.drop_first(), d, r));
        lemma_utf8_len_concat(seq![x[0]], x.drop_first());
        lemma_utf8_len_concat(seq![y[0]], replace_char(x.drop_first(), d, r));
        lemma_utf8_len_single(x[0]);
        lemma_utf8_len_single(y[0]);
    }
}

proof fn lemma_pending_replace(
    buffer: Seq<char>,
    parts: Seq<Seq<char>>,
    flag: bool,
    offset: usize,
    d: char,
    r: char,
    reverse: bool,
)
    requires
        free_of(parts, d),
        char_utf8_len(d) == char_utf8_len(r),
    ensures
        path_pending(replace_char(buffer, d, r), parts, flag, offset, r, reverse).len()
            == path_pending(buffer, parts, flag, offset, d, reverse).len(),
        forall|i: int|
            0 <= i < path_pending(buffer, parts, flag, offset, d, reverse).len() ==> {
                let p = #[trigger] path_pending(buffer, parts, flag, offset, d, reverse)[i];
                let q = path_pending(replace_char(buffer, d, r), parts, flag, offset, r, reverse)[i];
                q == TokenView { text: replace_char(p.text, d, r), ..p }
            },
        utf8_len(replace_char(buffer, d, r)) == utf8_len(buffer) ==> (path_pending_fits(
            replace_char(buffer, d, r),
            parts,
            flag,
            offset,
            r,
            reverse,
        ) == path_pending_fits(buffer, parts, flag, offset, d, reverse)),
    decreases parts.len(),
{
    if parts.len() > 0 {
        let next = grow_buffer(buffer, parts[0], flag, d, reverse);
        let rnext = grow_buffer(replace_char(buffer, d, r), parts[0], flag, r, reverse);
        assert(replace_char(parts[0], d, r) =~= parts[0]) by {
            assert forall|j: int| 0 <= j < parts[0].len() implies parts[0][j] != d by {
                assert(parts[0][j] == parts[0][j]);
            }
        }
        assert(replace_char(next, d, r) =~= rnext);
        let rest = parts.drop_first();
        assert forall|k: int, j: int| 0 <= k < rest.len() && 0 <= j < rest[k].len() implies #[trigger] rest[k][j]
            != d by {
            assert(rest[k] == parts[k + 1]);
        }
        lemma_pending_replace(next, rest, true, offset, d, r, reverse);
        lemma_replace_len(next, d, r);
        lemma_replace_len(buffer, d, r);
        let ps = path_pending(buffer, parts, flag, offset, d, reverse);
        let qs = path_pending(replace_char(buffer, d, r), parts, flag, offset, r, reverse);
        let prest = path_pending(next, rest, true, offset, d, reverse);
        let qrest = path_pending(rnext, rest, true, offset, r, reverse);
        assert forall|i: int| 0 <= i < ps.len() implies {
            let p = #[trigger] ps[i];
            let q = qs[i];
            q == TokenView { text: replace_char(p.text, d, r), ..p }
        } by {
            if i > 0 {
                assert(ps[i] == prest[i - 1]);
                assert(qs[i] == qrest[i - 1]);
            }
        }
    }
}

/// Replacing the delimiter by a character of the same byte length changes
/// only the separators in the texts of the tokens: the tokens are as many,
/// with the same offsets and positions, and their texts have each
/// delimiter replaced. The tokenizer with the replacement fits in a
/// `usize` exactly when the one without does.
pub proof fn path_replacement_changes_only_separators(p: PathTokenizer, r: char, s: Seq<char>)
    requires
        p.replacement is None,
        char_utf8_len(r) == char_utf8_len(p.delimiter),
    ensures
        path_fits(PathTokenizer { replacement: Some(r), ..p }, s) == path_fits(p, s),
        path_tokens(PathTokenizer { replacement: Some(r), ..p }, s).len() == path_tokens(p, s).len(),
        forall|i: int|
            0 <= i < path_tokens(p, s).len() ==> {
                let a = #[trigger] path_tokens(p, s)[i];
                path_tokens(PathTokenizer { replacement: Some(r), ..p }, s)[i] == TokenView {
                    text: replace_char(a.text, p.delimiter, r),
                    ..a
                }
            },
{
    let q = PathTokenizer { replacement: Some(r), ..p };
    let d = p.delimiter;
    lemma_ordered_free(s, d, p.reverse);
    let parts = ordered_parts(s, d, p.reverse);
    let flag = starts_at_delimiter(s, d, p.reverse);
    lemma_skip_free(parts, p.skip as nat, flag, 0, d);
    assert(path_start(q, s) == path_start(p, s));
    assert(path_base_offset(q, s) == path_base_offset(p, s));
    assert(replace_char(Seq::<char>::empty(), d, r) =~= Seq::<char>::empty());
    assert(separator_of(q) == r && separator_of(p) == d);
    lemma_pending_replace(
        Seq::empty(),
        path_start(p, s).0,
        path_start(p, s).1,
        path_base_offset(p, s) as usize,
        d,
        r,
        p.reverse,
    );
}

/// The buffer after adding the first `k` parts.
spec fn grown(buffer: Seq<char>, parts: Seq<Seq<char>>, flag: bool, sep: char, reverse: bool, k: nat) -> Seq<
    char,
>
    decreases k,
{
    if k == 0 || parts.len() == 0 {
        buffer
    } else {
        grown(
            grow_buffer(buffer, parts[0], flag, sep, reverse),
            parts.drop_first(),
            true,
            sep,
            reverse,
            (k - 1) as nat,
        )
    }
}

proof fn lemma_pending_len(
    buffer: Seq<char>,
    parts: Seq<Seq<char>>,
    flag: bool,
    offset: usize,
    sep: char,
    reverse: bool,
)
    ensures
        path_pending(buffer, parts, flag, offset, sep, reverse).len() == parts.len(),
    decreases parts.len(),
{
    if parts.len() > 0 {
        lemma_pending_len(
            grow_buffer(buffer, parts[0], flag, sep, reverse),
            parts.drop_first(),
            true,
            offset,
            sep,
            reverse,
        );
    }
}

/// The tokens from the `k`-th on are those of the buffer grown by the first
/// `k` parts and the parts left; the `k`-th token's text is that buffer.
proof fn lemma_pending_shift(
    buffer: Seq<char>,
    parts: Seq<Seq<char>>,
    flag: bool,
    offset: usize,
    sep: char,
    reverse: bool,
    k: nat,
)
    requires
        1 <= k <= parts.len(),
    ensures
        path_pending(buffer, parts, flag, offset, sep, reverse)[k - 1].text == grown(
            buffer,
            parts,
            flag,
            sep,
            reverse,
            k,
        ),
        forall|m: int|
            0 <= m < parts.len() - k ==> #[trigger] path_pending(
                buffer,
                parts,
                flag,
                offset,
                sep,
                reverse,
            )[k + m] == path_pending(
                grown(buffer, parts, flag, sep, reverse, k),
                parts.skip(k as int),
                true,
                offset,
                sep,
                reverse,
            )[m],
    decreases k,
{
    let next = grow_buffer(buffer, parts[0], flag, sep, reverse);
    let rest = parts.drop_first();
    let all = path_pending(buffer, parts, flag, offset, sep, reverse);
    let tail = path_pending(next, rest, true, offset, sep, reverse);
    assert(forall|i: int| 0 < i < all.len() ==> #[trigger] all[i] == tail[i - 1]);
    lemma_pending_len(buffer, parts, flag, offset, sep, reverse);
    if k == 1 {
        assert(rest =~= parts.skip(1));
        assert(grown(next, rest, true, sep, reverse, 0) == next);
        assert(all[0].text == next);
        assert forall|m: int| 0 <= m < parts.len() - k implies #[trigger] all[k + m] == tail[m] by {
            assert(all[1 + m] == tail[m]);
        }
    } else {
        lemma_pending_shift(next, rest, true, offset, sep, reverse, (k - 1) as nat);
        assert(rest.skip(k - 1) =~= parts.skip(k as int));
        assert(all[k - 1] == tail[k - 2]);
        assert forall|m: int| 0 <= m < parts.len() - k implies #[trigger] all[k + m]
            == path_pending(
            grown(buffer, parts, flag, sep, reverse, k),
            parts.skip(k as int),
            true,
            offset,
            sep,
            reverse,
        )[m] by {
            assert(all[k + m] == tail[(k - 1) + m]);
        }
    }
}

/// The texts of the tokens of a buffer that starts (ends, in reverse) with
/// `g` are those of the rest of the buffer, with `g` before (after) them;
/// the offset the tokens are measured from changes none of them.
proof fn lemma_pending_texts(
    g: Seq<char>,
    x: Seq<char>,
    b: Seq<char>,
    parts: Seq<Seq<char>>,
    flag: bool,
    o1: usize,
    o2: usize,
    sep: char,
    reverse: bool,
)
    requires
        b == (if reverse {
            x + g
        } else {
            g + x
        }),
    ensures
        forall|m: int|
            0 <= m < parts.len() ==> #[trigger] path_pending(b, parts, flag, o1, sep, reverse)[m].text
                == if reverse {
                path_pending(x, parts, flag, o2, sep, reverse)[m].text + g
            } else {
                g + path_pending(x, parts, flag, o2, sep, reverse)[m].text
            },
    decreases parts.len(),
{
    if parts.len() > 0 {
        let nx = grow_buffer(x, parts[0], flag, sep, reverse);
        let nb = grow_buffer(b, parts[0], flag, sep, reverse);
        assert(nb =~= if reverse {
            nx + g
        } else {
            g + nx
        });
        lemma_pending_texts(g, nx, nb, parts.drop_first(), true, o1, o2, sep, reverse);
        lemma_pending_len(nb, parts.drop_first(), true, o1, sep, reverse);
        lemma_pending_len(nx, parts.drop_first(), true, o2, sep, reverse);
        let all = path_pending(b, parts, flag, o1, sep, reverse);
        let other = path_pending(x, parts, flag, o2, sep, reverse);
        assert forall|m: int| 0 <= m < parts.len() implies #[trigger] all[m].text == if reverse {
            other[m].text + g
        } else {
            g + other[m].text
        } by {
            if m > 0 {
                assert(all[m] == path_pending(nb, parts.drop_first(), true, o1, sep, reverse)[m - 1]);
                assert(other[m] == path_pending(nx, parts.drop_first(), true, o2, sep, reverse)[m
                    - 1]);
            }
        }
    }
}

/// Skipping `k` parts starts after them, with a separator before the next.
proof fn lemma_skip_state(parts: Seq<Seq<char>>, k: nat, flag: bool, offset: int)
    requires
        1 <= k <= parts.len(),
    ensures
        skip_parts(parts, k, flag, offset) == (
            parts.skip(k as int),
            true,
            offset + span(parts.take(k as int), flag),
        ),
    decreases k,
{
    let next = offset + (if flag {
        1int
    } else {
        0int
    }) + utf8_len(parts[0]);
    let rest = parts.drop_first();
    if k == 1 {
        assert(rest =~= parts.skip(1));
        assert(parts.take(1).drop_first() =~= Seq::<Seq<char>>::empty());
        assert(span(parts.take(1).drop_first(), true) == 0);
        assert(parts.take(1)[0] == parts[0]);
        assert(skip_parts(rest, 0, true, next) == (rest, true, next));
    } else {
        lemma_skip_state(rest, (k - 1) as nat, true, next);
        assert(rest.skip(k - 1) =~= parts.skip(k as int));
        assert(parts.take(k as int).drop_first() =~= rest.take(k - 1));
        assert(parts.take(k as int)[0] == parts[0]);
    }
}

/// The bytes of the buffer grown by the first `k` parts.
proof fn lemma_grown_len(buffer: Seq<char>, parts: Seq<Seq<char>>, flag: bool, sep: char, reverse: bool, k: nat)
    requires
        k <= parts.len(),
        utf8_len(seq![sep]) == 1,
    ensures
        utf8_len(grown(buffer, parts, flag, sep, reverse, k)) == utf8_len(buffer) + span(
            parts.take(k as int),
            flag,
        ),
    decreases k,
{
    if k == 0 {
        assert(parts.take(0) =~= Seq::<Seq<char>>::empty());
    } else {
        let next = grow_buffer(buffer, parts[0], flag, sep, reverse);
        lemma_grow_buffer_len(buffer, parts[0], flag, sep, reverse);
        lemma_grown_len(next, parts.drop_first(), true, sep, reverse, (k - 1) as nat);
        assert(parts.take(k as int).drop_first() =~= parts.drop_first().take(k - 1));
        assert(parts.take(k as int)[0] == parts[0]);
    }
}

/// Skipping `k` parts (with an ASCII delimiter kept as separator) leaves
/// out the first `k` tokens, and cuts the skipped parts from the others:
/// the `m`-th token then starts where the `k`-th token of the tokenizer
/// without skip ended (in reverse, ends where it started), and the text of
/// that token followed by it (in reverse, preceded by it) is the text of
/// the `(k + m)`-th token without skip. With `k` parts or more skipped, no
/// token is left.
pub proof fn path_skip_drops_leading_parts(p: PathTokenizer, k: usize, s: Seq<char>)
    requires
        p.skip == 0,
        p.replacement is None,
        (p.delimiter as u32) < 0x80,
        utf8_len(s) <= usize::MAX,
        k >= 1,
    ensures
        ({
            let a = path_tokens(p, s);
            let b = path_tokens(PathTokenizer { skip: k, ..p }, s);
            &&& k >= a.len() ==> b.len() == 0
            &&& k < a.len() ==> b.len() == a.len() - k
            &&& forall|m: int|
                0 <= m < b.len() ==> {
                    &&& (#[trigger] b[m]).position == 0
                    &&& b[m].position_length == 1
                    &&& (if p.reverse {
                        &&& b[m].offset_to == a[k - 1].offset_from
                        &&& b[m].offset_from == a[k + m].offset_from
                        &&& a[k + m].text == b[m].text + a[k - 1].text
                    } else {
                        &&& b[m].offset_from == a[k - 1].offset_to
                        &&& b[m].offset_to == a[k + m].offset_to
                        &&& a[k + m].text == a[k - 1].text + b[m].text
                    })
                }
        }),
{
    let q = PathTokenizer { skip: k, ..p };
    let d = p.delimiter;
    let rev = p.reverse;
    let parts = ordered_parts(s, d, rev);
    let flag = starts_at_delimiter(s, d, rev);
    let a = path_tokens(p, s);
    let b = path_tokens(q, s);
    lemma_utf8_len_single(d);
    path_fits_with_ascii_separators(p, s);
    path_fits_with_ascii_separators(q, s);
    path_token_offsets(p, s);
    path_token_offsets(q, s);
    assert(path_start(p, s) == (parts, flag, 0int));
    let base_a = path_base_offset(p, s);
    lemma_pending_len(Seq::empty(), parts, flag, base_a as usize, d, rev);
    lemma_utf8_len_bounds(Seq::<char>::empty());
    if k as nat >= parts.len() {
        assert(path_start(q, s).0.len() == 0) by {
            lemma_skip_exhausts(parts, k as nat, flag, 0);
        }
        lemma_pending_len(
            Seq::empty(),
            path_start(q, s).0,
            path_start(q, s).1,
            path_base_offset(q, s) as usize,
            d,
            rev,
        );
    } else {
        lemma_skip_state(parts, k as nat, flag, 0);
        let g = grown(Seq::empty(), parts, flag, d, rev, k as nat);
        lemma_grown_len(Seq::empty(), parts, flag, d, rev, k as nat);
        lemma_pending_shift(Seq::empty(), parts, flag, base_a as usize, d, rev, k as nat);
        let rest = parts.skip(k as int);
        let base_b = path_base_offset(q, s);
        lemma_pending_len(Seq::empty(), rest, true, base_b as usize, d, rev);
        assert(separator_of(p) == d && separator_of(q) == d);
        assert(a == path_pending(Seq::empty(), parts, flag, base_a as usize, d, rev));
        assert(path_start(q, s) == (rest, true, span(parts.take(k as int), flag) as int));
        assert(b == path_pending(Seq::empty(), rest, true, base_b as usize, d, rev));
        assert(g + Seq::<char>::empty() =~= g);
        assert(Seq::<char>::empty() + g =~= g);
        lemma_pending_texts(g, Seq::empty(), g, rest, true, base_a as usize, base_b as usize, d, rev);
        assert forall|m: int| 0 <= m < b.len() implies {
            &&& (#[trigger] b[m]).position == 0
            &&& b[m].position_length == 1
            &&& (if p.reverse {
                &&& b[m].offset_to == a[k - 1].offset_from
                &&& b[m].offset_from == a[k + m].offset_from
                &&& a[k + m].text == b[m].text + a[k - 1].text
            } else {
                &&& b[m].offset_from == a[k - 1].offset_to
                &&& b[m].offset_to == a[k + m].offset_to
                &&& a[k + m].text == a[k - 1].text + b[m].text
            })
        } by {
            assert(a[k + m] == path_pending(g, rest, true, base_a as usize, d, rev)[m]);
            lemma_utf8_len_concat(g, b[m].text);
            lemma_utf8_len_concat(b[m].text, g);
        }
    }
}

proof fn lemma_skip_exhausts(parts: Seq<Seq<char>>, n: nat, flag: bool, offset: int)
    requires
        n >= parts.len(),
    ensures
        skip_parts(parts, n, flag, offset).0.len() == 0,
    decreases n,
{
    if n > 0 && parts.len() > 0 {
        let next = offset + (if flag {
            1int
        } else {
            0int
        }) + utf8_len(parts[0]);
        lemma_skip_exhausts(parts.drop_first(), (n - 1) as nat, true, next);
    }
}

proof fn lemma_pending_steps(
    buffer: Seq<char>,
    parts: Seq<Seq<char>>,
    flag: bool,
    offset: usize,
    sep: char,
    reverse: bool,
)
    ensures
        path_pending(buffer, parts, flag, offset, sep, reverse).len() == parts.len(),
        parts.len() > 0 ==> path_pending(buffer, parts, flag, offset, sep, reverse)[0]
            == path_token(grow_buffer(buffer, parts[0], flag, sep, reverse), offset, reverse),
        forall|i: int|
            0 < i < parts.len() ==> #[trigger] path_pending(
                buffer,
                parts,
                flag,
                offset,
                sep,
                reverse,
            )[i] == path_token(
                grow_buffer(
                    path_pending(buffer, parts, flag, offset, sep, reverse)[i - 1].text,
                    parts[i],
                    true,
                    sep,
                    reverse,
                ),
                offset,
                reverse,
            ),
    decreases parts.len(),
{
    if parts.len() > 0 {
        let next = grow_buffer(buffer, parts[0], flag, sep, reverse);
        let rest = parts.drop_first();
        let all = path_pending(buffer, parts, flag, offset, sep, reverse);
        let tail = path_pending(next, rest, true, offset, sep, reverse);
        lemma_pending_steps(next, rest, true, offset, sep, reverse);
        assert(all[0] == path_token(next, offset, reverse));
        assert forall|i: int| 0 < i < parts.len() implies #[trigger] all[i] == path_token(
            grow_buffer(all[i - 1].text, parts[i], true, sep, reverse),
            offset,
            reverse,
        ) by {
            assert(all[i] == tail[i - 1]);
            assert(parts[i] == rest[i - 1]);
            if i > 1 {
                assert(all[i - 1] == tail[i - 2]);
            }
        }
    }
}

/// Every delimiter inside the text ends a token text (forward).
proof fn lemma_prefixes_complete(
    s: Seq<char>,
    d: char,
    texts: Seq<Seq<char>>,
    parts: Seq<Seq<char>>,
    flag: bool,
    k: int,
)
    requires
        0 <= k < texts.len(),
        texts.len() == parts.len(),
        free_of(parts, d),
        texts[0] == (if flag {
            seq![d]
        } else {
            Seq::<char>::empty()
        }) + parts[0],
        forall|j: int| 0 < j < texts.len() ==> #[trigger] texts[j] == texts[j - 1] + seq![d]
            + parts[j],
        forall|j: int| 0 <= j < texts.len() ==> is_prefix(#[trigger] texts[j], s),
    ensures
        forall|i: int|
            0 < i < texts[k].len() && s[i] == d ==> exists|j: int|
                0 <= j < k && #[trigger] texts[j].len() == i,
    decreases k,
{
    assert(is_prefix(texts[k], s));
    if k == 0 {
        assert forall|i: int| 0 < i < texts[0].len() && s[i] == d implies false by {
            assert(s.take(texts[0].len() as int)[i] == s[i]);
            if flag {
                assert(texts[0][i] == parts[0][i - 1]);
                assert(parts[0][i - 1] != d);
            } else {
                assert(texts[0][i] == parts[0][i]);
                assert(parts[0][i] != d);
            }
        }
    } else {
        lemma_prefixes_complete(s, d, texts, parts, flag, k - 1);
        let a = texts[k - 1];
        assert(texts[k] == a + seq![d] + parts[k]);
        assert forall|i: int| 0 < i < texts[k].len() && s[i] == d implies exists|j: int|
            0 <= j < k && #[trigger] texts[j].len() == i by {
            assert(s.take(texts[k].len() as int)[i] == s[i]);
            if i < a.len() {
                let j = choose|j: int| 0 <= j < k - 1 && #[trigger] texts[j].len() == i;
                assert(texts[j].len() == i);
            } else if i == a.len() {
                assert(texts[k - 1].len() == i);
            } else {
                assert(texts[k][i] == parts[k][i - a.len() - 1]);
                assert(parts[k][i - a.len() - 1] != d);
            }
        }
    }
}

/// Forward, with no part skipped and the delimiter kept as separator, the
/// tokens are the prefixes of the text that end before a delimiter (other
/// than one at the very start), then the whole text, in increasing length:
/// each starts at offset 0 and ends at its byte length.
#[verifier::spinoff_prover]
#[verifier::rlimit(50)]
pub proof fn path_tokens_are_the_prefixes(t: PathTokenizer, s: Seq<char>)
    requires
        !t.reverse,
        t.skip == 0,
        t.replacement is None,
        utf8_len(s) <= usize::MAX,
    ensures
        ({
            let toks = path_tokens(t, s);
            &&& toks.len() >= 1
            &&& toks.last().text == s
            &&& forall|k: int|
                0 <= k < toks.len() ==> {
                    let tk = #[trigger] toks[k];
                    &&& tk.text == s.take(tk.text.len() as int)
                    &&& tk.offset_from == 0
                    &&& tk.offset_to == utf8_len(tk.text)
                    &&& tk.position == 0
                    &&& tk.position_length == 1
                }
            &&& forall|k: int|
                0 <= k < toks.len() - 1 ==> {
                    &&& 0 < (#[trigger] toks[k]).text.len() < toks[k + 1].text.len()
                    &&& s[toks[k].text.len() as int] == t.delimiter
                }
            &&& forall|i: int|
                0 < i < s.len() && s[i] == t.delimiter ==> exists|k: int|
                    0 <= k < toks.len() && #[trigger] toks[k].text.len() == i
        }),
{
    let d = t.delimiter;
    let parts = ordered_parts(s, d, false);
    let flag = starts_at_delimiter(s, d, false);
    let toks = path_tokens(t, s);
    assert(path_start(t, s) == (parts, flag, 0int));
    assert(separator_of(t) == d);
    assert(toks == path_pending(Seq::empty(), parts, flag, 0, d, false));
    lemma_pending_steps(Seq::empty(), parts, flag, 0, d, false);
    lemma_ordered_free(s, d, false);
    path_last_token_is_whole_text(t, s);
    let n = toks.len();
    let texts = Seq::new(n, |k: int| toks[k].text);
    assert forall|k: int| 0 <= k < n implies is_prefix(#[trigger] texts[k], s) by {
        lemma_tokens_chain(t, s, k, n - 1);
    }
    assert(texts[0] == (if flag {
        seq![d]
    } else {
        Seq::<char>::empty()
    }) + parts[0]) by {
        assert(grow_buffer(Seq::empty(), parts[0], flag, d, false) =~= (if flag {
            seq![d]
        } else {
            Seq::<char>::empty()
        }) + parts[0]);
    }
    assert forall|j: int| 0 < j < texts.len() implies #[trigger] texts[j] == texts[j - 1] + seq![d]
        + parts[j] by {
        assert(toks[j] == path_token(grow_buffer(toks[j - 1].text, parts[j], true, d, false), 0, false));
    }
    lemma_prefixes_complete(s, d, texts, parts, flag, n - 1);
    assert forall|k: int| 0 <= k < n implies {
        let tk = #[trigger] toks[k];
        &&& tk.text == s.take(tk.text.len() as int)
        &&& tk.offset_from == 0
        &&& tk.offset_to == utf8_len(tk.text)
        &&& tk.position == 0
        &&& tk.position_length == 1
    } by {
        assert(is_prefix(texts[k], s));
        let a = toks[k].text;
        assert(s =~= a + s.skip(a.len() as int));
        lemma_utf8_len_concat(a, s.skip(a.len() as int));
        if k == 0 {
            assert(toks[0] == path_token(grow_buffer(Seq::empty(), parts[0], flag, d, false), 0, false));
        } else {
            assert(toks[k] == path_token(
                grow_buffer(toks[k - 1].text, parts[k], true, d, false),
                0,
                false,
            ));
        }
    }
    assert forall|k: int| 0 <= k < n - 1 implies {
        &&& 0 < (#[trigger] toks[k]).text.len() < toks[k + 1].text.len()
        &&& s[toks[k].text.len() as int] == d
    } by {
        let a = texts[k];
        let b = texts[k + 1];
        assert(texts[k + 1] == texts[(k + 1) - 1] + seq![d] + parts[k + 1]);
        assert(b == a + seq![d] + parts[k + 1]);
        assert(is_prefix(b, s));
        assert(s.take(b.len() as int)[a.len() as int] == s[a.len() as int]);
        assert(b[a.len() as int] == d);
        if k == 0 && !flag && a.len() == 0 {
            assert(b[0] == d);
            assert(s.take(b.len() as int)[0] == s[0]);
            assert(starts_at_delimiter(s, d, false));
        }
        if k > 0 {
            assert(texts[k] == texts[k - 1] + seq![d] + parts[k]);
        }
    }
    assert forall|i: int| 0 < i < s.len() && s[i] == d implies exists|k: int|
        0 <= k < toks.len() && #[trigger] toks[k].text.len() == i by {
        assert(texts[n - 1] == s);
        let j = choose|j: int| 0 <= j < n - 1 && #[trigger] texts[j].len() == i;
        assert(toks[j].text.len() == i);
    }
}

/// Whether the character just before position `i` of `s` is `d`.
pub open spec fn delimiter_before(s: Seq<char>, i: int, d: char) -> bool {
    0 < i <= s.len() && s[i - 1] == d
}

/// Every delimiter inside the text starts a token text (in reverse).
proof fn lemma_suffixes_complete(
    s: Seq<char>,
    d: char,
    texts: Seq<Seq<char>>,
    parts: Seq<Seq<char>>,
    flag: bool,
    k: int,
)
    requires
        0 <= k < texts.len(),
        texts.len() == parts.len(),
        free_of(parts, d),
        texts[0] == parts[0] + (if flag {
            seq![d]
        } else {
            Seq::<char>::empty()
        }),
        forall|j: int| 0 < j < texts.len() ==> #[trigger] texts[j] == parts[j] + seq![d] + texts[j
            - 1],
        forall|j: int| 0 <= j < texts.len() ==> is_suffix(#[trigger] texts[j], s),
    ensures
        forall|q: int|
            0 < q < texts[k].len() && #[trigger] delimiter_before(s, s.len() - q, d) ==> exists|j: int|
                0 <= j < k && #[trigger] texts[j].len() == q,
    decreases k,
{
    let t = texts[k];
    assert(is_suffix(t, s));
    assert forall|x: int| 0 <= x < t.len() implies s[s.len() - t.len() + x] == t[x] by {
        assert(s.skip(s.len() - t.len())[x] == s[s.len() - t.len() + x]);
    }
    if k == 0 {
        assert forall|q: int| 0 < q < t.len() && #[trigger] delimiter_before(s, s.len() - q, d) implies false by {
            let x = t.len() - q - 1;
            assert(s[s.len() - t.len() + x] == t[x]);
            assert(t[x] == parts[0][x]);
            assert(parts[0][x] != d);
        }
    } else {
        lemma_suffixes_complete(s, d, texts, parts, flag, k - 1);
        let a = texts[k - 1];
        assert(t == parts[k] + seq![d] + a);
        assert forall|q: int| 0 < q < t.len() && #[trigger] delimiter_before(s, s.len() - q, d) implies exists|j: int|
            0 <= j < k && #[trigger] texts[j].len() == q by {
            if q < a.len() {
                let j = choose|j: int| 0 <= j < k - 1 && #[trigger] texts[j].len() == q;
                assert(texts[j].len() == q);
            } else if q == a.len() {
                assert(texts[k - 1].len() == q);
            } else {
                let x = t.len() - q - 1;
                assert(s[s.len() - t.len() + x] == t[x]);
                assert(t[x] == parts[k][x]);
                assert(parts[k][x] != d);
            }
        }
    }
}

/// In reverse, with no part skipped and the delimiter kept as separator,
/// the tokens are the suffixes of the text that start after a delimiter
/// (other than one at the very end), then the whole text, in increasing
/// length: each ends at the byte length of the text and starts its own
/// byte length before.
#[verifier::spinoff_prover]
#[verifier::rlimit(50)]
pub proof fn path_tokens_are_the_suffixes(t: PathTokenizer, s: Seq<char>)
    requires
        t.reverse,
        t.skip == 0,
        t.replacement is None,
        utf8_len(s) <= usize::MAX,
    ensures
        ({
            let toks = path_tokens(t, s);
            &&& toks.len() >= 1
            &&& toks.last().text == s
            &&& forall|k: int|
                0 <= k < toks.len() ==> {
                    let tk = #[trigger] toks[k];
                    &&& tk.text == s.skip(s.len() - tk.text.len())
                    &&& tk.offset_to == utf8_len(s)
                    &&& tk.offset_from == utf8_len(s) - utf8_len(tk.text)
                    &&& tk.position == 0
                    &&& tk.position_length == 1
                }
            &&& forall|k: int|
                0 <= k < toks.len() - 1 ==> {
                    &&& 0 < (#[trigger] toks[k]).text.len() < toks[k + 1].text.len()
                    &&& s[s.len() - toks[k].text.len() - 1] == t.delimiter
                }
            &&& forall|i: int|
                0 < i < s.len() && #[trigger] delimiter_before(s, i, t.delimiter) ==> exists|k: int|
                    0 <= k < toks.len() && #[trigger] toks[k].text.len() == s.len() - i
        }),
{
    let d = t.delimiter;
    let parts = ordered_parts(s, d, true);
    let flag = starts_at_delimiter(s, d, true);
    let toks = path_tokens(t, s);
    let base = utf8_len(s) as usize;
    assert(path_start(t, s) == (parts, flag, 0int));
    assert(separator_of(t) == d);
    assert(toks == path_pending(Seq::empty(), parts, flag, base, d, true));
    lemma_pending_steps(Seq::empty(), parts, flag, base, d, true);
    lemma_ordered_free(s, d, true);
    path_last_token_is_whole_text(t, s);
    let n = toks.len();
    let texts = Seq::new(n, |k: int| toks[k].text);
    assert forall|k: int| 0 <= k < n implies is_suffix(#[trigger] texts[k], s) by {
        lemma_tokens_chain(t, s, k, n - 1);
    }
    assert(texts[0] == parts[0] + (if flag {
        seq![d]
    } else {
        Seq::<char>::empty()
    })) by {
        assert(grow_buffer(Seq::empty(), parts[0], flag, d, true) =~= parts[0] + (if flag {
            seq![d]
        } else {
            Seq::<char>::empty()
        }));
    }
    assert forall|j: int| 0 < j < texts.len() implies #[trigger] texts[j] == parts[j] + seq![d]
        + texts[j - 1] by {
        assert(toks[j] == path_token(grow_buffer(toks[j - 1].text, parts[j], true, d, true), base, true));
    }
    lemma_suffixes_complete(s, d, texts, parts, flag, n - 1);
    assert forall|k: int| 0 <= k < n implies {
        let tk = #[trigger] toks[k];
        &&& tk.text == s.skip(s.len() - tk.text.len())
        &&& tk.offset_to == utf8_len(s)
        &&& tk.offset_from == utf8_len(s) - utf8_len(tk.text)
        &&& tk.position == 0
        &&& tk.position_length == 1
    } by {
        assert(is_suffix(texts[k], s));
        let a = toks[k].text;
        let pre = s.take(s.len() - a.len());
        assert(s =~= pre + a);
        lemma_utf8_len_concat(pre, a);
        if k == 0 {
            assert(toks[0] == path_token(grow_buffer(Seq::empty(), parts[0], flag, d, true), base, true));
        } else {
            assert(toks[k] == path_token(grow_buffer(toks[k - 1].text, parts[k], true, d, true), base, true));
        }
    }
    assert forall|k: int| 0 <= k < n - 1 implies {
        &&& 0 < (#[trigger] toks[k]).text.len() < toks[k + 1].text.len()
        &&& s[s.len() - toks[k].text.len() - 1] == d
    } by {
        let a = texts[k];
        let b = texts[k + 1];
        assert(texts[k + 1] == parts[k + 1] + seq![d] + texts[(k + 1) - 1]);
        assert(b == parts[k + 1] + seq![d] + a);
        assert(is_suffix(b, s));
        let x = b.len() - a.len() - 1;
        assert(s.skip(s.len() - b.len())[x] == s[s.len() - b.len() + x]);
        assert(b[x] == d);
        if k == 0 && !flag && a.len() == 0 {
            assert(b[b.len() - 1] == d);
            assert(s.skip(s.len() - b.len())[b.len() - 1] == s[s.len() - 1]);
            assert(starts_at_delimiter(s, d, true));
        }
    }
    assert forall|i: int| 0 < i < s.len() && #[trigger] delimiter_before(s, i, d) implies exists|k: int|
        0 <= k < toks.len() && #[trigger] toks[k].text.len() == s.len() - i by {
        assert(texts[n - 1] == s);
        let q = s.len() - i;
        assert(delimiter_before(s, s.len() - q, d));
        let j = choose|j: int| 0 <= j < n - 1 && #[trigger] texts[j].len() == q;
        assert(toks[j].text.len() == q);
    }
}

/// With an ASCII delimiter kept as separator, and any number of parts
/// skipped, the text of every token is the slice of the input between its
/// offsets: its UTF-8 bytes are the bytes of the input from `offset_from`
/// to `offset_to`.
#[verifier::spinoff_prover]
#[verifier::rlimit(50)]
pub proof fn path_skipped_tokens_are_slices(p: PathTokenizer, s: Seq<char>)
    requires
        p.replacement is None,
        (p.delimiter as u32) < 0x80,
        utf8_len(s) <= usize::MAX,
    ensures
        path_fits(p, s),
        forall|m: int|
            0 <= m < path_tokens(p, s).len() ==> {
                let tk = #[trigger] path_tokens(p, s)[m];
                &&& tk.offset_from <= tk.offset_to <= utf8_len(s)
                &&& encode_utf8(tk.text) == encode_utf8(s).subrange(
                    tk.offset_from as int,
                    tk.offset_to as int,
                )
            },
{
    path_fits_with_ascii_separators(p, s);
    if p.skip == 0 {
        path_tokens_are_slices(p, s);
    } else {
        let p0 = PathTokenizer { skip: 0, ..p };
        let k = p.skip;
        assert(PathTokenizer { skip: k, ..p0 } == p);
        path_tokens_are_slices(p0, s);
        path_skip_drops_leading_parts(p0, k, s);
        path_fits_with_ascii_separators(p0, s);
        path_token_offsets(p0, s);
        path_token_offsets(p, s);
        let a = path_tokens(p0, s);
        let b = path_tokens(p, s);
        let e = encode_utf8(s);
        assert forall|m: int| 0 <= m < b.len() implies {
            let tk = #[trigger] b[m];
            &&& tk.offset_from <= tk.offset_to <= utf8_len(s)
            &&& encode_utf8(tk.text) == e.subrange(tk.offset_from as int, tk.offset_to as int)
        } by {
            let x = a[k - 1];
            let y = a[k + m];
            let z = b[m];
            assert(x == a[k - 1]);
            assert(y == a[k + m]);
            assert(z.offset_to - z.offset_from == encode_utf8(z.text).len());
            assert(x.offset_to - x.offset_from == encode_utf8(x.text).len());
            assert(y.offset_from <= y.offset_to <= e.len());
            assert(x.offset_from <= x.offset_to <= e.len());
            if p.reverse {
                lemma_encode_utf8_concat(z.text, x.text);
                assert(encode_utf8(y.text) == encode_utf8(z.text) + encode_utf8(x.text));
                assert(e.subrange(y.offset_from as int, y.offset_to as int) == encode_utf8(z.text)
                    + e.subrange(x.offset_from as int, x.offset_to as int));
                assert(encode_utf8(z.text) =~= e.subrange(
                    y.offset_from as int,
                    y.offset_to as int,
                ).subrange(0, encode_utf8(z.text).len() as int));
                assert(e.subrange(y.offset_from as int, y.offset_to as int).subrange(
                    0,
                    encode_utf8(z.text).len() as int,
                ) =~= e.subrange(z.offset_from as int, z.offset_to as int));
            } else {
                lemma_encode_utf8_concat(x.text, z.text);
                assert(encode_utf8(y.text) == encode_utf8(x.text) + encode_utf8(z.text));
                assert(e.subrange(y.offset_from as int, y.offset_to as int) == e.subrange(
                    x.offset_from as int,
                    x.offset_to as int,
                ) + encode_utf8(z.text));
                let l = encode_utf8(x.text).len() as int;
                assert(encode_utf8(z.text) =~= e.subrange(
                    y.offset_from as int,
                    y.offset_to as int,
                ).subrange(l, e.subrange(y.offset_from as int, y.offset_to as int).len() as int));
                assert(e.subrange(y.offset_from as int, y.offset_to as int).subrange(
                    l,
                    e.subrange(y.offset_from as int, y.offset_to as int).len() as int,
                ) =~= e.subrange(z.offset_from as int, z.offset_to as int));
            }
        }
    }
}

} // verus!
