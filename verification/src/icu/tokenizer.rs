//! Word tokenizer driven by the boundaries of an ICU word break iterator.
//!
//! ICU finds the boundaries and tells, for each one, the rule status of the
//! segment that ends there (0 for segments that are no words, such as
//! spaces). This module picks the words out of them: a word is a segment
//! with a non-zero status that holds at least one alphanumeric character.
use vstd::prelude::*;

use crate::text::{chars_of, string_from_chars};
use crate::token::{Token, TokenStream, TokenView};

verus! {

/// A boundary found by the break iterator, with the rule status of the
/// segment that ends at it.
#[derive(Clone, Copy, Debug, PartialEq, Eq)]
pub struct BreakPoint {
    /// Index of the boundary in the text.
    pub position: i32,
    /// Rule status of the segment ending at the boundary.
    pub rule_status: i32,
}

/// `char::is_alphanumeric`: whether `c` is alphabetic or numeric in the
/// Unicode tables built into `std`.
pub uninterp spec fn is_alphanumeric(c: char) -> bool;

/// `char::is_alphanumeric`.
#[verifier::external_body]
fn char_is_alphanumeric(c: char) -> (r: bool)
    ensures
        r == is_alphanumeric(c),
{
    c.is_alphanumeric()
}

/// The characters from `start` to `end` (as taking the first `end`
/// characters and then skipping `start` of them does).
pub open spec fn segment(text: Seq<char>, start: i32, end: i32) -> Seq<char> {
    let e = if (end as usize) < text.len() {
        end as usize as int
    } else {
        text.len() as int
    };
    let s = if (start as usize) < e {
        start as usize as int
    } else {
        e
    };
    text.subrange(s, e)
}

/// Whether `s` holds an alphanumeric character.
pub open spec fn has_alphanumeric(s: Seq<char>) -> bool {
    exists|i: int| 0 <= i < s.len() && is_alphanumeric(#[trigger] s[i])
}

/// What the search for the next word comes to.
pub enum ScanOutcome {
    /// A segment with a non-zero status and no alphanumeric character: the
    /// search does not end.
    Stuck,
    /// No boundary is left.
    Exhausted,
    /// The word from `start` to `end`; the search for the following one
    /// continues at boundary `next`.
    Word { start: i32, end: i32, next: nat },
}

/// Searches the next word from `start`, boundary `i` being the next one.
pub open spec fn scan(text: Seq<char>, breaks: Seq<BreakPoint>, start: i32, i: nat) -> ScanOutcome
    decreases breaks.len() - i,
{
    if i >= breaks.len() {
        ScanOutcome::Exhausted
    } else if breaks[i as int].rule_status == 0 {
        let s = breaks[i as int].position;
        if i + 1 >= breaks.len() {
            ScanOutcome::Exhausted
        } else if has_alphanumeric(segment(text, s, breaks[i + 1int].position)) {
            ScanOutcome::Word { start: s, end: breaks[i + 1int].position, next: i + 2 }
        } else {
            scan(text, breaks, s, i + 1)
        }
    } else if has_alphanumeric(segment(text, start, breaks[i as int].position)) {
        ScanOutcome::Word { start, end: breaks[i as int].position, next: i + 1 }
    } else {
        ScanOutcome::Stuck
    }
}

/// The words found from `start` on, boundary `i` being the next one, as
/// (text, start, end).
pub open spec fn words(text: Seq<char>, breaks: Seq<BreakPoint>, start: i32, i: nat) -> Seq<
    (Seq<char>, i32, i32),
>
    decreases breaks.len() - i,
{
    match scan(text, breaks, start, i) {
        ScanOutcome::Word { start: s, end: e, next: n } => if i < n <= breaks.len() {
            seq![(segment(text, s, e), s, e)] + words(text, breaks, e, n)
        } else {
            Seq::empty()
        },
        _ => Seq::empty(),
    }
}

/// The search never gets stuck from `start` on.
pub open spec fn never_stuck(text: Seq<char>, breaks: Seq<BreakPoint>, start: i32, i: nat) -> bool
    decreases breaks.len() - i,
{
    match scan(text, breaks, start, i) {
        ScanOutcome::Stuck => false,
        ScanOutcome::Exhausted => true,
        ScanOutcome::Word { start: s, end: e, next: n } => i < n <= breaks.len() && never_stuck(
            text,
            breaks,
            e,
            n,
        ),
    }
}

proof fn lemma_scan_progress(text: Seq<char>, breaks: Seq<BreakPoint>, start: i32, i: nat)
    ensures
        scan(text, breaks, start, i) matches ScanOutcome::Word { next: n, .. } ==> i < n
            <= breaks.len(),
    decreases breaks.len() - i,
{
    if i < breaks.len() && breaks[i as int].rule_status == 0 && i + 1 < breaks.len() {
        lemma_scan_progress(text, breaks, breaks[i as int].position, i + 1);
    }
}

proof fn lemma_scan_word(text: Seq<char>, breaks: Seq<BreakPoint>, start: i32, i: nat)
    ensures
        scan(text, breaks, start, i) matches ScanOutcome::Word { start: s, end: e, .. }
            ==> has_alphanumeric(segment(text, s, e)),
    decreases breaks.len() - i,
{
    if i < breaks.len() && breaks[i as int].rule_status == 0 && i + 1 < breaks.len() {
        lemma_scan_word(text, breaks, breaks[i as int].position, i + 1);
    }
}

/// Every word holds an alphanumeric character and is the text between its
/// start and end.
pub proof fn words_hold_alphanumerics(text: Seq<char>, breaks: Seq<BreakPoint>, start: i32, i: nat)
    ensures
        forall|j: int|
            0 <= j < words(text, breaks, start, i).len() ==> {
                let w = #[trigger] words(text, breaks, start, i)[j];
                has_alphanumeric(w.0) && w.0 == segment(text, w.1, w.2)
            },
    decreases breaks.len() - i,
{
    lemma_scan_word(text, breaks, start, i);
    match scan(text, breaks, start, i) {
        ScanOutcome::Word { start: s, end: e, next: n } => {
            if i < n <= breaks.len() {
                words_hold_alphanumerics(text, breaks, e, n);
                let ws = words(text, breaks, start, i);
                assert forall|j: int| 0 <= j < ws.len() implies {
                    let w = #[trigger] ws[j];
                    has_alphanumeric(w.0) && w.0 == segment(text, w.1, w.2)
                } by {
                    if j > 0 {
                        assert(ws[j] == words(text, breaks, e, n)[j - 1]);
                    }
                }
            }
        },
        _ => {},
    }
}

/// Whether the characters from `start` to `end` hold an alphanumeric one.
fn segment_has_alphanumeric(text: &Vec<char>, start: i32, end: i32) -> (r: bool)
    ensures
        r == has_alphanumeric(segment(text@, start, end)),
{
    let e = if (end as usize) < text.len() {
        end as usize
    } else {
        text.len()
    };
    let s = if (start as usize) < e {
        start as usize
    } else {
        e
    };
    let ghost seg = segment(text@, start, end);
    assert(seg == text@.subrange(s as int, e as int));
    let mut k = s;
    while k < e
        invariant
            s <= k <= e <= text.len(),
            seg == text@.subrange(s as int, e as int),
            seg == segment(text@, start, end),
            forall|j: int| s <= j < k ==> !is_alphanumeric(#[trigger] text@[j]),
        decreases e - k,
    {
        if char_is_alphanumeric(text[k]) {
            assert(seg[k - s] == text@[k as int]);
            assert(is_alphanumeric(seg[k - s]));
            assert(has_alphanumeric(seg));
            return true;
        }
        k = k + 1;
    }
    assert forall|i: int| 0 <= i < seg.len() implies !is_alphanumeric(#[trigger] seg[i]) by {
        assert(seg[i] == text@[s + i]);
    }
    false
}

/// Whether the boundaries come in strictly increasing order, as a break
/// iterator finds them.
pub open spec fn increasing(breaks: Seq<BreakPoint>) -> bool {
    forall|a: int, b: int|
        0 <= a < b < breaks.len() ==> #[trigger] breaks[a].position < #[trigger] breaks[b].position
}

proof fn lemma_scan_bounds(text: Seq<char>, breaks: Seq<BreakPoint>, start: i32, i: nat)
    requires
        increasing(breaks),
        0 <= start,
        i < breaks.len() ==> start <= breaks[i as int].position,
    ensures
        scan(text, breaks, start, i) matches ScanOutcome::Word { start: s, end: e, next: n } ==> {
            &&& start <= s < e
            &&& 1 <= n <= breaks.len()
            &&& e == breaks[n - 1].position
        },
    decreases breaks.len() - i,
{
    lemma_scan_word(text, breaks, start, i);
    lemma_scan_progress(text, breaks, start, i);
    if i < breaks.len() && breaks[i as int].rule_status == 0 && i + 1 < breaks.len() {
        let p = breaks[i as int].position;
        assert(p < breaks[i + 1int].position);
        lemma_scan_bounds(text, breaks, p, i + 1);
    }
}

/// The words are taken in text order: each starts before it ends, and none
/// starts before the previous one ended, when the boundaries increase and
/// the search starts at a boundary not after them.
pub proof fn words_in_order(text: Seq<char>, breaks: Seq<BreakPoint>, start: i32, i: nat)
    requires
        increasing(breaks),
        0 <= start,
        i < breaks.len() ==> start <= breaks[i as int].position,
    ensures
        forall|j: int|
            0 <= j < words(text, breaks, start, i).len() ==> start <= #[trigger] words(
                text,
                breaks,
                start,
                i,
            )[j].1 < words(text, breaks, start, i)[j].2,
        forall|j: int|
            0 <= j < words(text, breaks, start, i).len() - 1 ==> #[trigger] words(
                text,
                breaks,
                start,
                i,
            )[j].2 <= words(text, breaks, start, i)[j + 1].1,
    decreases breaks.len() - i,
{
    lemma_scan_bounds(text, breaks, start, i);
    match scan(text, breaks, start, i) {
        ScanOutcome::Word { start: s, end: e, next: n } => {
            if i < n <= breaks.len() {
                words_in_order(text, breaks, e, n);
                let ws = words(text, breaks, start, i);
                let rest = words(text, breaks, e, n);
                assert forall|j: int| 0 <= j < ws.len() implies start <= #[trigger] ws[j].1
                    < ws[j].2 by {
                    if j > 0 {
                        assert(ws[j] == rest[j - 1]);
                    }
                }
                assert forall|j: int| 0 <= j < ws.len() - 1 implies #[trigger] ws[j].2 <= ws[j
                    + 1].1 by {
                    assert(ws[j + 1] == rest[j]);
                    if j > 0 {
                        assert(ws[j] == rest[j - 1]);
                    }
                }
            }
        },
        _ => {},
    }
}

/// The boundary before boundary `i`: the iterator's first boundary for
/// the first one.
pub open spec fn boundary_before(first: i32, breaks: Seq<BreakPoint>, i: int) -> i32 {
    if i == 0 {
        first
    } else {
        breaks[i - 1].position
    }
}

/// The word that ends at boundary `i`: the text from the boundary before it.
pub open spec fn word_at(text: Seq<char>, first: i32, breaks: Seq<BreakPoint>, i: int) -> (
    Seq<char>,
    i32,
    i32,
) {
    (
        segment(text, boundary_before(first, breaks, i), breaks[i].position),
        boundary_before(first, breaks, i),
        breaks[i].position,
    )
}

/// Whether `w` is the word that ends at some boundary.
pub open spec fn is_boundary_word(
    text: Seq<char>,
    first: i32,
    breaks: Seq<BreakPoint>,
    w: (Seq<char>, i32, i32),
) -> bool {
    exists|k: int| 0 <= k < breaks.len() && w == word_at(text, first, breaks, k)
}

proof fn lemma_words_complete(text: Seq<char>, first: i32, breaks: Seq<BreakPoint>, start: i32, i: nat)
    requires
        i <= breaks.len(),
        start == boundary_before(first, breaks, i as int),
        never_stuck(text, breaks, start, i),
    ensures
        forall|k: int|
            i <= k < breaks.len() && breaks[k].rule_status != 0 && has_alphanumeric(
                word_at(text, first, breaks, k).0,
            ) ==> #[trigger] words(text, breaks, start, i).contains(word_at(text, first, breaks, k)),
        forall|j: int|
            0 <= j < words(text, breaks, start, i).len() ==> is_boundary_word(
                text,
                first,
                breaks,
                #[trigger] words(text, breaks, start, i)[j],
            ),
    decreases breaks.len() - i,
{
    let ws = words(text, breaks, start, i);
    lemma_scan_progress(text, breaks, start, i);
    if i < breaks.len() {
        if breaks[i as int].rule_status == 0 {
            let s = breaks[i as int].position;
            if i + 1 < breaks.len() {
                if has_alphanumeric(segment(text, s, breaks[i + 1int].position)) {
                    let e = breaks[i + 1int].position;
                    lemma_words_complete(text, first, breaks, e, i + 2);
                    let rest = words(text, breaks, e, i + 2);
                    assert(ws == seq![word_at(text, first, breaks, i + 1int)] + rest);
                    assert forall|k: int|
                        i <= k < breaks.len() && breaks[k].rule_status != 0 && has_alphanumeric(
                            word_at(text, first, breaks, k).0,
                        ) implies #[trigger] ws.contains(word_at(text, first, breaks, k)) by {
                        if k == i + 1 {
                            assert(ws[0] == word_at(text, first, breaks, k));
                        } else {
                            assert(rest.contains(word_at(text, first, breaks, k)));
                            let j = choose|j: int| 0 <= j < rest.len() && rest[j] == word_at(
                                text,
                                first,
                                breaks,
                                k,
                            );
                            assert(ws[j + 1] == rest[j]);
                        }
                    }
                    assert forall|j: int| 0 <= j < ws.len() implies is_boundary_word(text, first, breaks, #[trigger] ws[j]) by {
                        if j == 0 {
                            assert(ws[0] == word_at(text, first, breaks, i + 1int));
                        } else {
                            assert(ws[j] == rest[j - 1]);
                        }
                    }
                } else {
                    lemma_never_stuck_skip(text, breaks, start, i);
                    lemma_scan_progress(text, breaks, s, i + 1);
                    assert(ws == words(text, breaks, s, i + 1));
                    lemma_words_complete(text, first, breaks, s, i + 1);
                }
            } else {
                assert(ws.len() == 0);
            }
        } else {
            let e = breaks[i as int].position;
            assert(has_alphanumeric(segment(text, start, e)));
            lemma_words_complete(text, first, breaks, e, i + 1);
            let rest = words(text, breaks, e, i + 1);
            assert(ws == seq![word_at(text, first, breaks, i as int)] + rest);
            assert forall|k: int|
                i <= k < breaks.len() && breaks[k].rule_status != 0 && has_alphanumeric(
                    word_at(text, first, breaks, k).0,
                ) implies #[trigger] ws.contains(word_at(text, first, breaks, k)) by {
                if k == i {
                    assert(ws[0] == word_at(text, first, breaks, k));
                } else {
                    assert(rest.contains(word_at(text, first, breaks, k)));
                    let j = choose|j: int| 0 <= j < rest.len() && rest[j] == word_at(
                        text,
                        first,
                        breaks,
                        k,
                    );
                    assert(ws[j + 1] == rest[j]);
                }
            }
            assert forall|j: int| 0 <= j < ws.len() implies is_boundary_word(text, first, breaks, #[trigger] ws[j]) by {
                if j == 0 {
                    assert(ws[0] == word_at(text, first, breaks, i as int));
                } else {
                    assert(ws[j] == rest[j - 1]);
                }
            }
        }
    }
}

/// No word is missed, and nothing else is a word. When the search ends,
/// every segment that ends at a boundary with a non-zero rule status,
/// starts at the boundary before it (the first boundary for the first
/// segment) and holds an alphanumeric character is among the words; and
/// every word is such a segment between two consecutive boundaries, with
/// those boundaries as its start and end.
pub proof fn words_are_complete(text: Seq<char>, first: i32, breaks: Seq<BreakPoint>)
    requires
        never_stuck(text, breaks, first, 0),
    ensures
        forall|k: int|
            0 <= k < breaks.len() && breaks[k].rule_status != 0 && has_alphanumeric(
                word_at(text, first, breaks, k).0,
            ) ==> #[trigger] words(text, breaks, first, 0).contains(word_at(text, first, breaks, k)),
        forall|j: int|
            0 <= j < words(text, breaks, first, 0).len() ==> is_boundary_word(
                text,
                first,
                breaks,
                #[trigger] words(text, breaks, first, 0)[j],
            ),
{
    lemma_words_complete(text, first, breaks, first, 0);
}

/// When every boundary has a non-zero rule status and every segment between
/// consecutive boundaries holds an alphanumeric character, there is one word
/// per boundary, in order: the segment that ends there.
pub proof fn one_word_per_boundary(text: Seq<char>, first: i32, breaks: Seq<BreakPoint>)
    requires
        forall|k: int| 0 <= k < breaks.len() ==> #[trigger] breaks[k].rule_status != 0,
        forall|k: int|
            0 <= k < breaks.len() ==> has_alphanumeric(#[trigger] word_at(text, first, breaks, k).0),
    ensures
        never_stuck(text, breaks, first, 0),
        words(text, breaks, first, 0) == Seq::new(
            breaks.len(),
            |k: int| word_at(text, first, breaks, k),
        ),
{
    lemma_one_word_per_boundary(text, first, breaks, first, 0);
    assert(Seq::new((breaks.len() - 0) as nat, |k: int| word_at(text, first, breaks, 0 + k))
        =~= Seq::new(breaks.len(), |k: int| word_at(text, first, breaks, k)));
}

proof fn lemma_one_word_per_boundary(
    text: Seq<char>,
    first: i32,
    breaks: Seq<BreakPoint>,
    start: i32,
    i: nat,
)
    requires
        i <= breaks.len(),
        start == boundary_before(first, breaks, i as int),
        forall|k: int| 0 <= k < breaks.len() ==> #[trigger] breaks[k].rule_status != 0,
        forall|k: int|
            0 <= k < breaks.len() ==> has_alphanumeric(#[trigger] word_at(text, first, breaks, k).0),
    ensures
        never_stuck(text, breaks, start, i),
        words(text, breaks, start, i) == Seq::new(
            (breaks.len() - i) as nat,
            |k: int| word_at(text, first, breaks, i + k),
        ),
    decreases breaks.len() - i,
{
    if i < breaks.len() {
        let e = breaks[i as int].position;
        assert(breaks[i as int].rule_status != 0);
        assert(has_alphanumeric(word_at(text, first, breaks, i as int).0));
        lemma_one_word_per_boundary(text, first, breaks, e, i + 1);
        assert(words(text, breaks, start, i) =~= Seq::new(
            (breaks.len() - i) as nat,
            |k: int| word_at(text, first, breaks, i + k),
        ));
    } else {
        assert(words(text, breaks, start, i) =~= Seq::new(
            (breaks.len() - i) as nat,
            |k: int| word_at(text, first, breaks, i + k),
        ));
    }
}

/// Whether the search for words ends, starting from `first` with the
/// boundaries `breaks`: it does unless it meets a segment with a non-zero
/// status that holds no alphanumeric character.
pub fn search_ends(text: &Vec<char>, first: i32, breaks: &Vec<BreakPoint>) -> (r: bool)
    ensures
        r == never_stuck(text@, breaks@, first, 0),
{
    let ghost t = text@;
    let ghost b = breaks@;
    let mut start = first;
    let mut i: usize = 0;
    while i < breaks.len()
        invariant
            t == text@,
            b == breaks@,
            i <= breaks.len(),
            never_stuck(t, b, first, 0) == never_stuck(t, b, start, i as nat),
        decreases breaks.len() - i,
    {
        proof {
            lemma_scan_progress(t, b, start, i as nat);
        }
        if breaks[i].rule_status == 0 {
            let s = breaks[i].position;
            if i + 1 >= breaks.len() {
                return true;
            }
            let e = breaks[i + 1].position;
            if segment_has_alphanumeric(text, s, e) {
                start = e;
                i = i + 2;
            } else {
                proof {
                    lemma_scan_progress(t, b, s, (i + 1) as nat);
                    lemma_never_stuck_skip(t, b, start, i as nat);
                }
                start = s;
                i = i + 1;
            }
        } else {
            let e = breaks[i].position;
            if segment_has_alphanumeric(text, start, e) {
                start = e;
                i = i + 1;
            } else {
                return false;
            }
        }
    }
    true
}

/// Past a boundary with status 0 whose segment holds no word, the search
/// goes on from that boundary.
proof fn lemma_never_stuck_skip(text: Seq<char>, breaks: Seq<BreakPoint>, start: i32, i: nat)
    requires
        i + 1 < breaks.len(),
        breaks[i as int].rule_status == 0,
        !has_alphanumeric(
            segment(text, breaks[i as int].position, breaks[i + 1int].position),
        ),
    ensures
        never_stuck(text, breaks, start, i) == never_stuck(
            text,
            breaks,
            breaks[i as int].position,
            i + 1,
        ),
{
    lemma_scan_progress(text, breaks, breaks[i as int].position, i + 1);
}

/// The words of a text, taken from the boundaries of a break iterator.
pub struct ICUBreakingWord {
    text: Vec<char>,
    breaks: Vec<BreakPoint>,
    /// The last boundary reached.
    current: i32,
    /// Index of the next boundary.
    index: usize,
}

impl ICUBreakingWord {
    pub closed spec fn wf(&self) -> bool {
        &&& self.index <= self.breaks.len()
        &&& never_stuck(self.text@, self.breaks@, self.current, self.index as nat)
    }

    /// The words still to be found.
    pub closed spec fn remaining(&self) -> Seq<(Seq<char>, i32, i32)> {
        words(self.text@, self.breaks@, self.current, self.index as nat)
    }

    /// The words of `text`, whose break iterator starts at boundary `first`
    /// and then finds `breaks`, in order.
    pub fn new(text: &str, first: i32, breaks: Vec<BreakPoint>) -> (w: Self)
        requires
            never_stuck(text@, breaks@, first, 0),
        ensures
            w.wf(),
            w.remaining() == words(text@, breaks@, first, 0),
    {
        ICUBreakingWord { text: chars_of(text), breaks, current: first, index: 0 }
    }

    /// The next boundary, if any.
    fn next_boundary(&mut self) -> (r: Option<i32>)
        ensures
            final(self).text == old(self).text,
            final(self).breaks == old(self).breaks,
            old(self).index < old(self).breaks.len() ==> r == Some(
                old(self).breaks@[old(self).index as int].position,
            ) && final(self).index == old(self).index + 1 && final(self).current == r->0,
            old(self).index >= old(self).breaks.len() ==> r is None && final(self).index
                == old(self).index && final(self).current == old(self).current,
    {
        if self.index < self.breaks.len() {
            let p = self.breaks[self.index].position;
            self.index = self.index + 1;
            self.current = p;
            Some(p)
        } else {
            None
        }
    }

    /// The next word, with its start and end indices.
    pub fn next(&mut self) -> (r: Option<(String, usize, usize)>)
        requires
            old(self).wf(),
        ensures
            final(self).wf(),
            old(self).remaining().len() == 0 ==> r is None && final(self).remaining().len() == 0,
            old(self).remaining().len() > 0 ==> (r matches Some(w) && w.0@
                == old(self).remaining()[0].0 && w.1 == old(self).remaining()[0].1 as usize && w.2
                == old(self).remaining()[0].2 as usize) && final(self).remaining() == old(
                self,
            ).remaining().drop_first(),
    {
        let ghost text = self.text@;
        let ghost breaks = self.breaks@;
        proof {
            lemma_scan_progress(text, breaks, self.current, self.index as nat);
        }
        let ghost outcome = scan(text, breaks, self.current, self.index as nat);
        let mut cont = true;
        let mut start = self.current;
        let mut end = self.next_boundary();
        while cont && end.is_some()
            invariant
                self.text@ == text,
                self.breaks@ == breaks,
                self.index <= breaks.len(),
                outcome == scan(text, breaks, old(self).current, old(self).index as nat),
                !(outcome is Stuck),
                end is Some ==> self.index >= 1 && end == Some(breaks[self.index - 1].position)
                    && self.current == end->0,
                end is None ==> self.index == breaks.len(),
                cont && end is Some ==> outcome == scan(text, breaks, start, (self.index - 1) as nat),
                cont && end is None ==> outcome is Exhausted,
                !cont ==> end is Some && outcome == (ScanOutcome::Word {
                    start,
                    end: end->0,
                    next: self.index as nat,
                }),
            decreases (breaks.len() - self.index) * 2 + (if cont && end is Some {
                1int
            } else {
                0int
            }),
        {
            if end.is_some() && self.breaks[self.index - 1].rule_status == 0 {
                start = end.unwrap();
                end = self.next_boundary();
            }
            if let Some(index) = end {
                cont = !segment_has_alphanumeric(&self.text, start, index);
            }
        }
        match end {
            None => {
                assert(self.remaining() =~= Seq::<(Seq<char>, i32, i32)>::empty());
                None
            },
            Some(index) => {
                let e = if (index as usize) < self.text.len() {
                    index as usize
                } else {
                    self.text.len()
                };
                let s = if (start as usize) < e {
                    start as usize
                } else {
                    e
                };
                let substring = string_from_chars(&self.text, s, e);
                Some((substring, start as usize, index as usize))
            },
        }
    }
}

/// ICU word tokenizer.
#[derive(Clone, Copy, Debug, Default)]
pub struct ICUTokenizer;

/// The position after `p`, wrapping around.
pub open spec fn next_position(p: usize) -> usize {
    if p == usize::MAX {
        0
    } else {
        (p + 1) as usize
    }
}

/// The tokens for `ws`, the previous token having position `position`.
pub open spec fn word_tokens(ws: Seq<(Seq<char>, i32, i32)>, position: usize) -> Seq<TokenView>
    decreases ws.len(),
{
    if ws.len() == 0 {
        Seq::empty()
    } else {
        let p = next_position(position);
        seq![
            TokenView {
                offset_from: ws[0].1 as usize,
                offset_to: ws[0].2 as usize,
                position: p,
                text: ws[0].0,
                position_length: 1,
            },
        ] + word_tokens(ws.drop_first(), p)
    }
}

proof fn lemma_positions(ws: Seq<(Seq<char>, i32, i32)>, p: usize)
    requires
        p + ws.len() <= usize::MAX,
    ensures
        forall|i: int| 0 <= i < ws.len() ==> #[trigger] word_tokens(ws, p)[i].position == p + 1 + i,
    decreases ws.len(),
{
    lemma_word_tokens_shape(ws, p);
    if ws.len() > 0 {
        lemma_word_tokens_shape(ws.drop_first(), (p + 1) as usize);
        lemma_positions(ws.drop_first(), (p + 1) as usize);
        assert forall|i: int| 0 <= i < ws.len() implies #[trigger] word_tokens(ws, p)[i].position
            == p + 1 + i by {
            if i > 0 {
                assert(word_tokens(ws, p)[i] == word_tokens(ws.drop_first(), (p + 1) as usize)[i
                    - 1]);
            }
        }
    }
}

/// The tokenizer numbers its tokens 0, 1, 2, ... and gives each the offsets
/// and text of its word.
pub proof fn tokenizer_positions(ws: Seq<(Seq<char>, i32, i32)>)
    requires
        ws.len() <= usize::MAX,
    ensures
        word_tokens(ws, usize::MAX as usize).len() == ws.len(),
        forall|i: int|
            0 <= i < ws.len() ==> {
                let t = #[trigger] word_tokens(ws, usize::MAX as usize)[i];
                &&& t.position == i
                &&& t.text == ws[i].0
                &&& t.offset_from == ws[i].1 as usize
                &&& t.offset_to == ws[i].2 as usize
            },
    decreases ws.len(),
{
    lemma_word_tokens_shape(ws, usize::MAX as usize);
    if ws.len() > 0 {
        lemma_word_tokens_shape(ws.drop_first(), 0);
        lemma_positions(ws.drop_first(), 0);
        assert forall|i: int| 0 <= i < ws.len() implies #[trigger] word_tokens(
            ws,
            usize::MAX as usize,
        )[i].position == i by {
            if i > 0 {
                assert(word_tokens(ws, usize::MAX as usize)[i] == word_tokens(ws.drop_first(), 0)[i
                    - 1]);
            }
        }
    }
}

proof fn lemma_word_tokens_shape(ws: Seq<(Seq<char>, i32, i32)>, p: usize)
    ensures
        word_tokens(ws, p).len() == ws.len(),
        forall|i: int|
            0 <= i < ws.len() ==> {
                let t = #[trigger] word_tokens(ws, p)[i];
                &&& t.text == ws[i].0
                &&& t.offset_from == ws[i].1 as usize
                &&& t.offset_to == ws[i].2 as usize
                &&& t.position_length == 1
            },
    decreases ws.len(),
{
    if ws.len() > 0 {
        lemma_word_tokens_shape(ws.drop_first(), next_position(p));
        assert forall|i: int| 0 <= i < ws.len() implies {
            let t = #[trigger] word_tokens(ws, p)[i];
            &&& t.text == ws[i].0
            &&& t.offset_from == ws[i].1 as usize
            &&& t.offset_to == ws[i].2 as usize
            &&& t.position_length == 1
        } by {
            if i > 0 {
                assert(word_tokens(ws, p)[i] == word_tokens(ws.drop_first(), next_position(p))[i
                    - 1]);
                assert(ws[i] == ws.drop_first()[i - 1]);
            }
        }
    }
}

impl ICUTokenizer {
    /// The stream of the words of `text`, whose break iterator starts at
    /// boundary `first` and then finds `breaks`, in order.
    pub fn token_stream(&self, text: &str, first: i32, breaks: Vec<BreakPoint>) -> (s:
        ICUTokenizerTokenStream)
        requires
            never_stuck(text@, breaks@, first, 0),
        ensures
            s.wf(),
            s.remaining() == word_tokens(words(text@, breaks@, first, 0), usize::MAX as usize),
    {
        ICUTokenizerTokenStream::new(text, first, breaks)
    }

    /// The stream of the words of `text` as [ICUTokenizer::token_stream]
    /// gives it, or `None` when the search for words would not end.
    pub fn try_token_stream(&self, text: &str, first: i32, breaks: Vec<BreakPoint>) -> (s: Option<
        ICUTokenizerTokenStream,
    >)
        ensures
            s is None <==> !never_stuck(text@, breaks@, first, 0),
            s matches Some(ts) ==> ts.wf() && ts.remaining() == word_tokens(
                words(text@, breaks@, first, 0),
                usize::MAX as usize,
            ),
    {
        let chars = chars_of(text);
        if search_ends(&chars, first, &breaks) {
            Some(self.token_stream(text, first, breaks))
        } else {
            None
        }
    }
}

/// The stream of the words of a text.
pub struct ICUTokenizerTokenStream {
    breaking_word: ICUBreakingWord,
    token: Token,
}

impl ICUTokenizerTokenStream {
    /// The stream of the words of `text`, whose break iterator starts at
    /// boundary `first` and then finds `breaks`, in order.
    pub fn new(text: &str, first: i32, breaks: Vec<BreakPoint>) -> (s: Self)
        requires
            never_stuck(text@, breaks@, first, 0),
        ensures
            s.wf(),
            s.remaining() == word_tokens(words(text@, breaks@, first, 0), usize::MAX as usize),
    {
        ICUTokenizerTokenStream {
            breaking_word: ICUBreakingWord::new(text, first, breaks),
            token: Token::default(),
        }
    }
}

impl TokenStream for ICUTokenizerTokenStream {
    closed spec fn wf(&self) -> bool {
        self.breaking_word.wf() && self.token.position_length == 1
    }

    closed spec fn remaining(&self) -> Seq<TokenView> {
        word_tokens(self.breaking_word.remaining(), self.token.position)
    }

    closed spec fn current(&self) -> TokenView {
        self.token@
    }

    fn advance(&mut self) -> (r: bool) {
        let token = self.breaking_word.next();
        match token {
            None => false,
            Some(token) => {
                self.token.text = token.0;
                self.token.position = self.token.position.wrapping_add(1);
                self.token.offset_from = token.1;
                self.token.offset_to = token.2;
                assert(self.remaining() =~= old(self).remaining().drop_first());
                true
            },
        }
    }

    fn token(&self) -> (t: &Token) {
        &self.token
    }
}

} // verus!
