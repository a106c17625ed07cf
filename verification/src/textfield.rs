//! Single-line text-field editing state for the URL bar: caret + selection
//! over a String, with char/word movement. Byte indices always sit on char
//! boundaries.
//!
//! The field is specified over the UTF-8 encoding of the text's characters:
//! `caret` and `anchor` are byte offsets into that encoding, and every
//! movement is stated in terms of its char boundaries.

use vstd::prelude::*;
use vstd::string::StringSliceAdditionalSpecFns;
use vstd::utf8::{
    decode_utf8, encode_scalar, encode_utf8, is_char_boundary, length_of_first_scalar,
    pop_first_scalar, valid_utf8,
};

verus! {

broadcast use {vstd::utf8::encode_utf8_valid_utf8, vstd::utf8::encode_utf8_decode_utf8};

/// What `char::is_alphanumeric` answers for a character (Unicode
/// `Alphabetic` or `Numeric`).
pub uninterp spec fn unicode_alphanumeric(c: char) -> bool;

pub open spec fn ascii_alphanumeric(c: char) -> bool {
    ('a' <= c && c <= 'z') || ('A' <= c && c <= 'Z') || ('0' <= c && c <= '9')
}

/// `char::is_alphanumeric`. The contract names its result and adds what the
/// Unicode tables give for the ASCII range: there, exactly the letters and
/// digits are alphanumeric. Outside ASCII nothing is stated.
#[verifier::external_body]
fn char_is_alphanumeric(c: char) -> (r: bool)
    ensures
        r == unicode_alphanumeric(c),
        (c as u32) < 128 ==> (r <==> ascii_alphanumeric(c)),
{
    c.is_alphanumeric()
}

/// What `char::is_alphanumeric` answers: in the ASCII range exactly the
/// letters and digits, beyond it the Unicode tables.
pub open spec fn alphanumeric(c: char) -> bool {
    if (c as u32) < 128 {
        ascii_alphanumeric(c)
    } else {
        unicode_alphanumeric(c)
    }
}

/// Word characters: letters, digits, `_` and `-`. Path separators and other
/// punctuation break words.
pub open spec fn word_char(c: char) -> bool {
    alphanumeric(c) || c == '_' || c == '-'
}

pub fn is_word(c: char) -> (r: bool)
    ensures
        r == word_char(c),
{
    char_is_alphanumeric(c) || c == '_' || c == '-'
}

/// The UTF-8 bytes of a character sequence.
pub open spec fn utf8(t: Seq<char>) -> Seq<u8> {
    encode_utf8(t)
}

/// `i` is a char boundary of the encoding of `t` (0, the end, or the first
/// byte of a character).
pub open spec fn boundary(t: Seq<char>, i: int) -> bool {
    is_char_boundary(encode_utf8(t), i)
}

/// The nearest char boundary strictly before `from` (0 when there is none).
pub open spec fn boundary_before(t: Seq<char>, from: int) -> int
    decreases from,
{
    if from <= 0 {
        0
    } else if boundary(t, from - 1) {
        from - 1
    } else {
        boundary_before(t, from - 1)
    }
}

/// The nearest char boundary strictly after `from`, capped at the end.
pub open spec fn boundary_after(t: Seq<char>, from: int) -> int
    decreases encode_utf8(t).len() - from,
{
    if from >= encode_utf8(t).len() {
        encode_utf8(t).len() as int
    } else if boundary(t, from + 1) {
        from + 1
    } else {
        boundary_after(t, from + 1)
    }
}

/// The nearest char boundary at or before `i`.
pub open spec fn boundary_at_or_before(t: Seq<char>, i: int) -> int {
    if boundary(t, i) {
        i
    } else {
        boundary_before(t, i)
    }
}

/// The characters encoded in bytes `[from, to)` of the text.
pub open spec fn chars_between(t: Seq<char>, from: int, to: int) -> Seq<char> {
    decode_utf8(encode_utf8(t).subrange(from, to))
}

/// The character whose encoding ends at byte `i` (`'\0'` at the start).
pub open spec fn char_ending_at(t: Seq<char>, i: int) -> char {
    let pre = chars_between(t, 0, i);
    if pre.len() == 0 {
        '\0'
    } else {
        pre.last()
    }
}

/// The character whose encoding starts at byte `i` (`'\0'` at the end).
pub open spec fn char_starting_at(t: Seq<char>, i: int) -> char {
    let rest = chars_between(t, i, encode_utf8(t).len() as int);
    if rest.len() == 0 {
        '\0'
    } else {
        rest[0]
    }
}

/// From `i`, step back one character at a time while the character before
/// the position is (`word`) or is not (`!word`) a word character.
pub open spec fn skip_back(t: Seq<char>, i: int, word: bool) -> int
    decreases i,
{
    if i > 0 && word_char(char_ending_at(t, i)) == word {
        proof {
            lemma_boundary_before_lt(t, i);
        }
        skip_back(t, boundary_before(t, i), word)
    } else {
        i
    }
}

/// From `i`, step forward one character at a time while the character after
/// the position is (`word`) or is not (`!word`) a word character.
pub open spec fn skip_forward(t: Seq<char>, i: int, word: bool) -> int
    decreases encode_utf8(t).len() - i,
{
    if i < encode_utf8(t).len() && word_char(char_starting_at(t, i)) == word {
        proof {
            lemma_boundary_after_gt(t, i);
        }
        skip_forward(t, boundary_after(t, i), word)
    } else {
        i
    }
}

/// Start of the word before `from`: skip the separators, then the word.
pub open spec fn word_start_before(t: Seq<char>, from: int) -> int {
    skip_back(t, skip_back(t, from, false), true)
}

/// End of the word after `from`: skip the separators, then the word.
pub open spec fn word_end_after(t: Seq<char>, from: int) -> int {
    skip_forward(t, skip_forward(t, from, false), true)
}

/* Facts about UTF-8 boundaries */

pub proof fn lemma_boundary_before_lt(t: Seq<char>, from: int)
    ensures
        from > 0 ==> boundary_before(t, from) < from,
        boundary_before(t, from) >= 0,
    decreases from,
{
    if from > 0 && !boundary(t, from - 1) {
        lemma_boundary_before_lt(t, from - 1);
    }
}

pub proof fn lemma_boundary_after_gt(t: Seq<char>, from: int)
    ensures
        from < encode_utf8(t).len() ==> boundary_after(t, from) > from,
        boundary_after(t, from) <= encode_utf8(t).len(),
    decreases encode_utf8(t).len() - from,
{
    if from < encode_utf8(t).len() && !boundary(t, from + 1) {
        lemma_boundary_after_gt(t, from + 1);
    }
}

pub proof fn lemma_ends_are_boundaries(t: Seq<char>)
    ensures
        boundary(t, 0),
        boundary(t, encode_utf8(t).len() as int),
{
    vstd::utf8::is_char_boundary_start_end_of_seq(encode_utf8(t));
}

/// `boundary_before` is the greatest boundary strictly below `from` (or 0).
pub proof fn lemma_boundary_before_is_boundary(t: Seq<char>, from: int)
    ensures
        boundary(t, boundary_before(t, from)),
        forall|j: int| boundary_before(t, from) < j < from ==> !boundary(t, j),
    decreases from,
{
    lemma_ends_are_boundaries(t);
    if from > 0 && !boundary(t, from - 1) {
        lemma_boundary_before_is_boundary(t, from - 1);
    }
}

/// `boundary_after` is the least boundary strictly above `from` (or the end).
pub proof fn lemma_boundary_after_is_boundary(t: Seq<char>, from: int)
    ensures
        boundary(t, boundary_after(t, from)),
        forall|j: int| from < j < boundary_after(t, from) ==> !boundary(t, j),
    decreases encode_utf8(t).len() - from,
{
    lemma_ends_are_boundaries(t);
    if from < encode_utf8(t).len() && !boundary(t, from + 1) {
        lemma_boundary_after_is_boundary(t, from + 1);
    }
}

pub proof fn lemma_encode_scalar_len(c: char)
    ensures
        1 <= encode_scalar(c as u32).len() <= 4,
{
    vstd::utf8::char_is_scalar(c);
}

/// Encoding distributes over concatenation.
pub proof fn lemma_encode_concat(a: Seq<char>, b: Seq<char>)
    ensures
        encode_utf8(a + b) == encode_utf8(a) + encode_utf8(b),
    decreases a.len(),
{
    if a.len() == 0 {
        assert(a + b =~= b);
        assert(encode_utf8(a) =~= Seq::<u8>::empty());
        assert(encode_utf8(a) + encode_utf8(b) =~= encode_utf8(b));
    } else {
        assert((a + b).drop_first() =~= a.drop_first() + b);
        assert((a + b)[0] == a[0]);
        lemma_encode_concat(a.drop_first(), b);
        assert(encode_utf8(a + b) =~= encode_scalar(a[0] as u32) + (encode_utf8(a.drop_first())
            + encode_utf8(b)));
    }
}

/// Where two texts are joined, the join point is a char boundary.
pub proof fn lemma_boundary_at_join(a: Seq<char>, b: Seq<char>)
    ensures
        is_char_boundary(encode_utf8(a + b), encode_utf8(a).len() as int),
    decreases a.len(),
{
    let x = a + b;
    if a.len() == 0 {
        assert(encode_utf8(a).len() == 0);
        vstd::utf8::is_char_boundary_start_end_of_seq(encode_utf8(x));
    } else {
        let bytes = encode_utf8(x);
        assert(x[0] == a[0]);
        assert(x.drop_first() =~= a.drop_first() + b);
        vstd::utf8::encode_utf8_first_scalar(x);
        lemma_encode_scalar_len(x[0]);
        let w = encode_scalar(x[0] as u32).len() as int;
        assert(bytes =~= encode_scalar(x[0] as u32) + encode_utf8(x.drop_first()));
        assert(pop_first_scalar(bytes) =~= encode_utf8(x.drop_first()));
        lemma_boundary_at_join(a.drop_first(), b);
        lemma_encode_concat(a, b);
        assert(encode_utf8(a) =~= encode_scalar(a[0] as u32) + encode_utf8(a.drop_first()));
        let idx = encode_utf8(a).len() as int;
        assert(idx > 0);
        assert(idx <= bytes.len());
        assert(valid_utf8(bytes));
        assert(is_char_boundary(bytes, idx) == is_char_boundary(
            pop_first_scalar(bytes),
            idx - length_of_first_scalar(bytes),
        ));
    }
}

/// Splitting the text's encoding at a boundary splits the text.
pub proof fn lemma_split_at_boundary(t: Seq<char>, i: int)
    requires
        boundary(t, i),
    ensures
        0 <= i <= encode_utf8(t).len(),
        valid_utf8(encode_utf8(t).subrange(0, i)),
        valid_utf8(encode_utf8(t).subrange(i, encode_utf8(t).len() as int)),
        t =~= chars_between(t, 0, i) + chars_between(t, i, encode_utf8(t).len() as int),
        encode_utf8(chars_between(t, 0, i)) == encode_utf8(t).subrange(0, i),
        encode_utf8(chars_between(t, i, encode_utf8(t).len() as int)) == encode_utf8(t).subrange(
            i,
            encode_utf8(t).len() as int,
        ),
{
    let b = encode_utf8(t);
    if i < 0 || i > b.len() {
        assert(!is_char_boundary(b, i));
    }
    vstd::utf8::valid_utf8_split(b, i);
    vstd::utf8::decode_utf8_split(b, i);
    vstd::utf8::decode_utf8_encode_utf8(b.subrange(0, i));
    vstd::utf8::decode_utf8_encode_utf8(b.subrange(i, b.len() as int));
}

/// A text formed from `a` and `b` has its join and both ends as boundaries,
/// and its pieces read back as `a` and `b`.
pub proof fn lemma_join_pieces(a: Seq<char>, b: Seq<char>)
    ensures
        boundary(a + b, encode_utf8(a).len() as int),
        encode_utf8(a + b) == encode_utf8(a) + encode_utf8(b),
        chars_between(a + b, 0, encode_utf8(a).len() as int) == a,
        chars_between(a + b, encode_utf8(a).len() as int, encode_utf8(a + b).len() as int) == b,
{
    lemma_boundary_at_join(a, b);
    lemma_encode_concat(a, b);
    let x = encode_utf8(a + b);
    assert(x.subrange(0, encode_utf8(a).len() as int) =~= encode_utf8(a));
    assert(x.subrange(encode_utf8(a).len() as int, x.len() as int) =~= encode_utf8(b));
}

/// The text with bytes `[from, to)` taken out.
pub open spec fn removed(t: Seq<char>, from: int, to: int) -> Seq<char> {
    chars_between(t, 0, from) + chars_between(t, to, encode_utf8(t).len() as int)
}

/// The text with `s` put in at byte `at`.
pub open spec fn inserted(t: Seq<char>, at: int, s: Seq<char>) -> Seq<char> {
    chars_between(t, 0, at) + s + chars_between(t, at, encode_utf8(t).len() as int)
}

/// Skipping back from a boundary lands on a boundary at or before it.
pub proof fn lemma_skip_back_le(t: Seq<char>, from: int)
    requires
        boundary(t, from),
    ensures
        word_start_before(t, from) <= from,
        boundary(t, word_start_before(t, from)),
{
    lemma_skip_back_bounds(t, from, false);
    lemma_skip_back_bounds(t, skip_back(t, from, false), true);
}

pub proof fn lemma_skip_back_bounds(t: Seq<char>, i: int, word: bool)
    requires
        boundary(t, i),
    ensures
        skip_back(t, i, word) <= i,
        boundary(t, skip_back(t, i, word)),
    decreases i,
{
    if i > 0 && word_char(char_ending_at(t, i)) == word {
        lemma_boundary_before_lt(t, i);
        lemma_boundary_before_is_boundary(t, i);
        lemma_skip_back_bounds(t, boundary_before(t, i), word);
    }
}

pub proof fn lemma_skip_forward_bounds(t: Seq<char>, i: int, word: bool)
    requires
        boundary(t, i),
    ensures
        skip_forward(t, i, word) >= i,
        boundary(t, skip_forward(t, i, word)),
    decreases encode_utf8(t).len() - i,
{
    if i < encode_utf8(t).len() && word_char(char_starting_at(t, i)) == word {
        lemma_boundary_after_gt(t, i);
        lemma_boundary_after_is_boundary(t, i);
        lemma_skip_forward_bounds(t, boundary_after(t, i), word);
    }
}

/// A boundary of the text at or before a boundary `e` is also a boundary of
/// the first `e` bytes.
pub proof fn lemma_boundary_in_prefix(t: Seq<char>, s: int, e: int)
    requires
        boundary(t, s),
        boundary(t, e),
        s <= e,
    ensures
        is_char_boundary(encode_utf8(t).subrange(0, e), s),
{
    let b = encode_utf8(t);
    lemma_split_at_boundary(t, e);
    lemma_split_at_boundary(t, s);
    let p = b.subrange(0, e);
    if s == e {
        vstd::utf8::is_char_boundary_start_end_of_seq(p);
    } else if s == 0 {
        vstd::utf8::is_char_boundary_start_end_of_seq(p);
    } else {
        vstd::utf8::is_char_boundary_iff_not_is_continuation_byte(b, s);
        vstd::utf8::is_char_boundary_iff_not_is_continuation_byte(p, s);
        assert(p[s] == b[s]);
    }
}

/// Single-line edit state: the text, a caret and an optional selection
/// anchor, both byte offsets into the text's UTF-8 encoding.
pub struct TextField {
    pub active: bool,
    pub text: String,
    /// Caret byte index.
    pub caret: usize,
    /// Selection anchor byte index; selection is anchor..caret (unordered).
    pub anchor: Option<usize>,
}

impl TextField {
    /// The caret sits on a char boundary of the text.
    pub open spec fn caret_ok(&self) -> bool {
        boundary(self.text@, self.caret as int)
    }

    /// The anchor, if any, sits on a char boundary of the text.
    pub open spec fn anchor_ok(&self) -> bool {
        match self.anchor {
            Some(a) => boundary(self.text@, a as int),
            None => true,
        }
    }

    /// The text's encoding fits the byte offsets that index it.
    pub open spec fn fits(&self) -> bool {
        encode_utf8(self.text@).len() <= usize::MAX
    }

    pub open spec fn wf(&self) -> bool {
        self.fits() && self.caret_ok() && self.anchor_ok()
    }

    /// The selected byte range, ordered, when the anchor differs from the caret.
    pub open spec fn selection_spec(&self) -> Option<(usize, usize)> {
        match self.anchor {
            Some(a) => if a == self.caret {
                None
            } else if a < self.caret {
                Some((a, self.caret))
            } else {
                Some((self.caret, a))
            },
            None => None,
        }
    }

    /// The anchor after a movement: kept (or dropped at the caret) when
    /// extending the selection, cleared otherwise.
    pub open spec fn anchor_after_move(&self, select: bool) -> Option<usize> {
        if select {
            if self.anchor is None {
                Some(self.caret)
            } else {
                self.anchor
            }
        } else {
            None
        }
    }

    pub fn new() -> (r: TextField)
        ensures
            !r.active,
            r.text@ == Seq::<char>::empty(),
            r.caret == 0,
            r.anchor is None,
            r.wf(),
    {
        let r = TextField { active: false, text: String::new(), caret: 0, anchor: None };
        proof {
            lemma_ends_are_boundaries(r.text@);
        }
        r
    }

    /// Start editing `text` with the caret at `caret`, clamped to the text and
    /// moved back to the nearest char boundary.
    pub fn begin(&mut self, text: String, caret: usize)
        requires
            encode_utf8(text@).len() <= usize::MAX,
        ensures
            final(self).active,
            final(self).text@ == text@,
            final(self).anchor is None,
            final(self).caret == boundary_at_or_before(
                text@,
                if (caret as int) < encode_utf8(text@).len() {
                    caret as int
                } else {
                    encode_utf8(text@).len() as int
                },
            ),
            final(self).wf(),
    {
        let len = text.as_str().len();
        let mut c = if caret < len {
            caret
        } else {
            len
        };
        let ghost start = c as int;
        proof {
            lemma_ends_are_boundaries(text@);
            lemma_boundary_before_is_boundary(text@, start);
            lemma_boundary_before_lt(text@, start);
        }
        while !text.as_str().is_char_boundary(c)
            invariant
                0 <= c <= start,
                start <= encode_utf8(text@).len(),
                !boundary(text@, start) ==> boundary_before(text@, start) <= c,
                forall|j: int| c < j <= start ==> !boundary(text@, j),
                boundary(text@, boundary_before(text@, start)),
                forall|j: int| boundary_before(text@, start) < j < start ==> !boundary(text@, j),
                boundary(text@, 0),
            decreases c,
        {
            c = c - 1;
        }
        proof {
            if boundary(text@, start) {
                assert(c == start);
            }
            if !boundary(text@, start) {
                assert(c == boundary_before(text@, start)) by {
                    if c > boundary_before(text@, start) {
                        assert(!boundary(text@, c as int));
                    }
                }
            }
        }
        self.caret = c;
        self.text = text;
        self.active = true;
        self.anchor = None;
    }

    /// Stop editing: the text is emptied and the selection dropped.
    pub fn cancel(&mut self)
        ensures
            !final(self).active,
            final(self).text@ == Seq::<char>::empty(),
            final(self).anchor is None,
            final(self).caret == 0,
            final(self).wf(),
    {
        self.active = false;
        self.text = String::new();
        self.anchor = None;
        self.caret = 0;
        proof {
            lemma_ends_are_boundaries(self.text@);
        }
    }

    /// Whether caret and anchor sit on char boundaries of the text (the
    /// field's invariant, short of the encoding fitting a `usize`, which
    /// every string in memory does).
    pub fn is_consistent(&self) -> (r: bool)
        ensures
            r == (self.caret_ok() && self.anchor_ok()),
    {
        let t = self.text.as_str();
        t.is_char_boundary(self.caret) && match self.anchor {
            Some(a) => t.is_char_boundary(a),
            None => true,
        }
    }

    pub fn selection(&self) -> (r: Option<(usize, usize)>)
        ensures
            r == self.selection_spec(),
    {
        let a = match self.anchor {
            Some(a) => a,
            None => return None,
        };
        if a == self.caret {
            return None;
        }
        Some(
            (if a < self.caret {
                a
            } else {
                self.caret
            }, if a < self.caret {
                self.caret
            } else {
                a
            }),
        )
    }

    /// The selected text, when there is a selection.
    pub fn selected_text(&self) -> (r: Option<&str>)
        requires
            self.wf(),
        ensures
            r is Some <==> self.selection_spec() is Some,
            r matches Some(s) ==> s@ == chars_between(
                self.text@,
                self.selection_spec().unwrap().0 as int,
                self.selection_spec().unwrap().1 as int,
            ),
    {
        match self.selection() {
            Some((s, e)) => Some(self.slice(s, e)),
            None => None,
        }
    }

    /// The text between two boundaries.
    fn slice(&self, s: usize, e: usize) -> (r: &str)
        requires
            s <= e,
            boundary(self.text@, s as int),
            boundary(self.text@, e as int),
        ensures
            r@ == chars_between(self.text@, s as int, e as int),
    {
        let t = self.text.as_str();
        let ghost b = encode_utf8(self.text@);
        proof {
            lemma_split_at_boundary(self.text@, e as int);
            lemma_boundary_in_prefix(self.text@, s as int, e as int);
        }
        let (head, _) = t.split_at(e);
        proof {
            assert(head.spec_bytes() =~= b.subrange(0, e as int));
        }
        let (_, mid) = head.split_at(s);
        proof {
            assert(mid.spec_bytes() =~= b.subrange(s as int, e as int));
            assert(mid@ == decode_utf8(encode_utf8(mid@)));
        }
        mid
    }
}


impl TextField {
    pub open spec fn len_spec(&self) -> int {
        encode_utf8(self.text@).len() as int
    }

    /// Text, caret and anchor once the selection (if any) is removed.
    pub open spec fn text_after_delete_selection(&self) -> Seq<char> {
        match self.selection_spec() {
            Some((s, e)) => removed(self.text@, s as int, e as int),
            None => self.text@,
        }
    }

    pub open spec fn caret_after_delete_selection(&self) -> usize {
        match self.selection_spec() {
            Some((s, _)) => s,
            None => self.caret,
        }
    }

    pub open spec fn anchor_after_delete_selection(&self) -> Option<usize> {
        match self.selection_spec() {
            Some(_) => None,
            None => self.anchor,
        }
    }

    fn byte_len(&self) -> (r: usize)
        requires
            self.fits(),
        ensures
            r == encode_utf8(self.text@).len(),
    {
        self.text.as_str().len()
    }

    fn prev_boundary(&self, from: usize) -> (r: usize)
        ensures
            r == boundary_before(self.text@, from as int),
    {
        let t = self.text.as_str();
        let mut i = from;
        while i > 0
            invariant
                t@ == self.text@,
                boundary_before(self.text@, i as int) == boundary_before(self.text@, from as int),
            decreases i,
        {
            i = i - 1;
            if t.is_char_boundary(i) {
                return i;
            }
        }
        0
    }

    fn next_boundary(&self, from: usize) -> (r: usize)
        requires
            self.fits(),
        ensures
            r == boundary_after(self.text@, from as int),
    {
        let t = self.text.as_str();
        let len = self.byte_len();
        let mut i = from;
        while i < len
            invariant
                t@ == self.text@,
                len == encode_utf8(self.text@).len(),
                boundary_after(self.text@, i as int) == boundary_after(self.text@, from as int),
            decreases len - i,
        {
            i = i + 1;
            if t.is_char_boundary(i) {
                return i;
            }
        }
        len
    }

    fn char_before(&self, i: usize) -> (c: char)
        requires
            boundary(self.text@, i as int),
        ensures
            c == char_ending_at(self.text@, i as int),
    {
        let t = self.text.as_str();
        proof {
            lemma_split_at_boundary(self.text@, i as int);
        }
        let (pre, _) = t.split_at(i);
        proof {
            assert(pre.spec_bytes() =~= encode_utf8(self.text@).subrange(0, i as int));
            assert(pre@ == decode_utf8(encode_utf8(pre@)));
        }
        let n = pre.unicode_len();
        if n == 0 {
            '\0'
        } else {
            pre.get_char(n - 1)
        }
    }

    fn char_at(&self, i: usize) -> (c: char)
        requires
            boundary(self.text@, i as int),
        ensures
            c == char_starting_at(self.text@, i as int),
    {
        let t = self.text.as_str();
        proof {
            lemma_split_at_boundary(self.text@, i as int);
        }
        let (_, rest) = t.split_at(i);
        proof {
            let b = encode_utf8(self.text@);
            assert(rest.spec_bytes() =~= b.subrange(i as int, b.len() as int));
            assert(rest@ == decode_utf8(encode_utf8(rest@)));
        }
        if rest.is_empty() {
            '\0'
        } else {
            rest.get_char(0)
        }
    }

    /// Word boundaries treat path separators and punctuation as breaks.
    fn prev_word(&self, from: usize) -> (r: usize)
        requires
            boundary(self.text@, from as int),
        ensures
            r == word_start_before(self.text@, from as int),
            boundary(self.text@, r as int),
    {
        let ghost t = self.text@;
        let mut i = from;
        while i > 0 && !is_word(self.char_before(i))
            invariant
                t == self.text@,
                boundary(t, i as int),
                skip_back(t, i as int, false) == skip_back(t, from as int, false),
            decreases i,
        {
            proof {
                lemma_boundary_before_is_boundary(t, i as int);
                lemma_boundary_before_lt(t, i as int);
            }
            i = self.prev_boundary(i);
        }
        let ghost mid = i;
        while i > 0 && is_word(self.char_before(i))
            invariant
                t == self.text@,
                boundary(t, i as int),
                skip_back(t, i as int, true) == skip_back(t, mid as int, true),
                mid == skip_back(t, from as int, false),
            decreases i,
        {
            proof {
                lemma_boundary_before_is_boundary(t, i as int);
                lemma_boundary_before_lt(t, i as int);
            }
            i = self.prev_boundary(i);
        }
        i
    }

    fn next_word(&self, from: usize) -> (r: usize)
        requires
            self.fits(),
            boundary(self.text@, from as int),
        ensures
            r == word_end_after(self.text@, from as int),
            boundary(self.text@, r as int),
    {
        let ghost t = self.text@;
        let len = self.byte_len();
        let mut i = from;
        proof {
            lemma_split_at_boundary(t, from as int);
        }
        while i < len && !is_word(self.char_at(i))
            invariant
                t == self.text@,
                len == encode_utf8(t).len(),
                i <= len,
                boundary(t, i as int),
                skip_forward(t, i as int, false) == skip_forward(t, from as int, false),
            decreases len - i,
        {
            proof {
                lemma_boundary_after_is_boundary(t, i as int);
                lemma_boundary_after_gt(t, i as int);
            }
            i = self.next_boundary(i);
        }
        let ghost mid = i;
        while i < len && is_word(self.char_at(i))
            invariant
                t == self.text@,
                len == encode_utf8(t).len(),
                i <= len,
                boundary(t, i as int),
                skip_forward(t, i as int, true) == skip_forward(t, mid as int, true),
                mid == skip_forward(t, from as int, false),
            decreases len - i,
        {
            proof {
                lemma_boundary_after_is_boundary(t, i as int);
                lemma_boundary_after_gt(t, i as int);
            }
            i = self.next_boundary(i);
        }
        i
    }

    fn update_anchor(&mut self, select: bool)
        ensures
            final(self).anchor == old(self).anchor_after_move(select),
            final(self).text == old(self).text,
            final(self).caret == old(self).caret,
            final(self).active == old(self).active,
    {
        if select {
            if self.anchor.is_none() {
                self.anchor = Some(self.caret);
            }
        } else {
            self.anchor = None;
        }
    }

    pub fn move_left(&mut self, word: bool, select: bool)
        requires
            word ==> old(self).caret_ok(),
        ensures
            final(self).text == old(self).text,
            final(self).active == old(self).active,
            final(self).anchor == old(self).anchor_after_move(select),
            final(self).caret == (if word {
                word_start_before(old(self).text@, old(self).caret as int)
            } else {
                boundary_before(old(self).text@, old(self).caret as int)
            }),
            old(self).wf() ==> final(self).wf(),
    {
        self.update_anchor(select);
        if !select && self.selection().is_some() {
            // Collapse to selection start like normal editors.
            self.caret = self.selection().unwrap().0;
            self.anchor = None;
            return;
        }
        proof {
            lemma_boundary_before_is_boundary(self.text@, self.caret as int);
        }
        self.caret = if word {
            self.prev_word(self.caret)
        } else {
            self.prev_boundary(self.caret)
        };
    }

    pub fn move_right(&mut self, word: bool, select: bool)
        requires
            old(self).fits(),
            word ==> old(self).caret_ok(),
        ensures
            final(self).text == old(self).text,
            final(self).active == old(self).active,
            final(self).anchor == old(self).anchor_after_move(select),
            final(self).caret == (if word {
                word_end_after(old(self).text@, old(self).caret as int)
            } else {
                boundary_after(old(self).text@, old(self).caret as int)
            }),
            old(self).wf() ==> final(self).wf(),
    {
        self.update_anchor(select);
        if !select && self.selection().is_some() {
            self.caret = self.selection().unwrap().1;
            self.anchor = None;
            return;
        }
        proof {
            lemma_boundary_after_is_boundary(self.text@, self.caret as int);
        }
        self.caret = if word {
            self.next_word(self.caret)
        } else {
            self.next_boundary(self.caret)
        };
    }

    pub fn move_home(&mut self, select: bool)
        ensures
            final(self).text == old(self).text,
            final(self).active == old(self).active,
            final(self).anchor == old(self).anchor_after_move(select),
            final(self).caret == 0,
            old(self).wf() ==> final(self).wf(),
    {
        self.update_anchor(select);
        self.caret = 0;
        proof {
            lemma_ends_are_boundaries(self.text@);
        }
    }

    pub fn move_end(&mut self, select: bool)
        requires
            old(self).fits(),
        ensures
            final(self).text == old(self).text,
            final(self).active == old(self).active,
            final(self).anchor == old(self).anchor_after_move(select),
            final(self).caret == encode_utf8(old(self).text@).len(),
            old(self).wf() ==> final(self).wf(),
    {
        self.update_anchor(select);
        self.caret = self.byte_len();
        proof {
            lemma_ends_are_boundaries(self.text@);
        }
    }

    pub fn select_all(&mut self)
        requires
            old(self).fits(),
        ensures
            final(self).text == old(self).text,
            final(self).active == old(self).active,
            final(self).anchor == Some(0usize),
            final(self).caret == encode_utf8(old(self).text@).len(),
            final(self).wf(),
    {
        self.anchor = Some(0);
        self.caret = self.byte_len();
        proof {
            lemma_ends_are_boundaries(self.text@);
        }
    }

    /// Replace the text with its bytes outside `[from, to)`.
    fn remove_range(&mut self, from: usize, to: usize)
        requires
            old(self).fits(),
            from <= to,
            boundary(old(self).text@, from as int),
            boundary(old(self).text@, to as int),
        ensures
            final(self).text@ == removed(old(self).text@, from as int, to as int),
            encode_utf8(final(self).text@).len() == encode_utf8(old(self).text@).len() - (to - from),
            boundary(final(self).text@, from as int),
            final(self).caret == old(self).caret,
            final(self).anchor == old(self).anchor,
            final(self).active == old(self).active,
    {
        let ghost t = self.text@;
        let ghost b = encode_utf8(t);
        proof {
            lemma_split_at_boundary(t, from as int);
            lemma_split_at_boundary(t, to as int);
        }
        let s = self.text.as_str();
        let (head, _) = s.split_at(from);
        let (_, tail) = s.split_at(to);
        proof {
            assert(head.spec_bytes() =~= b.subrange(0, from as int));
            assert(head@ == decode_utf8(encode_utf8(head@)));
            assert(tail.spec_bytes() =~= b.subrange(to as int, b.len() as int));
            assert(tail@ == decode_utf8(encode_utf8(tail@)));
            lemma_join_pieces(head@, tail@);
        }
        let mut joined = String::from_str(head);
        joined.append(tail);
        self.text = joined;
    }

    /// Insert `s` at the boundary `at`.
    fn insert_at(&mut self, at: usize, s: &str)
        requires
            boundary(old(self).text@, at as int),
            encode_utf8(old(self).text@).len() + encode_utf8(s@).len() <= usize::MAX,
        ensures
            final(self).text@ == inserted(old(self).text@, at as int, s@),
            encode_utf8(final(self).text@).len() == encode_utf8(old(self).text@).len()
                + encode_utf8(s@).len(),
            boundary(final(self).text@, at as int),
            boundary(final(self).text@, at + encode_utf8(s@).len()),
            final(self).caret == old(self).caret,
            final(self).anchor == old(self).anchor,
            final(self).active == old(self).active,
    {
        let ghost t = self.text@;
        let ghost b = encode_utf8(t);
        proof {
            lemma_split_at_boundary(t, at as int);
        }
        let whole = self.text.as_str();
        let (head, tail) = whole.split_at(at);
        proof {
            assert(head.spec_bytes() =~= b.subrange(0, at as int));
            assert(head@ == decode_utf8(encode_utf8(head@)));
            assert(tail.spec_bytes() =~= b.subrange(at as int, b.len() as int));
            assert(tail@ == decode_utf8(encode_utf8(tail@)));
            let h = head@;
            let m = s@;
            let r = tail@;
            assert(h + m + r =~= h + (m + r));
            lemma_join_pieces(h, m + r);
            lemma_join_pieces(h + m, r);
            lemma_encode_concat(h, m);
            lemma_encode_concat(m, r);
        }
        let mut joined = String::from_str(head);
        joined.append(s);
        joined.append(tail);
        self.text = joined;
    }

    /// Remove the selection if any; returns true if something was removed.
    pub fn delete_selection(&mut self) -> (r: bool)
        requires
            old(self).wf(),
        ensures
            r == old(self).selection_spec() is Some,
            final(self).text@ == old(self).text_after_delete_selection(),
            final(self).caret == old(self).caret_after_delete_selection(),
            final(self).anchor == old(self).anchor_after_delete_selection(),
            final(self).active == old(self).active,
            final(self).wf(),
            !r ==> final(self).text == old(self).text,
            encode_utf8(final(self).text@).len() <= encode_utf8(old(self).text@).len(),
    {
        if let Some((s, e)) = self.selection() {
            self.remove_range(s, e);
            self.caret = s;
            self.anchor = None;
            true
        } else {
            false
        }
    }

    pub fn insert(&mut self, s: &str)
        requires
            old(self).wf(),
            encode_utf8(old(self).text@).len() + encode_utf8(s@).len() <= usize::MAX,
        ensures
            final(self).text@ == inserted(
                old(self).text_after_delete_selection(),
                old(self).caret_after_delete_selection() as int,
                s@,
            ),
            final(self).caret == old(self).caret_after_delete_selection() + encode_utf8(s@).len(),
            final(self).anchor == old(self).anchor_after_delete_selection(),
            final(self).active == old(self).active,
            final(self).wf(),
    {
        self.delete_selection();
        let n = s.len();
        self.insert_at(self.caret, s);
        self.caret = self.caret + n;
    }

    pub fn backspace(&mut self, word: bool)
        requires
            old(self).wf(),
        ensures
            old(self).selection_spec() is Some ==> {
                &&& final(self).text@ == old(self).text_after_delete_selection()
                &&& final(self).caret == old(self).caret_after_delete_selection()
                &&& final(self).anchor is None
            },
            old(self).selection_spec() is None ==> {
                let to = if word {
                    word_start_before(old(self).text@, old(self).caret as int)
                } else {
                    boundary_before(old(self).text@, old(self).caret as int)
                };
                &&& final(self).text@ == removed(old(self).text@, to, old(self).caret as int)
                &&& final(self).caret == to
                &&& final(self).anchor is None
            },
            final(self).active == old(self).active,
            final(self).wf(),
    {
        if self.delete_selection() {
            return;
        }
        let ghost t = self.text@;
        proof {
            lemma_boundary_before_is_boundary(t, self.caret as int);
            lemma_boundary_before_lt(t, self.caret as int);
        }
        let to = if word {
            self.prev_word(self.caret)
        } else {
            self.prev_boundary(self.caret)
        };
        proof {
            lemma_skip_back_le(t, self.caret as int);
        }
        self.remove_range(to, self.caret);
        self.caret = to;
        self.anchor = None;
    }

    pub fn delete(&mut self)
        requires
            old(self).wf(),
        ensures
            old(self).selection_spec() is Some ==> {
                &&& final(self).text@ == old(self).text_after_delete_selection()
                &&& final(self).caret == old(self).caret_after_delete_selection()
                &&& final(self).anchor is None
            },
            old(self).selection_spec() is None ==> {
                &&& final(self).text@ == removed(
                    old(self).text@,
                    old(self).caret as int,
                    boundary_after(old(self).text@, old(self).caret as int),
                )
                &&& final(self).caret == old(self).caret
                &&& final(self).anchor == old(self).anchor
            },
            final(self).active == old(self).active,
            final(self).wf(),
    {
        if self.delete_selection() {
            return;
        }
        let ghost t = self.text@;
        proof {
            lemma_boundary_after_is_boundary(t, self.caret as int);
            lemma_boundary_after_gt(t, self.caret as int);
            lemma_split_at_boundary(t, self.caret as int);
        }
        let to = self.next_boundary(self.caret);
        self.remove_range(self.caret, to);
    }
}


/* Laws of the text field */

/// Boundaries of a joined text past the join are the boundaries of the
/// second part, shifted by the length of the first.
pub proof fn lemma_boundary_shift(a: Seq<char>, b: Seq<char>, k: int)
    requires
        k >= 0,
    ensures
        is_char_boundary(encode_utf8(a + b), encode_utf8(a).len() + k) == is_char_boundary(
            encode_utf8(b),
            k,
        ),
    decreases a.len(),
{
    let x = a + b;
    if a.len() == 0 {
        assert(x =~= b);
        assert(encode_utf8(a).len() == 0);
    } else {
        let bytes = encode_utf8(x);
        assert(x[0] == a[0]);
        assert(x.drop_first() =~= a.drop_first() + b);
        vstd::utf8::encode_utf8_first_scalar(x);
        lemma_encode_scalar_len(x[0]);
        assert(bytes =~= encode_scalar(x[0] as u32) + encode_utf8(x.drop_first()));
        assert(pop_first_scalar(bytes) =~= encode_utf8(x.drop_first()));
        lemma_boundary_shift(a.drop_first(), b, k);
        lemma_encode_concat(a, b);
        lemma_encode_concat(a.drop_first(), b);
        assert(encode_utf8(a) =~= encode_scalar(a[0] as u32) + encode_utf8(a.drop_first()));
        let idx = encode_utf8(a).len() + k;
        assert(valid_utf8(bytes));
        assert(is_char_boundary(bytes, idx) == is_char_boundary(
            pop_first_scalar(bytes),
            idx - length_of_first_scalar(bytes),
        ));
    }
}

/// Inside the encoding of a single character there is no boundary.
pub proof fn lemma_no_boundary_inside_char(ch: char, q: Seq<char>, k: int)
    requires
        0 < k < encode_utf8(seq![ch]).len(),
    ensures
        !is_char_boundary(encode_utf8(seq![ch] + q), k),
{
    let r = seq![ch] + q;
    let bytes = encode_utf8(r);
    assert(r[0] == ch);
    assert(r.drop_first() =~= q);
    assert(seq![ch].drop_first() =~= Seq::<char>::empty());
    assert(encode_utf8(Seq::<char>::empty()) =~= Seq::<u8>::empty());
    assert(encode_utf8(seq![ch]) =~= encode_scalar(ch as u32) + encode_utf8(seq![ch].drop_first()));
    assert(encode_utf8(seq![ch]) =~= encode_scalar(ch as u32));
    vstd::utf8::encode_utf8_first_scalar(r);
    assert(valid_utf8(bytes));
    assert(is_char_boundary(bytes, k) == is_char_boundary(
        pop_first_scalar(bytes),
        k - length_of_first_scalar(bytes),
    ));
}

/// A boundary with no boundary between it and `from` is the one before `from`.
pub proof fn lemma_boundary_before_exact(t: Seq<char>, x: int, from: int)
    requires
        0 <= x < from,
        boundary(t, x),
        forall|j: int| x < j < from ==> !boundary(t, j),
    ensures
        boundary_before(t, from) == x,
    decreases from,
{
    if from - 1 > x {
        lemma_boundary_before_exact(t, x, from - 1);
    }
}

/// A boundary with no boundary between `from` and it is the one after `from`.
pub proof fn lemma_boundary_after_exact(t: Seq<char>, from: int, y: int)
    requires
        from < y,
        boundary(t, y),
        forall|j: int| from < j < y ==> !boundary(t, j),
    ensures
        boundary_after(t, from) == y,
    decreases y - from,
{
    lemma_split_at_boundary(t, y);
    if from + 1 < y {
        lemma_boundary_after_exact(t, from + 1, y);
    }
}

/// Backspace undoes the insertion of one character: inserting `ch` at a
/// boundary `c` moves the caret to just after it, the boundary before that
/// caret is `c` again, and removing the bytes between gives the text back as it was.
pub proof fn law_backspace_undoes_char_insert(t: Seq<char>, c: int, ch: char)
    requires
        boundary(t, c),
    ensures
        ({
            let t2 = inserted(t, c, seq![ch]);
            let c2 = c + encode_utf8(seq![ch]).len();
            &&& boundary_before(t2, c2) == c
            &&& removed(t2, c, c2) == t
        }),
{
    let b = encode_utf8(t);
    lemma_split_at_boundary(t, c);
    let p = chars_between(t, 0, c);
    let q = chars_between(t, c, b.len() as int);
    let one = seq![ch];
    let t2 = inserted(t, c, one);
    assert(t2 =~= p + (one + q));
    assert(encode_utf8(p) =~= b.subrange(0, c));
    let w = encode_utf8(one).len() as int;
    assert(encode_utf8(one) =~= encode_scalar(ch as u32) + encode_utf8(one.drop_first()));
    assert(one.drop_first() =~= Seq::<char>::empty());
    lemma_encode_scalar_len(ch);
    // c is a boundary of t2, and nothing inside the new character is one.
    lemma_boundary_shift(p, one + q, 0);
    vstd::utf8::is_char_boundary_start_end_of_seq(encode_utf8(one + q));
    assert forall|j: int| c < j < c + w implies !boundary(t2, j) by {
        lemma_boundary_shift(p, one + q, j - c);
        lemma_no_boundary_inside_char(ch, q, j - c);
    }
    lemma_boundary_before_exact(t2, c, c + w);
    // The pieces around the new character read back as p and q.
    assert(p + one + q =~= (p + one) + q);
    lemma_join_pieces(p + one, q);
    lemma_join_pieces(p, one + q);
    lemma_encode_concat(p, one);
    assert(t2 =~= (p + one) + q);
    assert(removed(t2, c, c + w) =~= p + q);
}

/// Stepping one character left and then one character right returns to the
/// same caret, from any boundary but the start.
pub proof fn law_left_then_right(t: Seq<char>, c: int)
    requires
        boundary(t, c),
        c > 0,
    ensures
        boundary_after(t, boundary_before(t, c)) == c,
{
    lemma_boundary_before_is_boundary(t, c);
    lemma_boundary_before_lt(t, c);
    lemma_boundary_after_exact(t, boundary_before(t, c), c);
}

/// Stepping one character right and then one character left returns to the
/// same caret, from any boundary but the end.
pub proof fn law_right_then_left(t: Seq<char>, c: int)
    requires
        boundary(t, c),
        c < encode_utf8(t).len(),
    ensures
        boundary_before(t, boundary_after(t, c)) == c,
{
    lemma_boundary_after_is_boundary(t, c);
    lemma_boundary_after_gt(t, c);
    lemma_split_at_boundary(t, c);
    lemma_boundary_before_exact(t, c, boundary_after(t, c));
}

/// Selecting everything selects the whole text, and deleting that selection
/// leaves the field empty with the caret at the start.
pub proof fn law_select_all_then_delete(f: TextField)
    requires
        f.wf(),
        encode_utf8(f.text@).len() > 0,
    ensures
        ({
            let g = TextField {
                anchor: Some(0usize),
                caret: encode_utf8(f.text@).len() as usize,
                ..f
            };
            &&& g.selection_spec() == Some((0usize, encode_utf8(f.text@).len() as usize))
            &&& chars_between(f.text@, 0, encode_utf8(f.text@).len() as int) == f.text@
            &&& g.text_after_delete_selection() == Seq::<char>::empty()
            &&& g.caret_after_delete_selection() == 0
        }),
{
    let t = f.text@;
    let n = encode_utf8(t).len() as int;
    lemma_ends_are_boundaries(t);
    lemma_split_at_boundary(t, n);
    lemma_split_at_boundary(t, 0);
    assert(encode_utf8(t).subrange(0, n) =~= encode_utf8(t));
    assert(encode_utf8(t).subrange(0, 0) =~= Seq::<u8>::empty());
    assert(encode_utf8(t).subrange(n, n) =~= Seq::<u8>::empty());
    assert(decode_utf8(Seq::<u8>::empty()) =~= Seq::<char>::empty());
}

/// What a forward skip does: from a boundary `i` it passes exactly the
/// characters that are (`word`) or are not (`!word`) word characters, and
/// stops at the end of the text or before the first character that differs.
pub proof fn lemma_skip_forward_stops(t: Seq<char>, i: int, word: bool)
    requires
        0 <= i <= encode_utf8(t).len(),
        boundary(t, i),
    ensures
        i <= skip_forward(t, i, word) <= encode_utf8(t).len(),
        boundary(t, skip_forward(t, i, word)),
        forall|j: int|
            i <= j < skip_forward(t, i, word) && boundary(t, j) ==> word_char(#[trigger] char_starting_at(t, j))
                == word,
        skip_forward(t, i, word) == encode_utf8(t).len() || word_char(
            char_starting_at(t, skip_forward(t, i, word)),
        ) != word,
        i < encode_utf8(t).len() && word_char(char_starting_at(t, i)) == word ==> skip_forward(t, i, word)
            >= boundary_after(t, i) > i,
    decreases encode_utf8(t).len() - i,
{
    if i < encode_utf8(t).len() && word_char(char_starting_at(t, i)) == word {
        let n = boundary_after(t, i);
        lemma_boundary_after_gt(t, i);
        lemma_boundary_after_is_boundary(t, i);
        lemma_skip_forward_stops(t, n, word);
    }
}

/// What a backward skip does, mirroring `lemma_skip_forward_stops`.
pub proof fn lemma_skip_back_stops(t: Seq<char>, i: int, word: bool)
    requires
        0 <= i <= encode_utf8(t).len(),
        boundary(t, i),
    ensures
        0 <= skip_back(t, i, word) <= i,
        boundary(t, skip_back(t, i, word)),
        forall|j: int|
            skip_back(t, i, word) < j <= i && boundary(t, j) ==> word_char(#[trigger] char_ending_at(t, j))
                == word,
        skip_back(t, i, word) == 0 || word_char(char_ending_at(t, skip_back(t, i, word))) != word,
        i > 0 && word_char(char_ending_at(t, i)) == word ==> skip_back(t, i, word) <= boundary_before(t, i)
            < i,
    decreases i,
{
    if i > 0 && word_char(char_ending_at(t, i)) == word {
        let n = boundary_before(t, i);
        lemma_boundary_before_lt(t, i);
        lemma_boundary_before_is_boundary(t, i);
        lemma_skip_back_stops(t, n, word);
    }
}

/// Ctrl+Right jumps to the end of the next word: from a caret before the
/// end of the text it always moves forward; it first passes the characters
/// that are not word characters (up to `mid`), then the word characters,
/// and lands at the end of the text or before a character that is not a
/// word character.
pub proof fn law_word_right_ends_the_next_word(t: Seq<char>, c: int)
    requires
        0 <= c < encode_utf8(t).len(),
        boundary(t, c),
    ensures
        ({
            let e = word_end_after(t, c);
            &&& c < e <= encode_utf8(t).len()
            &&& boundary(t, e)
            &&& e == encode_utf8(t).len() || !word_char(char_starting_at(t, e))
            &&& exists|mid: int|
                c <= mid <= e && boundary(t, mid) && (forall|j: int|
                    c <= j < mid && boundary(t, j) ==> !word_char(#[trigger] char_starting_at(t, j))) && (forall|
                    j: int,
                |
                    mid <= j < e && boundary(t, j) ==> word_char(#[trigger] char_starting_at(t, j)))
        }),
{
    let mid = skip_forward(t, c, false);
    lemma_skip_forward_stops(t, c, false);
    lemma_skip_forward_stops(t, mid, true);
    let e = skip_forward(t, mid, true);
    assert(e == word_end_after(t, c));
    assert(c < e) by {
        if word_char(char_starting_at(t, c)) {
            assert(mid == c);
        } else {
            assert(mid > c);
        }
    }
    assert(c <= mid <= e && boundary(t, mid) && (forall|j: int|
        c <= j < mid && boundary(t, j) ==> !word_char(#[trigger] char_starting_at(t, j))) && (forall|j: int|
        mid <= j < e && boundary(t, j) ==> word_char(#[trigger] char_starting_at(t, j))));
}

/// Ctrl+Left jumps to the start of the previous word: from a caret after
/// the start of the text it always moves back; it first passes the
/// characters that are not word characters (back to `mid`), then the word
/// characters, and lands at the start of the text or after a character
/// that is not a word character.
pub proof fn law_word_left_starts_the_previous_word(t: Seq<char>, c: int)
    requires
        0 < c <= encode_utf8(t).len(),
        boundary(t, c),
    ensures
        ({
            let s = word_start_before(t, c);
            &&& 0 <= s < c
            &&& boundary(t, s)
            &&& s == 0 || !word_char(char_ending_at(t, s))
            &&& exists|mid: int|
                s <= mid <= c && boundary(t, mid) && (forall|j: int|
                    mid < j <= c && boundary(t, j) ==> !word_char(#[trigger] char_ending_at(t, j))) && (forall|
                    j: int,
                |
                    s < j <= mid && boundary(t, j) ==> word_char(#[trigger] char_ending_at(t, j)))
        }),
{
    let mid = skip_back(t, c, false);
    lemma_skip_back_stops(t, c, false);
    lemma_skip_back_stops(t, mid, true);
    let s = skip_back(t, mid, true);
    assert(s == word_start_before(t, c));
    assert(s < c) by {
        if word_char(char_ending_at(t, c)) {
            assert(mid == c);
        } else {
            assert(mid < c);
        }
    }
    assert(s <= mid <= c && boundary(t, mid) && (forall|j: int|
        mid < j <= c && boundary(t, j) ==> !word_char(#[trigger] char_ending_at(t, j))) && (forall|j: int|
        s < j <= mid && boundary(t, j) ==> word_char(#[trigger] char_ending_at(t, j))));
}

} // verus!
