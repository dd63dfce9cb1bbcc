//! Utilities for working with individual words.

use vstd::prelude::*;
use vstd::multiset::Multiset;
use vstd::utf8::*;
use vstd::string::StringSliceAdditionalSpecFns;
use crate::letter::{is_upper_byte, lett_to_num_0};

verus! {

broadcast use vstd::seq_lib::group_seq_properties;

/// Text that can be read as a sequence of bytes: string slices, strings,
/// byte slices and byte vectors.
///
/// Every accessor exists 0-indexed and 1-indexed; a 1-indexed position `i`
/// reads the byte at 0-indexed position `i - 1`.
pub trait Text {
    /// The bytes of this text.
    spec fn text_bytes(&self) -> Seq<u8>;

    /// Returns this text as a byte slice.
    fn as_bytes(&self) -> (r: &[u8])
        ensures
            r@ == self.text_bytes(),
    ;

    /// Returns the byte at index `idx`.
    fn byte(&self, idx: usize) -> (r: u8)
        requires
            idx < self.text_bytes().len(),
        ensures
            r == self.text_bytes()[idx as int],
    {
        self.as_bytes()[idx]
    }

    /// Returns the character at index `idx`.
    fn char(&self, idx: usize) -> (r: char)
        requires
            idx < self.text_bytes().len(),
        ensures
            r == self.text_bytes()[idx as int] as char,
    {
        self.byte(idx) as char
    }

    /// Returns the byte at index `idx`, or `None` if `idx` is out of bounds.
    fn get_byte(&self, idx: usize) -> (r: Option<u8>)
        ensures
            r == byte_at(self.text_bytes(), idx as int),
    {
        let b = self.as_bytes();
        if idx < b.len() {
            Some(b[idx])
        } else {
            None
        }
    }

    /// Returns the character at index `idx`, or `None` if `idx` is out of bounds.
    fn get_char(&self, idx: usize) -> (r: Option<char>)
        ensures
            r == char_at(self.text_bytes(), idx as int),
    {
        match self.get_byte(idx) {
            Some(b) => Some(b as char),
            None => None,
        }
    }

    /// Tests whether the byte at index `idx` equals `b`; false out of bounds.
    fn byte_eq(&self, idx: usize, b: u8) -> (r: bool)
        ensures
            r == (byte_at(self.text_bytes(), idx as int) == Some(b)),
    {
        match self.get_byte(idx) {
            Some(x) => x == b,
            None => false,
        }
    }

    /// Tests whether the character at index `idx` equals `c`; false out of bounds.
    fn char_eq(&self, idx: usize, c: char) -> (r: bool)
        ensures
            r == (char_at(self.text_bytes(), idx as int) == Some(c)),
    {
        match self.get_char(idx) {
            Some(x) => x == c,
            None => false,
        }
    }

    /// Returns the byte at 1-indexed position `idx`.
    fn byte_1(&self, idx: usize) -> (r: u8)
        requires
            1 <= idx <= self.text_bytes().len(),
        ensures
            r == self.text_bytes()[idx - 1],
    {
        self.byte(idx - 1)
    }

    /// Returns the character at 1-indexed position `idx`.
    fn char_1(&self, idx: usize) -> (r: char)
        requires
            1 <= idx <= self.text_bytes().len(),
        ensures
            r == self.text_bytes()[idx - 1] as char,
    {
        self.char(idx - 1)
    }

    /// Returns the byte at 1-indexed position `idx`, or `None` past the end.
    fn get_byte_1(&self, idx: usize) -> (r: Option<u8>)
        requires
            1 <= idx,
        ensures
            r == byte_at(self.text_bytes(), idx - 1),
    {
        self.get_byte(idx - 1)
    }

    /// Returns the character at 1-indexed position `idx`, or `None` past the end.
    fn get_char_1(&self, idx: usize) -> (r: Option<char>)
        requires
            1 <= idx,
        ensures
            r == char_at(self.text_bytes(), idx - 1),
    {
        self.get_char(idx - 1)
    }

    /// Tests whether the byte at 1-indexed position `idx` equals `b`.
    fn byte_1_eq(&self, idx: usize, b: u8) -> (r: bool)
        requires
            1 <= idx,
        ensures
            r == (byte_at(self.text_bytes(), idx - 1) == Some(b)),
    {
        self.byte_eq(idx - 1, b)
    }

    /// Tests whether the character at 1-indexed position `idx` equals `c`.
    fn char_1_eq(&self, idx: usize, c: char) -> (r: bool)
        requires
            1 <= idx,
        ensures
            r == (char_at(self.text_bytes(), idx - 1) == Some(c)),
    {
        self.char_eq(idx - 1, c)
    }

    /// Copies this text into a byte vector.
    fn to_byte_vec(&self) -> (r: Vec<u8>)
        ensures
            r@ == self.text_bytes(),
    {
        let b = self.as_bytes();
        let mut v: Vec<u8> = Vec::with_capacity(b.len());
        for i in 0..b.len()
            invariant
                b@ == self.text_bytes(),
                v@ == b@.subrange(0, i as int),
        {
            v.push(b[i]);
        }
        v
    }

    /// Copies this text into a string.
    fn text_to_string(&self) -> (r: String)
        requires
            valid_utf8(self.text_bytes()),
        ensures
            r@ == decode_utf8(self.text_bytes()),
    {
        string_from_utf8(self.as_bytes())
    }

    /// The length of this text in bytes.
    fn len(&self) -> (r: usize)
        ensures
            r == self.text_bytes().len(),
    {
        self.as_bytes().len()
    }

    /// Whether this text holds no byte.
    fn is_empty(&self) -> (r: bool)
        ensures
            r == (self.text_bytes().len() == 0),
    {
        self.as_bytes().len() == 0
    }

    /// A copy of this ASCII text with its bytes in reverse order.
    fn reversed(&self) -> (r: String)
        requires
            is_ascii_bytes(self.text_bytes()),
        ensures
            r@ == ascii_chars(self.text_bytes().reverse()),
    {
        let b = self.as_bytes();
        let mut v: Vec<u8> = Vec::with_capacity(b.len());
        let n = b.len();
        for i in 0..n
            invariant
                n == b@.len(),
                b@ == self.text_bytes(),
                v@ == b@.reverse().subrange(0, i as int),
        {
            v.push(b[n - 1 - i]);
        }
        assert(v@ =~= b@.reverse());
        ascii_string(v.as_slice())
    }
}

/// The byte at `idx`, if there is one.
pub open spec fn byte_at(s: Seq<u8>, idx: int) -> Option<u8> {
    if 0 <= idx < s.len() {
        Some(s[idx])
    } else {
        None
    }
}

/// The character for the byte at `idx`, if there is one.
pub open spec fn char_at(s: Seq<u8>, idx: int) -> Option<char> {
    if 0 <= idx < s.len() {
        Some(s[idx] as char)
    } else {
        None
    }
}

/// Every byte is ASCII.
pub open spec fn is_ascii_bytes(s: Seq<u8>) -> bool {
    forall|i: int| 0 <= i < s.len() ==> s[i] < 128
}

/// The characters that ASCII bytes stand for.
pub open spec fn ascii_chars(s: Seq<u8>) -> Seq<char> {
    s.map_values(|b: u8| b as char)
}

/// For ASCII bytes, UTF-8 decoding maps each byte to one character.
pub proof fn lemma_decode_ascii(s: Seq<u8>)
    requires
        is_ascii_bytes(s),
    ensures
        valid_utf8(s),
        decode_utf8(s) == ascii_chars(s),
{
    let c = ascii_chars(s);
    assert(is_ascii_chars(c)) by {
        assert forall|i: int| 0 <= i < c.len() implies '\0' <= #[trigger] c[i] <= '\u{7f}' by {
            assert(s[i] < 128);
        }
    }
    is_ascii_chars_encode_utf8(c);
    assert(encode_utf8(c) =~= s) by {
        assert forall|i: int| 0 <= i < s.len() implies encode_utf8(c)[i] == s[i] by {
            assert(c[i] as u8 == s[i]);
        }
    }
    encode_utf8_valid_utf8(c);
    encode_utf8_decode_utf8(c);
}

/// Relies on `String::from_utf8`: on valid UTF-8 it succeeds with the
/// characters that the bytes encode.
#[verifier::external_body]
fn string_from_utf8(b: &[u8]) -> (r: String)
    requires
        valid_utf8(b@),
    ensures
        r@ == decode_utf8(b@),
{
    String::from_utf8(b.to_vec()).unwrap()
}

/// Builds a string from ASCII bytes.
fn ascii_string(b: &[u8]) -> (r: String)
    requires
        is_ascii_bytes(b@),
    ensures
        r@ == ascii_chars(b@),
{
    proof {
        lemma_decode_ascii(b@);
    }
    string_from_utf8(b)
}

impl Text for str {
    open spec fn text_bytes(&self) -> Seq<u8> {
        self.spec_bytes()
    }

    fn as_bytes(&self) -> (r: &[u8]) {
        str::as_bytes(self)
    }
}

impl Text for String {
    open spec fn text_bytes(&self) -> Seq<u8> {
        encode_utf8(self@)
    }

    fn as_bytes(&self) -> (r: &[u8]) {
        str::as_bytes(self.as_str())
    }
}

impl Text for [u8] {
    open spec fn text_bytes(&self) -> Seq<u8> {
        self@
    }

    fn as_bytes(&self) -> (r: &[u8]) {
        self
    }
}

impl Text for Vec<u8> {
    open spec fn text_bytes(&self) -> Seq<u8> {
        self@
    }

    fn as_bytes(&self) -> (r: &[u8]) {
        self.as_slice()
    }
}

impl<'a, T: Text + ?Sized> Text for &'a T {
    open spec fn text_bytes(&self) -> Seq<u8> {
        (**self).text_bytes()
    }

    fn as_bytes(&self) -> (r: &[u8]) {
        (**self).as_bytes()
    }
}

/// The characters that a slug keeps: `A` to `Z`.
pub open spec fn is_slug_char(c: char) -> bool {
    'A' <= c <= 'Z'
}

/// The slug of a text: its characters `A` to `Z`, in order.
pub open spec fn slug_of(s: Seq<char>) -> Seq<char> {
    s.filter(|c: char| is_slug_char(c))
}

/// The pattern of the characters that a slug drops.
pub const SLUG_DROP_PATTERN: &'static str = "[^A-Z]";

/// Relies on `regex::Regex::new` and `regex::Regex::replace_all` with an
/// empty replacement: for the class `[^A-Z]`, every character other than
/// `A` to `Z` is removed and the others are kept in order.
#[verifier::external_body]
fn regex_remove_all(pattern: &str, s: &str) -> (r: String)
    requires
        pattern@ == SLUG_DROP_PATTERN@,
    ensures
        r@ == slug_of(s@),
{
    regex::Regex::new(pattern).unwrap().replace_all(s, "").into_owned()
}

/// Removes spaces, punctuation and everything else but the letters `A` to
/// `Z` from a string. Lowercase letters are removed too, so use this with
/// uppercase text.
pub fn slugify(s: &str) -> (r: String)
    ensures
        r@ == slug_of(s@),
{
    regex_remove_all(SLUG_DROP_PATTERN, s)
}

/// A sequence whose elements all satisfy a predicate is its own filter.
proof fn lemma_filter_all<A>(s: Seq<A>, p: spec_fn(A) -> bool)
    requires
        forall|i: int| 0 <= i < s.len() ==> p(s[i]),
    ensures
        s.filter(p) == s,
    decreases s.len(),
{
    broadcast use Seq::lemma_filter_push;

    if s.len() > 0 {
        lemma_filter_all(s.drop_last(), p);
        assert(s.drop_last().push(s.last()) =~= s);
    }
}

/// A slug holds only the letters `A` to `Z`, and slugifying a slug leaves it
/// unchanged.
pub proof fn lemma_slug_upper_idempotent(s: Seq<char>)
    ensures
        forall|i: int| 0 <= i < slug_of(s).len() ==> is_slug_char(#[trigger] slug_of(s)[i]),
        slug_of(slug_of(s)) == slug_of(s),
{
    broadcast use vstd::seq_lib::group_filter_ensures;

    let p = |c: char| is_slug_char(c);
    lemma_filter_all(slug_of(s), p);
}

/// ASCII letters, uppercase or lowercase.
pub open spec fn is_ascii_alpha(b: u8) -> bool {
    ('A' as u8 <= b <= 'Z' as u8) || ('a' as u8 <= b <= 'z' as u8)
}

/// The ASCII letters of a byte sequence, in order.
pub open spec fn ascii_letters(s: Seq<u8>) -> Seq<u8> {
    s.filter(|b: u8| is_ascii_alpha(b))
}

/// Returns the number of ASCII letters in a text.
pub fn slug_len<S: Text>(s: S) -> (r: usize)
    ensures
        r == ascii_letters(s.text_bytes()).len(),
{
    broadcast use Seq::lemma_filter_push;

    let b = s.as_bytes();
    let mut count: usize = 0;
    for i in 0..b.len()
        invariant
            b@ == s.text_bytes(),
            count == ascii_letters(b@.subrange(0, i as int)).len(),
            count <= i,
    {
        let c = b[i];
        proof {
            let pre = b@.subrange(0, i as int);
            assert(b@.subrange(0, i + 1) =~= pre.push(c));
            pre.lemma_filter_push(c, |b: u8| is_ascii_alpha(b));
            assert(ascii_letters(pre.push(c)) == if is_ascii_alpha(c) {
                ascii_letters(pre).push(c)
            } else {
                ascii_letters(pre)
            });
        }
        if ('A' as u8 <= c && c <= 'Z' as u8) || ('a' as u8 <= c && c <= 'z' as u8) {
            count += 1;
        }
    }
    assert(b@.subrange(0, b@.len() as int) =~= b@);
    count
}

/// Every byte is an uppercase letter `A` to `Z`.
pub open spec fn is_upper_text(s: Seq<u8>) -> bool {
    forall|i: int| 0 <= i < s.len() ==> is_upper_byte(#[trigger] s[i])
}

/// `s` is obtained from `t` by deleting some of its letters.
pub open spec fn is_subsequence(s: Seq<u8>, t: Seq<u8>) -> bool
    decreases t.len(),
{
    if s.len() == 0 {
        true
    } else if t.len() == 0 {
        false
    } else if s[0] == t[0] {
        is_subsequence(s.drop_first(), t.drop_first())
    } else {
        is_subsequence(s, t.drop_first())
    }
}

proof fn lemma_subsequence_len(s: Seq<u8>, t: Seq<u8>)
    requires
        is_subsequence(s, t),
    ensures
        s.len() <= t.len(),
    decreases t.len(),
{
    if s.len() > 0 && t.len() > 0 {
        if s[0] == t[0] {
            lemma_subsequence_len(s.drop_first(), t.drop_first());
        } else {
            lemma_subsequence_len(s, t.drop_first());
        }
    }
}

/// Returns `true` if the second word is obtained from the first word by
/// adding `additions` letters (at any places in the word).
pub fn is_addition<S: Text, T: Text>(s: S, t: T, additions: u8) -> (r: bool)
    ensures
        r == (t.text_bytes().len() == s.text_bytes().len() + additions && is_subsequence(
            s.text_bytes(),
            t.text_bytes(),
        )),
{
    let a = s.as_bytes();
    let b = t.as_bytes();
    if b.len() < a.len() || b.len() - a.len() != additions as usize {
        return false;
    }
    let mut left = additions;
    let mut i: usize = 0;
    assert(a@.subrange(0, a@.len() as int) =~= a@);
    assert(b@.subrange(0, b@.len() as int) =~= b@);
    for j in 0..b.len()
        invariant
            a@ == s.text_bytes(),
            b@ == t.text_bytes(),
            b@.len() == a@.len() + additions,
            i <= a@.len(),
            i <= j,
            left == additions - (j - i),
            is_subsequence(a@, b@) == is_subsequence(
                a@.subrange(i as int, a@.len() as int),
                b@.subrange(j as int, b@.len() as int),
            ),
    {
        let ghost sa = a@.subrange(i as int, a@.len() as int);
        let ghost sb = b@.subrange(j as int, b@.len() as int);
        proof {
            assert(sb.drop_first() =~= b@.subrange(j + 1, b@.len() as int));
            assert(i < a@.len() ==> sa.drop_first() =~= a@.subrange(i + 1, a@.len() as int));
        }
        if i < a.len() && a[i] == b[j] {
            i += 1;
        } else {
            if left == 0 {
                proof {
                    if is_subsequence(sa, sb) {
                        lemma_subsequence_len(sa, sb.drop_first());
                    }
                }
                return false;
            }
            left -= 1;
        }
    }
    proof {
        let sa = a@.subrange(i as int, a@.len() as int);
        let sb = b@.subrange(b@.len() as int, b@.len() as int);
        assert(sb.len() == 0);
    }
    left == 0
}

/// Returns `true` if all letters in a word are different.
pub fn all_unique_letters<S: Text>(s: S) -> (r: bool)
    requires
        is_upper_text(s.text_bytes()),
    ensures
        r == s.text_bytes().no_duplicates(),
{
    let b = s.as_bytes();
    let mut seen: Vec<bool> = vec![false; 26];
    for i in 0..b.len()
        invariant
            b@ == s.text_bytes(),
            is_upper_text(b@),
            seen@.len() == 26,
            b@.subrange(0, i as int).no_duplicates(),
            forall|l: int|
                0 <= l < 26 ==> (#[trigger] seen@[l] <==> exists|k: int|
                    0 <= k < i && b@[k] - ('A' as u8) == l),
    {
        let idx = lett_to_num_0(b[i]);
        assert(is_upper_byte(b@[i as int]));
        if seen[idx] {
            proof {
                let k = choose|k: int| 0 <= k < i && b@[k] - ('A' as u8) == idx;
                let p = b@.subrange(0, b@.len() as int);
                assert(p[k] == p[i as int]);
                assert(p =~= b@);
            }
            return false;
        }
        seen.set(idx, true);
        proof {
            let p = b@.subrange(0, i + 1);
            assert forall|x: int, y: int| 0 <= x < p.len() && 0 <= y < p.len() && x != y implies p[x]
                != p[y] by {
                assert(b@.subrange(0, i as int)[x] == p[x] || x == i);
            }
        }
    }
    assert(b@.subrange(0, b@.len() as int) =~= b@);
    true
}

/// Returns the number of distinct letters in a word.
pub fn num_unique_letters<S: Text>(s: S) -> (r: usize)
    requires
        is_upper_text(s.text_bytes()),
    ensures
        r == s.text_bytes().to_set().len(),
{
    let b = s.as_bytes();
    let mut seen: Vec<bool> = vec![false; 26];
    let mut count: usize = 0;
    assert(b@.subrange(0, 0).to_set() =~= Set::<u8>::empty());
    for i in 0..b.len()
        invariant
            b@ == s.text_bytes(),
            is_upper_text(b@),
            seen@.len() == 26,
            count == b@.subrange(0, i as int).to_set().len(),
            count <= i,
            forall|l: int|
                0 <= l < 26 ==> (#[trigger] seen@[l] <==> b@.subrange(0, i as int).contains(
                    (l + 'A' as u8) as u8,
                )),
    {
        let c = b[i];
        let idx = lett_to_num_0(c);
        assert(is_upper_byte(b@[i as int]));
        let ghost pre = b@.subrange(0, i as int);
        proof {
            assert(b@.subrange(0, i + 1) =~= pre.push(c));
            assert(pre.push(c).to_set() =~= pre.to_set().insert(c));
            pre.lemma_cardinality_of_set();
            assert(((idx + 'A' as u8) as u8) == c);
            assert(seen@[idx as int] == pre.to_set().contains(c));
        }
        if !seen[idx] {
            seen.set(idx, true);
            count += 1;
        }
        proof {
            assert forall|l: int| 0 <= l < 26 implies (#[trigger] seen@[l] <==> pre.push(c).contains(
                (l + 'A' as u8) as u8,
            )) by {
                if pre.push(c).contains((l + 'A' as u8) as u8) {
                    let k = choose|k: int| 0 <= k < pre.len() + 1 && pre.push(c)[k] == (l + 'A' as u8) as u8;
                    if k < pre.len() {
                        assert(pre.contains((l + 'A' as u8) as u8));
                    }
                }
                if pre.contains((l + 'A' as u8) as u8) {
                    let k = choose|k: int| 0 <= k < pre.len() && pre[k] == (l + 'A' as u8) as u8;
                    assert(pre.push(c)[k] == pre[k]);
                }
            }
        }
    }
    assert(b@.subrange(0, b@.len() as int) =~= b@);
    count
}

/// The positions where `marks` holds are exactly those of the non-empty
/// block from `start` to `end` (excluded).
pub open spec fn is_single_block(marks: Seq<bool>, start: int, end: int) -> bool {
    &&& 0 <= start < end <= marks.len()
    &&& forall|i: int| 0 <= i < marks.len() ==> (#[trigger] marks[i] <==> start <= i < end)
}

/// Two marked positions with an unmarked one between them.
pub open spec fn has_gap(marks: Seq<bool>) -> bool {
    exists|i: int, j: int, k: int|
        0 <= i < j < k < marks.len() && #[trigger] marks[i] && !#[trigger] marks[j]
            && #[trigger] marks[k]
}

/// `pred` may answer `marks[i]` for the `i`-th byte of `s`, for each of the
/// first `marks.len()` bytes.
pub open spec fn marks_of<F: Fn(u8) -> bool>(pred: F, s: Seq<u8>, marks: Seq<bool>) -> bool {
    &&& marks.len() <= s.len()
    &&& forall|i: int| 0 <= i < marks.len() ==> #[trigger] pred.ensures((s[i],), marks[i])
}

/// If the letters of `s` that satisfy `pred` form a single block, returns
/// the location of that block. Otherwise returns `None`: no letter
/// satisfies `pred`, or two that do are parted by one that does not.
pub fn special_letter_block<S: Text, F: Fn(u8) -> bool>(s: S, pred: F) -> (r: Option<
    std::ops::Range<usize>,
>)
    requires
        forall|b: u8| #[trigger] pred.requires((b,)),
    ensures
        exists|marks: Seq<bool>|
            #![trigger marks_of(pred, s.text_bytes(), marks)]
            {
                &&& marks_of(pred, s.text_bytes(), marks)
                &&& match r {
                    Some(range) => marks.len() == s.text_bytes().len() && is_single_block(
                        marks,
                        range.start as int,
                        range.end as int,
                    ),
                    None => (marks.len() == s.text_bytes().len() && forall|i: int|
                        0 <= i < marks.len() ==> !#[trigger] marks[i]) || has_gap(marks),
                }
            },
{
    let b = s.as_bytes();
    let mut start: Option<usize> = None;
    let mut end: Option<usize> = None;
    let ghost mut marks: Seq<bool> = Seq::empty();
    for n in 0..b.len()
        invariant
            b@ == s.text_bytes(),
            forall|b: u8| #[trigger] pred.requires((b,)),
            marks.len() == n,
            marks_of(pred, b@, marks),
            match start {
                None => end is None && forall|i: int| 0 <= i < n ==> !#[trigger] marks[i],
                Some(st) => st < n && marks[st as int] && (forall|i: int|
                    0 <= i < st ==> !#[trigger] marks[i]) && match end {
                    None => forall|i: int| st <= i < n ==> #[trigger] marks[i],
                    Some(en) => st < en < n && (forall|i: int|
                        st <= i < en ==> #[trigger] marks[i]) && (forall|i: int|
                        en <= i < n ==> !#[trigger] marks[i]),
                },
            },
    {
        let c = b[n];
        let m = pred(c);
        let ghost old_marks = marks;
        proof {
            marks = marks.push(m);
            assert forall|i: int| 0 <= i < n + 1 implies #[trigger] pred.ensures(
                (b@[i],),
                marks[i],
            ) by {
                if i < n {
                    assert(marks[i] == old_marks[i]);
                }
            }
            assert forall|i: int| 0 <= i < n implies #[trigger] marks[i] == old_marks[i] by {}
        }
        if m {
            if start.is_none() {
                start = Some(n);
            } else if end.is_some() {
                proof {
                    let s0 = start.unwrap() as int;
                    let e0 = end.unwrap() as int;
                    assert(old_marks[s0] && !old_marks[e0]);
                    assert(marks[s0] && !marks[e0] && marks[n as int]);
                    assert(has_gap(marks));
                    assert(marks_of(pred, s.text_bytes(), marks));
                }
                return None;
            }
        } else if start.is_some() && end.is_none() {
            end = Some(n);
        }
    }
    assert(marks_of(pred, s.text_bytes(), marks));
    match start {
        Some(st) => {
            let en = match end {
                Some(e) => e,
                None => b.len(),
            };
            assert(is_single_block(marks, st as int, en as int));
            let range = st..en;
            assert(range.start == st && range.end == en);
            Some(range)
        },
        None => {
            assert(marks.len() == s.text_bytes().len());
            assert(forall|i: int| 0 <= i < marks.len() ==> !#[trigger] marks[i]);
            None
        },
    }
}

/// Bytes in ascending order.
pub open spec fn is_sorted_bytes(s: Seq<u8>) -> bool {
    forall|i: int, j: int| 0 <= i < j < s.len() ==> s[i] <= s[j]
}

/// Relies on `slice::sort_unstable`: the same bytes, in ascending order.
#[verifier::external_body]
fn sort_bytes(v: &mut Vec<u8>)
    ensures
        final(v)@.to_multiset() == old(v)@.to_multiset(),
        is_sorted_bytes(final(v)@),
{
    v.sort_unstable();
}

/// Returns the letters of the word in sorted order, so that two words have
/// the same alphagram if and only if they are anagrams.
pub fn alphagram<S: Text>(s: S) -> (r: String)
    requires
        is_ascii_bytes(s.text_bytes()),
    ensures
        exists|g: Seq<u8>|
            #![trigger ascii_chars(g)]
            {
                &&& g.to_multiset() == s.text_bytes().to_multiset()
                &&& is_sorted_bytes(g)
                &&& r@ == ascii_chars(g)
            },
{
    broadcast use vstd::multiset::group_multiset_axioms;

    let mut v = s.to_byte_vec();
    sort_bytes(&mut v);
    proof {
        assert forall|i: int| 0 <= i < v@.len() implies v@[i] < 128 by {
            assert(v@.to_multiset().count(v@[i]) > 0);
            assert(s.text_bytes().contains(v@[i]));
        }
    }
    ascii_string(v.as_slice())
}

/// Returns the number of letters in `s` that are not in `t`, and the
/// number of letters in `t` that are not in `s`, counting repeated letters
/// as often as they occur.
pub fn anagram_difference<S: Text, T: Text>(s: S, t: T) -> (r: (usize, usize))
    ensures
        r.0 == s.text_bytes().to_multiset().sub(t.text_bytes().to_multiset()).len(),
        r.1 == t.text_bytes().to_multiset().sub(s.text_bytes().to_multiset()).len(),
{
    broadcast use vstd::multiset::group_multiset_axioms;

    let mut a = s.to_byte_vec();
    sort_bytes(&mut a);
    let mut b = t.to_byte_vec();
    sort_bytes(&mut b);
    let ghost ma = a@.to_multiset();
    let ghost mb = b@.to_multiset();
    let mut i: usize = 0;
    let mut j: usize = 0;
    let mut uniq_s: usize = 0;
    let mut uniq_t: usize = 0;
    proof {
        assert(a@.subrange(0, a@.len() as int) =~= a@);
        assert(b@.subrange(0, b@.len() as int) =~= b@);
    }
    while i < a.len() && j < b.len()
        invariant
            is_sorted_bytes(a@),
            is_sorted_bytes(b@),
            ma == a@.to_multiset(),
            mb == b@.to_multiset(),
            i <= a@.len(),
            j <= b@.len(),
            uniq_s <= i,
            uniq_t <= j,
            uniq_s + rest(a@, i as int).sub(rest(b@, j as int)).len() == ma.sub(mb).len(),
            uniq_t + rest(b@, j as int).sub(rest(a@, i as int)).len() == mb.sub(ma).len(),
        decreases a@.len() - i + b@.len() - j,
    {
        let ghost ra = rest(a@, i as int);
        let ghost rb = rest(b@, j as int);
        proof {
            lemma_rest_step(a@, i as int);
            lemma_rest_step(b@, j as int);
        }
        if a[i] < b[j] {
            proof {
                lemma_sorted_rest_lacks(b@, j as int, a@[i as int]);
                lemma_sub_insert_absent(rest(a@, i + 1), rb, a@[i as int]);
            }
            uniq_s += 1;
            i += 1;
        } else if a[i] == b[j] {
            proof {
                lemma_sub_insert_both(rest(a@, i + 1), rest(b@, j + 1), a@[i as int]);
                lemma_sub_insert_both(rest(b@, j + 1), rest(a@, i + 1), a@[i as int]);
            }
            i += 1;
            j += 1;
        } else {
            proof {
                lemma_sorted_rest_lacks(a@, i as int, b@[j as int]);
                lemma_sub_insert_absent(rest(b@, j + 1), ra, b@[j as int]);
            }
            uniq_t += 1;
            j += 1;
        }
    }
    proof {
        let ra = rest(a@, i as int);
        let rb = rest(b@, j as int);
        lemma_rest_len(a@, i as int);
        lemma_rest_len(b@, j as int);
        if i == a@.len() {
            assert(ra =~= Multiset::empty());
            assert(ra.sub(rb) =~= Multiset::empty());
            assert(rb.sub(ra) =~= rb);
        } else {
            assert(rb =~= Multiset::empty());
            assert(rb.sub(ra) =~= Multiset::empty());
            assert(ra.sub(rb) =~= ra);
        }
    }
    uniq_s += a.len() - i;
    uniq_t += b.len() - j;
    (uniq_s, uniq_t)
}

/// The multiset of the bytes of `s` from position `i` on.
pub open spec fn rest(s: Seq<u8>, i: int) -> Multiset<u8> {
    s.subrange(i, s.len() as int).to_multiset()
}

proof fn lemma_rest_step(s: Seq<u8>, i: int)
    requires
        0 <= i < s.len(),
    ensures
        rest(s, i) == rest(s, i + 1).insert(s[i]),
{
    broadcast use vstd::seq_lib::group_to_multiset_ensures;

    let tail = s.subrange(i + 1, s.len() as int);
    assert(s.subrange(i, s.len() as int) =~= seq![s[i]] + tail);
    vstd::seq_lib::lemma_multiset_commutative(seq![s[i]], tail);
    assert(seq![s[i]] =~= Seq::<u8>::empty().push(s[i]));
    assert(Seq::<u8>::empty().to_multiset() =~= Multiset::empty()) by {
        broadcast use vstd::multiset::group_multiset_axioms;
    }
    broadcast use vstd::multiset::group_multiset_axioms;
    assert(rest(s, i) =~= rest(s, i + 1).insert(s[i]));
}

proof fn lemma_rest_len(s: Seq<u8>, i: int)
    requires
        0 <= i <= s.len(),
    ensures
        rest(s, i).len() == s.len() - i,
{
    broadcast use vstd::seq_lib::group_to_multiset_ensures;

    assert(s.subrange(i, s.len() as int).len() == s.len() - i);
}

proof fn lemma_sorted_rest_lacks(s: Seq<u8>, i: int, x: u8)
    requires
        is_sorted_bytes(s),
        0 <= i < s.len(),
        x < s[i],
    ensures
        rest(s, i).count(x) == 0,
{
    broadcast use vstd::seq_lib::group_to_multiset_ensures;

    let tail = s.subrange(i, s.len() as int);
    assert(!tail.contains(x)) by {
        assert forall|k: int| 0 <= k < tail.len() implies tail[k] != x by {
            assert(tail[k] == s[i + k]);
        }
    }
}

proof fn lemma_sub_insert_absent(a: Multiset<u8>, b: Multiset<u8>, x: u8)
    requires
        b.count(x) == 0,
    ensures
        a.insert(x).sub(b).len() == a.sub(b).len() + 1,
        b.sub(a.insert(x)) == b.sub(a),
{
    broadcast use vstd::multiset::group_multiset_axioms;

    assert(a.insert(x).sub(b) =~= a.sub(b).insert(x));
    assert(b.sub(a.insert(x)) =~= b.sub(a));
}

proof fn lemma_sub_insert_both(a: Multiset<u8>, b: Multiset<u8>, x: u8)
    ensures
        a.insert(x).sub(b.insert(x)) == a.sub(b),
{
    broadcast use vstd::multiset::group_multiset_axioms;

    assert(a.insert(x).sub(b.insert(x)) =~= a.sub(b));
}

/// The index of the bigram `(x, y)` of uppercase letters among all 676.
pub open spec fn bigram_index(x: u8, y: u8) -> int {
    26 * (x - 'A' as u8) + (y - 'A' as u8)
}

proof fn lemma_bigram_index(x1: u8, y1: u8, x2: u8, y2: u8)
    requires
        is_upper_byte(x1),
        is_upper_byte(y1),
        is_upper_byte(x2),
        is_upper_byte(y2),
    ensures
        0 <= bigram_index(x1, y1) < 676,
        bigram_index(x1, y1) == bigram_index(x2, y2) ==> x1 == x2 && y1 == y2,
{
    let a1 = x1 - 65;
    let b1 = y1 - 65;
    let a2 = x2 - 65;
    let b2 = y2 - 65;
    assert(26 * a1 + b1 == 26 * a2 + b2 && 0 <= b1 < 26 && 0 <= b2 < 26 && 0 <= a1 < 26 && 0
        <= a2 < 26 ==> a1 == a2 && b1 == b2) by (nonlinear_arith);
    assert(0 <= a1 < 26 && 0 <= b1 < 26 ==> 0 <= 26 * a1 + b1 < 676) by (nonlinear_arith);
}

/// The bigram at position `i` occurred at some earlier position.
pub open spec fn bigram_seen_before(s: Seq<u8>, i: int) -> bool {
    exists|k: int| 0 <= k < i && #[trigger] s[k] == s[i] && s[k + 1] == s[i + 1]
}

/// The bigrams that repeat an earlier one, among those starting before `n`.
pub open spec fn repeats_before(s: Seq<u8>, n: int) -> Seq<(u8, u8)>
    decreases n,
{
    if n <= 0 {
        Seq::empty()
    } else if bigram_seen_before(s, n - 1) {
        repeats_before(s, n - 1).push((s[n - 1], s[n]))
    } else {
        repeats_before(s, n - 1)
    }
}

/// Returns the bigrams that appear more than once in a word: a bigram that
/// appears `n` times is listed `n - 1` times, at its repeated positions.
pub fn repeated_bigrams<S: Text>(s: S) -> (r: Vec<[u8; 2]>)
    requires
        is_upper_text(s.text_bytes()),
    ensures
        r@.len() == repeats_before(s.text_bytes(), s.text_bytes().len() - 1).len(),
        forall|k: int|
            0 <= k < r@.len() ==> (#[trigger] r@[k])[0] == repeats_before(
                s.text_bytes(),
                s.text_bytes().len() - 1,
            )[k].0 && r@[k][1] == repeats_before(s.text_bytes(), s.text_bytes().len() - 1)[k].1,
{
    let b = s.as_bytes();
    let mut seen: Vec<bool> = vec![false; 676];
    let mut repeated: Vec<[u8; 2]> = Vec::new();
    if b.len() < 2 {
        return repeated;
    }
    let n = b.len() - 1;
    for i in 0..n
        invariant
            n == b@.len() - 1,
            b@ == s.text_bytes(),
            is_upper_text(b@),
            seen@.len() == 676,
            forall|k: int|
                0 <= k < 676 ==> (#[trigger] seen@[k] <==> exists|j: int|
                    0 <= j < i && #[trigger] bigram_index(b@[j], b@[j + 1]) == k),
            repeated@.len() == repeats_before(b@, i as int).len(),
            forall|k: int|
                0 <= k < repeated@.len() ==> (#[trigger] repeated@[k])[0] == repeats_before(
                    b@,
                    i as int,
                )[k].0 && repeated@[k][1] == repeats_before(b@, i as int)[k].1,
    {
        let x = b[i];
        let y = b[i + 1];
        proof {
            assert(is_upper_byte(b@[i as int]) && is_upper_byte(b@[i + 1]));
            lemma_bigram_index(x, y, x, y);
            assert forall|j: int| 0 <= j < i implies (#[trigger] bigram_index(b@[j], b@[j + 1])
                == bigram_index(x, y) <==> b@[j] == x && b@[j + 1] == y) by {
                assert(is_upper_byte(b@[j]) && is_upper_byte(b@[j + 1]));
                lemma_bigram_index(b@[j], b@[j + 1], x, y);
            }
        }
        let idx = 26 * lett_to_num_0(x) + lett_to_num_0(y);
        if seen[idx] {
            repeated.push([x, y]);
        }
        seen.set(idx, true);
    }
    repeated
}

/// The letters that appear twice in a row, among the pairs starting
/// before `n`, once per such pair.
pub open spec fn doubles_before(s: Seq<u8>, n: int) -> Seq<u8>
    decreases n,
{
    if n <= 0 {
        Seq::empty()
    } else if s[n - 1] == s[n] {
        doubles_before(s, n - 1).push(s[n - 1])
    } else {
        doubles_before(s, n - 1)
    }
}

/// Returns the letters that appear twice consecutively in a word, in order.
pub fn double_letters<S: Text>(s: S) -> (r: String)
    requires
        is_ascii_bytes(s.text_bytes()),
    ensures
        r@ == ascii_chars(doubles_before(s.text_bytes(), s.text_bytes().len() - 1)),
{
    let b = s.as_bytes();
    let mut v: Vec<u8> = Vec::new();
    if b.len() >= 2 {
        let n = b.len() - 1;
        for i in 0..n
            invariant
                n == b@.len() - 1,
                b@ == s.text_bytes(),
                v@ == doubles_before(b@, i as int),
                is_ascii_bytes(v@),
                is_ascii_bytes(b@),
        {
            if b[i] == b[i + 1] {
                v.push(b[i]);
            }
        }
    }
    ascii_string(v.as_slice())
}

/// A word with one of its letters deleted: the word and the position of
/// the deleted letter.
pub struct DeletedLetterItem<S: Text + Copy> {
    text: S,
    pos: usize,
}

impl<S: Text + Copy> DeletedLetterItem<S> {
    #[verifier::type_invariant]
    closed spec fn position_in_text(self) -> bool {
        self.pos < self.text.text_bytes().len()
    }

    /// The word before the deletion.
    pub closed spec fn whole_word(self) -> S {
        self.text
    }

    /// The position of the deleted letter.
    pub closed spec fn deleted_at(self) -> nat {
        self.pos as nat
    }

    /// The word before the deletion.
    pub fn original_text(&self) -> (r: S)
        ensures
            r == self.whole_word(),
    {
        self.text
    }

    /// The position of the deleted letter.
    pub fn position(&self) -> (r: usize)
        ensures
            r == self.deleted_at(),
            r < self.whole_word().text_bytes().len(),
    {
        proof {
            use_type_invariant(self);
        }
        self.pos
    }

    /// The deleted letter.
    pub fn deleted_char(&self) -> (r: char)
        ensures
            r == self.whole_word().text_bytes()[self.deleted_at() as int] as char,
    {
        proof {
            use_type_invariant(self);
        }
        self.text.char(self.pos)
    }

    /// The word after the deletion.
    pub fn text(&self) -> (r: String)
        requires
            is_ascii_bytes(self.whole_word().text_bytes()),
        ensures
            r@ == ascii_chars(self.whole_word().text_bytes().remove(self.deleted_at() as int)),
    {
        proof {
            use_type_invariant(self);
        }
        let b = self.text.as_bytes();
        let mut v: Vec<u8> = Vec::with_capacity(b.len());
        for i in 0..b.len()
            invariant
                b@ == self.text.text_bytes(),
                self.pos < b@.len(),
                is_ascii_bytes(b@),
                v@ == (if i <= self.pos {
                    b@.subrange(0, i as int)
                } else {
                    b@.subrange(0, i as int).remove(self.pos as int)
                }),
        {
            if i != self.pos {
                v.push(b[i]);
            }
            proof {
                if i < self.pos {
                    assert(v@ =~= b@.subrange(0, i + 1));
                } else {
                    assert(v@ =~= b@.subrange(0, i + 1).remove(self.pos as int));
                }
            }
        }
        proof {
            assert(b@.subrange(0, b@.len() as int) =~= b@);
            assert forall|k: int| 0 <= k < v@.len() implies v@[k] < 128 by {
                if k < self.pos {
                    assert(v@[k] == b@[k]);
                } else {
                    assert(v@[k] == b@[k + 1]);
                }
            }
        }
        ascii_string(v.as_slice())
    }
}

/// Returns the word `s` with a single letter missing, once for each of its
/// positions, in order.
pub fn deleted_letter_iter<S: Text + Copy>(s: S) -> (r: Vec<DeletedLetterItem<S>>)
    ensures
        r@.len() == s.text_bytes().len(),
        forall|i: int|
            0 <= i < r@.len() ==> (#[trigger] r@[i]).whole_word() == s && r@[i].deleted_at() == i,
{
    let n = s.len();
    let mut v: Vec<DeletedLetterItem<S>> = Vec::with_capacity(n);
    for i in 0..n
        invariant
            n == s.text_bytes().len(),
            v@.len() == i,
            forall|k: int|
                0 <= k < i ==> (#[trigger] v@[k]).whole_word() == s && v@[k].deleted_at() == k,
    {
        v.push(DeletedLetterItem { text: s, pos: i });
    }
    v
}

/// `s` is made by intertwining `p1` and `p2`: it takes each letter in turn
/// from the front of one of them, keeping the order within each.
pub open spec fn interleaves(s: Seq<u8>, p1: Seq<u8>, p2: Seq<u8>) -> bool
    decreases s.len(),
{
    if s.len() == 0 {
        true
    } else {
        (p1.len() > 0 && s[0] == p1[0] && interleaves(s.drop_first(), p1.drop_first(), p2)) || (
        p2.len() > 0 && s[0] == p2[0] && interleaves(s.drop_first(), p1, p2.drop_first()))
    }
}

/// Returns true if `s` can be constructed by intertwining `pat1` and `pat2`.
pub fn is_intertwine<S: Text, T: Text, U: Text>(s: S, pat1: T, pat2: U) -> (r: bool)
    ensures
        r == (s.text_bytes().len() == pat1.text_bytes().len() + pat2.text_bytes().len()
            && interleaves(s.text_bytes(), pat1.text_bytes(), pat2.text_bytes())),
{
    let a = s.as_bytes();
    let b = pat1.as_bytes();
    let c = pat2.as_bytes();
    if b.len() > a.len() || a.len() - b.len() != c.len() {
        return false;
    }
    proof {
        assert(a@.subrange(0, a@.len() as int) =~= a@);
        assert(b@.subrange(0, b@.len() as int) =~= b@);
        assert(c@.subrange(0, c@.len() as int) =~= c@);
    }
    is_intertwine_helper(a, 0, b, 0, c, 0)
}

/// Whether `s` from `i` on intertwines `pat1` from `j` on and `pat2` from
/// `k` on.
fn is_intertwine_helper(s: &[u8], i: usize, pat1: &[u8], j: usize, pat2: &[u8], k: usize) -> (r:
    bool)
    requires
        i <= s@.len(),
        j <= pat1@.len(),
        k <= pat2@.len(),
    ensures
        r == interleaves(
            s@.subrange(i as int, s@.len() as int),
            pat1@.subrange(j as int, pat1@.len() as int),
            pat2@.subrange(k as int, pat2@.len() as int),
        ),
    decreases s@.len() - i,
{
    let ghost ss = s@.subrange(i as int, s@.len() as int);
    let ghost p1 = pat1@.subrange(j as int, pat1@.len() as int);
    let ghost p2 = pat2@.subrange(k as int, pat2@.len() as int);
    if i == s.len() {
        return true;
    }
    proof {
        assert(ss.drop_first() =~= s@.subrange(i + 1, s@.len() as int));
        if j < pat1@.len() {
            assert(p1.drop_first() =~= pat1@.subrange(j + 1, pat1@.len() as int));
        }
        if k < pat2@.len() {
            assert(p2.drop_first() =~= pat2@.subrange(k + 1, pat2@.len() as int));
        }
    }
    (j < pat1.len() && s[i] == pat1[j] && is_intertwine_helper(s, i + 1, pat1, j + 1, pat2, k)) || (
    k < pat2.len() && s[i] == pat2[k] && is_intertwine_helper(s, i + 1, pat1, j, pat2, k + 1))
}

/// The position of the first occurrence of `c` in `s`, or -1.
pub open spec fn first_occurrence(s: Seq<u8>, c: u8) -> int
    decreases s.len(),
{
    if s.len() == 0 {
        -1
    } else if first_occurrence(s.drop_last(), c) >= 0 {
        first_occurrence(s.drop_last(), c)
    } else if s.last() == c {
        s.len() - 1
    } else {
        -1
    }
}

proof fn lemma_first_occurrence(s: Seq<u8>, c: u8)
    ensures
        -1 <= first_occurrence(s, c) < s.len(),
        first_occurrence(s, c) >= 0 <==> s.contains(c),
        first_occurrence(s, c) >= 0 ==> s[first_occurrence(s, c)] == c,
    decreases s.len(),
{
    if s.len() > 0 {
        let p = s.drop_last();
        lemma_first_occurrence(p, c);
        if p.contains(c) {
            let k = choose|k: int| 0 <= k < p.len() && p[k] == c;
            assert(s[k] == c);
        }
        if s.contains(c) && !p.contains(c) {
            let k = choose|k: int| 0 <= k < s.len() && s[k] == c;
            if k < s.len() - 1 {
                assert(p[k] == c);
            }
        }
    }
}

/// The first occurrence of a letter that occurs in a prefix is the same in
/// every longer prefix.
proof fn lemma_first_occurrence_prefix(s: Seq<u8>, c: u8, n: int)
    requires
        0 <= n <= s.len(),
        first_occurrence(s.subrange(0, n), c) >= 0,
    ensures
        first_occurrence(s, c) == first_occurrence(s.subrange(0, n), c),
    decreases s.len() - n,
{
    if n < s.len() {
        let q = s.subrange(0, n + 1);
        assert(q.drop_last() =~= s.subrange(0, n));
        lemma_first_occurrence_prefix(s, c, n + 1);
    } else {
        assert(s.subrange(0, n) =~= s);
    }
}

/// The letter that a substitution cipher gives the byte at `i`: `A` plus the
/// number of distinct letters before the first occurrence of that byte.
pub open spec fn cipher_byte(s: Seq<u8>, i: int) -> u8 {
    ('A' as u8 + s.subrange(0, first_occurrence(s, s[i])).to_set().len()) as u8
}

/// The 26 uppercase letters.
pub open spec fn upper_letters() -> Seq<u8> {
    Seq::new(26, |i: int| ('A' as u8 + i) as u8)
}

/// Fewer than 26 distinct letters leave room for one more.
proof fn lemma_distinct_letters_bound(s: Seq<u8>, c: u8)
    requires
        is_upper_text(s),
        is_upper_byte(c),
        !s.contains(c),
    ensures
        s.to_set().len() < 26,
{
    let all = upper_letters().to_set();
    upper_letters().lemma_cardinality_of_set();
    let t = s.to_set().insert(c);
    assert(t.subset_of(all)) by {
        assert forall|x: u8| t.contains(x) implies all.contains(x) by {
            let k = (x - 'A' as u8) as int;
            if x != c {
                let j = choose|j: int| 0 <= j < s.len() && s[j] == x;
                assert(is_upper_byte(s[j]));
            }
            assert(upper_letters()[k] == x);
        }
    }
    vstd::set_lib::lemma_len_subset(t, all);
    vstd::seq_lib::seq_to_set_is_finite(s);
}

/// Applies a substitution cipher so that the first letter of the word
/// becomes `A`, the second distinct letter `B`, and so on. Two words have
/// the same ciphergram if and only if a substitution cipher turns one into
/// the other.
pub fn ciphergram<S: Text>(s: S) -> (r: String)
    requires
        is_upper_text(s.text_bytes()),
    ensures
        r@ == ascii_chars(Seq::new(s.text_bytes().len(), |i: int| cipher_byte(s.text_bytes(), i))),
{
    let b = s.as_bytes();
    let n = b.len();
    let mut seen: Vec<u8> = vec![0xFFu8; 26];
    let mut count: u8 = 0;
    assert(b@.subrange(0, 0).to_set() =~= Set::<u8>::empty());
    for i in 0..n
        invariant
            n == b@.len(),
            b@ == s.text_bytes(),
            is_upper_text(b@),
            seen@.len() == 26,
            count == b@.subrange(0, i as int).to_set().len(),
            count <= 26,
            forall|l: int| 0 <= l < 26 && seen@[l] != 0xFF ==> #[trigger] seen@[l] < count,
            forall|l: int|
                0 <= l < 26 ==> (#[trigger] seen@[l] == 0xFF <==> !b@.subrange(
                    0,
                    i as int,
                ).contains((l + 'A' as u8) as u8)),
            forall|l: int|
                0 <= l < 26 && seen@[l] != 0xFF ==> #[trigger] seen@[l] == b@.subrange(
                    0,
                    first_occurrence(b@.subrange(0, i as int), (l + 'A' as u8) as u8),
                ).to_set().len(),
    {
        let c = b[i];
        assert(is_upper_byte(b@[i as int]));
        let idx = lett_to_num_0(c);
        let ghost pre = b@.subrange(0, i as int);
        let ghost next = b@.subrange(0, i + 1);
        proof {
            assert(next =~= pre.push(c));
            assert(next.drop_last() =~= pre);
            assert(((idx + 'A' as u8) as u8) == c);
            assert(pre.push(c).to_set() =~= pre.to_set().insert(c));
            pre.lemma_cardinality_of_set();
            vstd::seq_lib::seq_to_set_is_finite(pre);
            assert forall|l: int| 0 <= l < 26 implies (#[trigger] next.contains((l + 'A' as u8) as u8) <==> (
            pre.contains((l + 'A' as u8) as u8) || l == idx)) by {
                let x = (l + 'A' as u8) as u8;
                if next.contains(x) && !pre.contains(x) {
                    let k = choose|k: int| 0 <= k < next.len() && next[k] == x;
                    if k < pre.len() {
                        assert(pre[k] == x);
                    }
                }
                if pre.contains(x) {
                    let k = choose|k: int| 0 <= k < pre.len() && pre[k] == x;
                    assert(next[k] == x);
                }
                if l == idx {
                    assert(next[i as int] == x);
                }
            }
            assert forall|l: int| 0 <= l < 26 && pre.contains((l + 'A' as u8) as u8) implies
                #[trigger] first_occurrence(next, (l + 'A' as u8) as u8) == first_occurrence(
                pre,
                (l + 'A' as u8) as u8,
            ) by {
                lemma_first_occurrence(pre, (l + 'A' as u8) as u8);
            }
        }
        if seen[idx] == 0xFF {
            proof {
                lemma_distinct_letters_bound(pre, c);
                lemma_first_occurrence(pre, c);
                assert(first_occurrence(next, c) == i);
                assert(b@.subrange(0, first_occurrence(next, c)) =~= pre);
            }
            seen.set(idx, count);
            count += 1;
        }
    }
    proof {
        assert(b@.subrange(0, n as int) =~= b@);
    }
    let mut v: Vec<u8> = Vec::with_capacity(n);
    for i in 0..n
        invariant
            n == b@.len(),
            b@ == s.text_bytes(),
            is_upper_text(b@),
            seen@.len() == 26,
            count <= 26,
            forall|l: int|
                0 <= l < 26 ==> (#[trigger] seen@[l] == 0xFF <==> !b@.contains(
                    (l + 'A' as u8) as u8,
                )),
            forall|l: int|
                0 <= l < 26 && seen@[l] != 0xFF ==> #[trigger] seen@[l] == b@.subrange(
                    0,
                    first_occurrence(b@, (l + 'A' as u8) as u8),
                ).to_set().len(),
            forall|l: int| 0 <= l < 26 && seen@[l] != 0xFF ==> #[trigger] seen@[l] < 26,
            v@ == Seq::new(i as nat, |k: int| cipher_byte(b@, k)),
            is_ascii_bytes(v@),
    {
        let c = b[i];
        assert(is_upper_byte(b@[i as int]));
        let idx = lett_to_num_0(c);
        proof {
            assert(((idx + 'A' as u8) as u8) == c);
            assert(b@.contains(c));
        }
        v.push('A' as u8 + seen[idx]);
        assert(v@ =~= Seq::new((i + 1) as nat, |k: int| cipher_byte(b@, k)));
    }
    ascii_string(v.as_slice())
}

} // verus!
