//! A frequency-weighted word list with exact lookup by slug, and searches
//! for pairs of words related by a transformation.

use vstd::prelude::*;
use vstd::utf8::encode_utf8;
use crate::search::SearchResult;
use crate::word::{Text, slugify, slug_of, slug_len, ascii_letters};

verus! {

/// A word of a word list and its frequency, as read from the list.
#[derive(Clone, Debug)]
pub struct WordFreq {
    /// The word, including spaces and punctuation.
    pub word: String,
    /// The frequency of the word in the word list.
    pub freq: u64,
}

impl WordFreq {
    /// The word with everything but the letters `A` to `Z` removed.
    pub fn slug(&self) -> (r: String)
        ensures
            r@ == slug_of(self.word@),
    {
        slugify(self.word.as_str())
    }

    /// The number of ASCII letters in the word.
    pub fn len(&self) -> (r: usize)
        ensures
            r == ascii_letters(encode_utf8(self.word@)).len(),
    {
        slug_len(self.word.as_str())
    }
}

/// An entry of a word list: the word, its slug and its frequency.
#[derive(Clone, Debug)]
pub struct WordlistEntry {
    /// The word, including spaces and punctuation.
    pub word: String,
    /// The word, with everything but the letters `A` to `Z` removed.
    pub slug: String,
    /// The frequency of the word in the word list.
    pub freq: u64,
}

impl PartialEq for WordlistEntry {
    fn eq(&self, other: &WordlistEntry) -> (r: bool) {
        self.word == other.word && self.slug == other.slug && self.freq == other.freq
    }
}

impl vstd::std_specs::cmp::PartialEqSpecImpl for WordlistEntry {
    open spec fn obeys_eq_spec() -> bool {
        true
    }

    open spec fn eq_spec(&self, other: &WordlistEntry) -> bool {
        self.word@ == other.word@ && self.slug@ == other.slug@ && self.freq == other.freq
    }
}

impl Eq for WordlistEntry {
}

/// The bytes that an entry is looked up by.
pub open spec fn slug_bytes(e: WordlistEntry) -> Seq<u8> {
    encode_utf8(e.slug@)
}

impl WordlistEntry {
    /// Makes the entry of a word and its frequency, with the slug of the word.
    pub fn from_word_freq(wf: WordFreq) -> (r: WordlistEntry)
        ensures
            r.word == wf.word,
            r.slug@ == slug_of(wf.word@),
            r.freq == wf.freq,
    {
        let slug = slugify(wf.word.as_str());
        WordlistEntry { word: wf.word, slug, freq: wf.freq }
    }

    /// The length of the slug in bytes.
    pub fn len(&self) -> (r: usize)
        ensures
            r == slug_bytes(*self).len(),
    {
        self.slug.as_str().as_bytes().len()
    }
}

/// The position of the first entry with the given slug bytes, or -1.
pub open spec fn first_with_key(entries: Seq<WordlistEntry>, key: Seq<u8>) -> int
    decreases entries.len(),
{
    if entries.len() == 0 {
        -1
    } else {
        let p = first_with_key(entries.drop_last(), key);
        if p >= 0 {
            p
        } else if slug_bytes(entries.last()) == key {
            entries.len() - 1
        } else {
            -1
        }
    }
}

/// The entry found under a key: the first entry whose slug bytes equal it.
pub open spec fn lookup_spec(entries: Seq<WordlistEntry>, key: Seq<u8>) -> Option<WordlistEntry> {
    let p = first_with_key(entries, key);
    if p >= 0 {
        Some(entries[p])
    } else {
        None
    }
}

/// The frequency found under a key, 0 where no entry has it.
pub open spec fn frequency_spec(entries: Seq<WordlistEntry>, key: Seq<u8>) -> u64 {
    match lookup_spec(entries, key) {
        Some(e) => e.freq,
        None => 0,
    }
}

/// `first_with_key` is the least position whose slug bytes equal the key.
pub proof fn lemma_first_with_key(entries: Seq<WordlistEntry>, key: Seq<u8>)
    ensures
        -1 <= first_with_key(entries, key) < entries.len(),
        first_with_key(entries, key) >= 0 ==> slug_bytes(entries[first_with_key(entries, key)])
            == key,
        forall|j: int|
            0 <= j < entries.len() && (j < first_with_key(entries, key) || first_with_key(
                entries,
                key,
            ) < 0) ==> slug_bytes(#[trigger] entries[j]) != key,
    decreases entries.len(),
{
    if entries.len() > 0 {
        lemma_first_with_key(entries.drop_last(), key);
        assert forall|j: int|
            0 <= j < entries.len() - 1 implies #[trigger] entries[j] == entries.drop_last()[j] by {}
    }
}

/// The first entry of a prefix with a slug is the first in the whole list.
proof fn lemma_first_with_key_prefix(entries: Seq<WordlistEntry>, key: Seq<u8>, n: int)
    requires
        0 <= n <= entries.len(),
        first_with_key(entries.subrange(0, n), key) >= 0,
    ensures
        first_with_key(entries, key) == first_with_key(entries.subrange(0, n), key),
    decreases entries.len() - n,
{
    if n < entries.len() {
        assert(entries.subrange(0, n + 1).drop_last() =~= entries.subrange(0, n));
        lemma_first_with_key_prefix(entries, key, n + 1);
    } else {
        assert(entries.subrange(0, n) =~= entries);
    }
}

/// Two entries of a list with the same slug: the position of the first
/// entry with that slug, and a later one.
#[derive(Clone, Copy, Debug, PartialEq, Eq, Structural)]
pub struct DuplicateSlug {
    pub first: usize,
    pub second: usize,
}

/// A slug table: for each position filed in it, the slug bytes it was filed
/// under, kept in a hash table of positions.
#[verifier::external_body]
pub struct SlugTable {
    table: hashbrown::HashTable<usize>,
    hasher: hashbrown::DefaultHashBuilder,
}

/// What a slug table holds: each filed position, with the slug bytes it was
/// filed under.
pub uninterp spec fn slug_table_contents(t: SlugTable) -> Map<usize, Seq<u8>>;

/// Every position filed in the table is a position of `entries`, filed under
/// that entry's slug bytes.
pub open spec fn table_matches(m: Map<usize, Seq<u8>>, entries: Seq<WordlistEntry>) -> bool {
    forall|k: usize| #[trigger]
        m.dom().contains(k) ==> k < entries.len() && m[k] == slug_bytes(entries[k as int])
}

/// Relies on `hashbrown::HashTable::with_capacity` and
/// `hashbrown::DefaultHashBuilder::default`: a new table holds nothing.
#[verifier::external_body]
fn slug_table_with_capacity(capacity: usize) -> (r: SlugTable)
    ensures
        slug_table_contents(r).dom() == Set::<usize>::empty(),
{
    SlugTable {
        table: hashbrown::HashTable::with_capacity(capacity),
        hasher: hashbrown::DefaultHashBuilder::default(),
    }
}

/// Relies on `hashbrown::HashTable::insert_unique`: position `n` is filed
/// under the hash of `entries[n]`'s slug bytes; the table's other positions
/// are rehashed from their own entries' slugs, which they were filed under.
#[verifier::external_body]
fn slug_table_insert(t: &mut SlugTable, entries: &Vec<WordlistEntry>, n: usize)
    requires
        n < entries@.len(),
        !slug_table_contents(*old(t)).dom().contains(n),
        table_matches(slug_table_contents(*old(t)), entries@),
    ensures
        slug_table_contents(*final(t)) == slug_table_contents(*old(t)).insert(
            n,
            slug_bytes(entries@[n as int]),
        ),
{
    let hasher = &t.hasher;
    let hash = std::hash::BuildHasher::hash_one(hasher, entries[n].slug.as_bytes());
    t.table.insert_unique(hash, n, |&m| std::hash::BuildHasher::hash_one(hasher, entries[m].slug.as_bytes()));
}

/// Relies on `hashbrown::HashTable::find`: with the hash of `key`, it
/// returns a filed position whose entry's slug bytes equal `key`, and finds
/// one whenever a position is filed under `key`, since each was filed under
/// the hash of its own slug.
#[verifier::external_body]
fn slug_table_find(t: &SlugTable, entries: &Vec<WordlistEntry>, key: &[u8]) -> (r: Option<usize>)
    requires
        table_matches(slug_table_contents(*t), entries@),
    ensures
        match r {
            Some(n) => slug_table_contents(*t).dom().contains(n) && slug_table_contents(*t)[n]
                == key@,
            None => forall|n: usize| #[trigger]
                slug_table_contents(*t).dom().contains(n) ==> slug_table_contents(*t)[n] != key@,
        },
{
    let hash = std::hash::BuildHasher::hash_one(&t.hasher, key);
    t.table.find(hash, |&m| entries[m].slug.as_bytes() == key).copied()
}

/// A word list: its entries in load order, and a lookup of each slug's
/// first entry.
///
/// Where several entries share a slug, all of them are kept and iterated,
/// and lookup finds the first of them.
pub struct Wordlist {
    entries: Vec<WordlistEntry>,
    lookup: SlugTable,
}

impl View for Wordlist {
    type V = Seq<WordlistEntry>;

    closed spec fn view(&self) -> Seq<WordlistEntry> {
        self.entries@
    }
}

impl Wordlist {
    #[verifier::type_invariant]
    closed spec fn lookup_complete(self) -> bool {
        let m = slug_table_contents(self.lookup);
        &&& self.entries@.len() <= usize::MAX
        &&& table_matches(m, self.entries@)
        &&& forall|k: usize| #[trigger]
            m.dom().contains(k) ==> first_with_key(self.entries@, m[k]) == k
        &&& forall|j: int|
            0 <= j < self.entries@.len() ==> m.dom().contains(
                first_with_key(self.entries@, slug_bytes(#[trigger] self.entries@[j])) as usize,
            )
    }

    /// Builds a word list from its entries, kept in the given order.
    pub fn from_entries(entries: Vec<WordlistEntry>) -> (r: Wordlist)
        ensures
            r@ == entries@,
    {
        let mut lookup = slug_table_with_capacity(entries.len());
        let n = entries.len();
        for i in 0..n
            invariant
                n == entries@.len(),
                table_matches(slug_table_contents(lookup), entries@),
                forall|k: usize| #[trigger]
                    slug_table_contents(lookup).dom().contains(k) ==> k < i && first_with_key(
                        entries@.subrange(0, i as int),
                        slug_table_contents(lookup)[k],
                    ) == k,
                forall|j: int|
                    0 <= j < i ==> slug_table_contents(lookup).dom().contains(
                        first_with_key(
                            entries@.subrange(0, i as int),
                            slug_bytes(#[trigger] entries@[j]),
                        ) as usize,
                    ),
        {
            let ghost pre = entries@.subrange(0, i as int);
            let ghost key = slug_bytes(entries@[i as int]);
            proof {
                assert(entries@.subrange(0, i + 1).drop_last() =~= pre);
                lemma_first_with_key(pre, key);
            }
            let found = slug_table_find(&lookup, &entries, entries[i].slug.as_str().as_bytes());
            if found.is_none() {
                proof {
                    let m = slug_table_contents(lookup);
                    if first_with_key(pre, key) >= 0 {
                        let f = first_with_key(pre, key);
                        assert(m.dom().contains(first_with_key(pre, slug_bytes(entries@[f]))
                            as usize));
                    }
                }
                slug_table_insert(&mut lookup, &entries, i);
            }
        }
        assert(entries@.subrange(0, n as int) =~= entries@);
        Wordlist { entries, lookup }
    }

    /// Builds a word list from entries whose slugs must all differ, kept in
    /// the given order. Where two entries share a slug, fails with the
    /// first position whose slug occurred before, and that earlier position.
    pub fn from_unique_entries(entries: Vec<WordlistEntry>) -> (r: Result<Wordlist, DuplicateSlug>)
        ensures
            match r {
                Ok(w) => w@ == entries@ && forall|i: int, j: int|
                    0 <= i < j < entries@.len() ==> slug_bytes(#[trigger] entries@[i])
                        != slug_bytes(#[trigger] entries@[j]),
                Err(d) => d.second < entries@.len() && d.first == first_with_key(
                    entries@,
                    slug_bytes(entries@[d.second as int]),
                ) && d.first < d.second && forall|i: int, j: int|
                    0 <= i < j < d.second ==> slug_bytes(#[trigger] entries@[i]) != slug_bytes(
                        #[trigger] entries@[j],
                    ),
            },
    {
        let mut lookup = slug_table_with_capacity(entries.len());
        let n = entries.len();
        for i in 0..n
            invariant
                n == entries@.len(),
                table_matches(slug_table_contents(lookup), entries@),
                forall|k: usize| #[trigger]
                    slug_table_contents(lookup).dom().contains(k) ==> k < i && first_with_key(
                        entries@.subrange(0, i as int),
                        slug_table_contents(lookup)[k],
                    ) == k,
                forall|j: int|
                    0 <= j < i ==> slug_table_contents(lookup).dom().contains(
                        first_with_key(
                            entries@.subrange(0, i as int),
                            slug_bytes(#[trigger] entries@[j]),
                        ) as usize,
                    ),
                forall|a: int, b: int|
                    0 <= a < b < i ==> slug_bytes(#[trigger] entries@[a]) != slug_bytes(
                        #[trigger] entries@[b],
                    ),
        {
            let ghost pre = entries@.subrange(0, i as int);
            let ghost key = slug_bytes(entries@[i as int]);
            proof {
                assert(entries@.subrange(0, i + 1).drop_last() =~= pre);
                lemma_first_with_key(pre, key);
            }
            match slug_table_find(&lookup, &entries, entries[i].slug.as_str().as_bytes()) {
                Some(f) => {
                    proof {
                        lemma_first_with_key(entries@, key);
                        lemma_first_with_key_prefix(entries@, key, i as int);
                    }
                    return Err(DuplicateSlug { first: f, second: i });
                },
                None => {
                    proof {
                        let m = slug_table_contents(lookup);
                        if first_with_key(pre, key) >= 0 {
                            let f = first_with_key(pre, key);
                            assert(m.dom().contains(first_with_key(pre, slug_bytes(entries@[f]))
                                as usize));
                        }
                        assert forall|a: int| 0 <= a < i implies slug_bytes(#[trigger] entries@[a])
                            != key by {
                            assert(pre[a] == entries@[a]);
                        }
                    }
                    slug_table_insert(&mut lookup, &entries, i);
                },
            }
        }
        assert(entries@.subrange(0, n as int) =~= entries@);
        Ok(Wordlist { entries, lookup })
    }

    /// Returns the first entry whose slug equals the given text, if any.
    pub fn get<S: Text>(&self, s: S) -> (r: Option<&WordlistEntry>)
        ensures
            match r {
                Some(e) => lookup_spec(self@, s.text_bytes()) == Some(*e),
                None => lookup_spec(self@, s.text_bytes()) is None,
            },
    {
        proof {
            use_type_invariant(self);
            lemma_first_with_key(self.entries@, s.text_bytes());
        }
        let key = s.as_bytes();
        match slug_table_find(&self.lookup, &self.entries, key) {
            Some(n) => Some(&self.entries[n]),
            None => {
                proof {
                    let f = first_with_key(self.entries@, key@);
                    if f >= 0 {
                        assert(slug_bytes(self.entries@[f]) == key@);
                        assert(slug_table_contents(self.lookup).dom().contains(f as usize));
                        assert(slug_table_contents(self.lookup)[f as usize] == key@);
                    }
                }
                None
            },
        }
    }

    /// Returns the frequency of the given slug, or zero if no entry has it.
    pub fn freq<S: Text>(&self, s: S) -> (r: u64)
        ensures
            r == frequency_spec(self@, s.text_bytes()),
    {
        match self.get(s) {
            Some(e) => e.freq,
            None => 0,
        }
    }

    /// The entries, in load order.
    pub fn iter(&self) -> (r: &[WordlistEntry])
        ensures
            r@ == self@,
    {
        self.entries.as_slice()
    }

    /// The number of entries.
    pub fn len(&self) -> (r: usize)
        ensures
            r == self@.len(),
    {
        self.entries.len()
    }
}

/// Every entry of a word list is found under its own slug: lookup gives an
/// entry with the same slug, and where no earlier entry shares that slug it
/// gives the entry itself and its frequency.
pub proof fn lemma_entries_found(entries: Seq<WordlistEntry>, i: int)
    requires
        0 <= i < entries.len(),
    ensures
        lookup_spec(entries, slug_bytes(entries[i])) is Some,
        slug_bytes(lookup_spec(entries, slug_bytes(entries[i]))->0) == slug_bytes(entries[i]),
        (forall|j: int| 0 <= j < i ==> slug_bytes(#[trigger] entries[j]) != slug_bytes(entries[i]))
            ==> lookup_spec(entries, slug_bytes(entries[i])) == Some(entries[i])
            && frequency_spec(entries, slug_bytes(entries[i])) == entries[i].freq,
{
    lemma_first_with_key(entries, slug_bytes(entries[i]));
}

/// A key that is no entry's slug has frequency 0.
pub proof fn lemma_absent_key_frequency(entries: Seq<WordlistEntry>, key: Seq<u8>)
    requires
        forall|j: int| 0 <= j < entries.len() ==> slug_bytes(#[trigger] entries[j]) != key,
    ensures
        lookup_spec(entries, key) is None,
        frequency_spec(entries, key) == 0,
{
    lemma_first_with_key(entries, key);
}

/// The hits of a search with one candidate key or none per source item: for
/// each item in order whose candidate is some entry's slug, the item's
/// position and the position of the first entry with that slug.
pub open spec fn candidate_hits(keys: Seq<Option<Seq<u8>>>, entries: Seq<WordlistEntry>) -> Seq<
    (int, int),
>
    decreases keys.len(),
{
    if keys.len() == 0 {
        Seq::empty()
    } else {
        let rest = candidate_hits(keys.drop_last(), entries);
        match keys.last() {
            Some(k) => if first_with_key(entries, k) >= 0 {
                rest.push((keys.len() - 1, first_with_key(entries, k)))
            } else {
                rest
            },
            None => rest,
        }
    }
}

/// The hits for the candidates of the source item at `i`, in candidate order.
pub open spec fn item_hits(i: int, cands: Seq<Seq<u8>>, entries: Seq<WordlistEntry>) -> Seq<
    (int, int),
>
    decreases cands.len(),
{
    if cands.len() == 0 {
        Seq::empty()
    } else {
        let rest = item_hits(i, cands.drop_last(), entries);
        if first_with_key(entries, cands.last()) >= 0 {
            rest.push((i, first_with_key(entries, cands.last())))
        } else {
            rest
        }
    }
}

/// The hits of a search with any number of candidate keys per source item:
/// the hits of each item in source order.
pub open spec fn all_item_hits(cands: Seq<Seq<Seq<u8>>>, entries: Seq<WordlistEntry>) -> Seq<
    (int, int),
>
    decreases cands.len(),
{
    if cands.len() == 0 {
        Seq::empty()
    } else {
        all_item_hits(cands.drop_last(), entries) + item_hits(
            cands.len() - 1,
            cands.last(),
            entries,
        )
    }
}

/// The pairs that a search returns are its hits: the source item and the
/// entry at the positions of each hit, in order.
pub open spec fn pairs_at<'a, T>(
    out: Seq<(T, &'a WordlistEntry)>,
    src: Seq<T>,
    entries: Seq<WordlistEntry>,
    hits: Seq<(int, int)>,
) -> bool {
    &&& out.len() == hits.len()
    &&& forall|k: int|
        0 <= k < out.len() ==> (#[trigger] out[k]).0 == src[hits[k].0] && *out[k].1
            == entries[hits[k].1]
}

/// `trans` may return, for the item `x`, a text whose bytes are `key`.
pub open spec fn proposes<T, W: Text, F: Fn(&T) -> W>(trans: F, x: &T, key: Seq<u8>) -> bool {
    exists|w: W| #[trigger] trans.ensures((x,), w) && w.text_bytes() == key
}

/// Returns the pairs `(word1, word2)` such that `word1` is in `list1`,
/// `word2` is in `list2`, and the slug of `word2` is `trans(word1)`.
///
/// Pairs come in the order of `list1`; `word2` is the first entry of
/// `list2` with that slug.
pub fn pairs<'a, T, F, W>(list1: Vec<T>, list2: &'a Wordlist, trans: F) -> (r: Vec<(T, &'a WordlistEntry)>)
    where
        F: Fn(&T) -> W,
        W: Text,
    requires
        forall|x: &T| #[trigger] trans.requires((x,)),
    ensures
        exists|keys: Seq<Option<Seq<u8>>>|
            {
                &&& keys.len() == list1@.len()
                &&& forall|i: int|
                    0 <= i < keys.len() ==> #[trigger] keys[i] is Some && proposes(
                        trans,
                        &list1@[i],
                        keys[i]->0,
                    )
                &&& pairs_at(r@, list1@, list2@, candidate_hits(keys, list2@))
            },
{
    let mut out: Vec<(T, &'a WordlistEntry)> = Vec::new();
    let ghost mut keys: Seq<Option<Seq<u8>>> = Seq::empty();
    let ghost src = list1@;
    for x in it: list1.into_iter()
        invariant
            it.seq() == src,
            keys.len() == it.index(),
            forall|x: &T| #[trigger] trans.requires((x,)),
            forall|i: int|
                0 <= i < keys.len() ==> #[trigger] keys[i] is Some && proposes(
                    trans,
                    &src[i],
                    keys[i]->0,
                ),
            pairs_at(out@, src, list2@, candidate_hits(keys, list2@)),
    {
        let w = trans(&x);
        let found = list2.get(w);
        let ghost k = Some(w.text_bytes());
        proof {
            assert((keys.push(k)).drop_last() =~= keys);
            lemma_first_with_key(list2@, w.text_bytes());
        }
        match found {
            Some(e) => {
                out.push((x, e));
            },
            None => {},
        }
        proof {
            keys = keys.push(k);
        }
    }
    out
}

/// `trans` may return, for the item `x`, either nothing (`key` is `None`) or
/// a text whose bytes are the key.
pub open spec fn proposes_option<T, W: Text, F: Fn(&T) -> Option<W>>(
    trans: F,
    x: &T,
    key: Option<Seq<u8>>,
) -> bool {
    exists|w: Option<W>|
        #[trigger] trans.ensures((x,), w) && match w {
            Some(t) => key == Some(t.text_bytes()),
            None => key is None,
        }
}

/// Returns the pairs `(word1, word2)` such that `word1` is in `list1`,
/// `word2` is in `list2`, and `trans(word1)` is `Some` of the slug of
/// `word2`. Items for which `trans` returns `None` give no pair.
///
/// Pairs come in the order of `list1`; `word2` is the first entry of
/// `list2` with that slug.
pub fn pairs_filter<'a, T, F, W>(list1: Vec<T>, list2: &'a Wordlist, trans: F) -> (r: Vec<
    (T, &'a WordlistEntry),
>)
    where
        F: Fn(&T) -> Option<W>,
        W: Text,
    requires
        forall|x: &T| #[trigger] trans.requires((x,)),
    ensures
        exists|keys: Seq<Option<Seq<u8>>>|
            {
                &&& keys.len() == list1@.len()
                &&& forall|i: int|
                    0 <= i < keys.len() ==> proposes_option(trans, &list1@[i], #[trigger] keys[i])
                &&& pairs_at(r@, list1@, list2@, candidate_hits(keys, list2@))
            },
{
    let mut out: Vec<(T, &'a WordlistEntry)> = Vec::new();
    let ghost mut keys: Seq<Option<Seq<u8>>> = Seq::empty();
    let ghost src = list1@;
    for x in it: list1.into_iter()
        invariant
            it.seq() == src,
            keys.len() == it.index(),
            forall|x: &T| #[trigger] trans.requires((x,)),
            forall|i: int| 0 <= i < keys.len() ==> proposes_option(trans, &src[i], #[trigger] keys[i]),
            pairs_at(out@, src, list2@, candidate_hits(keys, list2@)),
    {
        let w = trans(&x);
        let ghost k = match &w {
            Some(t) => Some(t.text_bytes()),
            None => None,
        };
        proof {
            assert((keys.push(k)).drop_last() =~= keys);
        }
        match w {
            Some(t) => {
                proof {
                    lemma_first_with_key(list2@, t.text_bytes());
                }
                match list2.get(t) {
                    Some(e) => {
                        out.push((x, e));
                    },
                    None => {},
                }
            },
            None => {},
        }
        proof {
            keys = keys.push(k);
        }
    }
    out
}

/// `trans` may return, for the item `x`, texts whose bytes are `keys`, in order.
pub open spec fn proposes_all<T, W: Text, F: Fn(&T) -> Vec<W>>(
    trans: F,
    x: &T,
    keys: Seq<Seq<u8>>,
) -> bool {
    exists|w: Vec<W>|
        #[trigger] trans.ensures((x,), w) && w@.len() == keys.len() && forall|j: int|
            0 <= j < keys.len() ==> #[trigger] keys[j] == w@[j].text_bytes()
}

/// Returns the pairs `(word1, word2)` such that `word1` is in `list1`,
/// `word2` is in `list2`, and the slug of `word2` is one of the candidates
/// in `trans(word1)`.
///
/// Pairs come in the order of `list1`, and for each item in the order of its
/// candidates; each candidate found gives a pair with the first entry of
/// `list2` that has it as slug.
pub fn pairs_iter<'a, T, F, W>(list1: Vec<T>, list2: &'a Wordlist, trans: F) -> (r: Vec<
    (T, &'a WordlistEntry),
>)
    where
        T: Copy,
        F: Fn(&T) -> Vec<W>,
        W: Text,
    requires
        forall|x: &T| #[trigger] trans.requires((x,)),
    ensures
        exists|cands: Seq<Seq<Seq<u8>>>|
            {
                &&& cands.len() == list1@.len()
                &&& forall|i: int|
                    0 <= i < cands.len() ==> proposes_all(trans, &list1@[i], #[trigger] cands[i])
                &&& pairs_at(r@, list1@, list2@, all_item_hits(cands, list2@))
            },
{
    let mut out: Vec<(T, &'a WordlistEntry)> = Vec::new();
    let ghost mut cands: Seq<Seq<Seq<u8>>> = Seq::empty();
    let n = list1.len();
    for i in 0..n
        invariant
            n == list1@.len(),
            cands.len() == i,
            forall|x: &T| #[trigger] trans.requires((x,)),
            forall|j: int| 0 <= j < i ==> proposes_all(trans, &list1@[j], #[trigger] cands[j]),
            pairs_at(out@, list1@, list2@, all_item_hits(cands, list2@)),
    {
        let x = list1[i];
        let ws = trans(&x);
        let ghost before = out@;
        let ghost mine: Seq<Seq<u8>> = Seq::new(ws@.len(), |j: int| ws@[j].text_bytes());
        for j in 0..ws.len()
            invariant
                n == list1@.len(),
                i < n,
                x == list1@[i as int],
                cands.len() == i,
                mine.len() == ws@.len(),
                forall|m: int| 0 <= m < mine.len() ==> #[trigger] mine[m] == ws@[m].text_bytes(),
                before.len() == all_item_hits(cands, list2@).len(),
                out@.subrange(0, before.len() as int) == before,
                pairs_at(
                    out@,
                    list1@,
                    list2@,
                    all_item_hits(cands, list2@) + item_hits(
                        i as int,
                        mine.subrange(0, j as int),
                        list2@,
                    ),
                ),
        {
            proof {
                assert(mine.subrange(0, j + 1).drop_last() =~= mine.subrange(0, j as int));
                lemma_first_with_key(list2@, ws@[j as int].text_bytes());
            }
            match list2.get(&ws[j]) {
                Some(e) => {
                    out.push((x, e));
                },
                None => {},
            }
        }
        proof {
            assert(mine.subrange(0, ws@.len() as int) =~= mine);
            assert(cands.push(mine).drop_last() =~= cands);
            cands = cands.push(mine);
        }
    }
    out
}

/// The product of two frequencies, the score of a pair.
fn pair_score(a: u64, b: u64) -> (r: u128)
    ensures
        r == a * b,
{
    assert(a as int * b as int <= u64::MAX as int * u64::MAX as int) by (nonlinear_arith)
        requires
            a <= u64::MAX,
            b <= u64::MAX,
    ;
    assert(u64::MAX as int * u64::MAX as int <= u128::MAX);
    (a as u128) * (b as u128)
}

/// The two words of a pair, separated by a comma and a space.
pub fn pair_data(a: &str, b: &str) -> (r: String)
    ensures
        r@ == a@ + ", "@ + b@,
{
    let s = a.to_owned();
    let s = s.concat(", ");
    s.concat(b)
}

impl SearchResult for WordFreq {
    type Data = String;

    open spec fn score(&self) -> u128 {
        self.freq as u128
    }

    fn data(&self) -> (r: String)
        ensures
            r@ == self.word@,
    {
        self.word.clone()
    }

    fn freq(&self) -> (r: u128) {
        self.freq as u128
    }
}

impl<'a> SearchResult for &'a WordFreq {
    type Data = &'a str;

    open spec fn score(&self) -> u128 {
        self.freq as u128
    }

    fn data(&self) -> (r: &'a str)
        ensures
            r@ == self.word@,
    {
        self.word.as_str()
    }

    fn freq(&self) -> (r: u128) {
        self.freq as u128
    }
}

impl<'a> SearchResult for &'a WordlistEntry {
    type Data = &'a str;

    open spec fn score(&self) -> u128 {
        self.freq as u128
    }

    fn data(&self) -> (r: &'a str)
        ensures
            r@ == self.word@,
    {
        self.word.as_str()
    }

    fn freq(&self) -> (r: u128) {
        self.freq as u128
    }
}

impl<'a, 'b> SearchResult for (&'a WordlistEntry, &'b WordlistEntry) {
    type Data = String;

    open spec fn score(&self) -> u128 {
        (self.0.freq * self.1.freq) as u128
    }

    fn data(&self) -> (r: String)
        ensures
            r@ == self.0.word@ + ", "@ + self.1.word@,
    {
        pair_data(self.0.word.as_str(), self.1.word.as_str())
    }

    fn freq(&self) -> (r: u128) {
        pair_score(self.0.freq, self.1.freq)
    }
}

impl<'b> SearchResult for (WordFreq, &'b WordlistEntry) {
    type Data = String;

    open spec fn score(&self) -> u128 {
        (self.0.freq * self.1.freq) as u128
    }

    fn data(&self) -> (r: String)
        ensures
            r@ == self.0.word@ + ", "@ + self.1.word@,
    {
        pair_data(self.0.word.as_str(), self.1.word.as_str())
    }

    fn freq(&self) -> (r: u128) {
        pair_score(self.0.freq, self.1.freq)
    }
}

impl<'a, 'b> SearchResult for (&'a WordFreq, &'b WordlistEntry) {
    type Data = String;

    open spec fn score(&self) -> u128 {
        (self.0.freq * self.1.freq) as u128
    }

    fn data(&self) -> (r: String)
        ensures
            r@ == self.0.word@ + ", "@ + self.1.word@,
    {
        pair_data(self.0.word.as_str(), self.1.word.as_str())
    }

    fn freq(&self) -> (r: u128) {
        pair_score(self.0.freq, self.1.freq)
    }
}

} // verus!
