//! Reading a word list from its text: one record per line, the word and
//! its frequency, separated by a comma.

use vstd::prelude::*;
use vstd::utf8::encode_utf8;
use crate::word::slug_of;
use crate::wordlist::{WordFreq, Wordlist, WordlistEntry};

verus! {

#[verifier::external_type_specification]
#[verifier::external_body]
pub struct ExCsvError(csv::Error);

/// The records that CSV text without a header row holds, each a sequence
/// of fields, or `None` where the text is not valid CSV.
pub uninterp spec fn csv_records(text: Seq<u8>) -> Option<Seq<Seq<Seq<char>>>>;

/// The fields of rows of strings.
pub open spec fn rows_view(rows: Seq<Vec<String>>) -> Seq<Seq<Seq<char>>> {
    rows.map_values(|r: Vec<String>| r@.map_values(|f: String| f@))
}

/// Relies on `csv::ReaderBuilder` (with `has_headers(false)`) and
/// `csv::Reader::records`: the records of the text, or the reader's error.
#[verifier::external_body]
fn read_csv_records(text: &[u8]) -> (r: Result<Vec<Vec<String>>, csv::Error>)
    ensures
        match r {
            Ok(rows) => csv_records(text@) == Some(rows_view(rows@)),
            Err(_) => csv_records(text@) is None,
        },
{
    csv::ReaderBuilder::new().has_headers(false).from_reader(text).records().map(
        |rec| rec.map(|rec| rec.iter().map(|f| f.to_string()).collect()),
    ).collect()
}

/// Why a word list could not be read.
#[derive(Debug)]
pub enum LoadError {
    /// The text is not valid CSV.
    Csv(csv::Error),
    /// The record at this position does not have exactly two fields.
    FieldCount { record: usize },
    /// The second field of the record at this position is not a frequency.
    Frequency { record: usize },
}

/// The value of a digit in the given radix (10 or 16), if it is one.
pub open spec fn digit_value(b: u8, radix: nat) -> Option<nat> {
    if '0' as u8 <= b <= '9' as u8 && (b - '0' as u8) < radix {
        Some((b - '0' as u8) as nat)
    } else if radix == 16 && 'a' as u8 <= b <= 'f' as u8 {
        Some((b - 'a' as u8 + 10) as nat)
    } else if radix == 16 && 'A' as u8 <= b <= 'F' as u8 {
        Some((b - 'A' as u8 + 10) as nat)
    } else {
        None
    }
}

/// Every byte is a digit of the radix.
pub open spec fn all_digits(s: Seq<u8>, radix: nat) -> bool {
    forall|i: int| 0 <= i < s.len() ==> #[trigger] digit_value(s[i], radix) is Some
}

/// The number that digits of the radix write, most significant first.
pub open spec fn digits_value(s: Seq<u8>, radix: nat) -> nat
    decreases s.len(),
{
    if s.len() == 0 {
        0
    } else {
        digits_value(s.drop_last(), radix) * radix + match digit_value(s.last(), radix) {
            Some(d) => d,
            None => 0,
        }
    }
}

/// The unsigned number that a frequency field writes: decimal digits, or
/// hexadecimal digits after `0x`, either after an optional `+`, and at most
/// `u64::MAX`.
pub open spec fn parse_frequency(s: Seq<u8>) -> Option<u64> {
    let hex = s.len() >= 2 && s[0] == '0' as u8 && s[1] == 'x' as u8;
    let radix: nat = if hex { 16 } else { 10 };
    let body = if hex { s.subrange(2, s.len() as int) } else { s };
    let digits = if body.len() > 0 && body[0] == '+' as u8 { body.drop_first() } else { body };
    if digits.len() > 0 && all_digits(digits, radix) && digits_value(digits, radix) <= u64::MAX {
        Some(digits_value(digits, radix) as u64)
    } else {
        None
    }
}

proof fn lemma_digits_value_grows(s: Seq<u8>, n: int, radix: nat)
    requires
        0 <= n <= s.len(),
        radix >= 1,
    ensures
        digits_value(s.subrange(0, n), radix) <= digits_value(s, radix),
    decreases s.len() - n,
{
    if n < s.len() {
        lemma_digits_value_grows(s, n + 1, radix);
        let p = s.subrange(0, n + 1);
        assert(p.drop_last() =~= s.subrange(0, n));
        let v = digits_value(s.subrange(0, n), radix);
        assert(v * radix >= v) by (nonlinear_arith)
            requires
                radix >= 1,
        ;
    } else {
        assert(s.subrange(0, n) =~= s);
    }
}

/// Reads a frequency field: see `parse_frequency`.
pub fn parse_frequency_field(s: &[u8]) -> (r: Option<u64>)
    ensures
        r == parse_frequency(s@),
{
    let hex = s.len() >= 2 && s[0] == '0' as u8 && s[1] == 'x' as u8;
    let radix: u64 = if hex { 16 } else { 10 };
    let mut i: usize = if hex { 2 } else { 0 };
    if i < s.len() && s[i] == '+' as u8 {
        i += 1;
    }
    let start = i;
    let ghost body = if hex { s@.subrange(2, s@.len() as int) } else { s@ };
    let ghost digits = if body.len() > 0 && body[0] == '+' as u8 { body.drop_first() } else { body };
    assert(digits =~= s@.subrange(start as int, s@.len() as int));
    assert(parse_frequency(s@) == if digits.len() > 0 && all_digits(digits, radix as nat)
        && digits_value(digits, radix as nat) <= u64::MAX {
        Some(digits_value(digits, radix as nat) as u64)
    } else {
        None
    });
    if start == s.len() {
        return None;
    }
    let mut value: u64 = 0;
    while i < s.len()
        invariant
            start <= i <= s@.len(),
            radix == 10 || radix == 16,
            digits == s@.subrange(start as int, s@.len() as int),
            digits.len() > 0,
            parse_frequency(s@) == if all_digits(digits, radix as nat) && digits_value(
                digits,
                radix as nat,
            ) <= u64::MAX {
                Some(digits_value(digits, radix as nat) as u64)
            } else {
                None
            },
            all_digits(s@.subrange(start as int, i as int), radix as nat),
            value == digits_value(s@.subrange(start as int, i as int), radix as nat),
        decreases s@.len() - i,
    {
        let b = s[i];
        let d: u64 = if '0' as u8 <= b && b <= '9' as u8 && ((b - '0' as u8) as u64) < radix {
            (b - '0' as u8) as u64
        } else if radix == 16 && 'a' as u8 <= b && b <= 'f' as u8 {
            (b - 'a' as u8 + 10) as u64
        } else if radix == 16 && 'A' as u8 <= b && b <= 'F' as u8 {
            (b - 'A' as u8 + 10) as u64
        } else {
            proof {
                assert(digits[i - start] == b);
                assert(digit_value(b, radix as nat) is None);
                assert(!all_digits(digits, radix as nat));
            }
            return None;
        };
        let ghost pre = s@.subrange(start as int, i as int);
        let ghost next = s@.subrange(start as int, i + 1);
        assert(digit_value(b, radix as nat) == Some(d as nat));
        proof {
            assert(next.drop_last() =~= pre);
            assert(next.last() == b);
            assert forall|k: int| 0 <= k < next.len() implies #[trigger] digit_value(
                next[k],
                radix as nat,
            ) is Some by {
                if k < pre.len() {
                    assert(next[k] == pre[k]);
                }
            }
        }
        let m = value.checked_mul(radix);
        if m.is_none() {
            proof {
                assert(next =~= digits.subrange(0, i + 1 - start));
                lemma_digits_value_grows(digits, i + 1 - start, radix as nat);
                assert(digits_value(next, radix as nat) == value * radix + d);
                assert(value * radix > u64::MAX);
            }
            return None;
        }
        let a = m.unwrap().checked_add(d);
        if a.is_none() {
            proof {
                assert(next =~= digits.subrange(0, i + 1 - start));
                lemma_digits_value_grows(digits, i + 1 - start, radix as nat);
                assert(digits_value(next, radix as nat) == value * radix + d);
            }
            return None;
        }
        value = a.unwrap();
        i += 1;
    }
    Some(value)
}

/// The frequency of a record of exactly two fields, if its second field
/// writes one.
pub open spec fn record_frequency(row: Seq<Seq<char>>) -> Option<u64> {
    if row.len() == 2 {
        parse_frequency(encode_utf8(row[1]))
    } else {
        None
    }
}

/// The position of the first record that is not a word and a frequency, or
/// -1 where every record is.
pub open spec fn first_bad_record(rows: Seq<Seq<Seq<char>>>) -> int
    decreases rows.len(),
{
    if rows.len() == 0 {
        -1
    } else if first_bad_record(rows.drop_last()) >= 0 {
        first_bad_record(rows.drop_last())
    } else if record_frequency(rows.last()) is None {
        rows.len() - 1
    } else {
        -1
    }
}

/// The error for the first bad record at position `i`.
pub open spec fn record_error(rows: Seq<Seq<Seq<char>>>, i: int, e: LoadError) -> bool {
    if rows[i].len() != 2 {
        e == LoadError::FieldCount { record: i as usize }
    } else {
        e == LoadError::Frequency { record: i as usize }
    }
}

/// Turns records into words and frequencies. Every record must hold exactly
/// a word and a frequency; the first that does not gives the error.
pub fn word_freqs_from_records(rows: Vec<Vec<String>>) -> (r: Result<Vec<WordFreq>, LoadError>)
    ensures
        match r {
            Ok(v) => first_bad_record(rows_view(rows@)) < 0 && v@.len() == rows@.len() && forall|
                i: int,
            |
                0 <= i < v@.len() ==> (#[trigger] v@[i]).word@ == rows_view(rows@)[i][0]
                    && Some(v@[i].freq) == record_frequency(rows_view(rows@)[i]),
            Err(e) => first_bad_record(rows_view(rows@)) >= 0 && record_error(
                rows_view(rows@),
                first_bad_record(rows_view(rows@)),
                e,
            ),
        },
{
    let ghost all = rows_view(rows@);
    let mut out: Vec<WordFreq> = Vec::with_capacity(rows.len());
    let n = rows.len();
    for i in 0..n
        invariant
            n == rows@.len(),
            all == rows_view(rows@),
            first_bad_record(all.subrange(0, i as int)) < 0,
            out@.len() == i,
            forall|k: int|
                0 <= k < i ==> (#[trigger] out@[k]).word@ == all[k][0] && Some(out@[k].freq)
                    == record_frequency(all[k]),
    {
        let ghost pre = all.subrange(0, i as int);
        proof {
            assert(all.subrange(0, i + 1).drop_last() =~= pre);
        }
        let row = &rows[i];
        if row.len() != 2 {
            proof {
                lemma_first_bad_prefix(all, i as int);
            }
            return Err(LoadError::FieldCount { record: i });
        }
        let f = parse_frequency_field(row[1].as_str().as_bytes());
        match f {
            Some(freq) => {
                out.push(WordFreq { word: row[0].clone(), freq });
            },
            None => {
                proof {
                    lemma_first_bad_prefix(all, i as int);
                }
                return Err(LoadError::Frequency { record: i });
            },
        }
    }
    assert(all.subrange(0, n as int) =~= all);
    Ok(out)
}

/// A bad record right after a prefix without one is the first bad record.
proof fn lemma_first_bad_prefix(rows: Seq<Seq<Seq<char>>>, i: int)
    requires
        0 <= i < rows.len(),
        first_bad_record(rows.subrange(0, i)) < 0,
        record_frequency(rows[i]) is None,
    ensures
        first_bad_record(rows) == i,
    decreases rows.len(),
{
    if rows.len() > i + 1 {
        assert(rows.drop_last().subrange(0, i) =~= rows.subrange(0, i));
        lemma_first_bad_prefix(rows.drop_last(), i);
    } else {
        assert(rows.drop_last() =~= rows.subrange(0, i));
    }
}

impl Wordlist {
    /// Builds a word list from words and frequencies, kept in the given order.
    pub fn from_word_freqs(words: Vec<WordFreq>) -> (r: Wordlist)
        ensures
            r@.len() == words@.len(),
            forall|i: int|
                0 <= i < r@.len() ==> (#[trigger] r@[i]).word == words@[i].word && r@[i].slug@
                    == slug_of(words@[i].word@) && r@[i].freq == words@[i].freq,
    {
        let mut entries: Vec<WordlistEntry> = Vec::with_capacity(words.len());
        let ghost src = words@;
        for wf in it: words.into_iter()
            invariant
                it.seq() == src,
                entries@.len() == it.index(),
                forall|i: int|
                    0 <= i < entries@.len() ==> (#[trigger] entries@[i]).word == src[i].word
                        && entries@[i].slug@ == slug_of(src[i].word@) && entries@[i].freq
                        == src[i].freq,
        {
            entries.push(WordlistEntry::from_word_freq(wf));
        }
        Wordlist::from_entries(entries)
    }

    /// Reads a word list from its text: CSV without a header row, each
    /// record a word and its frequency.
    pub fn load_from_bytes(text: &[u8]) -> (r: Result<Wordlist, LoadError>)
        ensures
            match csv_records(text@) {
                None => r matches Err(LoadError::Csv(_)),
                Some(rows) => match r {
                    Ok(w) => first_bad_record(rows) < 0 && w@.len() == rows.len() && forall|
                        i: int,
                    |
                        0 <= i < w@.len() ==> (#[trigger] w@[i]).word@ == rows[i][0]
                            && w@[i].slug@ == slug_of(rows[i][0]) && Some(w@[i].freq)
                            == record_frequency(rows[i]),
                    Err(e) => first_bad_record(rows) >= 0 && record_error(
                        rows,
                        first_bad_record(rows),
                        e,
                    ),
                },
            },
    {
        match read_csv_records(text) {
            Ok(rows) => match word_freqs_from_records(rows) {
                Ok(words) => Ok(Wordlist::from_word_freqs(words)),
                Err(e) => Err(e),
            },
            Err(e) => Err(LoadError::Csv(e)),
        }
    }
}

} // verus!
