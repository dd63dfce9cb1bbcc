//! Codes: Morse code, the genetic code and Braille.

use vstd::prelude::*;
use vstd::string::StringSliceAdditionalSpecFns;
use crate::letter::{Letter, is_upper_byte, lett_to_num_0};
use crate::word::Text;

verus! {

/// The characters that have a Morse code.
pub open spec fn morse_chars() -> Seq<char> {
    seq![
        'A', 'B', 'C', 'D', 'E', 'F', 'G', 'H', 'I', 'J', 'K', 'L', 'M', 'N', 'O', 'P', 'Q', 'R',
        'S', 'T', 'U', 'V', 'W', 'X', 'Y', 'Z', '0', '1', '2', '3', '4', '5', '6', '7', '8', '9',
    ]
}

/// The Morse code of each character of `morse_chars`.
pub open spec fn morse_codes() -> Seq<&'static str> {
    seq![
        ".-", "-...", "-.-.", "-..", ".", "..-.", "--.", "....", "..", ".---", "-.-", ".-..", "--",
        "-.", "---", ".--.", "--.-", ".-.", "...", "-", "..-", "...-", ".--", "-..-", "-.--",
        "--..", "-----", ".----", "..---", "...--", "....-", ".....", "-....", "--...", "---..",
        "----.",
    ]
}

/// The DNA codons that code for an amino acid (stop codons code for none).
pub open spec fn dna_codons() -> Seq<&'static str> {
    seq![
        "TTT", "TTC", "TTA", "TTG", "CTT", "CTC", "CTA", "CTG", "ATT", "ATC", "ATA", "ATG", "GTT",
        "GTC", "GTA", "GTG", "TCT", "TCC", "TCA", "TCG", "CCT", "CCC", "CCA", "CCG", "ACT", "ACC",
        "ACA", "ACG", "GCT", "GCC", "GCA", "GCG", "TAT", "TAC", "CAT", "CAC", "CAA", "CAG", "AAT",
        "AAC", "AAA", "AAG", "GAT", "GAC", "GAA", "GAG", "TGT", "TGC", "TGG", "CGT", "CGC", "CGA",
        "CGG", "AGT", "AGC", "AGA", "AGG", "GGT", "GGC", "GGA", "GGG",
    ]
}

/// The letter of the amino acid of each codon of `dna_codons`.
pub open spec fn amino_letters() -> Seq<char> {
    seq![
        'F', 'F', 'L', 'L', 'L', 'L', 'L', 'L', 'I', 'I', 'I', 'M', 'V', 'V', 'V', 'V', 'S', 'S',
        'S', 'S', 'P', 'P', 'P', 'P', 'T', 'T', 'T', 'T', 'A', 'A', 'A', 'A', 'Y', 'Y', 'H', 'H',
        'Q', 'Q', 'N', 'N', 'K', 'K', 'D', 'D', 'E', 'E', 'C', 'C', 'W', 'R', 'R', 'R', 'R', 'S',
        'S', 'R', 'R', 'G', 'G', 'G', 'G',
    ]
}

/// The Braille cell of each letter `A` to `Z`, one bit per dot.
pub open spec fn braille_cells() -> Seq<u8> {
    seq![
        0x1u8, 0x3, 0x9, 0x19, 0x11, 0xb, 0x1b, 0x13, 0xa, 0x1a, 0x5, 0x7, 0xd, 0x1d, 0x15, 0xf,
        0x1f, 0x17, 0xe, 0x1e, 0x25, 0x27, 0x3a, 0x2d, 0x3d, 0x35,
    ]
}

/// The uppercase form of an ASCII character; other characters are unchanged.
pub open spec fn upper_char(c: char) -> char {
    if 'a' <= c <= 'z' {
        ((c as u32) - 32) as char
    } else {
        c
    }
}

/// The position of the first code whose bytes are `s`, if any.
fn find_code(codes: &Vec<&'static str>, s: &[u8]) -> (r: Option<usize>)
    ensures
        match r {
            Some(i) => i < codes@.len() && codes@[i as int].spec_bytes() == s@,
            None => forall|i: int| 0 <= i < codes@.len() ==> #[trigger] codes@[i].spec_bytes() != s@,
        },
{
    for i in 0..codes.len()
        invariant
            forall|j: int| 0 <= j < i ==> #[trigger] codes@[j].spec_bytes() != s@,
    {
        let c = codes[i].as_bytes();
        if bytes_eq(c, s) {
            return Some(i);
        }
    }
    None
}

/// Whether two byte slices are equal.
fn bytes_eq(a: &[u8], b: &[u8]) -> (r: bool)
    ensures
        r == (a@ == b@),
{
    if a.len() != b.len() {
        return false;
    }
    for i in 0..a.len()
        invariant
            a@.len() == b@.len(),
            forall|j: int| 0 <= j < i ==> a@[j] == b@[j],
    {
        if a[i] != b[i] {
            return false;
        }
    }
    assert(a@ =~= b@);
    true
}

/// Returns the Morse code of the given character (letters in either case,
/// and digits).
pub fn to_morse(c: char) -> (r: Option<&'static str>)
    ensures
        match r {
            Some(m) => exists|i: int|
                0 <= i < morse_chars().len() && #[trigger] morse_chars()[i] == upper_char(c) && m
                    == morse_codes()[i],
            None => forall|i: int|
                0 <= i < morse_chars().len() ==> #[trigger] morse_chars()[i] != upper_char(c),
        },
{
    let chars: Vec<char> = vec![
        'A', 'B', 'C', 'D', 'E', 'F', 'G', 'H', 'I', 'J', 'K', 'L', 'M', 'N', 'O', 'P', 'Q', 'R',
        'S', 'T', 'U', 'V', 'W', 'X', 'Y', 'Z', '0', '1', '2', '3', '4', '5', '6', '7', '8', '9',
    ];
    let codes: Vec<&'static str> = vec![
        ".-", "-...", "-.-.", "-..", ".", "..-.", "--.", "....", "..", ".---", "-.-", ".-..", "--",
        "-.", "---", ".--.", "--.-", ".-.", "...", "-", "..-", "...-", ".--", "-..-", "-.--",
        "--..", "-----", ".----", "..---", "...--", "....-", ".....", "-....", "--...", "---..",
        "----.",
    ];
    assert(chars@ == morse_chars());
    assert(codes@ == morse_codes());
    let u = if 'a' <= c && c <= 'z' {
        ((c as u8) - 32) as char
    } else {
        c
    };
    for i in 0..chars.len()
        invariant
            chars@ == morse_chars(),
            codes@ == morse_codes(),
            u == upper_char(c),
            forall|j: int| 0 <= j < i ==> #[trigger] morse_chars()[j] != u,
    {
        if chars[i] == u {
            return Some(codes[i]);
        }
    }
    None
}

/// Returns the character with the given Morse code, if there is one.
pub fn from_morse<S: Text>(s: S) -> (r: Option<char>)
    ensures
        match r {
            Some(c) => exists|i: int|
                0 <= i < morse_codes().len() && #[trigger] morse_codes()[i].spec_bytes()
                    == s.text_bytes() && c == morse_chars()[i],
            None => forall|i: int|
                0 <= i < morse_codes().len() ==> #[trigger] morse_codes()[i].spec_bytes()
                    != s.text_bytes(),
        },
{
    let chars: Vec<char> = vec![
        'A', 'B', 'C', 'D', 'E', 'F', 'G', 'H', 'I', 'J', 'K', 'L', 'M', 'N', 'O', 'P', 'Q', 'R',
        'S', 'T', 'U', 'V', 'W', 'X', 'Y', 'Z', '0', '1', '2', '3', '4', '5', '6', '7', '8', '9',
    ];
    let codes: Vec<&'static str> = vec![
        ".-", "-...", "-.-.", "-..", ".", "..-.", "--.", "....", "..", ".---", "-.-", ".-..", "--",
        "-.", "---", ".--.", "--.-", ".-.", "...", "-", "..-", "...-", ".--", "-..-", "-.--",
        "--..", "-----", ".----", "..---", "...--", "....-", ".....", "-....", "--...", "---..",
        "----.",
    ];
    assert(chars@ == morse_chars());
    assert(codes@ == morse_codes());
    match find_code(&codes, s.as_bytes()) {
        Some(i) => Some(chars[i]),
        None => None,
    }
}

/// Returns the letter of the amino acid that the given three-letter DNA
/// codon codes for.
pub fn dna_letter<S: Text>(s: S) -> (r: Option<char>)
    ensures
        match r {
            Some(c) => exists|i: int|
                0 <= i < dna_codons().len() && #[trigger] dna_codons()[i].spec_bytes()
                    == s.text_bytes() && c == amino_letters()[i],
            None => forall|i: int|
                0 <= i < dna_codons().len() ==> #[trigger] dna_codons()[i].spec_bytes()
                    != s.text_bytes(),
        },
{
    codon_letter(s.as_bytes())
}

fn codon_letter(s: &[u8]) -> (r: Option<char>)
    ensures
        match r {
            Some(c) => exists|i: int|
                0 <= i < dna_codons().len() && #[trigger] dna_codons()[i].spec_bytes() == s@
                    && c == amino_letters()[i],
            None => forall|i: int|
                0 <= i < dna_codons().len() ==> #[trigger] dna_codons()[i].spec_bytes() != s@,
        },
{
    let codons: Vec<&'static str> = vec![
        "TTT", "TTC", "TTA", "TTG", "CTT", "CTC", "CTA", "CTG", "ATT", "ATC", "ATA", "ATG", "GTT",
        "GTC", "GTA", "GTG", "TCT", "TCC", "TCA", "TCG", "CCT", "CCC", "CCA", "CCG", "ACT", "ACC",
        "ACA", "ACG", "GCT", "GCC", "GCA", "GCG", "TAT", "TAC", "CAT", "CAC", "CAA", "CAG", "AAT",
        "AAC", "AAA", "AAG", "GAT", "GAC", "GAA", "GAG", "TGT", "TGC", "TGG", "CGT", "CGC", "CGA",
        "CGG", "AGT", "AGC", "AGA", "AGG", "GGT", "GGC", "GGA", "GGG",
    ];
    let letters: Vec<char> = vec![
        'F', 'F', 'L', 'L', 'L', 'L', 'L', 'L', 'I', 'I', 'I', 'M', 'V', 'V', 'V', 'V', 'S', 'S',
        'S', 'S', 'P', 'P', 'P', 'P', 'T', 'T', 'T', 'T', 'A', 'A', 'A', 'A', 'Y', 'Y', 'H', 'H',
        'Q', 'Q', 'N', 'N', 'K', 'K', 'D', 'D', 'E', 'E', 'C', 'C', 'W', 'R', 'R', 'R', 'R', 'S',
        'S', 'R', 'R', 'G', 'G', 'G', 'G',
    ];
    assert(codons@ == dna_codons());
    assert(letters@ == amino_letters());
    match find_code(&codons, s) {
        Some(i) => Some(letters[i]),
        None => None,
    }
}

/// The DNA form of RNA bytes: `U` becomes `T`; `T`, which RNA lacks, becomes
/// `U`, which no DNA codon holds.
pub open spec fn dna_form(b: u8) -> u8 {
    if b == 'U' as u8 {
        'T' as u8
    } else if b == 'T' as u8 {
        'U' as u8
    } else {
        b
    }
}

/// Returns the letter of the amino acid that the given three-letter RNA
/// codon codes for.
pub fn rna_letter<S: Text>(s: S) -> (r: Option<char>)
    ensures
        match r {
            Some(c) => exists|i: int|
                0 <= i < dna_codons().len() && #[trigger] dna_codons()[i].spec_bytes()
                    == s.text_bytes().map_values(|b: u8| dna_form(b)) && c == amino_letters()[i],
            None => forall|i: int|
                0 <= i < dna_codons().len() ==> #[trigger] dna_codons()[i].spec_bytes()
                    != s.text_bytes().map_values(|b: u8| dna_form(b)),
        },
{
    let b = s.as_bytes();
    let mut v: Vec<u8> = Vec::with_capacity(b.len());
    for i in 0..b.len()
        invariant
            b@ == s.text_bytes(),
            v@ == b@.subrange(0, i as int).map_values(|b: u8| dna_form(b)),
    {
        let c = b[i];
        let d = if c == 'U' as u8 {
            'T' as u8
        } else if c == 'T' as u8 {
            'U' as u8
        } else {
            c
        };
        v.push(d);
        assert(v@ =~= b@.subrange(0, i + 1).map_values(|b: u8| dna_form(b)));
    }
    assert(b@.subrange(0, b@.len() as int) =~= b@);
    codon_letter(v.as_slice())
}

/// The number of bits set in a byte.
pub open spec fn ones(x: u8) -> nat
    decreases x,
{
    if x == 0 {
        0
    } else {
        (x % 2) as nat + ones(x / 2)
    }
}

proof fn lemma_ones_bound(x: u8)
    ensures
        ones(x) <= x,
    decreases x,
{
    if x != 0 {
        lemma_ones_bound(x / 2);
    }
}

fn braille_bits<L: Letter>(l: L) -> (r: u8)
    requires
        is_upper_byte(l.letter_byte()),
    ensures
        r == braille_cells()[l.letter_byte() - 'A' as u8],
{
    let cells: Vec<u8> = vec![
        0x1u8, 0x3, 0x9, 0x19, 0x11, 0xb, 0x1b, 0x13, 0xa, 0x1a, 0x5, 0x7, 0xd, 0x1d, 0x15, 0xf,
        0x1f, 0x17, 0xe, 0x1e, 0x25, 0x27, 0x3a, 0x2d, 0x3d, 0x35,
    ];
    assert(cells@ == braille_cells());
    cells[lett_to_num_0(l.byte())]
}

/// The number of dots in which the Braille cells of two letters differ.
pub fn braille_distance<L: Letter, M: Letter>(l1: L, l2: M) -> (r: u32)
    requires
        is_upper_byte(l1.letter_byte()),
        is_upper_byte(l2.letter_byte()),
    ensures
        r == ones(
            braille_cells()[l1.letter_byte() - 'A' as u8] ^ braille_cells()[l2.letter_byte()
                - 'A' as u8],
        ),
{
    let mut x = braille_bits(l1) ^ braille_bits(l2);
    let ghost total = ones(x);
    proof {
        lemma_ones_bound(x);
    }
    let mut count: u32 = 0;
    while x != 0
        invariant
            count + ones(x) == total,
            total <= 255,
        decreases x,
    {
        count += (x % 2) as u32;
        x = x / 2;
    }
    count
}

} // verus!
