//! Tests for commonly used properties of individual letters.

use vstd::prelude::*;

verus! {

/// A byte or a character. The predicates of this module accept either.
pub trait Letter: Sized {
    /// The byte that this letter stands for.
    spec fn letter_byte(self) -> u8;

    fn byte(self) -> (r: u8)
        ensures
            r == self.letter_byte(),
    ;
}

impl Letter for u8 {
    open spec fn letter_byte(self) -> u8 {
        self
    }

    fn byte(self) -> (r: u8) {
        self
    }
}

impl<'a> Letter for &'a u8 {
    open spec fn letter_byte(self) -> u8 {
        *self
    }

    fn byte(self) -> (r: u8) {
        *self
    }
}

impl Letter for char {
    open spec fn letter_byte(self) -> u8 {
        self as u8
    }

    fn byte(self) -> (r: u8) {
        self as u8
    }
}

impl<'a> Letter for &'a char {
    open spec fn letter_byte(self) -> u8 {
        *self as u8
    }

    fn byte(self) -> (r: u8) {
        *self as u8
    }
}

/// Uppercase ASCII letters `A` to `Z`.
pub open spec fn is_upper_byte(c: u8) -> bool {
    ('A' as u8) <= c <= ('Z' as u8)
}

/// Converts an uppercase letter into a number, zero-offset: `A` becomes 0.
pub fn lett_to_num_0(c: u8) -> (r: usize)
    requires
        ('A' as u8) <= c,
    ensures
        r == c - ('A' as u8),
{
    (c - ('A' as u8)) as usize
}

/// A letter of the DNA alphabet: `A`, `C`, `T` or `G`.
pub open spec fn dna_byte(b: u8) -> bool {
    b == 'A' as u8 || b == 'C' as u8 || b == 'T' as u8 || b == 'G' as u8
}

/// Returns `true` if the letter is a letter of the DNA alphabet: `A`, `C`, `T` or `G`.
pub fn is_dna_letter<L: Letter>(c: L) -> (r: bool)
    ensures
        r == dna_byte(c.letter_byte()),
{
    let b = c.byte();
    b == 'A' as u8 || b == 'C' as u8 || b == 'T' as u8 || b == 'G' as u8
}

/// A letter of the RNA alphabet: `A`, `C`, `U` or `G`.
pub open spec fn rna_byte(b: u8) -> bool {
    b == 'A' as u8 || b == 'C' as u8 || b == 'U' as u8 || b == 'G' as u8
}

/// Returns `true` if the letter is a letter of the RNA alphabet: `A`, `C`, `U` or `G`.
pub fn is_rna_letter<L: Letter>(c: L) -> (r: bool)
    ensures
        r == rna_byte(c.letter_byte()),
{
    let b = c.byte();
    b == 'A' as u8 || b == 'C' as u8 || b == 'U' as u8 || b == 'G' as u8
}

/// A vowel, counting `Y`.
pub open spec fn vowel_y_byte(b: u8) -> bool {
    b == 'A' as u8 || b == 'E' as u8 || b == 'I' as u8 || b == 'O' as u8 || b == 'U' as u8 || b == 'Y' as u8
}

/// Returns `true` if the letter is a vowel, counting `Y`.
pub fn is_vowel_y<L: Letter>(c: L) -> (r: bool)
    ensures
        r == vowel_y_byte(c.letter_byte()),
{
    let b = c.byte();
    b == 'A' as u8 || b == 'E' as u8 || b == 'I' as u8 || b == 'O' as u8 || b == 'U' as u8 || b == 'Y' as u8
}

/// A vowel, not counting `Y`.
pub open spec fn vowel_no_y_byte(b: u8) -> bool {
    b == 'A' as u8 || b == 'E' as u8 || b == 'I' as u8 || b == 'O' as u8 || b == 'U' as u8
}

/// Returns `true` if the letter is a vowel, not counting `Y`.
pub fn is_vowel_no_y<L: Letter>(c: L) -> (r: bool)
    ensures
        r == vowel_no_y_byte(c.letter_byte()),
{
    let b = c.byte();
    b == 'A' as u8 || b == 'E' as u8 || b == 'I' as u8 || b == 'O' as u8 || b == 'U' as u8
}

/// One of the compass letters `N`, `E`, `W`, `S`.
pub open spec fn news_byte(b: u8) -> bool {
    b == 'E' as u8 || b == 'N' as u8 || b == 'S' as u8 || b == 'W' as u8
}

/// Returns `true` if the letter is one of the compass letters `N`, `E`, `W`, `S`.
pub fn is_news_letter<L: Letter>(c: L) -> (r: bool)
    ensures
        r == news_byte(c.letter_byte()),
{
    let b = c.byte();
    b == 'E' as u8 || b == 'N' as u8 || b == 'S' as u8 || b == 'W' as u8
}

/// A letter used in Roman numerals.
pub open spec fn roman_numeral_byte(b: u8) -> bool {
    b == 'I' as u8 || b == 'V' as u8 || b == 'X' as u8 || b == 'L' as u8 || b == 'C' as u8 || b == 'D' as u8 || b == 'M' as u8
}

/// Returns `true` if the letter is a letter used in Roman numerals.
pub fn is_roman_numeral_letter<L: Letter>(c: L) -> (r: bool)
    ensures
        r == roman_numeral_byte(c.letter_byte()),
{
    let b = c.byte();
    b == 'I' as u8 || b == 'V' as u8 || b == 'X' as u8 || b == 'L' as u8 || b == 'C' as u8 || b == 'D' as u8 || b == 'M' as u8
}

/// An uppercase letter whose lowercase form has an ascender.
pub open spec fn ascender_byte(b: u8) -> bool {
    b == 'B' as u8 || b == 'D' as u8 || b == 'F' as u8 || b == 'H' as u8 || b == 'K' as u8 || b == 'L' as u8 || b == 'T' as u8
}

/// Returns `true` if the letter is an uppercase letter whose lowercase form has an ascender.
pub fn is_ascender<L: Letter>(c: L) -> (r: bool)
    ensures
        r == ascender_byte(c.letter_byte()),
{
    let b = c.byte();
    b == 'B' as u8 || b == 'D' as u8 || b == 'F' as u8 || b == 'H' as u8 || b == 'K' as u8 || b == 'L' as u8 || b == 'T' as u8
}

/// An uppercase letter whose lowercase form has a descender.
pub open spec fn descender_byte(b: u8) -> bool {
    b == 'G' as u8 || b == 'J' as u8 || b == 'P' as u8 || b == 'Q' as u8 || b == 'Y' as u8
}

/// Returns `true` if the letter is an uppercase letter whose lowercase form has a descender.
pub fn is_descender<L: Letter>(c: L) -> (r: bool)
    ensures
        r == descender_byte(c.letter_byte()),
{
    let b = c.byte();
    b == 'G' as u8 || b == 'J' as u8 || b == 'P' as u8 || b == 'Q' as u8 || b == 'Y' as u8
}

/// Scrabble tile values; `.` stands for a blank tile.
pub open spec fn scrabble_points(b: u8) -> u32 {
    if b == 'A' as u8 || b == 'E' as u8 || b == 'I' as u8 || b == 'O' as u8 || b == 'U' as u8
        || b == 'L' as u8 || b == 'N' as u8 || b == 'S' as u8 || b == 'T' as u8 || b == 'R' as u8 {
        1
    } else if b == 'D' as u8 || b == 'G' as u8 {
        2
    } else if b == 'B' as u8 || b == 'C' as u8 || b == 'M' as u8 || b == 'P' as u8 {
        3
    } else if b == 'F' as u8 || b == 'H' as u8 || b == 'V' as u8 || b == 'W' as u8 || b == 'Y' as u8 {
        4
    } else if b == 'K' as u8 {
        5
    } else if b == 'J' as u8 || b == 'X' as u8 {
        8
    } else if b == 'Q' as u8 || b == 'Z' as u8 {
        10
    } else {
        0
    }
}

/// The Scrabble value of an uppercase letter, or 0 for a blank (`.`).
pub fn scrabble_value<L: Letter>(c: L) -> (r: u32)
    requires
        is_upper_byte(c.letter_byte()) || c.letter_byte() == '.' as u8,
    ensures
        r == scrabble_points(c.letter_byte()),
{
    let b = c.byte();
    if b == 'A' as u8 || b == 'E' as u8 || b == 'I' as u8 || b == 'O' as u8 || b == 'U' as u8
        || b == 'L' as u8 || b == 'N' as u8 || b == 'S' as u8 || b == 'T' as u8 || b == 'R' as u8 {
        1
    } else if b == 'D' as u8 || b == 'G' as u8 {
        2
    } else if b == 'B' as u8 || b == 'C' as u8 || b == 'M' as u8 || b == 'P' as u8 {
        3
    } else if b == 'F' as u8 || b == 'H' as u8 || b == 'V' as u8 || b == 'W' as u8 || b == 'Y' as u8 {
        4
    } else if b == 'K' as u8 {
        5
    } else if b == 'J' as u8 || b == 'X' as u8 {
        8
    } else if b == 'Q' as u8 || b == 'Z' as u8 {
        10
    } else {
        0
    }
}

} // verus!
