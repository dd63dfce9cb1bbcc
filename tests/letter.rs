use puzzletools::iter::unique_element;
use puzzletools::letter::{
    is_ascender, is_descender, is_dna_letter, is_news_letter, is_rna_letter,
    is_roman_numeral_letter, is_vowel_no_y, is_vowel_y, lett_to_num_0, scrabble_value,
};

#[test]
fn letter_predicates() {
    assert!(is_dna_letter('A'));
    assert!(is_dna_letter(b'A'));
    assert!(!is_dna_letter('U'));
    assert!(is_rna_letter(&'U'));
    assert!(is_vowel_y('Y'));
    assert!(!is_vowel_no_y('Y'));
    assert!(is_news_letter(&b'W'));
    assert!(is_roman_numeral_letter('M'));
    assert!(is_ascender('K'));
    assert!(is_descender('Q'));
    assert!(!is_descender('A'));
}

#[test]
fn letter_numbers_and_scores() {
    assert_eq!(lett_to_num_0(b'E'), 4);
    assert_eq!(lett_to_num_0(b'A'), 0);
    assert_eq!(scrabble_value('Q'), 10);
    assert_eq!(scrabble_value('K'), 5);
    assert_eq!(scrabble_value('.'), 0);
    assert_eq!(scrabble_value(b'E'), 1);
}

#[test]
fn unique_element_test() {
    assert_eq!(unique_element(Vec::<i32>::new()), None);
    assert_eq!(unique_element(vec![1]), Some(1));
    assert_eq!(unique_element(vec![1, 2]), None);
}
