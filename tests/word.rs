use puzzletools::word::{
    alphagram, anagram_difference, double_letters, is_addition, is_intertwine,
    num_unique_letters, repeated_bigrams, slug_len, slugify, special_letter_block,
    all_unique_letters, ciphergram, deleted_letter_iter, Text,
};
use puzzletools::letter::is_roman_numeral_letter;

#[test]
fn alphagram_test() {
    assert_eq!(alphagram("POTATO"), "AOOPTT");
}

#[test]
fn unique_test() {
    assert_eq!(num_unique_letters("POTATO"), 4);
}

#[test]
fn addition_test() {
    assert!(is_addition("POTATO", "POTATOS", 1));
    assert!(!is_addition("POTATO", "POTATO", 1));
    assert!(!is_addition("POTATO", "POTATOES", 1));
    assert!(!is_addition("MESSAGE", "MESO", 1));
}

#[test]
fn double_test() {
    assert_eq!(double_letters("NEEDLESS"), "ES");
}

#[test]
fn repeated_test() {
    assert_eq!(repeated_bigrams("APPLEDUMPLING"), vec![*b"PL"]);
}

#[test]
fn repeated_bigrams_counts_each_repeat() {
    assert_eq!(repeated_bigrams("ONGOING"), vec![*b"NG"]);
    assert_eq!(repeated_bigrams("ABABAB"), vec![*b"AB", *b"BA", *b"AB"]);
    assert_eq!(repeated_bigrams("A"), Vec::<[u8; 2]>::new());
}

#[test]
fn slugify_keeps_uppercase_letters() {
    assert_eq!(slugify("ONE 2 THREE"), "ONETHREE");
    assert_eq!(slugify("ASCII STRING"), "ASCIISTRING");
    assert_eq!(slugify("it's"), "");
}

#[test]
fn slugify_is_idempotent() {
    let once = slugify("HELLO, WORLD! 42");
    assert_eq!(once, "HELLOWORLD");
    assert_eq!(slugify(&once), once);
    assert!(once.bytes().all(|b| b.is_ascii_uppercase()));
}

#[test]
fn slug_len_counts_letters() {
    assert_eq!(slug_len("ASCII STRING"), 11);
    assert_eq!(slug_len(""), 0);
}

#[test]
fn alphagram_detects_anagrams() {
    assert_eq!(alphagram("SPOON"), alphagram("SNOOP"));
    assert_ne!(alphagram("SPOON"), alphagram("SPONN"));
}

#[test]
fn all_unique_letters_test() {
    assert!(all_unique_letters("THUNDERCLAPS"));
    assert!(!all_unique_letters("LETTERS"));
    assert!(all_unique_letters(""));
}

#[test]
fn num_unique_letters_letters() {
    assert_eq!(num_unique_letters("LETTERS"), 5);
    assert_eq!(num_unique_letters(""), 0);
}

#[test]
fn addition_anywhere() {
    assert!(is_addition("PORE", "SPORE", 1));
    assert!(is_addition("ACE", "PLACES", 3));
    assert!(!is_addition("ACE", "PLACES", 2));
}

#[test]
fn special_letter_block_test() {
    assert_eq!(special_letter_block("ARXIV", is_roman_numeral_letter), Some(2..5));
    assert_eq!(special_letter_block("REFLEXIVE", is_roman_numeral_letter), None);
    assert_eq!(special_letter_block("THROUGHOUT", is_roman_numeral_letter), None);
    assert_eq!(special_letter_block("MIX", is_roman_numeral_letter), Some(0..3));
}

#[test]
fn intertwine_test() {
    assert!(is_intertwine("INTERTWINE", "INERT", "TWINE"));
    assert!(!is_intertwine("INTERTWINE", "INERT", "TWIN"));
    assert!(!is_intertwine("INTERTWINE", "INERT", "SWINE"));
}

#[test]
fn anagram_difference_test() {
    assert_eq!(anagram_difference("DIFFERENCE", "FRIEDFENCE"), (0, 0));
    assert_eq!(anagram_difference("DIFFERENCE", "FIERCEEND"), (1, 0));
    assert_eq!(anagram_difference("DIFFERENCE", "REFINEDFACE"), (0, 1));
    assert_eq!(anagram_difference("DIFFERENCE", "AIRDEFENCE"), (1, 1));
}

#[test]
fn deleted_letters_test() {
    let texts: Vec<String> = deleted_letter_iter("ABC").iter().map(|i| i.text()).collect();
    assert_eq!(texts, vec!["BC", "AC", "AB"]);
    let items = deleted_letter_iter("ABC");
    assert_eq!(items[1].position(), 1);
    assert_eq!(items[1].deleted_char(), 'B');
    assert_eq!(items[1].original_text(), "ABC");
}

#[test]
fn text_indexing() {
    assert_eq!("TEXT".byte(2), b'X');
    assert_eq!("TEXT".byte_1(3), b'X');
    assert_eq!("TEXT".char(2), 'X');
    assert_eq!("TEXT".char_1(3), 'X');
    assert_eq!("TEXT".get_char_1(3), Some('X'));
    assert_eq!("TEXT".get_char_1(5), None);
    assert_eq!(b"TEXT".to_vec().get_byte(0), Some(b'T'));
    assert_eq!("TEXT".reversed(), "TXET");
    assert!("TEXT".char_eq(0, 'T'));
    assert!(!"TEXT".byte_eq(9, b'T'));
}

#[test]
fn ciphergram_test() {
    assert_eq!(ciphergram("POTATO"), "ABCDCB");
}

#[test]
fn ciphergram_matches_substitutions() {
    assert_eq!(ciphergram("POTATO"), ciphergram("UNEVEN"));
    assert_ne!(ciphergram("POTATO"), ciphergram("BANANA"));
    assert_eq!(ciphergram("ABCDEFGHIJKLMNOPQRSTUVWXYZ"), "ABCDEFGHIJKLMNOPQRSTUVWXYZ");
    assert_eq!(ciphergram("ZYX"), "ABC");
    assert_eq!(ciphergram(""), "");
}
