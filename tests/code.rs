use puzzletools::code::{braille_distance, dna_letter, from_morse, rna_letter, to_morse};
use puzzletools::data::{chemical_elements, map_by, parse_as_element_symbols};

#[test]
fn morse_test() {
    assert_eq!(to_morse('m'), Some("--"));
    assert_eq!(to_morse('M'), Some("--"));
    assert_eq!(to_morse('7'), Some("--..."));
    assert_eq!(to_morse('?'), None);
    assert_eq!(from_morse("--"), Some('M'));
    assert_eq!(from_morse("...---..."), None);
    assert_eq!(from_morse(to_morse('q').unwrap()), Some('Q'));
}

#[test]
fn genetic_code_test() {
    assert_eq!(dna_letter("ATA"), Some('I'));
    assert_eq!(dna_letter("ATG"), Some('M'));
    assert_eq!(dna_letter("TAA"), None);
    assert_eq!(dna_letter("AUA"), None);
    assert_eq!(rna_letter("AUA"), Some('I'));
    assert_eq!(rna_letter("UGG"), Some('W'));
    assert_eq!(rna_letter("ATA"), None);
}

#[test]
fn braille_test() {
    assert_eq!(braille_distance('Q', 'W'), 3);
    assert_eq!(braille_distance('Q', 'R'), 1);
    assert_eq!(braille_distance('C', 'W'), 4);
    assert_eq!(braille_distance(b'A', 'A'), 0);
}

#[test]
fn elements_table() {
    let els = chemical_elements();
    assert_eq!(els.len(), 118);
    assert_eq!(els[3].symbol, "Be");
    assert_eq!(els[3].number, 4);
    assert_eq!(els[117].name, "Oganesson");
}

#[test]
fn element_symbols_parse() {
    let (freq, symbs) = parse_as_element_symbols("THESOUTH");
    assert_eq!(freq, 1);
    let symb_strs: Vec<String> = symbs.unwrap().iter().map(|e| e.symbol.clone()).collect();
    assert_eq!(symb_strs, vec!["Th", "Es", "O", "U", "Th"]);
}

#[test]
fn element_symbols_parse_counts_and_failures() {
    let (freq, symbs) = parse_as_element_symbols("NOG");
    assert_eq!(freq, 1);
    let symb_strs: Vec<String> = symbs.unwrap().iter().map(|e| e.symbol.clone()).collect();
    assert_eq!(symb_strs, vec!["N", "Og"]);
    let (freq, symbs) = parse_as_element_symbols("CSI");
    assert_eq!(freq, 3);
    assert!(symbs.is_some());
    assert_eq!(parse_as_element_symbols("XYZ").0, 0);
    assert!(parse_as_element_symbols("XYZ").1.is_none());
    let (freq, symbs) = parse_as_element_symbols("");
    assert_eq!(freq, 1);
    assert!(symbs.unwrap().is_empty());
}

#[test]
fn map_by_symbol() {
    let by_symbol = map_by(chemical_elements(), |e| e.symbol.clone());
    assert_eq!(by_symbol["Be"].number, 4);
    assert_eq!(by_symbol.len(), 118);
    let by_parity = map_by(vec![1u32, 2, 3, 4], |x| *x % 2);
    assert_eq!(by_parity[&1], 3);
    assert_eq!(by_parity[&0], 4);
}
