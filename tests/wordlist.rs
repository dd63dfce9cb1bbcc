use puzzletools::corpus::LoadError;
use puzzletools::search::{sort_results, SearchResult};
use puzzletools::wordlist::{
    pairs, pairs_filter, pairs_iter, DuplicateSlug, WordFreq, Wordlist, WordlistEntry,
};

fn two_words() -> Wordlist {
    Wordlist::load_from_bytes(b"AIRS,1\nPAIRS,1").unwrap()
}

#[test]
fn load_round_trip() {
    let wl = Wordlist::load_from_bytes(b"TWO,2").unwrap();
    assert_eq!(wl.freq("TWO"), 2);
    assert_eq!(wl.freq("ONE"), 0);
    assert_eq!(wl.freq("MISSING"), 0);
}

#[test]
fn load_keeps_word_and_slug() {
    let wl = Wordlist::load_from_bytes(b"NEW YORK,7\nIT'S,3\n").unwrap();
    assert_eq!(wl.len(), 2);
    let e = wl.get("NEWYORK").unwrap();
    assert_eq!(e.word, "NEW YORK");
    assert_eq!(e.slug, "NEWYORK");
    assert_eq!(e.freq, 7);
    assert_eq!(wl.freq("ITS"), 3);
    assert_eq!(wl.iter()[1].word, "IT'S");
}

#[test]
fn load_reads_hex_and_plus_frequencies() {
    let wl = Wordlist::load_from_bytes(b"A,0x1F\nB,+12\nC,18446744073709551615").unwrap();
    assert_eq!(wl.freq("A"), 31);
    assert_eq!(wl.freq("B"), 12);
    assert_eq!(wl.freq("C"), u64::MAX);
}

#[test]
fn load_rejects_bad_frequency() {
    match Wordlist::load_from_bytes(b"ONE,1\nTWO,two") {
        Err(LoadError::Frequency { record }) => assert_eq!(record, 1),
        other => panic!("unexpected result {:?}", other.map(|w| w.len())),
    }
    match Wordlist::load_from_bytes(b"BIG,18446744073709551616") {
        Err(LoadError::Frequency { record }) => assert_eq!(record, 0),
        other => panic!("unexpected result {:?}", other.map(|w| w.len())),
    }
}

#[test]
fn load_rejects_missing_field() {
    match Wordlist::load_from_bytes(b"ONE\nTWO\n") {
        Err(LoadError::FieldCount { record }) => assert_eq!(record, 0),
        other => panic!("unexpected result {:?}", other.map(|w| w.len())),
    }
}

#[test]
fn load_rejects_unequal_records() {
    match Wordlist::load_from_bytes(b"ONE,1\nTWO,2,3\n") {
        Err(LoadError::Csv(_)) => {}
        other => panic!("unexpected result {:?}", other.map(|w| w.len())),
    }
}

#[test]
fn get_finds_each_entry() {
    let words = vec![
        WordFreq { word: "ONE".to_string(), freq: 1 },
        WordFreq { word: "TWO".to_string(), freq: 2 },
        WordFreq { word: "THREE".to_string(), freq: 3 },
    ];
    let wl = Wordlist::from_word_freqs(words.clone());
    for w in &words {
        let e = wl.get(w.slug()).unwrap();
        assert_eq!(e.word, w.word);
        assert_eq!(wl.freq(&w.word), w.freq);
    }
    assert!(wl.get("FOUR").is_none());
    assert!(wl.get("").is_none());
    assert!(wl.get(&b"TWO"[..]).is_some());
}

#[test]
fn duplicate_slug_finds_first_entry() {
    let wl = Wordlist::load_from_bytes(b"NEW YORK,5\nNEWYORK,9").unwrap();
    assert_eq!(wl.len(), 2);
    assert_eq!(wl.freq("NEWYORK"), 5);
    assert_eq!(wl.get("NEWYORK").unwrap().word, "NEW YORK");
}

#[test]
fn empty_list_finds_nothing() {
    let wl = Wordlist::from_entries(Vec::new());
    assert_eq!(wl.len(), 0);
    assert_eq!(wl.freq("A"), 0);
}

#[test]
fn iterating_twice_gives_same_entries() {
    let wl = Wordlist::load_from_bytes(b"B,2\nA,1\nC,3").unwrap();
    let first: Vec<WordlistEntry> = wl.iter().to_vec();
    let second: Vec<WordlistEntry> = wl.iter().to_vec();
    assert_eq!(first, second);
    let words: Vec<&str> = first.iter().map(|e| e.word.as_str()).collect();
    assert_eq!(words, vec!["B", "A", "C"]);
}

#[test]
fn pairs_drop_first_letter() {
    let wl = two_words();
    let v = pairs(wl.iter().iter().collect(), &wl, |w: &&WordlistEntry| w.slug[1..].to_string());
    assert_eq!(v, vec![(wl.get("PAIRS").unwrap(), wl.get("AIRS").unwrap())]);
}

#[test]
fn pairs_filter_drop_first_letter() {
    let wl = two_words();
    let v = pairs_filter(wl.iter().iter().collect(), &wl, |w: &&WordlistEntry| {
        if w.len() > 0 {
            Some(w.slug[1..].to_string())
        } else {
            None
        }
    });
    assert_eq!(v, vec![(wl.get("PAIRS").unwrap(), wl.get("AIRS").unwrap())]);
    let none = pairs_filter(wl.iter().iter().collect(), &wl, |_w: &&WordlistEntry| None::<String>);
    assert!(none.is_empty());
}

#[test]
fn pairs_iter_prepend_letter() {
    let wl = two_words();
    let v = pairs_iter(wl.iter().iter().collect(), &wl, |w: &&WordlistEntry| {
        (b'A'..=b'Z').map(|c| format!("{}{}", c as char, w.slug)).collect::<Vec<String>>()
    });
    assert_eq!(v, vec![(wl.get("AIRS").unwrap(), wl.get("PAIRS").unwrap())]);
}

#[test]
fn pairs_iter_yields_each_match() {
    let wl = Wordlist::load_from_bytes(b"AT,1\nCAT,2\nBAT,3").unwrap();
    let v = pairs_iter(wl.iter().iter().collect(), &wl, |w: &&WordlistEntry| {
        vec![format!("C{}", w.slug), format!("B{}", w.slug)]
    });
    let words: Vec<(&str, &str)> = v.iter().map(|(a, b)| (a.word.as_str(), b.word.as_str())).collect();
    assert_eq!(words, vec![("AT", "CAT"), ("AT", "BAT")]);
}

#[test]
fn rank_orders_by_score() {
    let results: Vec<WordFreq> = [3u64, 7, 1, 7]
        .iter()
        .enumerate()
        .map(|(i, &f)| WordFreq { word: format!("W{}", i), freq: f })
        .collect();
    let ranked = sort_results(results);
    let freqs: Vec<u64> = ranked.iter().map(|w| w.freq).collect();
    assert_eq!(freqs, vec![7, 7, 3, 1]);
    let mut top: Vec<String> = ranked[..2].iter().map(|w| w.word.clone()).collect();
    top.sort();
    assert_eq!(top, vec!["W1", "W3"]);
}

#[test]
fn rank_pairs_by_product() {
    let wl = Wordlist::load_from_bytes(b"A,4294967296\nB,4294967296\nC,2").unwrap();
    let a = wl.get("A").unwrap();
    let b = wl.get("B").unwrap();
    let c = wl.get("C").unwrap();
    let ranked = sort_results(vec![(a, c), (a, b), (c, c)]);
    assert_eq!(ranked[0].freq(), 1u128 << 64);
    assert_eq!(ranked[0].data(), "A, B");
    assert_eq!(ranked[1].freq(), 8589934592);
    assert_eq!(ranked[2].freq(), 4);
    assert!(sort_results(Vec::<WordFreq>::new()).is_empty());
}

#[test]
fn word_freq_slug_and_len() {
    let wf = WordFreq { word: "ASCII STRING".to_owned(), freq: 1 };
    assert_eq!(wf.slug(), "ASCIISTRING");
    assert_eq!(wf.len(), 11);
    let e = WordlistEntry::from_word_freq(wf.clone());
    assert_eq!(e.slug, "ASCIISTRING");
    assert_eq!(e.len(), 11);
    assert_eq!(wf.data(), "ASCII STRING");
    assert_eq!((&e).freq(), 1);
}

fn entry(word: &str, freq: u64) -> WordlistEntry {
    WordlistEntry::from_word_freq(WordFreq { word: word.to_string(), freq })
}

#[test]
fn unique_entries_accepted() {
    let wl = Wordlist::from_unique_entries(vec![entry("ONE", 1), entry("TWO", 2)]).unwrap();
    assert_eq!(wl.freq("ONE"), 1);
    assert_eq!(wl.freq("TWO"), 2);
    assert_eq!(wl.len(), 2);
}

#[test]
fn duplicate_entries_rejected() {
    let r = Wordlist::from_unique_entries(vec![
        entry("A B", 1),
        entry("C", 2),
        entry("C.", 3),
        entry("AB", 4),
    ]);
    match r {
        Err(d) => assert_eq!(d, DuplicateSlug { first: 1, second: 2 }),
        Ok(_) => panic!("duplicate slugs accepted"),
    }
}
