use word_cipher::words::WordSource;

fn lines(ws: &[&str]) -> Vec<String> {
    ws.iter().map(|w| w.to_string()).collect()
}

#[test]
fn empty_dictionary_is_rejected() {
    assert!(WordSource::new(&lines(&[])).is_none());
}

#[test]
fn blank_lines_alone_are_rejected() {
    assert!(WordSource::new(&lines(&["", "   ", "\t", " \r"])).is_none());
}

#[test]
fn lines_are_trimmed_and_blanks_dropped() {
    let source = WordSource::new(&lines(&["  cat ", "", "dog\t", " ", "bird"])).unwrap();
    assert_eq!(source.words, vec!["cat", "dog", "bird"]);
}

#[test]
fn next_word_returns_a_dictionary_entry() {
    let source = WordSource::new(&lines(&["cat", "dog", "bird"])).unwrap();
    for _ in 0..100 {
        let w = source.next_word();
        assert!(source.contains_word(&w));
    }
}

#[test]
fn contains_word_distinguishes_entries() {
    let source = WordSource::new(&lines(&["cat", "dog"])).unwrap();
    assert!(source.contains_word(&"cat".to_string()));
    assert!(source.contains_word(&"dog".to_string()));
    assert!(!source.contains_word(&"bird".to_string()));
    assert!(!source.contains_word(&"".to_string()));
}

#[test]
fn every_entry_is_drawn_eventually() {
    // statistical coverage: far more draws than entries, so missing any
    // entry is overwhelmingly unlikely
    let words = ["cat", "dog", "bird", "fish", "mouse"];
    let source = WordSource::new(&lines(&words)).unwrap();
    let mut seen = [false; 5];
    for _ in 0..2000 {
        let w = source.next_word();
        let i = words.iter().position(|x| *x == w).unwrap();
        seen[i] = true;
    }
    assert!(seen.iter().all(|s| *s));
}
