use word_cipher::session::Outcome;
use word_cipher::session::Session;
use word_cipher::words::WordSource;

fn one_word_session(word: &str) -> Session {
    let lines: Vec<String> = vec![word.to_string()];
    let source = WordSource::new(&lines).unwrap();
    Session::init_session(source)
}

#[test]
fn a_fresh_session_is_blank() {
    let session = one_word_session("cat");
    assert_eq!(session.target, "cat");
    assert_eq!(session.pending_input, "");
    assert_eq!(session.last_outcome, None);
    assert_eq!(session.mistake_count, 0);
}

#[test]
fn correct_submission_clears_input_and_redraws_target() {
    let mut session = one_word_session("cat");
    session.on_input_changed("tec".to_string());
    session.on_submit();
    assert_eq!(session.last_outcome, Some(Outcome::Correct));
    assert_eq!(session.pending_input, "");
    assert_eq!(session.mistake_count, 0);
    // the fresh target is always a dictionary entry; here the dictionary
    // has a single word, so the draw is forced
    assert!(session.source.contains_word(&session.target));
    assert_eq!(session.target, "cat");
}

#[test]
fn incorrect_submission_counts_a_mistake_and_keeps_the_target() {
    let mut session = one_word_session("cat");
    session.on_input_changed("xyz".to_string());
    session.on_submit();
    assert_eq!(session.last_outcome, Some(Outcome::Incorrect));
    assert_eq!(session.pending_input, "xyz");
    assert_eq!(session.target, "cat");
    assert_eq!(session.mistake_count, 1);
    session.on_submit();
    assert_eq!(session.mistake_count, 2);
    assert_eq!(session.target, "cat");
}

#[test]
fn input_change_clears_the_last_outcome() {
    let mut session = one_word_session("cat");
    session.on_input_changed("xyz".to_string());
    session.on_submit();
    assert_eq!(session.last_outcome, Some(Outcome::Incorrect));
    session.on_input_changed("te".to_string());
    assert_eq!(session.last_outcome, None);
    assert_eq!(session.pending_input, "te");
    assert_eq!(session.mistake_count, 1);
}

#[test]
fn the_raw_target_is_not_a_correct_answer() {
    let mut session = one_word_session("cat");
    session.on_input_changed("cat".to_string());
    session.on_submit();
    assert_eq!(session.last_outcome, Some(Outcome::Incorrect));
}

#[test]
fn targets_from_a_larger_dictionary_stay_in_it() {
    let lines: Vec<String> = vec!["cat".to_string(), "dog".to_string(), "bird".to_string()];
    let source = WordSource::new(&lines).unwrap();
    let mut session = Session::init_session(source);
    for _ in 0..50 {
        assert!(session.source.contains_word(&session.target));
        let answer = word_cipher::encoder::encode(&session.target);
        session.on_input_changed(answer);
        session.on_submit();
        assert_eq!(session.last_outcome, Some(Outcome::Correct));
        assert_eq!(session.pending_input, "");
    }
    assert_eq!(session.mistake_count, 0);
}
