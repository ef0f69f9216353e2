use word_cipher::encoder::encode;
use word_cipher::encoder::encode_word;

#[test]
fn encode_cat_is_tec() {
    // vowel a -> e; consonants [c, t] reversed -> [t, c]
    assert_eq!(encode("cat"), "tec");
}

#[test]
fn encode_is_not_an_involution() {
    let once = encode("cat");
    assert_eq!(once, "tec");
    let twice = encode(&once);
    assert_ne!(twice, "cat");
    assert_ne!(encode("tec"), "cat");
}

#[test]
fn vowel_cycle_rotates_each_vowel() {
    assert_eq!(encode_word("a"), "e");
    assert_eq!(encode_word("e"), "i");
    assert_eq!(encode_word("i"), "o");
    assert_eq!(encode_word("o"), "u");
    assert_eq!(encode_word("u"), "a");
}

#[test]
fn vowels_only_token_has_no_consonant_step() {
    assert_eq!(encode_word("aeiou"), "eioua");
}

#[test]
fn consonants_come_back_reversed() {
    assert_eq!(encode_word("bcd"), "dcb");
    assert_eq!(encode_word("strv"), "vrts");
}

#[test]
fn non_alphabetic_characters_pass_through_in_place() {
    assert_eq!(encode_word("c1d"), "d1c");
    assert_eq!(encode_word("x-y"), "y-x");
    assert_eq!(encode_word("123!?"), "123!?");
}

#[test]
fn uppercase_letters_pass_through_unchanged() {
    // the alphabetic test is restricted to ASCII lowercase letters
    assert_eq!(encode_word("Cat"), "Cet");
    assert_eq!(encode_word("AEIOU"), "AEIOU");
}

#[test]
fn empty_token_encodes_to_empty_token() {
    assert_eq!(encode_word(""), "");
}

#[test]
fn empty_input_encodes_to_empty_string() {
    assert_eq!(encode(""), "");
    assert_eq!(encode("   "), "");
}

#[test]
fn inter_token_spacing_collapses_to_one_space() {
    assert_eq!(encode("a b"), "e b");
    assert_eq!(encode("a  b"), "e b");
    assert_eq!(encode("a b"), encode("a  b"));
    assert_eq!(encode("  cat  dog "), "tec gud");
    assert_eq!(encode("cat\tdog\n"), "tec gud");
}

#[test]
fn tokens_are_encoded_independently() {
    // the consonant reversal never crosses a token boundary
    assert_eq!(encode("bc df"), "cb fd");
}
