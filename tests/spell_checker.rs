use std::collections::HashSet;

use spellcheck::SpellChecker;

const ALPHABET_EN: &str = "abcdefghijklmnopqrstuvwxyz";
const ALPHABET_BG: &str = "абвгдежзийклмнопрстуфхцчшщъьюя";

fn as_set(words: &[&str]) -> HashSet<String> {
    words.iter().map(|&s| s.to_owned()).collect()
}

fn as_vec(words: &[&str]) -> Vec<String> {
    words.iter().map(|&s| s.to_owned()).collect()
}

fn to_set(words: Vec<String>) -> HashSet<String> {
    words.into_iter().collect()
}

#[test]
fn edits1_with_empty_alphabet() {
    let checker = SpellChecker::new("", "");
    let word = "ab";
    let expected_words = as_set(&["a", "b", "ba"]);

    assert_eq!(to_set(checker.edits1(word)), expected_words);
}

#[test]
fn edits1_with_nonempty_en_alphabet() {
    let checker = SpellChecker::new("", "c");
    let word = "ab";
    let expected_words = as_set(&["cb", "b", "acb", "abc", "ba", "a", "cab", "ac"]);

    assert_eq!(to_set(checker.edits1(word)), expected_words);
}

#[test]
fn edits1_with_nonempty_bg_alphabet() {
    let checker = SpellChecker::new("", "з");
    let word = "ей";
    let expected_words = as_set(&["ез", "езй", "й", "зй", "ейз", "зей", "е", "йе"]);

    assert_eq!(to_set(checker.edits1(word)), expected_words);
}

#[test]
fn edits2_with_empty_alphabet() {
    let checker = SpellChecker::new("", "");
    let word = "ab";
    let expected_words = as_set(&["", "ab", "a", "b"]);

    assert_eq!(to_set(checker.edits2(word)), expected_words);
}

#[test]
fn edits2_with_nonempty_en_alphabet() {
    let checker = SpellChecker::new("", "c");
    let word = "ab";
    let expected_words = as_set(&[
        "", "a", "cb", "cac", "bc", "cba", "acbc", "cab", "ac",
        "acc", "abcc", "ab", "c", "accb", "cbc", "ca", "cc", "cacb",
        "ccb", "acb", "abc", "cabc", "bca", "ccab", "b", "bac",
    ]);

    assert_eq!(to_set(checker.edits2(word)), expected_words);
}

#[test]
fn edits2_with_nonempty_bg_alphabet() {
    let checker = SpellChecker::new("", "з");
    let word = "ей";
    let expected_words = as_set(&[
        "", "зез", "езйз", "ейз", "з", "зей", "зз", "зйе", "ез",
        "езй", "йез", "зейз", "ейзз", "еззй", "ззй", "зй", "зе",
        "йзе", "зезй", "е", "ззей", "ей", "йз", "езз", "й", "зйз",
    ]);

    assert_eq!(to_set(checker.edits2(word)), expected_words);
}

#[test]
fn known_words_with_empty_corpus() {
    let checker = SpellChecker::new("", ALPHABET_EN);
    let words = as_vec(&["a", "b"]);

    let known_words = checker.known(&words);

    assert!(known_words.is_empty());
}

#[test]
fn known_words_with_nonempty_corpus_and_words_which_are_not_in_the_corpus() {
    let checker = SpellChecker::new("one two three изненада", ALPHABET_EN);
    let words = as_vec(&["a", "й"]);

    let known_words = checker.known(&words);

    assert!(known_words.is_empty());
}

#[test]
fn known_words_with_nonempty_corpus_and_words_which_are_in_the_corpus() {
    let checker = SpellChecker::new("one two three изненада", ALPHABET_EN);
    let words = as_vec(&["a", "b", "изненада"]);
    let expected_word = "изненада".to_owned();

    let known_words = checker.known(&words);

    assert_eq!(known_words.len(), 1);
    assert!(known_words.contains(&expected_word));
}

#[test]
fn candidates_with_very_different_word_from_ones_on_corpus() {
    let checker = SpellChecker::new("ice isle spie crie dice mice mic", ALPHABET_EN);
    let word = "hamlet".to_owned();

    let candidates = checker.candidates(&word);

    assert_eq!(candidates.len(), 1);
    assert!(candidates.contains(&word));
}

#[test]
fn candidates_with_one_letter_difference() {
    let checker = SpellChecker::new("ice isle spie crie dice mice mic", ALPHABET_EN);
    let word = "ide".to_owned();
    let expected = "ice".to_owned();

    let candidates = checker.candidates(&word);

    assert_eq!(candidates.len(), 1);
    assert!(candidates.contains(&expected));
}

#[test]
fn candidates_with_two_letters_difference() {
    let checker = SpellChecker::new("ice isle spie crie dice mice mic", ALPHABET_EN);
    let word = "idde".to_owned();
    let expected = ["dice", "ice", "isle"];

    let candidates = checker.candidates(&word);

    assert_eq!(candidates, expected);
}

#[test]
fn correction_with_very_different_word_from_ones_on_corpus() {
    let checker = SpellChecker::new("ice isle spie crie dice mice mic", ALPHABET_EN);
    let word = "hamlet".to_owned();

    let correction = checker.correction(&word);

    assert_eq!(correction, word);
}

#[test]
fn correction_with_one_letter_difference() {
    let checker = SpellChecker::new("ice isle spie crie dice mice mic", ALPHABET_EN);
    let word = "ide".to_owned();
    let expected = "ice".to_owned();

    let correction = checker.correction(&word);

    assert_eq!(correction, expected);
}

#[test]
fn correction_with_two_letters_difference() {
    let checker = SpellChecker::new("ice isle spie crie dice mice mic", ALPHABET_EN);
    let word = "idde";
    let expected = "isle";

    let correction = checker.correction(&word);

    assert_eq!(correction, expected);
}

#[test]
fn candidates_of_a_known_word_is_the_word_alone() {
    let checker = SpellChecker::new("ice isle spie crie dice mice mic", ALPHABET_EN);
    assert_eq!(checker.candidates("mice"), vec!["mice"]);
    assert_eq!(checker.candidates("mic"), vec!["mic"]);
    assert_eq!(checker.correction("mic"), "mic");
}

#[test]
fn correction_is_one_of_the_candidates() {
    let checker = SpellChecker::new("ice isle spie crie dice mice mic", ALPHABET_EN);
    for word in ["idde", "ide", "hamlet", "mice", "", "spei"] {
        let candidates = checker.candidates(word);
        assert!(!candidates.is_empty());
        assert!(candidates.contains(&checker.correction(word)));
    }
}

#[test]
fn correction_prefers_the_more_frequent_word() {
    let checker = SpellChecker::new("ab ab ac", ALPHABET_EN);
    assert_eq!(checker.candidates("ad"), vec!["ab", "ac"]);
    assert_eq!(checker.correction("ad"), "ab");
}

#[test]
fn correction_breaks_ties_by_the_lexicographically_last_word() {
    let checker = SpellChecker::new("ab ac", ALPHABET_EN);
    assert_eq!(checker.correction("ad"), "ac");
}

#[test]
fn correction_of_empty_word_in_empty_corpus_is_empty() {
    let checker = SpellChecker::new("", ALPHABET_EN);
    assert_eq!(checker.candidates(""), vec![""]);
    assert_eq!(checker.correction(""), "");
}

#[test]
fn correction_counts_the_corpus_case_insensitively() {
    let checker = SpellChecker::new("Ice ICE ice, dice", ALPHABET_EN);
    assert_eq!(checker.corpus().get("ice"), 3);
    assert_eq!(checker.correction("idce"), "ice");
}

#[test]
fn correction_with_cyrillic_alphabet() {
    let checker = SpellChecker::new("изненада котка", ALPHABET_BG);
    assert_eq!(checker.correction("изнинада"), "изненада");
    assert_eq!(checker.correction("хамлет"), "хамлет");
    assert_eq!(checker.correction("ктка"), "котка");
}

#[test]
fn edits1_of_empty_word_is_the_alphabet() {
    let checker = SpellChecker::new("", "xy");
    assert_eq!(checker.edits1(""), vec!["x", "y"]);
}

#[test]
fn edits1_is_sorted_without_duplicates() {
    let checker = SpellChecker::new("", "ab");
    let edits = checker.edits1("aa");
    assert_eq!(edits, vec!["a", "aa", "aaa", "aab", "ab", "aba", "ba", "baa"]);
}

#[test]
fn known_keeps_the_order_of_its_input() {
    let checker = SpellChecker::new("one two three", "");
    let words = as_vec(&["two", "zero", "one", "two"]);
    assert_eq!(checker.known(&words), vec!["two", "one", "two"]);
}
