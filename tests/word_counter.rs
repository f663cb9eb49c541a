use spellcheck::WordCounter;

#[test]
fn default_counter_has_no_words() {
    let counter = WordCounter::new();
    assert!(counter.words().is_empty());
    assert!(counter.total_count() == 0);
    assert!(counter.get("random") == 0);
}

#[test]
fn counter_from_string() {
    let text = "first line\nSecond LiNe\n THIRD LINE\n";
    let expected_words = vec!["first", "line", "second", "third"];

    let counter = WordCounter::from_str(text);

    assert_eq!(counter.words(), expected_words);
    assert_eq!(counter.total_count(), 6);
    assert_eq!(counter.get("line"), 3);
    assert_eq!(counter.get("first"), 1);
    assert_eq!(counter.get("second"), 1);
    assert_eq!(counter.get("third"), 1);
    assert_eq!(counter.get("not-contained"), 0);
}

#[test]
fn add() {
    let mut counter = WordCounter::new();

    for word in ["word", "Word", " word ", " WORD "].iter() {
        counter.add(word);
    }

    assert_eq!(counter.get("word"), 4);
}

#[test]
fn add_counts_under_one_entry_regardless_of_case_and_spaces() {
    let mut counter = WordCounter::new();
    counter.add("Word");
    counter.add("word");
    counter.add(" WORD ");
    assert_eq!(counter.words(), vec!["word"]);
    assert_eq!(counter.get("word"), 3);
    assert_eq!(counter.get("Word"), 0);
    assert_eq!(counter.total_count(), 3);
}

#[test]
fn add_lowercases_non_latin_letters() {
    let mut counter = WordCounter::new();
    counter.add("ИЗНЕНАДА");
    assert_eq!(counter.get("изненада"), 1);
}

#[test]
fn add_of_blank_token_counts_the_empty_word() {
    let mut counter = WordCounter::new();
    counter.add("   ");
    assert_eq!(counter.get(""), 1);
    assert_eq!(counter.words(), vec![""]);
}

#[test]
fn total_count_is_sum_over_vocabulary_and_number_of_tokens() {
    let text = "b a c a\n\nb a, d!\tc 42";
    let counter = WordCounter::from_str(text);
    let sum: u32 = counter.words().iter().map(|w| counter.get(w)).sum();
    assert_eq!(counter.total_count(), sum);
    assert_eq!(counter.total_count(), 8);
    assert_eq!(counter.words(), vec!["a", "b", "c", "d"]);
    assert_eq!(counter.get("a"), 3);
}

#[test]
fn from_str_of_empty_text_has_no_words() {
    let counter = WordCounter::from_str("");
    assert!(counter.words().is_empty());
    assert_eq!(counter.total_count(), 0);
}

#[test]
fn from_str_splits_on_punctuation_removal_and_line_feeds() {
    let counter = WordCounter::from_str("one.two\nthree");
    assert_eq!(counter.words(), vec!["onetwo", "three"]);
}

#[test]
fn words_are_sorted_lexicographically() {
    let counter = WordCounter::from_str("zeta alpha éclair beta");
    assert_eq!(counter.words(), vec!["alpha", "beta", "zeta", "éclair"]);
}

#[test]
fn summary_lists_higher_counts_first_then_lexicographically() {
    let counter = WordCounter::from_str("b a c a");
    assert_eq!(
        counter.summary(),
        "WordCounter, total count: 4\na: 2\nb: 1\nc: 1\n"
    );
}

#[test]
fn summary_of_empty_counter_has_the_total_alone() {
    assert_eq!(WordCounter::new().summary(), "WordCounter, total count: 0\n");
}

#[test]
fn summary_writes_counts_in_decimal() {
    let mut counter = WordCounter::new();
    for _ in 0..12 {
        counter.add("x");
    }
    for _ in 0..105 {
        counter.add("y");
    }
    assert_eq!(
        counter.summary(),
        "WordCounter, total count: 117\ny: 105\nx: 12\n"
    );
}

#[test]
fn add_exact_counts_the_word_as_written() {
    let mut counter = WordCounter::new();
    counter.add_exact(" Word");
    assert_eq!(counter.get(" Word"), 1);
    assert_eq!(counter.get("word"), 0);
    assert_eq!(counter.total_count(), 1);
}
