use allwords::{Alphabet, WordsIterator};
use std::collections::HashSet;

fn collect(mut words: WordsIterator) -> Vec<String> {
    let mut all = Vec::new();
    while let Some(word) = words.next() {
        all.push(word);
    }
    all
}

fn strings(words: &[&str]) -> Vec<String> {
    words.iter().map(|s| s.to_string()).collect()
}

#[test]
fn it_can_generate_all_words_up_to_a_certain_length() {
    let a = Alphabet::from_chars_in_str("01").unwrap();

    let words: Vec<String> = collect(a.all_words(Some(3)));

    let expected_words: Vec<String> = [
        "0", "1", "00", "01", "10", "11", "000", "001", "010", "011", "100", "101", "110", "111",
    ]
    .iter()
    .map(|s| s.to_string())
    .collect();

    assert_eq!(words, expected_words);
}

#[test]
fn it_can_generate_all_words_endlessly() {
    let a = Alphabet::from_chars_in_str("ab").unwrap();

    // an endless cursor cannot be run to its end: take 1000 words and check that they all differ
    let words: Vec<String> = a.all_words_unbound().next_words(1000);
    let unique_words: HashSet<String> = words.iter().cloned().collect();

    assert_eq!(unique_words.len(), 1000);
}

#[test]
fn it_can_generate_all_words_up_to_a_certain_length_from_a_starting_string() {
    let a = Alphabet::from_chars_in_str("01").unwrap();

    let words: Vec<String> = collect(a.all_words_starting_from(String::from("011"), Some(3)));

    let expected_words: Vec<String> = ["011", "100", "101", "110", "111"]
        .iter()
        .map(|s| s.to_string())
        .collect();

    assert_eq!(words, expected_words);
}

#[test]
fn it_can_generate_all_words_from_a_given_length_up_to_another_length() {
    let a = Alphabet::from_chars_in_str("01").unwrap();

    let words: Vec<String> = collect(a.all_words_with_len(3, Some(3)));

    let expected_words: Vec<String> = ["000", "001", "010", "011", "100", "101", "110", "111"]
        .iter()
        .map(|s| s.to_string())
        .collect();

    assert_eq!(words, expected_words);
}

#[test]
fn it_counts_like_an_odometer_over_three_symbols() {
    let a = Alphabet::from_chars_in_str("abc").unwrap();
    let words = collect(a.all_words(Some(3)));
    let expected = strings(&[
        "a", "b", "c", "aa", "ab", "ac", "ba", "bb", "bc", "ca", "cb", "cc", "aaa", "aab", "aac",
        "aba", "abb", "abc", "aca", "acb", "acc", "baa", "bab", "bac", "bba", "bbb", "bbc", "bca",
        "bcb", "bcc", "caa", "cab", "cac", "cba", "cbb", "cbc", "cca", "ccb", "ccc",
    ]);
    assert_eq!(words.len(), 39);
    assert_eq!(words, expected);
}

#[test]
fn it_stops_after_the_bound_and_stays_stopped() {
    let a = Alphabet::from_chars_in_str("01").unwrap();
    let mut words = a.all_words(Some(1));
    assert_eq!(words.next(), Some(String::from("0")));
    assert_eq!(words.next(), Some(String::from("1")));
    for _ in 0..5 {
        assert_eq!(words.next(), None);
    }
    assert_eq!(words.next_words(3), Vec::<String>::new());
}

#[test]
fn it_yields_nothing_with_a_bound_of_zero() {
    let a = Alphabet::from_chars_in_str("01").unwrap();
    assert_eq!(collect(a.all_words(Some(0))), Vec::<String>::new());
}

#[test]
fn it_yields_nothing_from_a_start_longer_than_the_bound() {
    let a = Alphabet::from_chars_in_str("01").unwrap();
    let mut words = a.all_words_starting_from(String::from("0000"), Some(3));
    assert_eq!(words.next(), None);
    assert_eq!(words.next(), None);
}

#[test]
fn it_restarts_where_another_cursor_was() {
    let a = Alphabet::from_chars_in_str("01").unwrap();
    let all = collect(a.all_words(Some(3)));
    let at = all.iter().position(|w| w == "011").unwrap();
    let tail = collect(a.all_words_starting_from(String::from("011"), Some(3)));
    assert_eq!(tail, all[at..].to_vec());

    let mut unbound = a.all_words_unbound();
    let head = unbound.next_words(20);
    let mut again = a.all_words_starting_from(head[12].clone(), None);
    assert_eq!(again.next_words(8), head[12..].to_vec());
}

#[test]
fn it_starts_at_the_given_length() {
    let a = Alphabet::from_chars_in_str("ab").unwrap();
    let words = collect(a.all_words_with_len(2, Some(3)));
    assert_eq!(
        words,
        strings(&[
            "aa", "ab", "ba", "bb", "aaa", "aab", "aba", "abb", "baa", "bab", "bba", "bbb"
        ])
    );
    assert!(words.iter().all(|w| w.chars().count() >= 2));
}

#[test]
fn it_starts_at_the_empty_word_for_length_zero() {
    let a = Alphabet::from_chars_in_str("ab").unwrap();
    let words = collect(a.all_words_with_len(0, Some(1)));
    assert_eq!(words, strings(&["", "a", "b"]));
}

#[test]
fn it_takes_an_unknown_symbol_for_a_last_symbol() {
    let a = Alphabet::from_chars_in_str("01").unwrap();
    let mut words = a.all_words_starting_from(String::from("0x"), None);
    assert_eq!(words.next_words(3), strings(&["0x", "10", "11"]));

    let mut words = a.all_words_starting_from(String::from("x1"), None);
    assert_eq!(words.next_words(3), strings(&["x1", "000", "001"]));
}

#[test]
fn it_carries_through_a_run_of_last_symbols() {
    let a = Alphabet::from_chars_in_str("abc").unwrap();
    let mut words = a.all_words_starting_from(String::from("accc"), None);
    assert_eq!(words.next_words(2), strings(&["accc", "baaa"]));

    let mut words = a.all_words_starting_from(String::from("ccc"), None);
    assert_eq!(words.next_words(2), strings(&["ccc", "aaaa"]));
}

#[test]
fn it_bounds_words_by_symbols_not_bytes() {
    let a = Alphabet::from_chars_in_str("é€").unwrap();
    let words = collect(a.all_words(Some(2)));
    assert_eq!(words, strings(&["é", "€", "éé", "é€", "€é", "€€"]));
}

#[test]
fn it_hands_out_a_thousand_different_words_over_any_alphabet() {
    for text in ["01", "abc", "😀😃😄😁😅", "abcdefghijklmnopqrstuvwxyz"] {
        let a = Alphabet::from_chars_in_str(text).unwrap();
        let words = a.all_words_unbound().next_words(1000);
        assert_eq!(words.len(), 1000);
        let unique: HashSet<String> = words.iter().cloned().collect();
        assert_eq!(unique.len(), 1000);
    }
}

#[test]
fn it_pulls_at_most_the_number_asked_for() {
    let a = Alphabet::from_chars_in_str("01").unwrap();
    let mut words = a.all_words(Some(2));
    assert_eq!(words.next_words(4), strings(&["0", "1", "00", "01"]));
    assert_eq!(words.next_words(0), Vec::<String>::new());
    assert_eq!(words.next_words(10), strings(&["10", "11"]));
    assert_eq!(words.next(), None);
}

#[test]
fn it_lets_cursors_share_one_alphabet() {
    let a = Alphabet::from_chars_in_str("01").unwrap();
    let mut first = a.all_words(Some(2));
    let mut second = a.all_words_with_len(2, Some(2));
    assert_eq!(first.next(), Some(String::from("0")));
    assert_eq!(second.next(), Some(String::from("00")));
    assert_eq!(first.next(), Some(String::from("1")));
    assert_eq!(second.next(), Some(String::from("01")));
    assert_eq!(first.alphabet.first_char, '0');
}
