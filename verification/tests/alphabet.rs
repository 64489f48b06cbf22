use allwords::alphabet::TOO_FEW_SYMBOLS;
use allwords::Alphabet;
use std::collections::HashMap;

fn successors(pairs: &[(char, Option<char>)]) -> HashMap<u32, Option<char>> {
    pairs.iter().map(|(symbol, next)| (*symbol as u32, *next)).collect()
}

#[test]
fn it_creates_an_alphabet_from_a_string_with_few_unique_chars() {
    let a = Alphabet::from_chars_in_str("ab").unwrap();

    let expected_map = successors(&[('a', Some('b')), ('b', None)]);

    assert_eq!(a.first_char, 'a');
    assert_eq!(a.next_char_map, expected_map);
}

#[test]
fn it_creates_an_alphabet_from_a_string_with_many_unique_chars() {
    let a = Alphabet::from_chars_in_str("abcde").unwrap();

    let expected_map = successors(&[
        ('a', Some('b')),
        ('b', Some('c')),
        ('c', Some('d')),
        ('d', Some('e')),
        ('e', None),
    ]);

    assert_eq!(a.first_char, 'a');
    assert_eq!(a.next_char_map, expected_map);
}

#[test]
fn it_creates_an_alphabet_from_a_string_with_duplicate_chars() {
    let a = Alphabet::from_chars_in_str("aaabbbcccddddebbbeeea").unwrap();

    let expected_map = successors(&[
        ('a', Some('b')),
        ('b', Some('c')),
        ('c', Some('d')),
        ('d', Some('e')),
        ('e', None),
    ]);

    assert_eq!(a.first_char, 'a');
    assert_eq!(a.next_char_map, expected_map);
}

#[test]
fn it_creates_an_alphabet_from_a_string_with_unicode_chars() {
    let a = Alphabet::from_chars_in_str("😀😃😄😁😅").unwrap();

    let expected_map = successors(&[
        ('😀', Some('😃')),
        ('😃', Some('😄')),
        ('😄', Some('😁')),
        ('😁', Some('😅')),
        ('😅', None),
    ]);

    assert_eq!(a.first_char, '😀');
    assert_eq!(a.next_char_map, expected_map);
}

#[test]
fn it_fails_if_alphabet_doesnt_have_at_least_2_unique_chars() {
    let a = Alphabet::from_chars_in_str("");

    match a {
        Ok(_) => panic!("An alphabet was created when we expected an error"),
        Err(e) => assert_eq!(
            e,
            String::from("Invalid alphabet string. Found less than 2 unique chars")
        ),
    };

    let a = Alphabet::from_chars_in_str("aaaaaaaaaaa");

    match a {
        Ok(_) => panic!("An alphabet was created when we expected an error"),
        Err(e) => assert_eq!(
            e,
            String::from("Invalid alphabet string. Found less than 2 unique chars")
        ),
    };
}

#[test]
fn it_rejects_a_run_of_one_symbol() {
    let a = Alphabet::from_chars_in_str("zzzzzzzzzz");
    assert_eq!(a.err(), Some(String::from(TOO_FEW_SYMBOLS)));
}

#[test]
fn it_rejects_a_single_symbol() {
    assert!(Alphabet::from_chars_in_str("x").is_err());
}

#[test]
fn it_accepts_exactly_two_symbols() {
    assert!(Alphabet::from_chars_in_str("xy").is_ok());
    assert!(Alphabet::from_chars_in_str("xxy").is_ok());
}

#[test]
fn it_collapses_runs_of_one_symbol() {
    let expected_map = successors(&[('a', Some('b')), ('b', None)]);
    for text in ["ab", "aab", "aaabbb", "abab", "abba"] {
        let a = Alphabet::from_chars_in_str(text).unwrap();
        assert_eq!(a.first_char, 'a');
        assert_eq!(a.next_char_map, expected_map);
    }
}

#[test]
fn it_orders_symbols_by_first_occurrence() {
    let a = Alphabet::from_chars_in_str("cabcab").unwrap();
    let expected_map = successors(&[('c', Some('a')), ('a', Some('b')), ('b', None)]);
    assert_eq!(a.first_char, 'c');
    assert_eq!(a.next_char_map, expected_map);
}

#[test]
fn it_looks_up_the_next_symbol() {
    let a = Alphabet::from_chars_in_str("abc").unwrap();
    assert_eq!(a.next_char('a'), Some('b'));
    assert_eq!(a.next_char('b'), Some('c'));
    assert_eq!(a.next_char('c'), None);
    assert_eq!(a.next_char('x'), None);
}

#[test]
fn it_takes_multi_byte_symbols_one_by_one() {
    let a = Alphabet::from_chars_in_str("é€é").unwrap();
    let expected_map = successors(&[('é', Some('€')), ('€', None)]);
    assert_eq!(a.first_char, 'é');
    assert_eq!(a.next_char_map, expected_map);
}

#[test]
fn it_parses_an_alphabet_from_text() {
    let a = "abcdef".parse::<Alphabet>().unwrap();
    assert_eq!(a.first_char, 'a');
    assert_eq!(a.next_char_map.len(), 6);
    assert_eq!(a.next_char('f'), None);

    let e = "zzz".parse::<Alphabet>().err();
    assert_eq!(e, Some(String::from("Invalid alphabet string. Found less than 2 unique chars")));
}
