use std::collections::HashSet;
use za_wardle::dictionary::{is_whitespace, pack, parse};
use za_wardle::{Guess, Guesser, InvalidGuess, Wordle};

/// Says the words of a list, one per round.
struct Reciting {
    words: Vec<&'static str>,
}

impl Guesser for Reciting {
    fn guess(&mut self, history: &[Guess]) -> String {
        self.words[history.len()].to_string()
    }
}

fn accepts(dictionary: &str, word: &'static str) -> bool {
    let w = Wordle::new(dictionary);
    match w.play("right", Reciting { words: vec![word, "right"] }) {
        Ok(Some(2)) => true,
        Err(InvalidGuess { round: 1 }) => false,
        other => panic!("unexpected end of the game: {:?}", other),
    }
}

#[test]
fn entries_are_valid_words() {
    let dictionary = "about 1226734006\nother 978481319\nwhich 810514085\n";
    assert!(accepts(dictionary, "about"));
    assert!(accepts(dictionary, "other"));
    assert!(accepts(dictionary, "which"));
    assert!(!accepts(dictionary, "their"));
}

#[test]
fn numbers_between_entries_are_no_words() {
    let dictionary = "about 12345 other 67890";
    assert!(accepts(dictionary, "about"));
    assert!(accepts(dictionary, "other"));
    assert!(!accepts(dictionary, "12345"));
    assert!(!accepts(dictionary, "67890"));
}

#[test]
fn every_second_token_is_an_entry() {
    let dictionary = "about other which their there";
    assert!(accepts(dictionary, "about"));
    assert!(!accepts(dictionary, "other"));
    assert!(accepts(dictionary, "which"));
    assert!(!accepts(dictionary, "their"));
    assert!(accepts(dictionary, "there"));
}

#[test]
fn entries_of_another_length_are_no_words() {
    let dictionary = "word 1 about 2 longer 3 a 4";
    assert!(accepts(dictionary, "about"));
    assert!(!accepts(dictionary, "word"));
    assert!(!accepts(dictionary, "longer"));
    assert!(!accepts(dictionary, "a"));
    assert!(!accepts(dictionary, "word "));
    assert!(!accepts(dictionary, "wordx"));
}

#[test]
fn any_whitespace_separates_tokens() {
    let dictionary = "  about\t1\r\nother\u{3000}2\u{a0}which\u{2003}\u{2028}3 \n";
    assert!(accepts(dictionary, "about"));
    assert!(accepts(dictionary, "other"));
    assert!(accepts(dictionary, "which"));
    assert!(!accepts(dictionary, "bout1"));
}

#[test]
fn other_separators_do_not_separate_tokens() {
    let dictionary = "about,1 other\u{200b}2 which";
    assert!(!accepts(dictionary, "about"));
    assert!(!accepts(dictionary, "other"));
    assert!(accepts(dictionary, "which"));
}

#[test]
fn empty_word_list_has_no_words() {
    assert!(parse("").is_empty());
    assert!(parse(" \n\t ").is_empty());
    assert!(!accepts("", "about"));
}

#[test]
fn word_list_may_end_in_an_entry() {
    assert!(accepts("about", "about"));
    assert!(accepts("other 1 about", "about"));
    assert!(!accepts("other about", "about"));
}

#[test]
fn repeated_entries_count_once() {
    let keys = parse("about 1 about 2 other 3 about 4");
    assert_eq!(keys.len(), 2);
}

#[test]
fn letters_beyond_ascii_make_words() {
    let dictionary = "süßer 1 日本語文字 2";
    assert!(accepts(dictionary, "süßer"));
    assert!(accepts(dictionary, "日本語文字"));
    assert!(!accepts(dictionary, "suser"));
}

#[test]
fn key_holds_the_code_points_as_digits() {
    assert_eq!(pack(&['a', 'b', 'c', 'd', 'e']), 1953625046834879838612881505);
    assert_eq!(pack(&['\0', '\0', '\0', '\0', '\0']), 0);
    assert_eq!(pack(&['\u{1}', '\0', '\0', '\0', '\0']), 1);
    assert_eq!(pack(&['\0', '\u{1}', '\0', '\0', '\0']), 1 << 21);
    assert_eq!(pack(&['\0', '\0', '\0', '\0', '\u{10ffff}']), 0x10ffff << 84);
}

#[test]
fn keys_tell_words_apart() {
    let keys = parse("abcde 1 abced 2 bacde 3 edcba 4 abcdf 5");
    assert_eq!(keys.len(), 5);
    assert!(keys.contains(&pack(&['a', 'b', 'c', 'd', 'e'])));
    assert!(keys.contains(&pack(&['e', 'd', 'c', 'b', 'a'])));
    assert!(!keys.contains(&pack(&['a', 'b', 'c', 'd', 'd'])));
}

#[test]
fn whitespace_is_what_the_standard_library_takes_for_it() {
    for code in 0..=0x10ffffu32 {
        if let Some(c) = char::from_u32(code) {
            assert_eq!(is_whitespace(c), c.is_whitespace(), "U+{:04X}", code);
        }
    }
}

#[test]
fn whitespace_has_twenty_five_characters() {
    let count = (0..=0x10ffffu32).filter_map(char::from_u32).filter(|&c| is_whitespace(c)).count();
    assert_eq!(count, 25);
    assert!(is_whitespace(' '));
    assert!(is_whitespace('\n'));
    assert!(is_whitespace('\u{3000}'));
    assert!(!is_whitespace('a'));
    assert!(!is_whitespace('\u{200b}'));
    assert!(!is_whitespace('\u{1c}'));
}

#[test]
fn word_list_is_every_second_token_of_five_letters() {
    let dictionary = "about 1226734006\nother\t978481319\r\nwhich 810514085 word 7\n\
        their their süßer 12345 12345 there\u{2003}x  first";
    let mut expected = HashSet::new();
    for token in dictionary.split_whitespace().step_by(2) {
        let letters: Vec<char> = token.chars().collect();
        if letters.len() == 5 {
            expected.insert(pack(&letters));
        }
    }
    assert_eq!(parse(dictionary), expected);
    assert_eq!(expected.len(), 6);
}
