use za_wardle::word::{letters, spell};
use za_wardle::WORD_LEN;

#[test]
fn word_has_five_letters() {
    assert_eq!(WORD_LEN, 5);
}

#[test]
fn letters_come_in_order() {
    assert_eq!(letters("right"), ['r', 'i', 'g', 'h', 't']);
    assert_eq!(letters("süßer"), ['s', 'ü', 'ß', 'e', 'r']);
}

#[test]
fn spelling_needs_five_letters() {
    assert_eq!(spell("right"), Some(['r', 'i', 'g', 'h', 't']));
    assert_eq!(spell("日本語文字"), Some(['日', '本', '語', '文', '字']));
    assert_eq!(spell(""), None);
    assert_eq!(spell("righ"), None);
    assert_eq!(spell("rights"), None);
    assert_eq!(spell("süß"), None);
}
