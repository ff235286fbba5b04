//! Words: sequences of exactly five letters.

use vstd::prelude::*;

verus! {

/// The number of letters in a word.
pub const WORD_LEN: usize = 5;

/// Whether `text` is a word, that is, has exactly `WORD_LEN` letters.
pub open spec fn is_word(text: Seq<char>) -> bool {
    text.len() == WORD_LEN
}

/// The letters of a word, in order.
pub fn letters(word: &str) -> (l: [char; 5])
    requires
        is_word(word@),
    ensures
        l@ == word@,
{
    let l = [
        word.get_char(0),
        word.get_char(1),
        word.get_char(2),
        word.get_char(3),
        word.get_char(4),
    ];
    assert(l@ =~= word@);
    l
}

/// The letters of `text` if it is a word, and `None` if it is not.
pub fn spell(text: &str) -> (l: Option<[char; 5]>)
    ensures
        is_word(text@) <==> l is Some,
        l matches Some(w) ==> w@ == text@,
{
    if text.unicode_len() == WORD_LEN {
        Some(letters(text))
    } else {
        None
    }
}

} // verus!
