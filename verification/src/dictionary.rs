//! The word list: its text format, and the numeric keys under which words are
//! stored.
//!
//! A word list is a text of tokens separated by whitespace. The tokens alternate
//! between an entry and a number that belongs to it, starting with an entry. The
//! entries that are words make up the valid-word set.

use crate::word::{is_word, WORD_LEN};
use std::collections::HashSet;
use vstd::prelude::*;

verus! {

/// Whether `c` is whitespace: one of the characters that Unicode classes as
/// `White_Space`.
pub open spec fn is_space(c: char) -> bool {
    let u = c as u32;
    ||| 0x09 <= u <= 0x0D
    ||| u == 0x20
    ||| u == 0x85
    ||| u == 0xA0
    ||| u == 0x1680
    ||| 0x2000 <= u <= 0x200A
    ||| u == 0x2028
    ||| u == 0x2029
    ||| u == 0x202F
    ||| u == 0x205F
    ||| u == 0x3000
}

/// Tells whether `c` is whitespace.
pub fn is_whitespace(c: char) -> (b: bool)
    ensures
        b == is_space(c),
{
    let u: u32 = c as u32;
    (0x09 <= u && u <= 0x0D) || u == 0x20 || u == 0x85 || u == 0xA0 || u == 0x1680 || (0x2000 <= u
        && u <= 0x200A) || u == 0x2028 || u == 0x2029 || u == 0x202F || u == 0x205F || u == 0x3000
}

/// The tokens of `text`: its maximal runs of characters other than whitespace, in
/// the order in which they stand.
///
/// Read from the end: whitespace adds nothing to the tokens of the text before it;
/// any other character extends the last token if it follows one directly, and
/// starts a new token otherwise.
pub open spec fn tokens(text: Seq<char>) -> Seq<Seq<char>>
    decreases text.len(),
{
    if text.len() == 0 {
        Seq::empty()
    } else {
        let before = tokens(text.drop_last());
        let c = text.last();
        if is_space(c) {
            before
        } else if text.len() >= 2 && !is_space(text[text.len() - 2]) {
            before.drop_last().push(before.last().push(c))
        } else {
            before.push(seq![c])
        }
    }
}

/// Whether `word` is an entry among `tokens`: it stands at an even position.
pub open spec fn is_entry(tokens: Seq<Seq<char>>, word: Seq<char>) -> bool {
    exists|i: int| 0 <= i < tokens.len() && i % 2 == 0 && #[trigger] tokens[i] == word
}

/// The words among the entries of `tokens`.
pub open spec fn entries(tokens: Seq<Seq<char>>) -> Set<Seq<char>> {
    Set::new(|word: Seq<char>| is_word(word) && is_entry(tokens, word))
}

/// The valid-word set that the word list `text` holds.
pub open spec fn word_list(text: Seq<char>) -> Set<Seq<char>> {
    entries(tokens(text))
}

/// Whether `run` is not empty and holds no whitespace.
pub open spec fn is_run(run: Seq<char>) -> bool {
    run.len() > 0 && forall|k: int| 0 <= k < run.len() ==> !is_space(#[trigger] run[k])
}

/// Every token is a run: it is not empty and holds no whitespace.
pub proof fn lemma_tokens_are_runs(text: Seq<char>)
    ensures
        forall|i: int| 0 <= i < tokens(text).len() ==> is_run(#[trigger] tokens(text)[i]),
    decreases text.len(),
{
    if text.len() > 0 {
        let before = tokens(text.drop_last());
        let c = text.last();
        lemma_tokens_are_runs(text.drop_last());
        lemma_tokens_after_letter(text.drop_last());
        assert forall|i: int| 0 <= i < tokens(text).len() implies is_run(
            #[trigger] tokens(text)[i],
        ) by {
            if is_space(c) {
            } else if i < tokens(text).len() - 1 {
                assert(tokens(text)[i] == before[i]);
            } else if text.len() >= 2 && !is_space(text[text.len() - 2]) {
                assert(is_run(before[before.len() - 1]));
                assert(tokens(text)[i] == before.last().push(c));
            } else {
                assert(tokens(text)[i] == seq![c]);
            }
        }
    }
}

/// A run is its own and only token.
pub proof fn lemma_tokens_of_run(run: Seq<char>)
    requires
        is_run(run),
    ensures
        tokens(run) == seq![run],
    decreases run.len(),
{
    let start = run.drop_last();
    assert(!is_space(run[run.len() - 1]));
    if start.len() > 0 {
        assert forall|k: int| 0 <= k < start.len() implies !is_space(#[trigger] start[k]) by {
            assert(start[k] == run[k]);
        }
        lemma_tokens_of_run(start);
        assert(!is_space(run[run.len() - 2]));
        assert(seq![start].last().push(run.last()) =~= run);
        assert(seq![start].drop_last().push(run) =~= seq![run]);
    } else {
        assert(seq![run.last()] =~= run);
        assert(tokens(start).push(run) =~= seq![run]);
    }
}

/// The tokens of two texts with whitespace between them are the tokens of the
/// first, followed by the tokens of the second.
pub proof fn lemma_tokens_across_whitespace(before: Seq<char>, space: char, after: Seq<char>)
    requires
        is_space(space),
    ensures
        tokens(before.push(space) + after) == tokens(before) + tokens(after),
    decreases after.len(),
{
    let text = before.push(space) + after;
    if after.len() == 0 {
        assert(text =~= before.push(space));
        assert(text.drop_last() =~= before);
        assert(tokens(before) + tokens(after) =~= tokens(before));
    } else {
        let start = after.drop_last();
        lemma_tokens_across_whitespace(before, space, start);
        lemma_tokens_after_letter(start);
        assert(text.drop_last() =~= before.push(space) + start);
        let left = tokens(before);
        let right = tokens(start);
        if is_space(after.last()) {
        } else if start.len() > 0 && !is_space(start.last()) {
            assert((left + right).drop_last() =~= left + right.drop_last());
            assert(left + right.drop_last().push(right.last().push(after.last())) =~= (left
                + right.drop_last()).push(right.last().push(after.last())));
        } else {
            assert(left + right.push(seq![after.last()]) =~= (left + right).push(
                seq![after.last()],
            ));
        }
    }
}

/// A text that ends in a character other than whitespace has a last token.
proof fn lemma_tokens_after_letter(text: Seq<char>)
    ensures
        text.len() > 0 && !is_space(text.last()) ==> tokens(text).len() > 0,
{
}

/// Reads the word list `text`, and returns the keys of the words that it holds.
pub fn parse(text: &str) -> (keys: HashSet<u128>)
    ensures
        words_of(keys@) == word_list(text@),
{
    let mut keys: HashSet<u128> = HashSet::new();
    let mut token: Vec<char> = Vec::new();
    let mut entry = true;
    let ghost mut done: Seq<Seq<char>> = Seq::empty();
    proof {
        lemma_words_of_empty();
        lemma_entries_empty();
        assert(text@.take(0) =~= Seq::<char>::empty());
    }
    for c in chars: text.chars()
        invariant
            chars.seq() == text@,
            tokens(text@.take(chars.index())) == pending(done, token@),
            token@.len() > 0 <==> chars.index() > 0 && !is_space(text@[chars.index() - 1]),
            entry <==> done.len() % 2 == 0,
            words_of(keys@) == entries(done),
    {
        proof {
            lemma_tokens_step(text@, chars.index(), done, token@);
        }
        if !is_whitespace(c) {
            token.push(c);
        } else if token.len() > 0 {
            if entry && token.len() == WORD_LEN {
                proof {
                    lemma_words_of_insert(keys@, token@);
                }
                keys.insert(pack(token.as_slice()));
            }
            proof {
                lemma_entries_push(done, token@);
                done = done.push(token@);
            }
            entry = !entry;
            token.clear();
        }
    }
    proof {
        assert(text@.take(text@.len() as int) =~= text@);
        lemma_entries_push(done, token@);
    }
    if entry && token.len() == WORD_LEN {
        proof {
            lemma_words_of_insert(keys@, token@);
        }
        keys.insert(pack(token.as_slice()));
    }
    keys
}

/// The tokens read so far, given the finished ones and the characters of the one
/// that is being read.
spec fn pending(done: Seq<Seq<char>>, token: Seq<char>) -> Seq<Seq<char>> {
    if token.len() > 0 {
        done.push(token)
    } else {
        done
    }
}

/// Reading one more character of a text: whitespace finishes the token being read,
/// any other character is added to it.
proof fn lemma_tokens_step(text: Seq<char>, i: int, done: Seq<Seq<char>>, token: Seq<char>)
    requires
        0 <= i < text.len(),
        tokens(text.take(i)) == pending(done, token),
        token.len() > 0 <==> i > 0 && !is_space(text[i - 1]),
    ensures
        is_space(text[i]) ==> tokens(text.take(i + 1)) == pending(done, token),
        !is_space(text[i]) ==> tokens(text.take(i + 1)) == done.push(token.push(text[i])),
{
    let read = text.take(i + 1);
    assert(read.drop_last() =~= text.take(i));
    if !is_space(text[i]) {
        if token.len() > 0 {
            assert(done.push(token).drop_last() =~= done);
        } else {
            assert(token.push(text[i]) =~= seq![text[i]]);
        }
    }
}

/// No entry stands among no tokens.
proof fn lemma_entries_empty()
    ensures
        entries(Seq::empty()) == Set::<Seq<char>>::empty(),
{
    assert(entries(Seq::empty()) =~= Set::<Seq<char>>::empty());
}

/// One more token is one more entry if it stands at an even position and is a word,
/// and changes nothing otherwise.
proof fn lemma_entries_push(tokens: Seq<Seq<char>>, token: Seq<char>)
    ensures
        entries(tokens.push(token)) == if tokens.len() % 2 == 0 && is_word(token) {
            entries(tokens).insert(token)
        } else {
            entries(tokens)
        },
{
    let longer = tokens.push(token);
    let n = tokens.len() as int;
    assert forall|word: Seq<char>| is_entry(longer, word) <==> is_entry(tokens, word) || (n % 2
        == 0 && word == token) by {
        if is_entry(longer, word) {
            let i = choose|i: int| 0 <= i < longer.len() && i % 2 == 0 && #[trigger] longer[i] == word;
            if i < n {
                assert(tokens[i] == word);
            }
        }
        if is_entry(tokens, word) {
            let i = choose|i: int| 0 <= i < tokens.len() && i % 2 == 0 && #[trigger] tokens[i] == word;
            assert(longer[i] == word);
        }
        if n % 2 == 0 && word == token {
            assert(longer[n] == word);
        }
    }
    if n % 2 == 0 && is_word(token) {
        assert(entries(longer) =~= entries(tokens).insert(token));
    } else {
        assert(entries(longer) =~= entries(tokens));
    }
}

/// The code point of a letter.
pub open spec fn code(letter: char) -> int {
    letter as u32 as int
}

/// The key of a word: its five code points, each below 2^21, as the digits of one
/// number in base 2^21, the first letter lowest.
pub open spec fn key(word: Seq<char>) -> u128 {
    (code(word[0]) + 0x20_0000 * (code(word[1]) + 0x20_0000 * (code(word[2]) + 0x20_0000 * (code(
        word[3],
    ) + 0x20_0000 * code(word[4]))))) as u128
}

/// The words whose keys are in `keys`.
pub open spec fn words_of(keys: Set<u128>) -> Set<Seq<char>> {
    Set::new(|word: Seq<char>| is_word(word) && keys.contains(key(word)))
}

/// Computes the key of a word.
pub fn pack(word: &[char]) -> (k: u128)
    requires
        is_word(word@),
    ensures
        k == key(word@),
{
    let c0: u128 = word[0] as u32 as u128;
    let c1: u128 = word[1] as u32 as u128;
    let c2: u128 = word[2] as u32 as u128;
    let c3: u128 = word[3] as u32 as u128;
    let c4: u128 = word[4] as u32 as u128;
    c0 + 0x20_0000 * (c1 + 0x20_0000 * (c2 + 0x20_0000 * (c3 + 0x20_0000 * c4)))
}

/// Two words with the same key are the same word.
pub proof fn lemma_key_injective(v: Seq<char>, w: Seq<char>)
    requires
        is_word(v),
        is_word(w),
        key(v) == key(w),
    ensures
        v == w,
{
    lemma_code(v[0]);
    lemma_code(v[1]);
    lemma_code(v[2]);
    lemma_code(v[3]);
    lemma_code(v[4]);
    lemma_code(w[0]);
    lemma_code(w[1]);
    lemma_code(w[2]);
    lemma_code(w[3]);
    lemma_code(w[4]);
    let v3 = code(v[3]) + 0x20_0000 * code(v[4]);
    let w3 = code(w[3]) + 0x20_0000 * code(w[4]);
    let v2 = code(v[2]) + 0x20_0000 * v3;
    let w2 = code(w[2]) + 0x20_0000 * w3;
    let v1 = code(v[1]) + 0x20_0000 * v2;
    let w1 = code(w[1]) + 0x20_0000 * w2;
    lemma_same_digits(code(v[0]), v1, code(w[0]), w1);
    lemma_same_digits(code(v[1]), v2, code(w[1]), w2);
    lemma_same_digits(code(v[2]), v3, code(w[2]), w3);
    lemma_same_digits(code(v[3]), code(v[4]), code(w[3]), code(w[4]));
    assert(v =~= w);
}

/// Adding the key of a word to a set of keys adds that word, and no other, to the
/// words of the set.
proof fn lemma_words_of_insert(keys: Set<u128>, word: Seq<char>)
    requires
        is_word(word),
    ensures
        words_of(keys.insert(key(word))) == words_of(keys).insert(word),
{
    assert forall|other: Seq<char>| is_word(other) && key(other) == key(word) implies other
        == word by {
        lemma_key_injective(other, word);
    }
    assert(words_of(keys.insert(key(word))) =~= words_of(keys).insert(word));
}

/// No word has its key in the empty set.
proof fn lemma_words_of_empty()
    ensures
        words_of(Set::empty()) == Set::<Seq<char>>::empty(),
{
    assert(words_of(Set::empty()) =~= Set::<Seq<char>>::empty());
}

/// A code point is below 2^21, and the letter can be told from it.
proof fn lemma_code(letter: char)
    ensures
        0 <= code(letter) < 0x20_0000,
        code(letter) as char == letter,
{
}

/// A number below 2^21 and a multiple of 2^21 can be told from their sum.
proof fn lemma_same_digits(x: int, xs: int, y: int, ys: int)
    requires
        0 <= x < 0x20_0000,
        0 <= y < 0x20_0000,
        x + 0x20_0000 * xs == y + 0x20_0000 * ys,
    ensures
        x == y,
        xs == ys,
{
}

} // verus!
