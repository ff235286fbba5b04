//! Scoring a guess against the hidden answer.
//!
//! The feedback on a guess is defined letter by letter by [`score_at`]: a letter in
//! its place is `Correct`; any other letter is `Misplaced` as long as the answer
//! still has an occurrence of it that no exact match and no earlier letter of the
//! guess has claimed, and `Wrong` after that. [`Correctness::compute`] finds the same
//! feedback by consuming answer letters one by one.

use crate::tally::{
    lemma_tally_disjoint, lemma_tally_lt, lemma_tally_mark, lemma_tally_none, lemma_tally_push, tally,
};
use crate::word::{is_word, letters};
use vstd::prelude::*;

verus! {

/// Feedback on one letter of a guess.
#[derive(Debug, Clone, Copy, PartialEq, Eq, Structural)]
pub enum Correctness {
    /// Green: the answer has this letter at this position.
    Correct,
    /// Yellow: the answer has this letter at another position.
    Misplaced,
    /// Grey: the answer has no occurrence of this letter left.
    Wrong,
}

/// Whether position `k` of the answer holds a `letter` that the guess does not
/// match in place, so that the letter can be credited to another position.
pub open spec fn spare(answer: Seq<char>, guess: Seq<char>, letter: char, k: int) -> bool {
    answer[k] == letter && guess[k] != letter
}

/// Whether position `j` of the guess holds a `letter` that is not in its place.
pub open spec fn stray(answer: Seq<char>, guess: Seq<char>, letter: char, j: int) -> bool {
    guess[j] == letter && answer[j] != letter
}

/// The positions of the answer that hold a spare `letter`.
pub open spec fn spare_marks(answer: Seq<char>, guess: Seq<char>, letter: char) -> Seq<bool> {
    Seq::new(answer.len(), |k: int| spare(answer, guess, letter, k))
}

/// The positions of the guess that hold a stray `letter`.
pub open spec fn stray_marks(answer: Seq<char>, guess: Seq<char>, letter: char) -> Seq<bool> {
    Seq::new(guess.len(), |j: int| stray(answer, guess, letter, j))
}

/// How many occurrences of `letter` the answer has left once the exact matches
/// are set aside.
pub open spec fn supply(answer: Seq<char>, guess: Seq<char>, letter: char) -> nat {
    tally(spare_marks(answer, guess, letter))
}

/// How many stray occurrences of `letter` the guess has before position `i`.
pub open spec fn demand(answer: Seq<char>, guess: Seq<char>, letter: char, i: int) -> nat {
    tally(stray_marks(answer, guess, letter).take(i))
}

/// The feedback on the letter at position `i` of the guess.
pub open spec fn score_at(answer: Seq<char>, guess: Seq<char>, i: int) -> Correctness {
    if guess[i] == answer[i] {
        Correctness::Correct
    } else if demand(answer, guess, guess[i], i) < supply(answer, guess, guess[i]) {
        Correctness::Misplaced
    } else {
        Correctness::Wrong
    }
}

/// The feedback mask of `guess` against `answer`, two words of the same length.
pub open spec fn score(answer: Seq<char>, guess: Seq<char>) -> Seq<Correctness> {
    Seq::new(guess.len(), |i: int| score_at(answer, guess, i))
}

/// The positions of `word` that hold `letter`.
pub open spec fn letter_marks(word: Seq<char>, letter: char) -> Seq<bool> {
    Seq::new(word.len(), |k: int| word[k] == letter)
}

/// The positions of `guess` that hold `letter` and that `mask` credits, as `Correct`
/// or as `Misplaced`.
pub open spec fn credit_marks(guess: Seq<char>, mask: Seq<Correctness>, letter: char) -> Seq<bool> {
    Seq::new(guess.len(), |i: int| guess[i] == letter && mask[i] != Correctness::Wrong)
}

/// How often `letter` occurs in `word`.
pub open spec fn occurrences(word: Seq<char>, letter: char) -> nat {
    tally(letter_marks(word, letter))
}

/// How many positions of `guess` hold `letter` and are credited by `mask`.
pub open spec fn credited(guess: Seq<char>, mask: Seq<Correctness>, letter: char) -> nat {
    tally(credit_marks(guess, mask, letter))
}

/// Whether two words have no letter in common.
pub open spec fn share_no_letter(answer: Seq<char>, guess: Seq<char>) -> bool {
    forall|k: int, i: int|
        0 <= k < answer.len() && 0 <= i < guess.len() ==> #[trigger] answer[k] != #[trigger] guess[i]
}

impl Correctness {
    /// Scores `guess` against `answer`.
    ///
    /// Exact matches are settled first. Each remaining letter of the guess, from left
    /// to right, then takes the first letter of the answer that equals it, is no exact
    /// match and has not been taken yet; where there is none, the letter is `Wrong`.
    pub fn compute(answer: &str, guess: &str) -> (mask: [Correctness; 5])
        requires
            is_word(answer@),
            is_word(guess@),
        ensures
            mask@ == score(answer@, guess@),
            forall|i: int|
                0 <= i < 5 ==> (mask[i] == Correctness::Correct <==> answer@[i] == guess@[i]),
            forall|letter: char|
                #[trigger] credited(guess@, mask@, letter) <= occurrences(answer@, letter),
            answer@ == guess@ ==> forall|i: int| 0 <= i < 5 ==> mask[i] == Correctness::Correct,
            share_no_letter(answer@, guess@) ==> forall|i: int|
                0 <= i < 5 ==> mask[i] == Correctness::Wrong,
    {
        let a = letters(answer);
        let g = letters(guess);
        let mut mask = [Correctness::Wrong; 5];
        let mut used = [false; 5];
        for i in 0..5usize
            invariant
                forall|k: int|
                    0 <= k < i ==> used[k] == (a[k] == g[k]) && mask[k] == if a[k] == g[k] {
                        Correctness::Correct
                    } else {
                        Correctness::Wrong
                    },
                forall|k: int| i <= k < 5 ==> !used[k] && mask[k] == Correctness::Wrong,
        {
            if a[i] == g[i] {
                mask[i] = Correctness::Correct;
                used[i] = true;
            }
        }
        proof {
            lemma_balanced_at_start(a@, g@, used@);
        }
        for i in 0..5usize
            invariant
                forall|k: int| 0 <= k < 5 && a[k] == g[k] ==> mask[k] == Correctness::Correct,
                forall|k: int| 0 <= k < i ==> mask[k] == score_at(a@, g@, k),
                forall|k: int| i <= k < 5 && a[k] != g[k] ==> mask[k] == Correctness::Wrong,
                balanced(a@, g@, used@, i as int),
        {
            if a[i] != g[i] {
                let ghost used_before = used@;
                let ghost mask_before = mask@;
                let ghost mut taken: int = 0;
                let mut found = false;
                let mut j: usize = 0;
                while j < 5 && !found
                    invariant
                        i < 5,
                        j <= 5,
                        !found ==> used@ == used_before && mask@ == mask_before,
                        !found ==> forall|k: int|
                            0 <= k < j && spare(a@, g@, g[i as int], k) ==> used_before[k],
                        found ==> 0 <= taken < 5 && spare(a@, g@, g[i as int], taken)
                            && !used_before[taken],
                        found ==> used@ == used_before.update(taken, true),
                        found ==> mask@ == mask_before.update(i as int, Correctness::Misplaced),
                    decreases 5 - j + if found { 0int } else { 1int },
                {
                    if a[j] == g[i] && a[j] != g[j] && !used[j] {
                        mask[i] = Correctness::Misplaced;
                        used[j] = true;
                        found = true;
                        proof {
                            taken = j as int;
                        }
                    } else {
                        j += 1;
                    }
                }
                proof {
                    if found {
                        lemma_balanced_after_claim(a@, g@, used_before, i as int, taken);
                    } else {
                        lemma_balanced_after_miss(a@, g@, used_before, i as int);
                    }
                }
            } else {
                proof {
                    lemma_balanced_after_match(a@, g@, used@, i as int);
                }
            }
        }
        proof {
            assert(mask@ =~= score(answer@, guess@));
            assert forall|letter: char|
                #[trigger] credited(guess@, mask@, letter) <= occurrences(answer@, letter) by {
                lemma_credit_within_occurrences(answer@, guess@, letter);
            }
            if share_no_letter(answer@, guess@) {
                lemma_score_of_stranger(answer@, guess@);
            }
        }
        mask
    }
}

/// A word scored against itself is `Correct` at every position.
pub proof fn lemma_score_of_answer(word: Seq<char>)
    ensures
        score(word, word) == Seq::new(word.len(), |i: int| Correctness::Correct),
{
    assert(score(word, word) =~= Seq::new(word.len(), |i: int| Correctness::Correct));
}

/// A guess that has no letter in common with the answer is `Wrong` at every position.
pub proof fn lemma_score_of_stranger(answer: Seq<char>, guess: Seq<char>)
    requires
        answer.len() == guess.len(),
        share_no_letter(answer, guess),
    ensures
        score(answer, guess) == Seq::new(guess.len(), |i: int| Correctness::Wrong),
{
    assert forall|i: int| 0 <= i < guess.len() implies score_at(answer, guess, i)
        == Correctness::Wrong by {
        assert(answer[i] != guess[i]);
        lemma_tally_none(spare_marks(answer, guess, guess[i]));
    }
    assert(score(answer, guess) =~= Seq::new(guess.len(), |i: int| Correctness::Wrong));
}

/// A position is `Correct` exactly where guess and answer hold the same letter.
pub proof fn lemma_correct_iff_same_letter(answer: Seq<char>, guess: Seq<char>, i: int)
    requires
        answer.len() == guess.len(),
        0 <= i < guess.len(),
    ensures
        score(answer, guess)[i] == Correctness::Correct <==> answer[i] == guess[i],
{
}

/// No letter is credited more often than the answer holds it: the positions of the
/// guess that hold `letter` and are `Correct` or `Misplaced` are at most as many as
/// the occurrences of `letter` in the answer.
pub proof fn lemma_credit_within_occurrences(answer: Seq<char>, guess: Seq<char>, letter: char)
    requires
        answer.len() == guess.len(),
    ensures
        credited(guess, score(answer, guess), letter) <= occurrences(answer, letter),
{
    let n = guess.len() as int;
    let credits = credit_marks(guess, score(answer, guess), letter);
    let exact = exact_marks(answer, guess, letter);
    lemma_credit_prefix(answer, guess, letter, n);
    assert(credits.take(n) =~= credits);
    assert(exact.take(n) =~= exact);
    lemma_tally_disjoint(exact, spare_marks(answer, guess, letter), letter_marks(answer, letter));
}

/// The positions at which answer and guess both hold `letter`.
spec fn exact_marks(answer: Seq<char>, guess: Seq<char>, letter: char) -> Seq<bool> {
    Seq::new(guess.len(), |k: int| answer[k] == letter && guess[k] == letter)
}

spec fn least(x: nat, y: nat) -> nat {
    if x <= y {
        x
    } else {
        y
    }
}

/// One more position adds its own mark to the demand.
proof fn lemma_demand_step(answer: Seq<char>, guess: Seq<char>, letter: char, i: int)
    requires
        0 <= i < guess.len(),
    ensures
        demand(answer, guess, letter, i + 1) == demand(answer, guess, letter, i) + if stray(
            answer,
            guess,
            letter,
            i,
        ) {
            1nat
        } else {
            0nat
        },
{
    let marks = stray_marks(answer, guess, letter);
    assert(marks.take(i + 1) =~= marks.take(i).push(marks[i]));
    lemma_tally_push(marks.take(i), marks[i]);
}

/// Among the first `n` positions, the credited ones are the exact matches and as
/// many stray ones as the supply allows.
proof fn lemma_credit_prefix(answer: Seq<char>, guess: Seq<char>, letter: char, n: int)
    requires
        answer.len() == guess.len(),
        0 <= n <= guess.len(),
    ensures
        tally(credit_marks(guess, score(answer, guess), letter).take(n)) == tally(
            exact_marks(answer, guess, letter).take(n),
        ) + least(demand(answer, guess, letter, n), supply(answer, guess, letter)),
    decreases n,
{
    let credits = credit_marks(guess, score(answer, guess), letter);
    let exact = exact_marks(answer, guess, letter);
    if n == 0 {
        assert(stray_marks(answer, guess, letter).take(0) =~= Seq::<bool>::empty());
        assert(credits.take(0) =~= Seq::<bool>::empty());
        assert(exact.take(0) =~= Seq::<bool>::empty());
    } else {
        let i = n - 1;
        lemma_credit_prefix(answer, guess, letter, i);
        lemma_demand_step(answer, guess, letter, i);
        assert(credits.take(n) =~= credits.take(i).push(credits[i]));
        assert(exact.take(n) =~= exact.take(i).push(exact[i]));
        lemma_tally_push(credits.take(i), credits[i]);
        lemma_tally_push(exact.take(i), exact[i]);
    }
}

/// The positions of the answer whose spare `letter` has been taken.
spec fn taken_marks(answer: Seq<char>, guess: Seq<char>, used: Seq<bool>, letter: char) -> Seq<
    bool,
> {
    Seq::new(answer.len(), |k: int| used[k] && spare(answer, guess, letter, k))
}

/// Whether, of every letter, as many spare occurrences have been taken as the first
/// `i` positions of the guess ask for and the supply allows.
spec fn balanced(answer: Seq<char>, guess: Seq<char>, used: Seq<bool>, i: int) -> bool {
    forall|letter: char|
        tally(#[trigger] taken_marks(answer, guess, used, letter)) == least(
            demand(answer, guess, letter, i),
            supply(answer, guess, letter),
        )
}

/// Before any stray letter is looked at, only exact matches are marked and nothing
/// has been taken.
proof fn lemma_balanced_at_start(answer: Seq<char>, guess: Seq<char>, used: Seq<bool>)
    requires
        answer.len() == guess.len(),
        used.len() == guess.len(),
        forall|k: int| 0 <= k < used.len() && used[k] ==> answer[k] == guess[k],
    ensures
        balanced(answer, guess, used, 0),
{
    assert forall|letter: char|
        tally(#[trigger] taken_marks(answer, guess, used, letter)) == least(
            demand(answer, guess, letter, 0),
            supply(answer, guess, letter),
        ) by {
        lemma_tally_none(taken_marks(answer, guess, used, letter));
        assert(stray_marks(answer, guess, letter).take(0) =~= Seq::<bool>::empty());
    }
}

/// An exact match asks for nothing.
proof fn lemma_balanced_after_match(answer: Seq<char>, guess: Seq<char>, used: Seq<bool>, i: int)
    requires
        answer.len() == guess.len(),
        0 <= i < guess.len(),
        answer[i] == guess[i],
        balanced(answer, guess, used, i),
    ensures
        balanced(answer, guess, used, i + 1),
{
    assert forall|letter: char|
        tally(#[trigger] taken_marks(answer, guess, used, letter)) == least(
            demand(answer, guess, letter, i + 1),
            supply(answer, guess, letter),
        ) by {
        lemma_demand_step(answer, guess, letter, i);
    }
}

/// A stray letter that finds a spare occurrence not yet taken is `Misplaced`, and
/// taking that occurrence keeps the balance.
proof fn lemma_balanced_after_claim(
    answer: Seq<char>,
    guess: Seq<char>,
    used: Seq<bool>,
    i: int,
    j: int,
)
    requires
        answer.len() == guess.len(),
        used.len() == guess.len(),
        0 <= i < guess.len(),
        0 <= j < guess.len(),
        answer[i] != guess[i],
        spare(answer, guess, guess[i], j),
        !used[j],
        balanced(answer, guess, used, i),
    ensures
        score_at(answer, guess, i) == Correctness::Misplaced,
        balanced(answer, guess, used.update(j, true), i + 1),
{
    let wanted = guess[i];
    let taken = taken_marks(answer, guess, used, wanted);
    lemma_tally_lt(taken, spare_marks(answer, guess, wanted), j);
    assert forall|letter: char|
        tally(#[trigger] taken_marks(answer, guess, used.update(j, true), letter)) == least(
            demand(answer, guess, letter, i + 1),
            supply(answer, guess, letter),
        ) by {
        let before = taken_marks(answer, guess, used, letter);
        let after = taken_marks(answer, guess, used.update(j, true), letter);
        lemma_demand_step(answer, guess, letter, i);
        if letter == wanted {
            assert(after =~= before.update(j, true));
            lemma_tally_mark(before, j);
        } else {
            assert(after =~= before);
        }
    }
}

/// A stray letter that finds every spare occurrence taken is `Wrong`, and the
/// balance stays.
proof fn lemma_balanced_after_miss(answer: Seq<char>, guess: Seq<char>, used: Seq<bool>, i: int)
    requires
        answer.len() == guess.len(),
        used.len() == guess.len(),
        0 <= i < guess.len(),
        answer[i] != guess[i],
        forall|k: int| 0 <= k < guess.len() && spare(answer, guess, guess[i], k) ==> used[k],
        balanced(answer, guess, used, i),
    ensures
        score_at(answer, guess, i) == Correctness::Wrong,
        balanced(answer, guess, used, i + 1),
{
    let wanted = guess[i];
    assert(taken_marks(answer, guess, used, wanted) =~= spare_marks(answer, guess, wanted));
    assert forall|letter: char|
        tally(#[trigger] taken_marks(answer, guess, used, letter)) == least(
            demand(answer, guess, letter, i + 1),
            supply(answer, guess, letter),
        ) by {
        lemma_demand_step(answer, guess, letter, i);
    }
}

} // verus!
