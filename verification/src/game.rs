//! The game: a strategy proposes words, round after round, until it names the
//! answer, the rounds run out, or it proposes something that is no valid word.

use crate::dictionary::{pack, parse, word_list, words_of};
use crate::scoring::{score, Correctness};
use crate::word::{is_word, letters, spell};
use std::collections::HashSet;
use vstd::prelude::*;

verus! {

/// The number of rounds after which an unsolved game ends.
pub const MAX_GUESSES: usize = 32;

/// A guessed word with the feedback it got.
pub struct Guess {
    pub word: String,
    pub mask: [Correctness; 5],
}

/// What a guess record says: the word, and the feedback on each of its letters.
pub type Record = (Seq<char>, Seq<Correctness>);

impl View for Guess {
    type V = Record;

    open spec fn view(&self) -> Record {
        (self.word@, self.mask@)
    }
}

/// What the records of a history say, in the order of the rounds.
pub open spec fn records(history: Seq<Guess>) -> Seq<Record> {
    history.map_values(|guess: Guess| guess@)
}

/// Whether `records` can be what a game for `answer` has recorded: each record holds
/// a word other than the answer and the feedback that this word scores against the
/// answer.
pub open spec fn is_feedback(answer: Seq<char>, records: Seq<Record>) -> bool {
    forall|i: int|
        0 <= i < records.len() ==> {
            &&& is_word((#[trigger] records[i]).0)
            &&& records[i].0 != answer
            &&& records[i].1 == score(answer, records[i].0)
        }
}

/// A strategy: it proposes the next word from what the earlier rounds recorded.
pub trait Guesser {
    /// Proposes the next guess. The history is empty in the first round; it holds
    /// fewer records than a game has rounds, and its feedback is genuine.
    fn guess(&mut self, history: &[Guess]) -> (word: String)
        requires
            history@.len() < MAX_GUESSES,
            exists|answer: Seq<char>|
                is_word(answer) && #[trigger] is_feedback(answer, records(history@)),
    ;
}

/// The state of a game after a round.
#[derive(Debug, Clone, Copy, PartialEq, Eq, Structural)]
pub enum State {
    /// The game goes on with the round of this number.
    Round(usize),
    /// The answer was named in the round of this number.
    Solved(usize),
    /// The last round has passed without the answer.
    Exhausted,
}

/// A strategy proposed, in the round of this number, something that is neither the
/// answer nor a valid word.
#[derive(Debug, Clone, Copy, PartialEq, Eq, Structural)]
pub struct InvalidGuess {
    pub round: usize,
}

/// What follows from `guess` in the round of number `round`. Naming the answer
/// solves the game, whether or not the answer is a valid word; any other guess has
/// to be a valid word, and after the last round the game is exhausted.
pub open spec fn verdict(words: Set<Seq<char>>, answer: Seq<char>, round: nat, guess: Seq<char>) -> Result<
    State,
    InvalidGuess,
> {
    if guess == answer {
        Ok(State::Solved(round as usize))
    } else if !words.contains(guess) {
        Err(InvalidGuess { round: round as usize })
    } else if round >= MAX_GUESSES {
        Ok(State::Exhausted)
    } else {
        Ok(State::Round((round + 1) as usize))
    }
}

/// How a game ends that has recorded `history` so far, where `strategy` says which
/// word is proposed after which records: the number of the round that names the
/// answer, `None` when the rounds run out, or the invalid guess.
pub open spec fn outcome_from(
    words: Set<Seq<char>>,
    answer: Seq<char>,
    strategy: spec_fn(Seq<Record>) -> Seq<char>,
    history: Seq<Record>,
) -> Result<Option<usize>, InvalidGuess>
    decreases MAX_GUESSES - history.len(),
{
    let guess = strategy(history);
    match verdict(words, answer, history.len() + 1, guess) {
        Ok(State::Round(_)) => outcome_from(
            words,
            answer,
            strategy,
            history.push((guess, score(answer, guess))),
        ),
        Ok(State::Solved(round)) => Ok(Some(round)),
        Ok(State::Exhausted) => Ok(None),
        Err(invalid) => Err(invalid),
    }
}

/// The records that the strategy is shown in the last round of a game that has
/// recorded `history` so far.
pub open spec fn last_shown_from(
    words: Set<Seq<char>>,
    answer: Seq<char>,
    strategy: spec_fn(Seq<Record>) -> Seq<char>,
    history: Seq<Record>,
) -> Seq<Record>
    decreases MAX_GUESSES - history.len(),
{
    let guess = strategy(history);
    match verdict(words, answer, history.len() + 1, guess) {
        Ok(State::Round(_)) => last_shown_from(
            words,
            answer,
            strategy,
            history.push((guess, score(answer, guess))),
        ),
        _ => history,
    }
}

/// How a game for `answer` ends when `strategy` plays it from the first round.
pub open spec fn outcome(
    words: Set<Seq<char>>,
    answer: Seq<char>,
    strategy: spec_fn(Seq<Record>) -> Seq<char>,
) -> Result<Option<usize>, InvalidGuess> {
    outcome_from(words, answer, strategy, Seq::empty())
}

/// The records that `strategy` is shown in the last round of a game for `answer`.
pub open spec fn last_shown(
    words: Set<Seq<char>>,
    answer: Seq<char>,
    strategy: spec_fn(Seq<Record>) -> Seq<char>,
) -> Seq<Record> {
    last_shown_from(words, answer, strategy, Seq::empty())
}

/// Whether `after` is `before` with one more record at its end, which says `record`.
pub open spec fn appended(before: Seq<Guess>, after: Seq<Guess>, record: Record) -> bool {
    &&& after.len() == before.len() + 1
    &&& after.drop_last() == before
    &&& after.last()@ == record
}

/// The game engine, with the valid-word set.
pub struct Wordle {
    dictionary: HashSet<u128>,
}

impl View for Wordle {
    type V = Set<Seq<char>>;

    /// The valid-word set.
    closed spec fn view(&self) -> Set<Seq<char>> {
        words_of(self.dictionary@)
    }
}

impl Wordle {
    /// An engine whose valid-word set is the one that the word list `dictionary`
    /// holds: the words among its entries.
    pub fn new(dictionary: &str) -> (wordle: Wordle)
        ensures
            wordle@ == word_list(dictionary@),
    {
        Wordle { dictionary: parse(dictionary) }
    }

    /// Every valid word is a word.
    pub proof fn lemma_valid_words_are_words(&self, word: Seq<char>)
        requires
            self@.contains(word),
        ensures
            is_word(word),
    {
    }

    /// Plays one round of a game for `answer`, the round that follows those recorded
    /// in `history`, with `guess` as the word proposed in it.
    ///
    /// A guess that counts, without solving the game, is recorded with its feedback;
    /// otherwise the history stays as it is.
    pub fn round(&self, answer: &str, guess: String, history: &mut Vec<Guess>) -> (next: Result<
        State,
        InvalidGuess,
    >)
        requires
            is_word(answer@),
            old(history).len() < MAX_GUESSES,
        ensures
            next == verdict(self@, answer@, old(history)@.len() + 1, guess@),
            next matches Ok(State::Round(_) | State::Exhausted) ==> appended(
                old(history)@,
                final(history)@,
                (guess@, score(answer@, guess@)),
            ),
            next matches Ok(State::Solved(_)) ==> final(history)@ == old(history)@,
            next is Err ==> final(history)@ == old(history)@,
    {
        let round = history.len() + 1;
        let target = letters(answer);
        let proposed = match spell(guess.as_str()) {
            Some(proposed) => proposed,
            None => {
                return Err(InvalidGuess { round });
            },
        };
        if proposed[0] == target[0] && proposed[1] == target[1] && proposed[2] == target[2]
            && proposed[3] == target[3] && proposed[4] == target[4] {
            assert(guess@ =~= answer@);
            return Ok(State::Solved(round));
        }
        if !self.dictionary.contains(&pack(proposed.as_slice())) {
            return Err(InvalidGuess { round });
        }
        let mask = Correctness::compute(answer, guess.as_str());
        history.push(Guess { word: guess, mask });
        proof {
            assert(final(history)@.drop_last() =~= old(history)@);
        }
        if round < MAX_GUESSES {
            Ok(State::Round(round + 1))
        } else {
            Ok(State::Exhausted)
        }
    }

    /// Plays a game for `answer`: `guesser` proposes a word in each round, from the
    /// records of the rounds before, until the game is decided.
    ///
    /// Returns the number of the round in which the answer was named, `None` if it
    /// was named in none of the `MAX_GUESSES` rounds, and the error if a guess was
    /// neither the answer nor a valid word. Whatever the strategy does, the game ends
    /// as [`outcome`] says of the words that it proposed.
    pub fn play<G: Guesser>(&self, answer: &str, mut guesser: G) -> (result: Result<
        Option<usize>,
        InvalidGuess,
    >)
        requires
            is_word(answer@),
        ensures
            exists|strategy: spec_fn(Seq<Record>) -> Seq<char>|
                result == #[trigger] outcome(self@, answer@, strategy),
            result matches Ok(Some(round)) ==> 1 <= round <= MAX_GUESSES,
            result matches Err(invalid) ==> 1 <= invalid.round <= MAX_GUESSES,
    {
        let mut history: Vec<Guess> = Vec::new();
        let ghost mut said: Seq<Seq<char>> = Seq::empty();
        proof {
            assert(records(history@) =~= transcript(answer@, said));
        }
        loop
            invariant
                is_word(answer@),
                history.len() < MAX_GUESSES,
                said.len() == history.len(),
                records(history@) == transcript(answer@, said),
                forall|i: int|
                    0 <= i < said.len() ==> (#[trigger] said[i]) != answer@ && self@.contains(
                        said[i],
                    ),
            decreases MAX_GUESSES - history.len(),
        {
            proof {
                assert(is_feedback(answer@, records(history@)));
            }
            let guess = guesser.guess(history.as_slice());
            let ghost word = guess@;
            let ghost before = history@;
            let next = self.round(answer, guess, &mut history);
            proof {
                let all = said.push(word);
                lemma_recited(self@, answer@, all, 0);
                assert(transcript(answer@, all.take(0)) =~= Seq::<Record>::empty());
                if !(next matches Ok(State::Round(_))) {
                    assert(outcome(self@, answer@, reciting(all, answer@)) == match next {
                        Ok(State::Solved(round)) => Ok(Some(round)),
                        Ok(_) => Ok(None),
                        Err(invalid) => Err(invalid),
                    });
                }
            }
            match next {
                Ok(State::Round(_)) => {
                    proof {
                        assert forall|i: int| 0 <= i < before.len() implies records(history@)[i]
                            == transcript(answer@, said)[i] by {
                            assert(history@[i] == history@.drop_last()[i]);
                            assert(records(before)[i] == before[i]@);
                        }
                        said = said.push(word);
                        assert(records(history@) =~= transcript(answer@, said));
                    }
                },
                Ok(State::Solved(round)) => {
                    return Ok(Some(round));
                },
                Ok(State::Exhausted) => {
                    return Ok(None);
                },
                Err(invalid) => {
                    return Err(invalid);
                },
            }
        }
    }
}

/// The empty history, which a strategy is shown in the first round, is a history
/// like any other: it meets what [`Guesser::guess`] asks of a history.
pub proof fn lemma_empty_history_is_feedback(answer: Seq<char>)
    ensures
        is_feedback(answer, records(Seq::<Guess>::empty())),
        records(Seq::<Guess>::empty()) == Seq::<Record>::empty(),
{
    assert(records(Seq::<Guess>::empty()) =~= Seq::<Record>::empty());
}

/// A strategy that opens with the answer solves the game in the first round, and
/// is shown an empty history when it does.
pub proof fn lemma_opening_with_answer(
    words: Set<Seq<char>>,
    answer: Seq<char>,
    strategy: spec_fn(Seq<Record>) -> Seq<char>,
)
    requires
        strategy(Seq::<Record>::empty()) == answer,
    ensures
        outcome(words, answer, strategy) == Ok::<Option<usize>, InvalidGuess>(Some(1usize)),
        last_shown(words, answer, strategy) == Seq::<Record>::empty(),
{
}

/// A strategy that names the answer when it is shown `round - 1` records, and
/// proposes other valid words as long as it is shown fewer, solves the game in the
/// round of number `round`; the history that it is shown in that round holds
/// `round - 1` records.
pub proof fn lemma_naming_answer_in_round(
    words: Set<Seq<char>>,
    answer: Seq<char>,
    strategy: spec_fn(Seq<Record>) -> Seq<char>,
    round: nat,
)
    requires
        1 <= round <= MAX_GUESSES,
        forall|history: Seq<Record>|
            history.len() + 1 < round ==> (#[trigger] strategy(history)) != answer
                && words.contains(strategy(history)),
        forall|history: Seq<Record>|
            history.len() + 1 == round ==> #[trigger] strategy(history) == answer,
    ensures
        outcome(words, answer, strategy) == Ok::<Option<usize>, InvalidGuess>(
            Some(round as usize),
        ),
        last_shown(words, answer, strategy).len() == round - 1,
{
    lemma_solved_from(words, answer, strategy, round, Seq::empty());
}

/// A strategy that proposes valid words and never the answer exhausts the game: it
/// is asked in each of the `MAX_GUESSES` rounds, and the history that it is shown in
/// the last of them holds `MAX_GUESSES - 1` records.
pub proof fn lemma_never_naming_answer(
    words: Set<Seq<char>>,
    answer: Seq<char>,
    strategy: spec_fn(Seq<Record>) -> Seq<char>,
)
    requires
        forall|history: Seq<Record>|
            history.len() < MAX_GUESSES ==> (#[trigger] strategy(history)) != answer
                && words.contains(strategy(history)),
    ensures
        outcome(words, answer, strategy) == Ok::<Option<usize>, InvalidGuess>(None),
        last_shown(words, answer, strategy).len() == MAX_GUESSES - 1,
{
    lemma_exhausted_from(words, answer, strategy, Seq::empty());
}

proof fn lemma_solved_from(
    words: Set<Seq<char>>,
    answer: Seq<char>,
    strategy: spec_fn(Seq<Record>) -> Seq<char>,
    round: nat,
    history: Seq<Record>,
)
    requires
        history.len() < round <= MAX_GUESSES,
        forall|history: Seq<Record>|
            history.len() + 1 < round ==> (#[trigger] strategy(history)) != answer
                && words.contains(strategy(history)),
        forall|history: Seq<Record>|
            history.len() + 1 == round ==> #[trigger] strategy(history) == answer,
    ensures
        outcome_from(words, answer, strategy, history) == Ok::<Option<usize>, InvalidGuess>(
            Some(round as usize),
        ),
        last_shown_from(words, answer, strategy, history).len() == round - 1,
    decreases round - history.len(),
{
    let guess = strategy(history);
    if history.len() + 1 < round {
        lemma_solved_from(
            words,
            answer,
            strategy,
            round,
            history.push((guess, score(answer, guess))),
        );
    }
}

proof fn lemma_exhausted_from(
    words: Set<Seq<char>>,
    answer: Seq<char>,
    strategy: spec_fn(Seq<Record>) -> Seq<char>,
    history: Seq<Record>,
)
    requires
        history.len() < MAX_GUESSES,
        forall|history: Seq<Record>|
            history.len() < MAX_GUESSES ==> (#[trigger] strategy(history)) != answer
                && words.contains(strategy(history)),
    ensures
        outcome_from(words, answer, strategy, history) == Ok::<Option<usize>, InvalidGuess>(None),
        last_shown_from(words, answer, strategy, history).len() == MAX_GUESSES - 1,
    decreases MAX_GUESSES - history.len(),
{
    let guess = strategy(history);
    if history.len() + 1 < MAX_GUESSES {
        lemma_exhausted_from(words, answer, strategy, history.push((guess, score(answer, guess))));
    }
}

/// The strategy that proposes the words of `said` one after the other, and the
/// answer once they are used up.
spec fn reciting(said: Seq<Seq<char>>, answer: Seq<char>) -> spec_fn(Seq<Record>) -> Seq<
    char,
> {
    |history: Seq<Record>|
        if history.len() < said.len() {
            said[history.len() as int]
        } else {
            answer
        }
}

/// The records of a game for `answer` in which the words of `said` were proposed.
spec fn transcript(answer: Seq<char>, said: Seq<Seq<char>>) -> Seq<Record> {
    Seq::new(said.len(), |i: int| (said[i], score(answer, said[i])))
}

/// A game in which the words of `said` are proposed, all but the last of them valid
/// words other than the answer, ends as the last word decides in its round; and this
/// holds from any round of the game on.
proof fn lemma_recited(words: Set<Seq<char>>, answer: Seq<char>, said: Seq<Seq<char>>, played: int)
    requires
        0 < said.len() <= MAX_GUESSES,
        0 <= played < said.len(),
        forall|i: int|
            0 <= i < said.len() - 1 ==> (#[trigger] said[i]) != answer && words.contains(said[i]),
    ensures
        outcome_from(words, answer, reciting(said, answer), transcript(answer, said.take(played)))
            == match verdict(words, answer, said.len(), said.last()) {
            Ok(State::Round(_)) => outcome_from(
                words,
                answer,
                reciting(said, answer),
                transcript(answer, said),
            ),
            Ok(State::Solved(round)) => Ok(Some(round)),
            Ok(State::Exhausted) => Ok(None),
            Err(invalid) => Err(invalid),
        },
    decreases said.len() - played,
{
    let strategy = reciting(said, answer);
    let history = transcript(answer, said.take(played));
    let guess = said[played];
    assert(strategy(history) == guess);
    assert(history.push((guess, score(answer, guess))) =~= transcript(
        answer,
        said.take(played + 1),
    ));
    if played < said.len() - 1 {
        lemma_recited(words, answer, said, played + 1);
    } else {
        assert(said.take(played + 1) =~= said);
    }
}

} // verus!
