use za_wardle::Correctness;

const C: Correctness = Correctness::Correct;
const M: Correctness = Correctness::Misplaced;
const W: Correctness = Correctness::Wrong;

#[test]
fn all_green() {
    assert_eq!(Correctness::compute("abcde", "abcde"), [C, C, C, C, C]);
}

#[test]
fn all_grey() {
    assert_eq!(Correctness::compute("abcde", "fghij"), [W, W, W, W, W]);
}

#[test]
fn all_yellow() {
    assert_eq!(Correctness::compute("abcde", "bcdea"), [M, M, M, M, M]);
}

#[test]
fn repeat_green() {
    assert_eq!(Correctness::compute("aabbb", "aaccc"), [C, C, W, W, W]);
}

#[test]
fn repeat_yellow() {
    assert_eq!(Correctness::compute("aabbb", "ccaac"), [W, W, M, M, W]);
}

#[test]
fn repeat_some_green() {
    assert_eq!(Correctness::compute("aabbb", "caacc"), [W, C, M, W, W]);
}

#[test]
fn limit_one_yellow() {
    assert_eq!(Correctness::compute("azzaz", "aaabb"), [C, M, W, W, W]);
}

#[test]
fn word_scored_against_itself_is_all_correct() {
    for word in ["right", "wrong", "aaaaa", "abcab", "zzzzy"] {
        assert_eq!(Correctness::compute(word, word), [C, C, C, C, C]);
    }
}

#[test]
fn no_common_letter_is_all_wrong() {
    assert_eq!(Correctness::compute("aabbc", "ddeef"), [W, W, W, W, W]);
    assert_eq!(Correctness::compute("right", "cameo"), [W, W, W, W, W]);
}

#[test]
fn correct_exactly_where_letters_agree() {
    let words = ["right", "wrong", "tight", "aabbb", "caacc", "azzaz", "aaabb", "abcde"];
    for answer in words {
        for guess in words {
            let mask = Correctness::compute(answer, guess);
            let a: Vec<char> = answer.chars().collect();
            let g: Vec<char> = guess.chars().collect();
            for i in 0..5 {
                assert_eq!(mask[i] == C, a[i] == g[i]);
            }
        }
    }
}

#[test]
fn credit_never_exceeds_occurrences_in_answer() {
    let words = ["right", "wrong", "tight", "aabbb", "caacc", "azzaz", "aaabb", "ababa", "babab"];
    for answer in words {
        for guess in words {
            let mask = Correctness::compute(answer, guess);
            let g: Vec<char> = guess.chars().collect();
            for letter in 'a'..='z' {
                let credited = (0..5).filter(|&i| g[i] == letter && mask[i] != W).count();
                let held = answer.chars().filter(|&c| c == letter).count();
                assert!(credited <= held);
            }
        }
    }
}

#[test]
fn earlier_position_claims_misplaced_credit_first() {
    assert_eq!(Correctness::compute("abcde", "eexyz"), [M, W, W, W, W]);
    assert_eq!(Correctness::compute("babab", "aaazz"), [M, C, W, W, W]);
}

#[test]
fn exact_match_keeps_its_letter_from_earlier_claims() {
    assert_eq!(Correctness::compute("abcde", "xaxax"), [W, M, W, W, W]);
    assert_eq!(Correctness::compute("xxxax", "axxax"), [W, C, C, C, C]);
    assert_eq!(Correctness::compute("tight", "light"), [W, C, C, C, C]);
}

#[test]
fn every_spare_letter_can_be_claimed() {
    assert_eq!(Correctness::compute("aabbc", "bbaac"), [M, M, M, M, C]);
    assert_eq!(Correctness::compute("right", "girth"), [M, C, M, M, M]);
}

#[test]
fn letters_beyond_ascii_count_as_one_letter_each() {
    assert_eq!(Correctness::compute("süßer", "rüsse"), [M, C, M, W, M]);
    assert_eq!(Correctness::compute("日本語文字", "字日本語文"), [M, M, M, M, M]);
}
