use wordle_rs::next_guess::{feedback_histogram, get_expected_remaining_words, get_next_guess};
use wordle_rs::word_set::{Word, WordSet};

fn vocab(words: &[&str]) -> Vec<Word> {
    words.iter().map(|w| Word::from_str(w)).collect()
}

fn pool(words: &[&str]) -> WordSet {
    let mut set = WordSet::new();
    for w in words {
        set.insert(Word::from_str(w));
    }
    set
}

#[test]
fn test_smoke() {
    let word_list = vocab(&["salet", "crane", "aaaaa", "bbbbb"]);
    let remaining_words = pool(&["aaaaa", "bbbbb"]);
    let guess = get_next_guess(&remaining_words, &word_list).unwrap();
    println!("{}", guess.len());
}

#[test]
fn empty_pool_always_fails() {
    let word_list = vocab(&["salet", "crane"]);
    let remaining_words = WordSet::new();
    assert!(get_next_guess(&remaining_words, &word_list).is_err());
    assert!(get_next_guess(&remaining_words, &vocab(&[])).is_err());
}

#[test]
fn singleton_pool_short_circuits() {
    let remaining_words = pool(&["crane"]);
    let guess = get_next_guess(&remaining_words, &vocab(&["salet", "pious"])).unwrap();
    assert_eq!(guess, Word::from_str("crane"));
    let guess = get_next_guess(&remaining_words, &vocab(&[])).unwrap();
    assert_eq!(guess, Word::from_str("crane"));
    let guess = get_next_guess(&pool(&["zzzzz"]), &vocab(&["aaaaa"])).unwrap();
    assert_eq!(guess, Word::from_str("zzzzz"));
}

#[test]
fn tie_break_prefers_pool_member() {
    // "aaaab" and "aaaaa" split the pool into the same bucket sizes (1 and 1),
    // so their expected remaining counts tie; only "aaaaa" is in the pool.
    let remaining_words = pool(&["aaaaa", "bbbbb"]);
    let scores_first = get_expected_remaining_words(&remaining_words, &Word::from_str("aaaab"));
    let scores_second = get_expected_remaining_words(&remaining_words, &Word::from_str("aaaaa"));
    assert_eq!(scores_first, scores_second);

    let guess = get_next_guess(&remaining_words, &vocab(&["aaaab", "aaaaa"])).unwrap();
    assert_eq!(guess, Word::from_str("aaaaa"));
    let guess = get_next_guess(&remaining_words, &vocab(&["aaaaa", "aaaab"])).unwrap();
    assert_eq!(guess, Word::from_str("aaaaa"));
}

#[test]
fn better_guess_replaces_running_minimum() {
    // Against the pool {"aaaab", "aaaac", "aaaad"}, "zzzzz" cannot tell the
    // words apart (one bucket of 3, numerator 9), while a pool member
    // isolates itself (buckets 1 and 2, numerator 5). Among the equally
    // scoring in-pool members, each later one replaces the minimum on the
    // tie, so the last tied in-pool word is selected.
    let remaining_words = pool(&["aaaab", "aaaac", "aaaad"]);
    let (probe_score, n) =
        get_expected_remaining_words(&remaining_words, &Word::from_str("zzzzz"));
    assert_eq!((probe_score, n), (9, 3));
    let (member_score, _) =
        get_expected_remaining_words(&remaining_words, &Word::from_str("aaaab"));
    assert_eq!(member_score, 5);
    let guess = get_next_guess(
        &remaining_words,
        &vocab(&["zzzzz", "aaaab", "aaaac", "aaaad"]),
    )
    .unwrap();
    assert_eq!(guess, Word::from_str("aaaad"));
}

#[test]
fn histogram_counts_sum_to_pool_size() {
    let remaining_words = pool(&["aaaaa", "bbbbb", "ababa", "cdcdc", "aabbb"]);
    let groups = feedback_histogram(&remaining_words, &Word::from_str("abcde"));
    assert_eq!(groups.len(), 243);
    let total: u64 = groups.iter().sum();
    assert_eq!(total, 5);

    let groups = feedback_histogram(&remaining_words, &Word::from_str("zzzzz"));
    let total: u64 = groups.iter().sum();
    assert_eq!(total, 5);
}

#[test]
fn expected_remaining_words_exact_values() {
    // Guessing "aaaaa" against {"aaaaa", "bbbbb"}: buckets of sizes 1 and 1,
    // numerator 1^2 + 1^2 = 2 over denominator 2.
    let remaining_words = pool(&["aaaaa", "bbbbb"]);
    let result = get_expected_remaining_words(&remaining_words, &Word::from_str("aaaaa"));
    assert_eq!(result, (2, 2));

    // Guessing "zzzzz" tells the two words apart not at all: one bucket of
    // size 2, numerator 4 over denominator 2.
    let result = get_expected_remaining_words(&remaining_words, &Word::from_str("zzzzz"));
    assert_eq!(result, (4, 2));
}

#[test]
fn selection_minimizes_expected_remaining_words() {
    // "aaaaa" (score 2) beats "zzzzz" (score 4) on the pool {"aaaaa","bbbbb"}.
    let remaining_words = pool(&["aaaaa", "bbbbb"]);
    let guess = get_next_guess(&remaining_words, &vocab(&["zzzzz", "aaaaa"])).unwrap();
    assert_eq!(guess, Word::from_str("aaaaa"));
    let guess = get_next_guess(&remaining_words, &vocab(&["aaaaa", "zzzzz"])).unwrap();
    assert_eq!(guess, Word::from_str("aaaaa"));
}
