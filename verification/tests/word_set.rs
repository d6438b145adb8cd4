use wordle_rs::word_set::{Word, WordSet};

#[test]
fn test_basics() {
    let mut word_set = WordSet::new();
    word_set.insert(Word::from_str("foozz"));
    word_set.insert(Word::from_str("barzz"));
    word_set.insert(Word::from_str("bazzz"));

    assert_eq!(word_set.contains(&Word::from_str("foozz")), true);
    assert_eq!(word_set.contains(&Word::from_str("barzz")), true);
    assert_eq!(word_set.contains(&Word::from_str("bazzz")), true);
    assert_eq!(word_set.contains(&Word::from_str("batzz")), false);
    assert_eq!(word_set.contains(&Word::from_str("bagzz")), false);
}

#[test]
fn test_iter_doesnt_consume() {
    let mut word_set = WordSet::new();
    word_set.insert(Word::from_str("foozz"));
    word_set.insert(Word::from_str("barzz"));
    word_set.insert(Word::from_str("bazzz"));

    let iter1: Vec<&Word> = word_set.iter().iter().collect();
    assert_eq!(iter1.contains(&&Word::from_str("foozz")), true);
    assert_eq!(iter1.contains(&&Word::from_str("barzz")), true);
    assert_eq!(iter1.contains(&&Word::from_str("bazzz")), true);

    let iter2: Vec<&Word> = word_set.iter().iter().collect();
    assert_eq!(iter2.contains(&&Word::from_str("foozz")), true);
    assert_eq!(iter2.contains(&&Word::from_str("barzz")), true);
    assert_eq!(iter2.contains(&&Word::from_str("bazzz")), true);
}

#[test]
fn insert_is_idempotent() {
    let mut word_set = WordSet::new();
    word_set.insert(Word::from_str("foozz"));
    word_set.insert(Word::from_str("barzz"));
    word_set.insert(Word::from_str("foozz"));
    assert_eq!(word_set.len(), 2);
    assert!(word_set.contains(&Word::from_str("foozz")));
}

#[test]
fn iter_is_sorted() {
    let mut word_set = WordSet::new();
    word_set.insert(Word::from_str("zebra"));
    word_set.insert(Word::from_str("apple"));
    word_set.insert(Word::from_str("mango"));
    let words = word_set.iter();
    assert_eq!(words[0], Word::from_str("apple"));
    assert_eq!(words[1], Word::from_str("mango"));
    assert_eq!(words[2], Word::from_str("zebra"));
}

#[test]
fn word_get_and_len() {
    let w = Word::from_str("hello");
    assert_eq!(w.len(), 5);
    assert_eq!(w.get(0), 'h');
    assert_eq!(w.get(4), 'o');
    let owned = Word::from_string(String::from("hi"));
    assert_eq!(owned.len(), 2);
    assert_eq!(owned.get(1), 'i');
}

#[test]
fn word_equality_is_positional() {
    assert_eq!(Word::from_str("hello"), Word::from_str("hello"));
    assert_ne!(Word::from_str("hello"), Word::from_str("hellO"));
    assert_ne!(Word::from_str("hello"), Word::from_str("hell"));
    assert_eq!(Word::from_str("hello").clone(), Word::from_str("hello"));
}

#[test]
fn empty_set_contains_nothing() {
    let word_set = WordSet::new();
    assert_eq!(word_set.len(), 0);
    assert_eq!(word_set.contains(&Word::from_str("foozz")), false);
}
