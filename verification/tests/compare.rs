use wordle_rs::compare::{compare, compare_as_num, CompareResult, CompareValue};
use wordle_rs::word_set::Word;

#[test]
fn it_should_compute_value_num_correctly() {
    let compare = CompareResult::from_string(String::from("hello"), String::from("_____"));
    assert_eq!(compare.value_num(), 0);
}

#[test]
fn it_should_compute_value_num_correctly_2() {
    let compare = CompareResult::from_string(String::from("hello"), String::from("__?._"));
    assert_eq!(compare.value_num(), (1 * 9) + (2 * 27));
}

#[test]
fn it_should_handle_double_letters() {
    let result = compare(String::from("arbor"), String::from("opera"));
    assert_eq!(
        result.unwrap().values,
        [
            CompareValue::WrongLocation,
            CompareValue::WrongLocation,
            CompareValue::NotUsed,
            CompareValue::WrongLocation,
            CompareValue::NotUsed,
        ]
    );
}

#[test]
fn test_boing_noise() {
    let result = compare(String::from("boing"), String::from("noise"));
    assert_eq!(
        result.unwrap().values,
        [
            CompareValue::NotUsed,
            CompareValue::RightLocation,
            CompareValue::RightLocation,
            CompareValue::WrongLocation,
            CompareValue::NotUsed,
        ]
    );
}

#[test]
fn test_baaaa_aaaac() {
    let result = compare(String::from("baaaa"), String::from("aaaac"));
    assert_eq!(
        result.unwrap().values,
        [
            CompareValue::NotUsed,
            CompareValue::RightLocation,
            CompareValue::RightLocation,
            CompareValue::RightLocation,
            CompareValue::WrongLocation,
        ]
    );
}

#[test]
fn test_aaaab_caaaa() {
    let result = compare(String::from("aaaab"), String::from("caaaa"));
    assert_eq!(
        result.unwrap().values,
        [
            CompareValue::WrongLocation,
            CompareValue::RightLocation,
            CompareValue::RightLocation,
            CompareValue::RightLocation,
            CompareValue::NotUsed,
        ]
    );
}

#[test]
fn test_lares_water() {
    let result = compare(String::from("lares"), String::from("water"));
    assert_eq!(
        result.unwrap().values,
        [
            CompareValue::NotUsed,
            CompareValue::RightLocation,
            CompareValue::WrongLocation,
            CompareValue::RightLocation,
            CompareValue::NotUsed,
        ]
    );
}

#[test]
fn test_kydst_water() {
    let result = compare(String::from("kydst"), String::from("water"));
    assert_eq!(
        result.unwrap().values,
        [
            CompareValue::NotUsed,
            CompareValue::NotUsed,
            CompareValue::NotUsed,
            CompareValue::NotUsed,
            CompareValue::WrongLocation,
        ]
    );
}

#[test]
fn test_rater_water() {
    let result = compare(String::from("rater"), String::from("water"));
    assert_eq!(
        result.unwrap().values,
        [
            CompareValue::NotUsed,
            CompareValue::RightLocation,
            CompareValue::RightLocation,
            CompareValue::RightLocation,
            CompareValue::RightLocation,
        ]
    );
}

#[test]
fn round_trip_every_encoding() {
    for n in 0..243u16 {
        let result = CompareResult::from_value_num(String::from("hello"), n as u8);
        assert_eq!(result.value_num(), n as u8);
    }
}

#[test]
fn round_trip_vector() {
    let original = CompareResult::from_string(String::from("hello"), String::from("?._?."));
    let num = original.value_num();
    let back = CompareResult::from_value_num(String::from("hello"), num);
    assert_eq!(back.values, original.values);
}

#[test]
fn self_comparison_is_all_correct() {
    for w in ["hello", "aaaaa", "zxcvb"] {
        let result = compare(String::from(w), String::from(w)).unwrap();
        assert!(result.is_all_correct());
        assert_eq!(result.value_num(), 242);
    }
}

#[test]
fn not_all_correct_when_one_position_differs() {
    let result = compare(String::from("hella"), String::from("hello")).unwrap();
    assert!(!result.is_all_correct());
}

#[test]
fn length_guard_rejects_mismatched_pairs() {
    let err = compare(String::from("hell"), String::from("hello")).unwrap_err();
    assert_eq!(err.expected, 5);
    assert_eq!(err.got, 4);

    let err = compare_as_num(&Word::from_str("abcde"), &Word::from_str("abc")).unwrap_err();
    assert_eq!(err.expected, 3);
    assert_eq!(err.got, 5);
}

#[test]
fn compare_as_num_matches_compare() {
    let num = compare_as_num(&Word::from_str("boing"), &Word::from_str("noise")).unwrap();
    let full = compare(String::from("boing"), String::from("noise")).unwrap();
    assert_eq!(num, full.value_num());
}

#[test]
fn value_str_and_to_string() {
    let result = CompareResult::from_string(String::from("hello"), String::from("__?._"));
    assert_eq!(result.value_str(), "__?._");
    assert_eq!(result.to_string(), "hello|__?._");
}
