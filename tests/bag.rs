use bbow::Bbow;

#[test]
fn test_extend_from_text_basic() {
    let bbow = Bbow::new().extend_from_text("Hello world.");
    assert_eq!(2, bbow.len());
    assert_eq!(1, bbow.match_count("hello"));
    assert_eq!(1, bbow.match_count("world"));
}

#[test]
fn test_extend_from_text_with_punctuation() {
    let bbow = Bbow::new().extend_from_text("Hello, world! This is a test.");
    assert_eq!(6, bbow.len());
    assert_eq!(1, bbow.match_count("hello"));
    assert_eq!(1, bbow.match_count("world"));
    assert_eq!(1, bbow.match_count("this"));
    assert_eq!(1, bbow.match_count("is"));
    assert_eq!(1, bbow.match_count("a"));
    assert_eq!(1, bbow.match_count("test"));
}

#[test]
fn test_extend_from_text_with_uppercase() {
    let bbow = Bbow::new().extend_from_text("Hello HELLO HeLLo");
    assert_eq!(1, bbow.len());
    assert_eq!(3, bbow.match_count("hello"));
}

#[test]
fn test_extend_from_text_empty_string() {
    let bbow = Bbow::new().extend_from_text("");
    assert_eq!(0, bbow.len());
    assert_eq!(0, bbow.count());
}

#[test]
fn test_extend_from_text_multiple_spaces() {
    let bbow = Bbow::new().extend_from_text("Hello    world");
    assert_eq!(2, bbow.len());
    assert_eq!(1, bbow.match_count("hello"));
    assert_eq!(1, bbow.match_count("world"));
}

#[test]
fn test_extend_from_text_non_alphabetic() {
    let bbow = Bbow::new().extend_from_text("123 456 !@#");
    assert_eq!(0, bbow.len());
    assert_eq!(0, bbow.count());
}

#[test]
fn test_match_count_basic() {
    let bbow = Bbow::new().extend_from_text("apple apple banana");
    assert_eq!(2, bbow.match_count("apple"));
    assert_eq!(1, bbow.match_count("banana"));
    assert_eq!(0, bbow.match_count("orange"));
}

#[test]
fn test_match_count_with_punctuation() {
    let bbow = Bbow::new().extend_from_text("apple, apple! banana.");
    assert_eq!(2, bbow.match_count("apple"));
    assert_eq!(1, bbow.match_count("banana"));
    assert_eq!(0, bbow.match_count("orange"));
}

#[test]
fn test_match_count_with_uppercase() {
    let bbow = Bbow::new().extend_from_text("Apple apple BANANA");
    assert_eq!(2, bbow.match_count("apple"));
    assert_eq!(1, bbow.match_count("banana"));
    assert_eq!(0, bbow.match_count("orange"));
}

#[test]
fn test_match_count_empty_string() {
    let bbow = Bbow::new().extend_from_text("");
    assert_eq!(0, bbow.match_count("apple"));
}

#[test]
fn test_match_count_non_alphabetic() {
    let bbow = Bbow::new().extend_from_text("123 456 !@#");
    assert_eq!(0, bbow.match_count("123"));
    assert_eq!(0, bbow.match_count("456"));
    assert_eq!(0, bbow.match_count("!@#"));
}

#[test]
fn test_match_count_invalid_keyword() {
    let bbow = Bbow::new().extend_from_text("apple apple banana");
    assert_eq!(0, bbow.match_count("apple!"));
    assert_eq!(0, bbow.match_count("banana1"));
    assert_eq!(0, bbow.match_count(""));
}

#[test]
fn extend_from_text_test() {
    let bbow = Bbow::new().extend_from_text("Hello world.");
    assert_eq!(2, bbow.len());
    assert_eq!(1, bbow.match_count("hello"));
}

#[test]
fn match_count_test() {
    let bbow = Bbow::new().extend_from_text("b b b-banana b");
    assert_eq!(3, bbow.match_count("b"));
}

#[test]
fn count_test() {
    let bbow = Bbow::new().extend_from_text("Can't stop this! Stop!");
    assert_eq!(3, bbow.count());
}

#[test]
fn len_test() {
    let bbow = Bbow::new().extend_from_text("Can't stop this! Stop!");
    assert_eq!(2, bbow.len());
}

#[test]
fn is_empty_test() {
    let bbow = Bbow::new().extend_from_text("Super Bowl Sunday");
    assert_eq!(false, bbow.is_empty());
}
