use bbow::Bbow;

fn counts_of(bag: &Bbow) -> Vec<(String, usize)> {
    bag.words()
        .into_iter()
        .map(|w| {
            let n = bag.match_count(&w);
            (w, n)
        })
        .collect()
}

#[test]
fn total_is_sum_of_matches() {
    let bag = Bbow::new().extend_from_text("the cat and the hat, and THE bat!");
    let words = bag.words();
    let sum: usize = words.iter().map(|w| bag.match_count(w)).sum();
    assert_eq!(bag.count(), sum);
    assert_eq!(8, bag.count());
    assert_eq!(words.len(), bag.len());
    assert_eq!(5, bag.len());
}

#[test]
fn ingesting_twice_doubles_counts() {
    let text = "one two two Three three THREE";
    let once = Bbow::new().extend_from_text(text);
    let twice = Bbow::new().extend_from_text(text).extend_from_text(text);
    assert_eq!(once.words(), twice.words());
    for w in once.words() {
        assert_eq!(2 * once.match_count(&w), twice.match_count(&w));
    }
    assert_eq!(2, twice.match_count("one"));
    assert_eq!(6, twice.match_count("three"));
    assert_eq!(12, twice.count());
}

#[test]
fn ingestion_order_does_not_matter() {
    let a = "Red fish, blue fish.";
    let b = "One fish two fish";
    let ab = Bbow::new().extend_from_text(a).extend_from_text(b);
    let ba = Bbow::new().extend_from_text(b).extend_from_text(a);
    let joined = Bbow::new().extend_from_text("Red fish, blue fish. One fish two fish");
    assert_eq!(counts_of(&ab), counts_of(&ba));
    assert_eq!(counts_of(&ab), counts_of(&joined));
    assert_eq!(4, ab.match_count("fish"));
}

#[test]
fn inner_punctuation_discards_fragment() {
    let bag = Bbow::new().extend_from_text("b-banana (well) x.y ...ok...");
    assert_eq!(0, bag.match_count("b"));
    assert_eq!(0, bag.match_count("banana"));
    assert_eq!(0, bag.match_count("x"));
    assert_eq!(0, bag.match_count("y"));
    assert_eq!(1, bag.match_count("well"));
    assert_eq!(1, bag.match_count("ok"));
    assert_eq!(2, bag.len());
}

#[test]
fn case_variants_share_one_key() {
    let bag = Bbow::new().extend_from_text("Hello HELLO HeLLo hello");
    assert_eq!(vec!["hello".to_string()], bag.words());
    assert_eq!(4, bag.match_count("hello"));
}

#[test]
fn keyword_is_not_normalized() {
    let bag = Bbow::new().extend_from_text("Apple apple, BANANA!");
    assert_eq!(0, bag.match_count("Apple"));
    assert_eq!(0, bag.match_count("APPLE"));
    assert_eq!(0, bag.match_count("apple,"));
    assert_eq!(0, bag.match_count("banana!"));
    assert_eq!(2, bag.match_count("apple"));
    assert_eq!(1, bag.match_count("banana"));
}

#[test]
fn scenario_hello_world() {
    let bag = Bbow::new().extend_from_text("Hello world.");
    assert_eq!(2, bag.len());
    assert_eq!(1, bag.match_count("hello"));
    assert_eq!(1, bag.match_count("world"));
}

#[test]
fn scenario_hyphenated_fragment() {
    let bag = Bbow::new().extend_from_text("b b b-banana b");
    assert_eq!(3, bag.match_count("b"));
    assert_eq!(0, bag.match_count("banana"));
    assert_eq!(0, bag.match_count("b-banana"));
}

#[test]
fn scenario_apostrophe() {
    let bag = Bbow::new().extend_from_text("Can't stop this! Stop!");
    assert_eq!(3, bag.count());
    assert_eq!(2, bag.len());
    assert_eq!(vec!["stop".to_string(), "this".to_string()], bag.words());
    assert_eq!(0, bag.match_count("can"));
}

#[test]
fn scenario_empty_text() {
    let bag = Bbow::new().extend_from_text("");
    assert_eq!(0, bag.len());
    assert_eq!(0, bag.count());
    assert!(bag.is_empty());
}

#[test]
fn scenario_digits_and_symbols() {
    let bag = Bbow::new().extend_from_text("123 456 !@#");
    assert_eq!(0, bag.len());
    assert_eq!(0, bag.count());
    assert!(bag.is_empty());
}

#[test]
fn scenario_missing_word() {
    assert_eq!(0, Bbow::new().extend_from_text("Apple apple BANANA").match_count("orange"));
}

#[test]
fn words_are_sorted_by_code_point() {
    let bag = Bbow::new().extend_from_text("zeta Alpha beta alpha éclair Zebra");
    assert_eq!(vec!["alpha", "beta", "zebra", "zeta", "éclair"], bag.words());
}

#[test]
fn unicode_whitespace_and_letters() {
    let bag = Bbow::new().extend_from_text("ÜBER\u{3000}über\tnaïve\u{a0}NAÏVE\n\r «untïl»");
    assert_eq!(2, bag.match_count("über"));
    assert_eq!(2, bag.match_count("naïve"));
    assert_eq!(1, bag.match_count("untïl"));
    assert_eq!(3, bag.len());
    assert_eq!(5, bag.count());
}

#[test]
fn lowercasing_changes_the_word() {
    let bag = Bbow::new().extend_from_text("ΣΟΦΟΣ QUICK");
    assert_eq!(1, bag.match_count("quick"));
    assert_eq!(0, bag.match_count("QUICK"));
    assert_eq!(1, bag.match_count("σοφος"));
    assert_eq!(0, bag.match_count("ΣΟΦΟΣ"));
    assert_eq!(vec!["quick", "σοφος"], bag.words());
}

#[test]
fn default_bag_is_empty() {
    let bag = Bbow::default();
    assert!(bag.is_empty());
    assert_eq!(0, bag.len());
    assert_eq!(0, bag.count());
    assert!(bag.words().is_empty());
}

#[test]
fn prefix_words_are_distinct_entries() {
    let bag = Bbow::new().extend_from_text("a ab abc ab a a");
    assert_eq!(vec!["a", "ab", "abc"], bag.words());
    assert_eq!(3, bag.match_count("a"));
    assert_eq!(2, bag.match_count("ab"));
    assert_eq!(1, bag.match_count("abc"));
}

#[test]
fn lowercase_mapping_may_leave_a_mark() {
    let bag = Bbow::new().extend_from_text("İ");
    assert_eq!(1, bag.count());
    assert_eq!(1, bag.len());
    assert_eq!(vec!["i\u{307}".to_string()], bag.words());
    assert_eq!(0, bag.match_count("i\u{307}"));
}

#[test]
fn uppercase_letter_without_lowercase_is_kept() {
    let bag = Bbow::new().extend_from_text("ϒ");
    assert_eq!(vec!["ϒ".to_string()], bag.words());
    assert_eq!(1, bag.match_count("ϒ"));
}

#[test]
fn titlecase_letter_is_not_lowercased() {
    let bag = Bbow::new().extend_from_text("ǅ Ǆ ǆ");
    assert_eq!(2, bag.match_count("ǆ"));
    assert_eq!(1, bag.match_count("ǅ"));
    assert_eq!(2, bag.len());
}
