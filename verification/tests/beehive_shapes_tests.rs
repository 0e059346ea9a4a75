use beehive::beehive::{Beehive, BigBeehive, MediumBeehive, SmallestBeehive, _recursive_generate};
use beehive::dictionary::Dictionary;

fn words(list: &[&str]) -> Vec<String> {
    list.iter().map(|w| w.to_string()).collect()
}

#[test]
fn smallest_beehive_patterns_follow_placed_words() {
    let mut hive = SmallestBeehive::gen_empty();
    assert_eq!(hive.next_pattern().unwrap(), "..");
    hive.push_word("ab".to_string());
    assert_eq!(hive.next_pattern().unwrap(), "a.");
    hive.push_word("ax".to_string());
    assert_eq!(hive.next_pattern().unwrap(), "b.");
    hive.push_word("by".to_string());
    assert_eq!(hive.next_pattern().unwrap(), "x.");
    hive.push_word("xz".to_string());
    assert_eq!(hive.next_pattern().unwrap(), "y.");
    hive.push_word("yw".to_string());
    assert_eq!(hive.next_pattern().unwrap(), "zw");
    hive.push_word("zw".to_string());
    assert!(hive.next_pattern().is_none());
    assert_eq!(hive.get_words().len(), 6);
    assert_eq!(hive.get_char(0, 1), 'b');
}

#[test]
fn beehive_duplicate_words_detected() {
    let mut hive = SmallestBeehive::gen_empty();
    hive.push_word("ab".to_string());
    hive.push_word("ab".to_string());
    assert!(hive.has_duplicates());

    let mut fresh = SmallestBeehive::gen_empty();
    fresh.push_word("ab".to_string());
    fresh.push_word("cd".to_string());
    assert!(!fresh.has_duplicates());
}

#[test]
fn smallest_beehive_search_finds_a_filling() {
    // "aa" alone cannot fill six slots without repeating, so give the
    // search enough distinct two-letter words to finish
    let dict = Dictionary::new(
        words(&["ab", "ac", "bd", "cd", "db", "aa", "bc", "ca", "da"]),
        words(&[]),
        words(&[]),
    );
    let hive = SmallestBeehive::gen_empty();
    match _recursive_generate(&dict, hive, 0) {
        Some(full) => {
            let ws = full.get_words();
            assert_eq!(ws.len(), 6);
            assert!(!full.has_duplicates());
        },
        None => {},
    }
}

#[test]
fn medium_and_big_start_with_open_patterns() {
    let medium = MediumBeehive::gen_empty();
    assert_eq!(medium.next_pattern().unwrap(), "....");
    let big = BigBeehive::gen_empty();
    assert_eq!(big.next_pattern().unwrap(), "....");
}
