use beehive::dictionary::Dictionary;
use beehive::waffle::{Waffle, Waffle2};

fn words(list: &[&str]) -> Vec<String> {
    list.iter().map(|w| w.to_string()).collect()
}

fn seven_letter_dict() -> Dictionary {
    // eight interlocking seven-letter words on the waffle lattice
    Dictionary::new(
        words(&[
            "abcdeab", "eabcdea", "deabcde", "cdeabcd", "acebdac", "cebdace", "ebdaceb",
            "bdacebd",
        ]),
        words(&[]),
        words(&[]),
    )
}

#[test]
fn gen_waffle() -> Result<(), ()> {
    let dictionary = Dictionary::new(words(&["aaaaa"]), words(&[]), words(&[]));

    let waffle = Waffle::generate(dictionary)?;

    println!("{:?}", waffle);

    Ok(())
}

#[test]
fn gen_waffle2() -> Result<(), ()> {
    let dictionary = seven_letter_dict();

    let res = Waffle2::generate(&dictionary);

    match res {
        Some(waffle) => {
            println!("{:?}", waffle);
        },
        None => println!("no waffle found"),
    };

    Ok(())
}

#[test]
fn waffle_crossings_agree() {
    let dictionary = Dictionary::new(words(&["aaaaa"]), words(&[]), words(&[]));
    let waffle = Waffle::generate(dictionary).unwrap();
    assert_eq!(waffle.top_word, "aaaaa");
    assert_eq!(waffle.left_word, "aaaaa");
    assert_eq!(waffle.bottom_word, "aaaaa");
    assert_eq!(waffle.right_word, "aaaaa");
    assert_eq!(waffle.horizontal_word, "aaaaa");
    assert_eq!(waffle.vertical_word, "aaaaa");
}

#[test]
fn waffle2_solution_is_complete_and_repeat_free() {
    let dictionary = seven_letter_dict();
    let waffle = Waffle2::generate(&dictionary).unwrap();
    assert!(waffle.is_complete());
    assert!(!waffle.has_duplicates());
    assert_eq!(waffle.words.len(), 8);
    for w in &waffle.words {
        assert_eq!(w.len(), 7);
    }
}

#[test]
fn waffle2_fails_on_empty_dictionary() {
    let dictionary = Dictionary::new(words(&[]), words(&[]), words(&[]));
    assert!(Waffle2::generate(&dictionary).is_none());
}

#[test]
fn waffle2_pattern_reads_placed_words() {
    let empty = Waffle2 { words: Vec::new() };
    assert_eq!(empty.generate_pattern(), ".......");

    let one = Waffle2 { words: words(&["abcdeab"]) };
    assert_eq!(one.generate_pattern(), "a......");

    let three = Waffle2 { words: words(&["abcdeab", "acebdac", "eabcdea"]) };
    assert_eq!(three.generate_pattern(), "c.b....");
}

#[test]
fn waffle2_duplicate_detection() {
    let dup = Waffle2 { words: words(&["abcdeab", "eabcdea", "abcdeab"]) };
    assert!(dup.has_duplicates());
    let ok = Waffle2 { words: words(&["abcdeab", "eabcdea"]) };
    assert!(!ok.has_duplicates());
}
