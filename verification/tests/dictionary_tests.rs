use beehive::dictionary::Dictionary;
use beehive::pattern::match_pattern;
use rand::seq::SliceRandom;
use rand::thread_rng;

fn words(list: &[&str]) -> Vec<String> {
    list.iter().map(|w| w.to_string()).collect()
}

fn small_dict() -> Dictionary {
    Dictionary::new(
        words(&["cat", "art", "fig", "tar", "cfg", "lade", "made"]),
        words(&["cat", "art", "fig", "tar", "cfg", "lade", "made", "wade"]),
        words(&["xx", "qz", "zzz"]),
    )
}

#[test]
fn test_forbidden_tuples() -> Result<(), ()> {
    let dict = small_dict();

    println!("{} forbidden tuples", dict.forbidden_tuples.len());
    println!("{:?}", dict.forbidden_tuples);

    Ok(())
}

#[test]
fn match_pattern_exact_positions() {
    assert!(match_pattern(&"cat".to_string(), &"c.t".to_string()));
    assert!(match_pattern(&"cat".to_string(), &"...".to_string()));
    assert!(!match_pattern(&"cat".to_string(), &"c.s".to_string()));
    // a length mismatch never matches
    assert!(!match_pattern(&"cat".to_string(), &"c.".to_string()));
    assert!(match_pattern(&"lade".to_string(), &".ad.".to_string()));
    assert!(match_pattern(&"wade".to_string(), &".ad.".to_string()));
    assert!(!match_pattern(&"mode".to_string(), &".ad.".to_string()));
}

#[test]
fn find_common_candidates_filters_in_order() {
    let dict = small_dict();
    let got = dict.find_common_candidates(".a.".to_string()).unwrap();
    assert_eq!(got, vec!["cat".to_string(), "tar".to_string()]);

    let none = dict.find_common_candidates("zzz".to_string()).unwrap();
    assert!(none.is_empty());
}

#[test]
fn find_common_candidates_single_wildcards() {
    let dict = small_dict();
    assert_eq!(dict.find_common_candidates(".".to_string()).unwrap(), vec![".".to_string()]);
    assert_eq!(dict.find_common_candidates("_".to_string()).unwrap(), vec!["_".to_string()]);
}

#[test]
fn find_all_candidates_uses_exhaustive_list() {
    let dict = small_dict();
    let got = dict._find_all_candidates(".ade".to_string()).unwrap();
    assert_eq!(got, vec!["lade".to_string(), "made".to_string(), "wade".to_string()]);
}

#[test]
fn gap_split_cross_product() {
    // the documented round trip: pattern "a_b" over the list {"a", "b"}
    let dict = Dictionary::new(words(&["a", "b"]), words(&[]), words(&[]));
    let got = dict.recursive_find_candidates("a_b".to_string()).unwrap();
    assert_eq!(got, vec!["a_b".to_string()]);
}

#[test]
fn gap_at_the_edges() {
    let dict = small_dict();
    let leading = dict.recursive_find_candidates("_.a.".to_string()).unwrap();
    assert_eq!(leading, vec!["_cat".to_string(), "_tar".to_string()]);
    let trailing = dict.recursive_find_candidates(".a._".to_string()).unwrap();
    assert_eq!(trailing, vec!["cat_".to_string(), "tar_".to_string()]);
}

#[test]
fn allow_split_adds_single_gap_variants() {
    let dict = Dictionary::new(words(&["cat", "art"]), words(&[]), words(&[]));
    // "...." matches no four-letter word, but turning one dot into a gap
    // at either end matches every three-letter word
    let got = dict.find_candidates_allow_split("....".to_string()).unwrap();
    assert_eq!(
        got,
        vec!["_cat".to_string(), "_art".to_string(), "cat_".to_string(), "art_".to_string()]
    );
}

#[test]
fn forbidden_tuples_in_windows() {
    let dict = small_dict();
    assert!(dict.has_forbidden_tuples("axxb".to_string()).unwrap());
    assert!(dict.has_forbidden_tuples("azzza".to_string()).unwrap());
    assert!(!dict.has_forbidden_tuples("abcd".to_string()).unwrap());
    // windows crossing an unset or blocked cell do not count
    assert!(!dict.has_forbidden_tuples("x_x".to_string()).unwrap());
    assert!(!dict.has_forbidden_tuples("x\0x".to_string()).unwrap());
    // too short for any window
    assert!(!dict.has_forbidden_tuples("x".to_string()).unwrap());
}

#[test]
fn init_english_dict() -> Result<(), ()> {
    let dict = small_dict();

    let pattern = ".ad.".to_string();

    let mut candidates = dict.find_candidates_allow_split(pattern.clone())?;
    candidates.shuffle(&mut thread_rng());

    println!("{} candidates match '{}'", candidates.len(), &pattern);

    for word in &candidates[..std::cmp::min(candidates.len(), 12)] {
        println!("{}", word);
    }

    Ok(())
}
