use boggle::ranking::{comes_no_later, rank_words};
use boggle::wordset::WordSet;

#[test]
fn longer_word_comes_first() {
    assert!(comes_no_later("abcd", "abc"));
    assert!(!comes_no_later("abc", "abcd"));
    assert!(comes_no_later("zzzzz", "aaaa"));
    assert!(!comes_no_later("aaaa", "zzzzz"));
}

#[test]
fn words_of_one_length_come_in_the_order_of_the_dictionary() {
    assert!(comes_no_later("abc", "abd"));
    assert!(!comes_no_later("abd", "abc"));
    assert!(comes_no_later("love", "vole"));
    assert!(!comes_no_later("vole", "love"));
    assert!(comes_no_later("baaa", "bbaa"));
}

#[test]
fn word_comes_no_later_than_itself() {
    assert!(comes_no_later("tear", "tear"));
    assert!(comes_no_later("", ""));
}

#[test]
fn placeholder_comes_before_the_letters() {
    assert!(comes_no_later("_iet", "aiet"));
    assert!(!comes_no_later("aiet", "_iet"));
}

#[test]
fn ranking_is_by_length_then_by_the_dictionary() {
    let mut words = WordSet::new();
    for word in ["tear", "spare", "rate", "drone", "nerd", "tears", "pars"] {
        words.insert(word.to_string());
    }
    assert_eq!(
        rank_words(&words),
        vec!["drone", "spare", "tears", "nerd", "pars", "rate", "tear"]
    );
}

#[test]
fn ranking_does_not_depend_on_the_order_of_insertion() {
    let mut forward = WordSet::new();
    let mut backward = WordSet::new();
    let list = ["tear", "spare", "rate", "drone", "nerd", "tears", "pars", "a", "_b"];
    for word in list.iter() {
        forward.insert(word.to_string());
    }
    for word in list.iter().rev() {
        backward.insert(word.to_string());
    }
    assert_eq!(rank_words(&forward), rank_words(&backward));
    assert_eq!(rank_words(&forward).len(), list.len());
}

#[test]
fn ranking_agrees_with_the_standard_library() {
    let list = ["bb", "a", "ccc", "ab", "ba", "aaa", "_z", "zz", "b", "abc", "é", "z"];
    let mut words = WordSet::new();
    for word in list.iter() {
        words.insert(word.to_string());
    }
    let mut expected: Vec<String> = list.iter().map(|w| w.to_string()).collect();
    expected.sort();
    expected.sort_by_key(|w| usize::MAX - w.chars().count());
    assert_eq!(rank_words(&words), expected);
}

#[test]
fn ranking_of_no_words_is_empty() {
    assert!(rank_words(&WordSet::new()).is_empty());
}
