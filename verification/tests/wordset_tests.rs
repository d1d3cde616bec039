use boggle::wordset::WordSet;

#[test]
fn new_set_is_empty() {
    let set = WordSet::new();
    assert_eq!(set.len(), 0);
    assert!(!set.contains("tear"));
    assert!(set.words().is_empty());
}

#[test]
fn insert_tells_whether_the_word_is_new() {
    let mut set = WordSet::new();
    assert!(set.insert("tear".to_string()));
    assert!(!set.insert("tear".to_string()));
    assert!(set.insert("rate".to_string()));
    assert_eq!(set.len(), 2);
}

#[test]
fn set_holds_what_was_inserted() {
    let mut set = WordSet::new();
    set.insert("tear".to_string());
    set.insert("rate".to_string());
    assert!(set.contains("tear"));
    assert!(set.contains("rate"));
    assert!(!set.contains("tea"));
    assert!(!set.contains(""));
}

#[test]
fn words_come_in_the_order_of_first_insertion() {
    let mut set = WordSet::new();
    for word in ["tear", "rate", "tear", "spar", "rate"] {
        set.insert(word.to_string());
    }
    assert_eq!(set.words(), &vec!["tear", "rate", "spar"]);
}
