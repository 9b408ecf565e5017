use rag_search::clean::Cleaner;

#[test]
fn clean_lowercases_drops_stop_words_and_stems() {
    let cleaner = Cleaner::new();
    assert_eq!(cleaner.clean("The Running DOGS are running"), "run dog run");
}

#[test]
fn clean_keeps_content_words() {
    let cleaner = Cleaner::new();
    assert_eq!(cleaner.clean("quick brown fox jumps"), "quick brown fox jump");
}

#[test]
fn clean_of_only_stop_words_is_empty() {
    let cleaner = Cleaner::new();
    assert_eq!(cleaner.clean("the and a is"), "");
    assert_eq!(cleaner.clean("   "), "");
}

#[test]
fn stop_words_are_checked_after_lowercasing() {
    let cleaner = Cleaner::new();
    assert!(cleaner.is_stop_word(&"the".to_string()));
    assert!(!cleaner.is_stop_word(&"The".to_string()));
    assert!(!cleaner.is_stop_word(&"dog".to_string()));
}

#[test]
fn drop_stop_words_keeps_order_of_the_rest() {
    let cleaner = Cleaner::new();
    let words: Vec<String> = ["the", "cat", "and", "dog", "The"].iter().map(|w| w.to_string()).collect();
    assert_eq!(cleaner.drop_stop_words(&words), vec!["cat".to_string(), "dog".to_string(), "The".to_string()]);
}
