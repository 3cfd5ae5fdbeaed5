use sentence_search::{find_sentences, word_search, SearchError};

#[test]
fn word_matches_test() {
    let text = "Hello, world! I love the world. Thank you. World...";
    let matches = find_sentences("world", text);
    assert_eq!(
        matches,
        Ok(vec!["Hello, world!".to_string(), "I love the world.".to_string()])
    );
}

#[test]
fn word_search_test() {
    let text = r"This is hoge. This is bar. This is foo. But hoge is best. Big Hoge. HOGE. Hoge means hoge.hogehoge.";
    let result = word_search("hoge", text).expect("Failed word_search");
    println!("Result is {:?}", &result);
    assert_eq!(
        result,
        vec!["This is hoge.", "But hoge is best.", "Hoge means hoge.", "hogehoge."]
    );
}

#[test]
fn lib_word_search_test() {
    let text = r"This is hoge. This is bar. This is foo. But hoge is best. Big Hoge. HOGE. Hoge means hoge.hogehoge.";
    let result = word_search("hoge", text).expect("Failed word_search");
    println!("Result is {:?}", &result);
    assert_eq!(
        result,
        vec!["This is hoge.", "But hoge is best.", "Hoge means hoge.", "hogehoge."]
    );
}

#[test]
fn absent_word_yields_empty() {
    let result = find_sentences("xyz", "No such word here.");
    assert_eq!(result, Ok(vec![]));
}

#[test]
fn empty_text_yields_empty() {
    assert_eq!(find_sentences("x", ""), Ok(vec![]));
}

#[test]
fn word_without_following_terminator_yields_empty() {
    assert_eq!(find_sentences("end", "the end"), Ok(vec![]));
}

#[test]
fn metacharacter_word_is_rejected() {
    let result = find_sentences("(bad", "Any text.");
    assert_eq!(
        result,
        Err(SearchError::PatternBuildFailure(
            "word contains a pattern metacharacter".to_string()
        ))
    );
}

#[test]
fn metacharacter_word_error_message() {
    let err = find_sentences("a*b", "Any text.").unwrap_err();
    assert_eq!(err.message(), "word contains a pattern metacharacter");
    let err = word_search("(bad", "Any text.").unwrap_err();
    assert_eq!(err, "Regex error : word contains a pattern metacharacter");
}

#[test]
fn empty_word_matches_every_sentence() {
    let result = find_sentences("", "Hi there.");
    assert_eq!(result, Ok(vec!["Hi there.".to_string()]));
}

#[test]
fn word_holding_a_terminator_is_matched_literally() {
    // `!` is no metacharacter, so a word may contain it; the sentence then
    // holds a terminator character before its final one.
    let result = find_sentences("oh!", "They said oh! loudly. Sure.");
    assert_eq!(result, Ok(vec!["They said oh! loudly.".to_string()]));
}

#[test]
fn word_found_inside_a_longer_word() {
    // Only the match start is anchored to a word boundary; the word itself
    // may sit inside a longer run of word characters.
    let result = find_sentences("oge", "This is hoge.");
    assert_eq!(result, Ok(vec!["This is hoge.".to_string()]));
}

#[test]
fn case_sensitive_matching() {
    assert_eq!(find_sentences("hoge", "Big Hoge. HOGE."), Ok(vec![]));
}

#[test]
fn rescan_of_a_returned_sentence_returns_it_alone() {
    let text = "Hello, world! I love the world. Thank you. World...";
    let first = find_sentences("world", text).unwrap();
    for sentence in &first {
        let again = find_sentences("world", sentence).unwrap();
        assert_eq!(again, vec![sentence.clone()]);
    }
}

#[test]
fn matches_keep_text_order_and_duplicates() {
    let result = find_sentences("a", "a b. c a. a a.").unwrap();
    assert_eq!(result, vec!["a b.", "c a.", "a a."]);
}

#[test]
fn unicode_text_is_scanned_by_character() {
    let result = find_sentences("bon", "Très bon café! Mauvais thé.").unwrap();
    assert_eq!(result, vec!["Très bon café!"]);
}
