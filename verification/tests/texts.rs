use crw_search::text::{
    contains_phrase, contains_text, contains_word, normalize, phrase_positions, same_text, split,
    tokens, Separator,
};

fn strings(words: &[&str]) -> Vec<String> {
    words.iter().map(|word| word.to_string()).collect()
}

#[test]
fn normalize_lowers_ascii_only() {
    assert_eq!(normalize("React ÄÖ 19Z"), "react ÄÖ 19z");
    assert_eq!(normalize(&normalize("NeXT.js")), normalize("NeXT.js"));
}

#[test]
fn split_keeps_empty_pieces() {
    assert_eq!(split("", Separator::Char('.')), strings(&[""]));
    assert_eq!(split("a..b.", Separator::Char('.')), strings(&["a", "", "b", ""]));
    assert_eq!(split("a b", Separator::Punctuation), strings(&["a", "b"]));
    assert_eq!(split("x.é.y", Separator::Char('.')).join("."), "x.é.y");
}

#[test]
fn tokens_are_lower_case_without_outer_dots() {
    assert_eq!(
        tokens("Using Next.js, v14.1... (see docs)."),
        strings(&["using", "next.js", "v14.1", "see", "docs"])
    );
    assert_eq!(tokens("... . --"), Vec::<String>::new());
    assert_eq!(tokens("über-cool"), strings(&["ber", "cool"]));
}

#[test]
fn tokens_ignore_case() {
    assert_eq!(tokens("REACT Native 0.74"), tokens("react native 0.74"));
}

#[test]
fn a_token_is_its_own_token() {
    for token in tokens("Using Next.js, v14.1... (see docs).") {
        assert_eq!(tokens(&token), vec![token]);
    }
}

#[test]
fn phrase_positions_lists_every_start() {
    let haystack = strings(&["a", "b", "a", "b", "a"]);
    assert_eq!(phrase_positions(&haystack, &strings(&["a", "b"])), vec![0, 2]);
    assert_eq!(phrase_positions(&haystack, &strings(&["a", "b", "a"])), vec![0, 2]);
    assert_eq!(phrase_positions(&haystack, &[]), Vec::<usize>::new());
    assert_eq!(phrase_positions(&strings(&["a"]), &haystack), Vec::<usize>::new());
}

#[test]
fn phrases_are_matched_by_whole_tokens() {
    assert!(contains_phrase("guide to Fast API", "fast api"));
    assert!(!contains_phrase("guide to breakfast api", "fast api"));
    assert!(!contains_phrase("reactive", "react"));
    assert!(!contains_phrase("anything", "..."));
    assert!(contains_phrase("Next.js", "Next.js"));
}

#[test]
fn lists_are_searched_by_text() {
    assert!(same_text("é", "é"));
    assert!(!same_text("e", "é"));
    assert!(contains_text(&strings(&["a", "b"]), "b"));
    assert!(!contains_text(&strings(&["a", "b"]), "c"));
    assert!(contains_word(&["the", "to"], "to"));
    assert!(!contains_word(&["the", "to"], "t"));
}
