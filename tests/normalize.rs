use search_index::normalize::{
    canonicalize_words, contains_text, normalize_and_extract_words, pages_containing, split_words, stem_and_filter,
};

fn strings(v: &[&str]) -> Vec<String> {
    v.iter().map(|s| s.to_string()).collect()
}

#[test]
fn acronyms() {
    assert_eq!(normalize_and_extract_words("t.e.s.t."), vec!["test"]);
}

#[test]
fn symbols() {
    assert_eq!(normalize_and_extract_words("approximation d'une loi"), vec!["approxim", "loi"]);
}

#[test]
fn synonyms() {
    assert_eq!(normalize_and_extract_words("cs"), vec!["cauchy", "schwarz"]);
}

#[test]
fn empty_and_stop_word_queries_give_no_tokens() {
    assert!(normalize_and_extract_words("").is_empty());
    assert!(normalize_and_extract_words("le la de").is_empty());
}

#[test]
fn diacritics_are_folded_before_stemming() {
    assert_eq!(normalize_and_extract_words("étude"), normalize_and_extract_words("etude"));
    assert!(!normalize_and_extract_words("étude").is_empty());
}

#[test]
fn split_words_keeps_empty_pieces_and_lowercases() {
    assert_eq!(split_words("A.b c"), strings(&["ab", "c"]));
    assert_eq!(split_words("x'y"), strings(&["x", "y"]));
    assert_eq!(split_words("x''y"), strings(&["x", "", "y"]));
    assert_eq!(split_words(""), strings(&[""]));
}

#[test]
fn stem_and_filter_drops_short_and_stop_words() {
    let out = stem_and_filter(&strings(&["cs", "d", "une", "loi"]));
    assert_eq!(out, strings(&["cs", "loi"]));
}

#[test]
fn canonicalize_replaces_whole_words_only() {
    assert_eq!(canonicalize_words(&strings(&["cs", "loi"])), strings(&["cauchy", "schwarz", "loi"]));
    assert_eq!(canonicalize_words(&strings(&["csx", "loi"])), strings(&["csx", "loi"]));
    assert_eq!(canonicalize_words(&strings(&["cs", "cs"])), strings(&["cauchy", "schwarz", "cauchy", "schwarz"]));
    assert!(canonicalize_words(&strings(&[])).is_empty());
}

#[test]
fn text_search_finds_first_pages_with_the_phrase() {
    let pages: Vec<Vec<String>> = vec![
        strings(&["intro", "nothing"]),
        strings(&["une extension de", "x"]),
        strings(&[]),
        strings(&["extension"]),
        strings(&["l'extension"]),
    ];
    assert_eq!(pages_containing(&pages, "extension", 10), vec![1, 3, 4]);
    assert_eq!(pages_containing(&pages, "extension", 2), vec![1, 3]);
    assert_eq!(pages_containing(&pages, "absent", 10), Vec::<usize>::new());
    assert!(contains_text("abc", ""));
    assert!(contains_text("abc", "bc"));
    assert!(!contains_text("ab", "abc"));
}

#[test]
fn control_characters_are_dropped_by_transliteration() {
    assert_eq!(normalize_and_extract_words("a\u{7f}b"), vec!["ab"]);
    assert_eq!(normalize_and_extract_words("loi\tnormale"), normalize_and_extract_words("loi normale"));
}
