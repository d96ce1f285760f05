use wiki_search::analyze::{analyze_text, normalize_exact};
use wiki_search::page::Namespace;

#[test]
fn analyzer_lowercases_and_stems() {
    // would fail if the stemmer handed tokens back unchanged
    assert_eq!(analyze_text("Cats mammals"), vec!["cat", "mammal"]);
}

#[test]
fn analyzer_splits_on_punctuation() {
    assert_eq!(analyze_text("a,b;c"), vec!["a", "b", "c"]);
    assert_eq!(analyze_text("  spaced   out  "), vec!["space", "out"]);
}

#[test]
fn analyzer_folds_diacritics() {
    let tokens = analyze_text("café");
    assert_eq!(tokens.len(), 1);
    assert!(tokens[0].starts_with("caf"));
    assert!(tokens[0].is_ascii());
}

#[test]
fn analyzer_drops_oversized_tokens() {
    let blob = "a".repeat(64);
    let text = format!("keep {} keep", blob);
    let tokens = analyze_text(&text);
    assert_eq!(tokens, vec!["keep", "keep"]);
}

#[test]
fn analyzer_segments_cjk_runs() {
    // would fail if the dictionary segmenter handed the run back whole
    let tokens = analyze_text("逻辑语言");
    assert!(tokens.len() >= 2);
    assert!(tokens.contains(&"逻辑".to_string()));
}

#[test]
fn analyzer_mixed_cjk_and_latin() {
    let tokens = analyze_text("Lojban是人工語言");
    assert!(tokens.contains(&"lojban".to_string()));
    assert!(tokens.iter().any(|t| t.chars().all(|c| !c.is_ascii())));
}

#[test]
fn exact_field_normalization() {
    assert_eq!(normalize_exact("Main"), "main");
    assert_eq!(normalize_exact(Namespace::UserTalk.name().as_str()), normalize_exact("USERTALK"));
}

#[test]
fn empty_text_has_no_terms() {
    assert_eq!(analyze_text(""), Vec::<String>::new());
    assert_eq!(analyze_text("!!! ---"), Vec::<String>::new());
}
