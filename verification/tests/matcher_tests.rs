use emoji_search::best_matching;
use emoji_search::constants::{EmojiData, Options};
use emoji_search::multiple_words;
use emoji_search::search_emojis;
use emoji_search::single_word::compute_is_exact_match;

fn keywords(items: &[&str]) -> Vec<String> {
    items.iter().map(|s| s.to_string()).collect()
}

fn dataset(entries: &[(&str, &[&str])]) -> EmojiData {
    let emoji_keywords: Vec<(String, Vec<String>)> = entries
        .iter()
        .map(|(e, ks)| (e.to_string(), keywords(ks)))
        .collect();
    let emoji_set: Vec<String> = entries.iter().map(|(e, _)| e.to_string()).collect();
    EmojiData {
        emoji_keywords,
        keyword_most_relevant_emoji: Vec::new(),
        emoji_set,
        word_to_top_1000_words_idx: Vec::new(),
    }
}

#[test]
fn compute_is_exact_match_distinguishes_the_three_cases() {
    assert_eq!(compute_is_exact_match("dog", "dog"), Some(true));
    assert_eq!(compute_is_exact_match("do", "dog"), Some(false));
    assert_eq!(compute_is_exact_match("dog", "do"), None);
    assert_eq!(compute_is_exact_match("", "dog"), Some(false));
}

#[test]
fn multi_word_num_matches_counts_exact_and_prefix() {
    let inputs = keywords(&["a", "b"]);
    let kws = keywords(&["alpha", "b"]);
    assert_eq!(multiple_words::get_num_matches(&inputs, &kws), (1, 1));
}

#[test]
fn multi_word_num_matches_discards_all_on_one_unmatched_word() {
    let inputs = keywords(&["a", "zz"]);
    let kws = keywords(&["alpha", "b"]);
    assert_eq!(multiple_words::get_num_matches(&inputs, &kws), (0, 0));
}

#[test]
fn best_match_num_matches_tallies_four_kinds() {
    let inputs = keywords(&["face", "running", "smiling", "cry"]);
    let stems = keywords(&["face", "runn", "smil", "cry"]);
    let kws = keywords(&["face", "runner", "smil", "cry"]);
    let attrs = best_matching::get_num_matches(&inputs, &stems, &kws);
    // "face" and "cry" are exact on the original word; "smiling" is exact
    // on its stem; "running" only has a prefix extension of its stem.
    assert_eq!(attrs.num_exact_word_matches, 2);
    assert_eq!(attrs.num_exact_stemmed_word_matches, 1);
    assert_eq!(attrs.num_prefix_word_matches, 0);
    assert_eq!(attrs.num_prefix_stemmed_word_matches, 1);
}

#[test]
fn multi_word_space_prefixed_substring_counts_as_in_order() {
    let data = dataset(&[
        ("😊", &["happy face place town"]),
        ("😄", &["big happy face"]),
    ]);
    let r = search_emojis("happy face", None, None, &data).unwrap();
    // Both match in order; the keyword with fewer words ranks first.
    assert_eq!(
        r,
        vec!["😄".to_string(), "😊".to_string()]
    );
}

#[test]
fn best_matching_prefix_of_original_beats_prefix_of_stem() {
    let data = dataset(&[("🏃", &["runner"]), ("👟", &["runnings"])]);
    let r = emoji_search::search_best_matching_emojis("running shoes", None, None, &data).unwrap();
    assert_eq!(r, vec!["👟".to_string(), "🏃".to_string()]);
}

#[test]
fn new_dataset_is_empty_and_contains_nothing() {
    let data = EmojiData::new();
    assert_eq!(data.emoji_keywords.len(), 0);
    assert!(!data.contains_emoji("🌮"));
}

#[test]
fn default_options_add_no_customization() {
    let data = dataset(&[("🍎", &["apple"])]);
    let defaulted = search_emojis("app", None, Some(Options::default()), &data).unwrap();
    let none = search_emojis("app", None, None, &data).unwrap();
    assert_eq!(defaulted, none);
    assert_eq!(defaulted, vec!["🍎".to_string()]);
}
