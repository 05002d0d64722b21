use emoji_search::constants::{EmojiData, Options};
use emoji_search::{search_best_matching_emojis, search_emojis};

fn keywords(items: &[&str]) -> Vec<String> {
    items.iter().map(|s| s.to_string()).collect()
}

fn dataset(entries: &[(&str, &[&str])]) -> EmojiData {
    let emoji_keywords: Vec<(String, Vec<String>)> = entries
        .iter()
        .map(|(e, ks)| (e.to_string(), keywords(ks)))
        .collect();
    let emoji_set: Vec<String> = entries.iter().map(|(e, _)| e.to_string()).collect();
    EmojiData {
        emoji_keywords,
        keyword_most_relevant_emoji: Vec::new(),
        emoji_set,
        word_to_top_1000_words_idx: Vec::new(),
    }
}

fn no_options() -> Option<Options> {
    None
}

fn ids(items: &[&str]) -> Vec<String> {
    items.iter().map(|s| s.to_string()).collect()
}

#[test]
fn empty_query_returns_empty_for_both_entry_points() {
    let data = dataset(&[("🐶", &["dog"])]);
    let r1 = search_emojis("", None, no_options(), &data).unwrap();
    assert_eq!(r1, Vec::<String>::new());
    let r2 = search_best_matching_emojis("", None, no_options(), &data).unwrap();
    assert_eq!(r2, Vec::<String>::new());
}

#[test]
fn blank_after_normalization_returns_empty() {
    let data = dataset(&[("🐶", &["dog"])]);
    let r1 = search_emojis("  ?!.,;:  ", None, no_options(), &data).unwrap();
    assert_eq!(r1, Vec::<String>::new());
    let r2 = search_best_matching_emojis("  ?!.,;:  ", None, no_options(), &data).unwrap();
    assert_eq!(r2, Vec::<String>::new());
}

#[test]
fn surrounding_whitespace_is_trimmed() {
    let data = dataset(&[("🐶", &["dog"])]);
    let r = search_emojis("\t dog \n", None, no_options(), &data).unwrap();
    assert_eq!(r, ids(&["🐶"]));
    let nbsp = search_emojis("\u{00A0}dog\u{00A0}", None, no_options(), &data).unwrap();
    assert_eq!(nbsp, ids(&["🐶"]));
}

#[test]
fn unicode_whitespace_only_query_is_blank() {
    let data = dataset(&[("🐶", &["dog"])]);
    let r1 = search_emojis("\u{00A0}\u{000B}\u{2003}", None, no_options(), &data).unwrap();
    assert_eq!(r1, Vec::<String>::new());
    let r2 = search_best_matching_emojis("\u{00A0}", None, no_options(), &data).unwrap();
    assert_eq!(r2, Vec::<String>::new());
}

#[test]
fn exact_entity_query_short_circuits() {
    let data = dataset(&[("🌮", &["taco"]), ("🐶", &["dog"])]);
    let r = search_emojis("🌮", Some(5), no_options(), &data).unwrap();
    assert_eq!(r, ids(&["🌮"]));
    let r1 = search_emojis("🌮", Some(1), no_options(), &data).unwrap();
    assert_eq!(r1, ids(&["🌮"]));
}

#[test]
fn single_word_exact_beats_prefix_from_multi_word_keyword() {
    // "wave" is not a character prefix of "waving", so the "waving hand"
    // entity matches nothing here; the exact match comes before the
    // entity whose multi-word keyword only yields a prefix match.
    let data = dataset(&[
        ("🙋", &["waving hand"]),
        ("📏", &["wavelength unit"]),
        ("🌊", &["wave"]),
    ]);
    let r = search_emojis("wave", None, no_options(), &data).unwrap();
    assert_eq!(r, ids(&["🌊", "📏"]));
}

#[test]
fn single_word_prefix_matches_rank_alphabetically() {
    let data = dataset(&[("🍑", &["apricot"]), ("🍎", &["apple"])]);
    let r = search_emojis("ap", None, no_options(), &data).unwrap();
    assert_eq!(r, ids(&["🍎", "🍑"]));
}

#[test]
fn recently_searched_input_outranks_alphabetical_order() {
    let data = dataset(&[("🍎", &["apple"]), ("🍑", &["apricot"])]);
    let options = Options {
        custom_emoji_keywords: None,
        custom_keyword_most_relevant_emoji: None,
        recently_searched_inputs: Some(keywords(&["apricot"])),
    };
    let r = search_emojis("ap", None, Some(options), &data).unwrap();
    assert_eq!(r, ids(&["🍑", "🍎"]));
}

#[test]
fn top_word_rank_outranks_alphabetical_order() {
    let mut data = dataset(&[("🍎", &["apple"]), ("🍑", &["apricot"])]);
    data.word_to_top_1000_words_idx = vec![("apricot".to_string(), 3)];
    let r = search_emojis("ap", None, no_options(), &data).unwrap();
    assert_eq!(r, ids(&["🍑", "🍎"]));
}

#[test]
fn custom_preferred_entity_breaks_exact_tie() {
    let data = dataset(&[("🐱", &["cat"]), ("😺", &["cat", "grin"])]);
    let options = Options {
        custom_emoji_keywords: None,
        custom_keyword_most_relevant_emoji: Some(vec![(
            "cat".to_string(),
            "😺".to_string(),
        )]),
        recently_searched_inputs: None,
    };
    let r = search_emojis("cat", None, Some(options), &data).unwrap();
    assert_eq!(r[0], "😺".to_string());
    assert_eq!(r.len(), 2);
}

#[test]
fn global_preferred_entity_breaks_exact_tie() {
    let mut data = dataset(&[("🐱", &["cat"]), ("😺", &["cat", "grin"])]);
    data.keyword_most_relevant_emoji = vec![("cat".to_string(), "😺".to_string())];
    let r = search_emojis("cat", None, no_options(), &data).unwrap();
    assert_eq!(r[0], "😺".to_string());
}

#[test]
fn custom_keywords_extend_builtin_keywords() {
    let data = dataset(&[("🦓", &["stripes"])]);
    let options = Options {
        custom_emoji_keywords: Some(vec![("🦓".to_string(), keywords(&["zebra"]))]),
        custom_keyword_most_relevant_emoji: None,
        recently_searched_inputs: None,
    };
    let r = search_emojis("zebra", None, Some(options), &data).unwrap();
    assert_eq!(r, ids(&["🦓"]));
    let none = search_emojis("zebra", None, no_options(), &data).unwrap();
    assert_eq!(none, Vec::<String>::new());
}

#[test]
fn multi_word_exact_beats_jointed() {
    let data = dataset(&[
        ("🫂", &["people hugging"]),
        ("👥", &["people", "hugging"]),
    ]);
    let r = search_emojis("people hugging", None, no_options(), &data).unwrap();
    assert_eq!(r, ids(&["🫂", "👥"]));
}

#[test]
fn multi_word_out_of_order_short_circuit_discards_partial_progress() {
    // Documented current behavior: a keyword that matches all but one
    // query word contributes nothing, so the jointed-only entity with
    // keywords "people" and "hug" does not match "people hugging" at all.
    let data = dataset(&[("🫂", &["people hugging"]), ("👥", &["people", "hug"])]);
    let r = search_emojis("people hugging", None, no_options(), &data).unwrap();
    assert_eq!(r, ids(&["🫂"]));
}

#[test]
fn multi_word_in_order_exact_beats_out_of_order() {
    let data = dataset(&[("❤", &["big red heart"]), ("🧡", &["heart red"])]);
    let r = search_emojis("heart red", None, no_options(), &data).unwrap();
    assert_eq!(r, ids(&["🧡", "❤"]));
}

#[test]
fn multi_word_fewer_keyword_words_rank_higher() {
    let data = dataset(&[
        ("🙂", &["happy face smile always"]),
        ("😊", &["happy face smile"]),
    ]);
    let r = search_emojis("happy face", None, no_options(), &data).unwrap();
    assert_eq!(r, ids(&["😊", "🙂"]));
}

#[test]
fn limit_truncates_to_prefix_of_unbounded_ranking() {
    let data = dataset(&[
        ("🍎", &["apple"]),
        ("🍑", &["apricot"]),
        ("🦍", &["ape"]),
    ]);
    let unbounded = search_emojis("ap", Some(100), no_options(), &data).unwrap();
    assert_eq!(unbounded.len(), 3);
    for k in 0..4 {
        let limited = search_emojis("ap", Some(k), no_options(), &data).unwrap();
        assert_eq!(limited.len(), k.min(3));
        assert_eq!(limited[..], unbounded[..k.min(3)]);
    }
}

#[test]
fn default_limit_is_twenty_four() {
    let entries: Vec<(String, Vec<String>)> = (0..30)
        .map(|i| (format!("e{}", i), keywords(&["zz"])))
        .collect();
    let data = EmojiData {
        emoji_keywords: entries,
        keyword_most_relevant_emoji: Vec::new(),
        emoji_set: Vec::new(),
        word_to_top_1000_words_idx: Vec::new(),
    };
    let r = search_emojis("zz", None, no_options(), &data).unwrap();
    assert_eq!(r.len(), 24);
}

#[test]
fn best_matching_single_word_falls_back_to_stem() {
    let data = dataset(&[("😢", &["cry"])]);
    let strict = search_emojis("crying", None, no_options(), &data).unwrap();
    assert_eq!(strict, Vec::<String>::new());
    let forgiving = search_best_matching_emojis("crying", None, no_options(), &data).unwrap();
    assert_eq!(forgiving, ids(&["😢"]));
}

#[test]
fn best_matching_multi_word_uses_pos_filter_and_stems() {
    let data = dataset(&[("😢", &["cry", "face"]), ("🌵", &["desert"])]);
    let r = search_best_matching_emojis("the crying face", None, no_options(), &data).unwrap();
    assert_eq!(r, ids(&["😢"]));
}

#[test]
fn best_matching_ranks_more_exact_original_words_first() {
    let data = dataset(&[
        ("🎺", &["loud horn"]),
        ("📯", &["horn", "postal"]),
    ]);
    let r = search_best_matching_emojis("postal horn", None, no_options(), &data).unwrap();
    assert_eq!(r[0], "📯".to_string());
}

#[test]
fn normalization_applies_to_keywords_and_query() {
    let data = dataset(&[("😀", &["Grinning-Face!"])]);
    let r = search_emojis("grinning face", None, no_options(), &data).unwrap();
    assert_eq!(r, ids(&["😀"]));
}

#[test]
fn empty_dataset_matches_nothing() {
    let data = EmojiData::new();
    let r = search_emojis("anything", None, no_options(), &data).unwrap();
    assert_eq!(r, Vec::<String>::new());
    let rb = search_best_matching_emojis("any thing", None, no_options(), &data).unwrap();
    assert_eq!(rb, Vec::<String>::new());
}
