use emoji_search::error::{EmojiSearchError, FfiError, IntoFfiResult};
use emoji_search::parts_of_speech::filter_parts_of_speech;
use emoji_search::preprocess::pre_process_string;
use emoji_search::stemmer::stem_word;

fn words(items: &[&str]) -> Vec<String> {
    items.iter().map(|s| s.to_string()).collect()
}

#[test]
fn normalize_lowercases_and_strips_punctuation() {
    assert_eq!(pre_process_string("Hello-World!"), "hello world");
    assert_eq!(pre_process_string("A:B;C(D)E,F.G!H?I\"J"), "abcdefghij");
    assert_eq!(pre_process_string("Face-With-Tears"), "face with tears");
    assert_eq!(pre_process_string(""), "");
}

#[test]
fn normalize_keeps_other_characters() {
    assert_eq!(pre_process_string("don't"), "don't");
    assert_eq!(pre_process_string("🌮 Taco"), "🌮 taco");
}

#[test]
fn normalize_lowercases_unicode() {
    assert_eq!(pre_process_string("École"), "école");
    assert_eq!(pre_process_string("GRÜSSE!"), "grüsse");
    assert_eq!(pre_process_string("ΣΟΦΙΑ"), "σοφια");
}

#[test]
fn normalize_is_idempotent_on_samples() {
    let samples = [
        "Hello-World!",
        "  MIXED case: with; (lots) of, punctuation?! ",
        "already normalized",
        "don't-stop",
        "École-ÜBER",
        "🌮",
        "",
    ];
    for s in samples {
        let once = pre_process_string(s);
        let twice = pre_process_string(&once);
        assert_eq!(once, twice);
    }
}

#[test]
fn stem_table_examples() {
    assert_eq!(stem_word("happy"), "happy");
    assert_eq!(stem_word("crying"), "cry");
    assert_eq!(stem_word("smiling"), "smil");
    assert_eq!(stem_word("coolest"), "cool");
}

#[test]
fn stem_base_reductions() {
    assert_eq!(stem_word("dogs"), "dog");
    assert_eq!(stem_word("glass"), "glass");
    assert_eq!(stem_word("used"), "us");
    assert_eq!(stem_word("candys"), "candy");
    assert_eq!(stem_word("DIY"), "DIY");
    assert_eq!(stem_word("cat"), "cat");
}

#[test]
fn pos_filter_drops_function_words() {
    let input = words(&["the", "cat", "sat", "on", "the", "mat"]);
    assert_eq!(filter_parts_of_speech(&input), words(&["cat", "sat", "mat"]));
}

#[test]
fn pos_filter_predeterminer_exception() {
    let kept = filter_parts_of_speech(&words(&["calling", "all", "cars"]));
    assert_eq!(kept, words(&["calling", "all", "cars"]));
    let dropped = filter_parts_of_speech(&words(&["see", "all", "cars"]));
    assert_eq!(dropped, words(&["see", "cars"]));
}

#[test]
fn pos_filter_keeps_content_words_in_order() {
    let input = words(&["we", "are", "happy", "and", "very", "proud"]);
    assert_eq!(filter_parts_of_speech(&input), words(&["happy", "proud"]));
}

#[test]
fn ffi_error_from_internal_error() {
    assert!(matches!(FfiError::from(EmojiSearchError::Io), FfiError::Io));
    assert!(matches!(FfiError::from(EmojiSearchError::Json), FfiError::Json));
    let s = FfiError::from(EmojiSearchError::Search("oops".to_string()));
    match s {
        FfiError::Search(msg) => assert_eq!(msg, "oops"),
        _ => panic!("wrong variant"),
    }
    let i = FfiError::from(EmojiSearchError::InvalidInput("bad".to_string()));
    match i {
        FfiError::InvalidInput(msg) => assert_eq!(msg, "bad"),
        _ => panic!("wrong variant"),
    }
}

#[test]
fn into_ffi_result_maps_both_sides() {
    let ok: Result<u32, EmojiSearchError> = Ok(7);
    assert_eq!(ok.into_ffi_result().unwrap(), 7);
    let err: Result<u32, EmojiSearchError> = Err(EmojiSearchError::Io);
    assert!(matches!(err.into_ffi_result(), Err(FfiError::Io)));
}
