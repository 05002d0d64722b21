use vstd::prelude::*;

pub mod best_matching;
pub mod constants;
pub mod error;
pub mod multiple_words;
pub mod ordering;
pub mod parts_of_speech;
pub mod preprocess;
pub mod single_word;
pub mod stemmer;
pub mod strutil;

use crate::best_matching::{match_emoji_to_words, spec_match_emoji_to_words};
use crate::constants::{
    spec_data_entities_distinct, EmojiData, EmojiKeywords, KeywordMostRelevantEmoji, Options,
};
use crate::error::EmojiSearchError;
use crate::multiple_words::{match_emojis_to_words_raw, spec_match_emojis_to_words_raw};
use crate::preprocess::{pre_process_string, spec_normalize};
use crate::single_word::{match_emojis_to_word, spec_match_emojis_to_word};
use crate::stemmer::{spec_stem, stem_word};
use crate::strutil::{seq_views, spec_trim, str_contains_char, str_eq, trim_spaces};

verus! {

/// The requested result limit; 24 when the caller names none.
pub open spec fn spec_limit(max_limit: Option<usize>) -> int {
    match max_limit {
        Some(u) => u as int,
        None => 24,
    }
}

/// The caller's options, or the built-in behavior when none are given.
pub open spec fn spec_options_of(options: Option<Options>) -> Options {
    match options {
        Some(o) => o,
        None => (Options {
            custom_emoji_keywords: Option::<EmojiKeywords>::None,
            custom_keyword_most_relevant_emoji: Option::<KeywordMostRelevantEmoji>::None,
            recently_searched_inputs: Option::<Vec<String>>::None,
        }),
    }
}

/// The first `limit` entries of a ranking, or all of them when there are
/// fewer.
pub open spec fn spec_take_limit(full: Seq<Seq<char>>, limit: int) -> Seq<Seq<char>> {
    if limit < full.len() {
        full.take(limit)
    } else {
        full
    }
}

/// The unbounded result of `search_emojis`: the empty ranking for a
/// blank query, the query itself when it is a known entity, otherwise
/// the single- or multi-word ranking depending on the word count.
pub open spec fn spec_search_full(q: Seq<char>, data: EmojiData, options: Options) -> Seq<
    Seq<char>,
> {
    let nq = spec_trim(spec_normalize(q));
    if nq.len() == 0 {
        Seq::empty()
    } else if data.emoji_set_view().contains(nq) {
        seq![nq]
    } else if !nq.contains(' ') {
        spec_match_emojis_to_word(nq, data, options)
    } else {
        spec_match_emojis_to_words_raw(nq, data, options)
    }
}

/// The result of `search_emojis`: the unbounded ranking truncated to the
/// limit, except that a blank query yields nothing and a query that is
/// itself a known entity yields exactly that entity, untruncated.
pub open spec fn spec_search_emojis(
    q: Seq<char>,
    limit: int,
    data: EmojiData,
    options: Options,
) -> Seq<Seq<char>> {
    let nq = spec_trim(spec_normalize(q));
    if nq.len() == 0 {
        Seq::empty()
    } else if data.emoji_set_view().contains(nq) {
        seq![nq]
    } else {
        spec_take_limit(spec_search_full(q, data, options), limit)
    }
}

/// The unbounded result of `search_best_matching_emojis`: for one word,
/// the single-word ranking, retried on the stem when empty and the stem
/// differs; for several words, the best-match ranking.
pub open spec fn spec_search_best_matching_full(
    q: Seq<char>,
    data: EmojiData,
    options: Options,
) -> Seq<Seq<char>> {
    let nq = spec_trim(spec_normalize(q));
    if nq.len() == 0 {
        Seq::empty()
    } else if !nq.contains(' ') {
        let first = spec_match_emojis_to_word(nq, data, options);
        if first.len() == 0 && spec_stem(nq) != nq {
            spec_match_emojis_to_word(spec_stem(nq), data, options)
        } else {
            first
        }
    } else {
        spec_match_emoji_to_words(nq, data, options)
    }
}

/// The result of `search_best_matching_emojis`: the unbounded
/// best-matching ranking truncated to the limit.
pub open spec fn spec_search_best_matching_emojis(
    q: Seq<char>,
    limit: int,
    data: EmojiData,
    options: Options,
) -> Seq<Seq<char>> {
    spec_take_limit(spec_search_best_matching_full(q, data, options), limit)
}

/// Truncates a ranking to the caller's limit.
fn truncate_results(results: &mut Vec<String>, max_limit: usize)
    ensures
        seq_views(final(results)@) == spec_take_limit(seq_views(old(results)@), max_limit as int),
{
    results.truncate(max_limit);
    proof {
        if max_limit < old(results)@.len() {
            assert(seq_views(results@) =~= seq_views(old(results)@).take(max_limit as int));
        }
    }
}

/// Main entry point for searching emojis.
///
/// Optimized for search-as-you-type: the query is normalized and
/// trimmed; a blank query yields nothing; a query naming a known entity
/// yields that entity alone; otherwise the single- or multi-word ranking
/// is computed and truncated to `max_limit` (24 when absent).
pub fn search_emojis(
    input: &str,
    max_limit: Option<usize>,
    options: Option<Options>,
    emoji_data: &EmojiData,
) -> (r: Result<Vec<String>, EmojiSearchError>)
    ensures
        r matches Ok(v) && seq_views(v@) == spec_search_emojis(
            input@,
            spec_limit(max_limit),
            *emoji_data,
            spec_options_of(options),
        ),
{
    let max_limit_v: usize = match max_limit {
        Some(u) => u,
        None => 24,
    };
    let options_v: Options = match options {
        Some(o) => o,
        None => Options {
            custom_emoji_keywords: None,
            custom_keyword_most_relevant_emoji: None,
            recently_searched_inputs: None,
        },
    };
    let normalized = pre_process_string(input);
    let trimmed = trim_spaces(normalized.as_str());
    if trimmed.as_str().unicode_len() == 0 {
        let empty_results: Vec<String> = Vec::new();
        proof {
            assert(seq_views(empty_results@) =~= Seq::<Seq<char>>::empty());
        }
        return Ok(empty_results);
    }
    // Return the input itself if it is a known entity.
    if emoji_data.contains_emoji(trimmed.as_str()) {
        let mut single: Vec<String> = Vec::new();
        single.push(trimmed);
        proof {
            assert(seq_views(single@) =~= seq![spec_trim(spec_normalize(input@))]);
        }
        return Ok(single);
    }
    let is_single_word_input = !str_contains_char(trimmed.as_str(), ' ');
    let mut results: Vec<String> = if is_single_word_input {
        match_emojis_to_word(trimmed.as_str(), emoji_data, &options_v)
    } else {
        match_emojis_to_words_raw(trimmed.as_str(), emoji_data, &options_v)
    };
    truncate_results(&mut results, max_limit_v);
    Ok(results)
}

/// Search for best matching emojis.
///
/// A more forgiving search: a one-word query falls back to its stemmed
/// form when the word itself matches nothing; a multi-word query is
/// POS-filtered and stemmed before scoring. Results are truncated to
/// `max_limit` (24 when absent).
pub fn search_best_matching_emojis(
    input: &str,
    max_limit: Option<usize>,
    options: Option<Options>,
    emoji_data: &EmojiData,
) -> (r: Result<Vec<String>, EmojiSearchError>)
    ensures
        r matches Ok(v) && seq_views(v@) == spec_search_best_matching_emojis(
            input@,
            spec_limit(max_limit),
            *emoji_data,
            spec_options_of(options),
        ),
{
    let max_limit_v: usize = match max_limit {
        Some(u) => u,
        None => 24,
    };
    let options_v: Options = match options {
        Some(o) => o,
        None => Options {
            custom_emoji_keywords: None,
            custom_keyword_most_relevant_emoji: None,
            recently_searched_inputs: None,
        },
    };
    let normalized = pre_process_string(input);
    let trimmed = trim_spaces(normalized.as_str());
    if trimmed.as_str().unicode_len() == 0 {
        let empty_results: Vec<String> = Vec::new();
        proof {
            assert(seq_views(empty_results@) =~= Seq::<Seq<char>>::empty());
            assert(spec_take_limit(Seq::<Seq<char>>::empty(), max_limit_v as int) =~= Seq::<
                Seq<char>,
            >::empty());
        }
        return Ok(empty_results);
    }
    let is_single_word_input = !str_contains_char(trimmed.as_str(), ' ');
    let mut results: Vec<String> = if is_single_word_input {
        let mut emojis = match_emojis_to_word(trimmed.as_str(), emoji_data, &options_v);
        // If nothing matched, retry once with the stemmed form when it
        // differs from the word itself.
        if emojis.len() == 0 {
            let stemmed_input = stem_word(trimmed.as_str());
            if !str_eq(stemmed_input.as_str(), trimmed.as_str()) {
                emojis = match_emojis_to_word(stemmed_input.as_str(), emoji_data, &options_v);
            }
        }
        emojis
    } else {
        let emojis = match_emoji_to_words(trimmed.as_str(), emoji_data, &options_v);
        // A retry with the same inputs cannot change the outcome; it is
        // kept as a deliberate no-op fallback.
        if emojis.len() == 0 {
            match_emoji_to_words(trimmed.as_str(), emoji_data, &options_v)
        } else {
            emojis
        }
    };
    truncate_results(&mut results, max_limit_v);
    Ok(results)
}

/// Law: truncation. For every query whose normalized form is not itself
/// a known entity (and for those too, once the limit is at least one),
/// the limited result of `search_emojis` is exactly the first `limit`
/// entries of the unbounded ranking, so its length is the smaller of the
/// limit and the number of ranked entities.
pub proof fn lemma_limit_truncation(q: Seq<char>, limit: int, data: EmojiData, options: Options)
    requires
        data.emoji_set_view().contains(spec_trim(spec_normalize(q))) ==> limit >= 1,
        limit >= 0,
    ensures
        spec_search_emojis(q, limit, data, options) == spec_take_limit(
            spec_search_full(q, data, options),
            limit,
        ),
        spec_search_emojis(q, limit, data, options).len() == if limit < spec_search_full(
            q,
            data,
            options,
        ).len() {
            limit
        } else {
            spec_search_full(q, data, options).len() as int
        },
{
    let nq = spec_trim(spec_normalize(q));
    let full = spec_search_full(q, data, options);
    if nq.len() == 0 {
        assert(spec_take_limit(full, limit) =~= Seq::<Seq<char>>::empty());
    } else if data.emoji_set_view().contains(nq) {
        assert(full == seq![nq]);
        assert(spec_take_limit(full, limit) == full);
    }
}

/// Law: truncation of the best-matching entry point, for every query and
/// every limit.
pub proof fn lemma_limit_truncation_best_matching(
    q: Seq<char>,
    limit: int,
    data: EmojiData,
    options: Options,
)
    requires
        limit >= 0,
    ensures
        spec_search_best_matching_emojis(q, limit, data, options) == spec_take_limit(
            spec_search_best_matching_full(q, data, options),
            limit,
        ),
        spec_search_best_matching_emojis(q, limit, data, options).len() == if limit
            < spec_search_best_matching_full(q, data, options).len() {
            limit
        } else {
            spec_search_best_matching_full(q, data, options).len() as int
        },
{
}

/// Law: exact-entity short circuit. A query whose normalized, trimmed
/// form is a known entity identifier yields exactly that one entity,
/// whatever the limit.
pub proof fn lemma_exact_entity_short_circuit(
    q: Seq<char>,
    limit: int,
    data: EmojiData,
    options: Options,
)
    requires
        spec_trim(spec_normalize(q)).len() > 0,
        data.emoji_set_view().contains(spec_trim(spec_normalize(q))),
    ensures
        spec_search_emojis(q, limit, data, options) == seq![spec_trim(spec_normalize(q))],
{
}

/// Whether no entity appears twice in a result sequence.
pub open spec fn spec_results_distinct(s: Seq<Seq<char>>) -> bool {
    forall|i: int, j: int| 0 <= i < j < s.len() ==> s[i] != s[j]
}

/// The entities of a ranked, pairwise distinct scored sequence are
/// pairwise distinct after projection.
proof fn lemma_projection_distinct(
    ranked: Seq<(Seq<char>, single_word::AttributesModel)>,
    ranked_multi: Seq<(Seq<char>, multiple_words::AttributesModel)>,
    ranked_best: Seq<(Seq<char>, best_matching::AttributesModel)>,
)
    requires
        single_word::spec_entities_distinct(ranked),
        multiple_words::spec_entities_distinct(ranked_multi),
        best_matching::spec_entities_distinct(ranked_best),
    ensures
        spec_results_distinct(
            ranked.map_values(|p: (Seq<char>, single_word::AttributesModel)| p.0),
        ),
        spec_results_distinct(
            ranked_multi.map_values(|p: (Seq<char>, multiple_words::AttributesModel)| p.0),
        ),
        spec_results_distinct(
            ranked_best.map_values(|p: (Seq<char>, best_matching::AttributesModel)| p.0),
        ),
{
}

/// Taking a prefix keeps a result sequence pairwise distinct.
proof fn lemma_take_distinct(s: Seq<Seq<char>>, limit: int)
    requires
        limit >= 0,
        spec_results_distinct(s),
    ensures
        spec_results_distinct(spec_take_limit(s, limit)),
{
}

/// Law: search results are duplicate-free. When the dataset lists each
/// entity once, neither entry point ever returns the same entity twice.
pub proof fn lemma_search_results_distinct(
    q: Seq<char>,
    limit: int,
    data: EmojiData,
    options: Options,
)
    requires
        limit >= 0,
        spec_data_entities_distinct(data),
    ensures
        spec_results_distinct(spec_search_emojis(q, limit, data, options)),
        spec_results_distinct(spec_search_best_matching_emojis(q, limit, data, options)),
{
    let nq = spec_trim(spec_normalize(q));
    single_word::lemma_ranking_distinct(nq, data, options);
    single_word::lemma_ranking_distinct(spec_stem(nq), data, options);
    multiple_words::lemma_ranking_distinct(nq, data, options);
    best_matching::lemma_ranking_distinct(nq, data, options);
    lemma_projection_distinct(
        single_word::spec_rank_entries(nq, data, options, 0, Seq::empty()),
        multiple_words::spec_rank_entries(nq, data, options, 0, Seq::empty()),
        best_matching::spec_rank_entries(nq, data, options, 0, Seq::empty()),
    );
    lemma_projection_distinct(
        single_word::spec_rank_entries(spec_stem(nq), data, options, 0, Seq::empty()),
        multiple_words::spec_rank_entries(nq, data, options, 0, Seq::empty()),
        best_matching::spec_rank_entries(nq, data, options, 0, Seq::empty()),
    );
    lemma_take_distinct(spec_search_full(q, data, options), limit);
    lemma_take_distinct(spec_search_best_matching_full(q, data, options), limit);
}

/// Law: blank queries. A query that is empty after normalization and
/// trimming yields an empty ranking from both entry points, for every
/// limit and every dataset.
pub proof fn lemma_blank_query(q: Seq<char>, limit: int, data: EmojiData, options: Options)
    requires
        limit >= 0,
        spec_trim(spec_normalize(q)).len() == 0,
    ensures
        spec_search_emojis(q, limit, data, options) == Seq::<Seq<char>>::empty(),
        spec_search_best_matching_emojis(q, limit, data, options) == Seq::<Seq<char>>::empty(),
{
    assert(spec_take_limit(Seq::<Seq<char>>::empty(), limit) =~= Seq::<Seq<char>>::empty());
}

} // verus!
