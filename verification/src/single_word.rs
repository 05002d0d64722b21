use vstd::prelude::*;

use core::cmp::Ordering;

use crate::constants::{
    assoc_get, last_index_of, merged_keywords, rank_of, rank_pairs_view, relevant_is,
    spec_custom_keywords_for, spec_data_entities_distinct, spec_entity_before, spec_last_index_of,
    str_pairs_view, EmojiData, KeywordMostRelevantEmoji, Options, WordToTop1000WordsIdx,
};
use crate::ordering::{
    bool_rank, cmp_bool_rank, cmp_opt_idx, cmp_seq_char, flip, lemma_cmp_seq_char_flip, opt_idx_rank,
    opt_int, str_cmp,
};
use crate::preprocess::{pre_process_string, spec_normalize};
use crate::strutil::{
    seq_views, seq_views_ref, spec_split, split_on_space, str_contains_char, str_eq,
    str_starts_with,
};

verus! {

/// Ranking signals of the best keyword occurrence that matched one input
/// word for one entity.
pub struct Attributes {
    pub is_exact_match: bool,
    pub is_custom_most_relevant_emoji: bool,
    pub is_most_relevant_emoji: bool,
    pub is_emoji_name: bool,
    pub is_single_word: bool,
    pub match_word: String,
    pub prefix_match_recently_searched_inputs_idx: Option<usize>,
    pub prefix_match_top_1000_words_idx: Option<usize>,
}

/// The mathematical shape of `Attributes`.
pub ghost struct AttributesModel {
    pub is_exact_match: bool,
    pub is_custom_most_relevant_emoji: bool,
    pub is_most_relevant_emoji: bool,
    pub is_emoji_name: bool,
    pub is_single_word: bool,
    pub match_word: Seq<char>,
    pub recent_idx: Option<int>,
    pub top_idx: Option<int>,
}

impl View for Attributes {
    type V = AttributesModel;

    open spec fn view(&self) -> AttributesModel {
        AttributesModel {
            is_exact_match: self.is_exact_match,
            is_custom_most_relevant_emoji: self.is_custom_most_relevant_emoji,
            is_most_relevant_emoji: self.is_most_relevant_emoji,
            is_emoji_name: self.is_emoji_name,
            is_single_word: self.is_single_word,
            match_word: self.match_word@,
            recent_idx: opt_int(self.prefix_match_recently_searched_inputs_idx),
            top_idx: opt_int(self.prefix_match_top_1000_words_idx),
        }
    }
}

/// The single-word ranking order: exact before prefix; within exact
/// matches custom-preferred, globally-preferred, canonical-name and
/// single-word-keyword in turn; within prefix matches recently-searched
/// index, single-word-keyword, frequency-rank index, the matched word
/// itself, custom-preferred and globally-preferred in turn.
pub open spec fn spec_compare(a: AttributesModel, b: AttributesModel) -> Ordering {
    let c1 = cmp_bool_rank(a.is_exact_match, b.is_exact_match);
    if c1 != Ordering::Equal {
        c1
    } else if a.is_exact_match {
        let c2 = cmp_bool_rank(a.is_custom_most_relevant_emoji, b.is_custom_most_relevant_emoji);
        if c2 != Ordering::Equal {
            c2
        } else {
            let c3 = cmp_bool_rank(a.is_most_relevant_emoji, b.is_most_relevant_emoji);
            if c3 != Ordering::Equal {
                c3
            } else {
                let c4 = cmp_bool_rank(a.is_emoji_name, b.is_emoji_name);
                if c4 != Ordering::Equal {
                    c4
                } else {
                    cmp_bool_rank(a.is_single_word, b.is_single_word)
                }
            }
        }
    } else {
        let c2 = cmp_opt_idx(a.recent_idx, b.recent_idx);
        if c2 != Ordering::Equal {
            c2
        } else {
            let c3 = cmp_bool_rank(a.is_single_word, b.is_single_word);
            if c3 != Ordering::Equal {
                c3
            } else {
                let c4 = cmp_opt_idx(a.top_idx, b.top_idx);
                if c4 != Ordering::Equal {
                    c4
                } else {
                    let c5 = cmp_seq_char(a.match_word, b.match_word);
                    if c5 != Ordering::Equal {
                        c5
                    } else {
                        let c6 = cmp_bool_rank(
                            a.is_custom_most_relevant_emoji,
                            b.is_custom_most_relevant_emoji,
                        );
                        if c6 != Ordering::Equal {
                            c6
                        } else {
                            cmp_bool_rank(a.is_most_relevant_emoji, b.is_most_relevant_emoji)
                        }
                    }
                }
            }
        }
    }
}

/// Swapping the arguments of the single-word order flips its result.
pub proof fn lemma_compare_flip(a: AttributesModel, b: AttributesModel)
    ensures
        spec_compare(b, a) == flip(spec_compare(a, b)),
{
    lemma_cmp_seq_char_flip(a.match_word, b.match_word);
}

/// Compare attributes for ranking: the core tie-breaking chain of the
/// single-word search.
pub fn compare_attributes(a: &Attributes, b: &Attributes) -> (o: Ordering)
    ensures
        o == spec_compare(a@, b@),
{
    let c1 = bool_rank(a.is_exact_match, b.is_exact_match);
    if !matches!(c1, Ordering::Equal) {
        return c1;
    }
    if a.is_exact_match {
        let c2 = bool_rank(a.is_custom_most_relevant_emoji, b.is_custom_most_relevant_emoji);
        if !matches!(c2, Ordering::Equal) {
            return c2;
        }
        let c3 = bool_rank(a.is_most_relevant_emoji, b.is_most_relevant_emoji);
        if !matches!(c3, Ordering::Equal) {
            return c3;
        }
        let c4 = bool_rank(a.is_emoji_name, b.is_emoji_name);
        if !matches!(c4, Ordering::Equal) {
            return c4;
        }
        bool_rank(a.is_single_word, b.is_single_word)
    } else {
        let c2 = opt_idx_rank(
            &a.prefix_match_recently_searched_inputs_idx,
            &b.prefix_match_recently_searched_inputs_idx,
        );
        if !matches!(c2, Ordering::Equal) {
            return c2;
        }
        let c3 = bool_rank(a.is_single_word, b.is_single_word);
        if !matches!(c3, Ordering::Equal) {
            return c3;
        }
        let c4 = opt_idx_rank(
            &a.prefix_match_top_1000_words_idx,
            &b.prefix_match_top_1000_words_idx,
        );
        if !matches!(c4, Ordering::Equal) {
            return c4;
        }
        let c5 = str_cmp(a.match_word.as_str(), b.match_word.as_str());
        if !matches!(c5, Ordering::Equal) {
            return c5;
        }
        let c6 = bool_rank(a.is_custom_most_relevant_emoji, b.is_custom_most_relevant_emoji);
        if !matches!(c6, Ordering::Equal) {
            return c6;
        }
        bool_rank(a.is_most_relevant_emoji, b.is_most_relevant_emoji)
    }
}

/// The request-scoped context that single-word scoring reads: the entity
/// being scored, the two preferred-entity maps, the recently searched
/// inputs and the word frequency ranks.
pub ghost struct SingleCtx {
    pub emoji: Seq<char>,
    pub custom_relevant: Seq<(Seq<char>, Seq<char>)>,
    pub relevant: Seq<(Seq<char>, Seq<char>)>,
    pub recents: Seq<Seq<char>>,
    pub tops: Seq<(Seq<char>, usize)>,
}

/// `Some(true)` for an exact match of the query word against a keyword
/// word, `Some(false)` for a proper or improper prefix that is not equal,
/// `None` for no match.
pub open spec fn spec_match_kind(q: Seq<char>, w: Seq<char>) -> Option<bool> {
    if q == w {
        Some(true)
    } else if q.is_prefix_of(w) {
        Some(false)
    } else {
        None
    }
}

/// The attribute record for one keyword word that matched the query, or
/// `None` when it does not match. The two index signals are only present
/// on prefix matches.
pub open spec fn spec_word_attr(
    q: Seq<char>,
    w: Seq<char>,
    is_name: bool,
    is_single: bool,
    ctx: SingleCtx,
) -> Option<AttributesModel> {
    match spec_match_kind(q, w) {
        None => None,
        Some(exact) => Some(
            AttributesModel {
                is_exact_match: exact,
                is_custom_most_relevant_emoji: assoc_get(ctx.custom_relevant, w) == Some(ctx.emoji),
                is_most_relevant_emoji: assoc_get(ctx.relevant, w) == Some(ctx.emoji),
                is_emoji_name: is_name,
                is_single_word: is_single,
                match_word: w,
                recent_idx: if !exact {
                    spec_last_index_of(ctx.recents, w)
                } else {
                    None
                },
                top_idx: if !exact {
                    opt_int(assoc_get(ctx.tops, w))
                } else {
                    None
                },
            },
        ),
    }
}

/// Keeps the better of a best-so-far record and a candidate; the
/// best-so-far record wins ties.
pub open spec fn spec_better(
    acc: Option<AttributesModel>,
    cand: Option<AttributesModel>,
) -> Option<AttributesModel> {
    match cand {
        None => acc,
        Some(c) => match acc {
            None => Some(c),
            Some(b) => if spec_compare(c, b) == Ordering::Less {
                Some(c)
            } else {
                acc
            },
        },
    }
}

/// Folds the candidate records of the words of one multi-word keyword,
/// from position `j` on, into the best-so-far record.
pub open spec fn spec_best_over_words(
    q: Seq<char>,
    ws: Seq<Seq<char>>,
    j: int,
    is_name: bool,
    ctx: SingleCtx,
    acc: Option<AttributesModel>,
) -> Option<AttributesModel>
    decreases ws.len() - j,
{
    if j < 0 || j >= ws.len() {
        acc
    } else {
        spec_best_over_words(
            q,
            ws,
            j + 1,
            is_name,
            ctx,
            spec_better(acc, spec_word_attr(q, ws[j], is_name, false, ctx)),
        )
    }
}

/// Folds the candidate records of all keywords, from keyword `i` on, into
/// the best-so-far record. Each keyword is normalized first; a keyword
/// without spaces contributes one candidate, a multi-word keyword one per
/// word. Keyword 0 is the entity's canonical name.
pub open spec fn spec_best_from_keywords(
    q: Seq<char>,
    kws: Seq<Seq<char>>,
    i: int,
    ctx: SingleCtx,
    acc: Option<AttributesModel>,
) -> Option<AttributesModel>
    decreases kws.len() - i,
{
    if i < 0 || i >= kws.len() {
        acc
    } else {
        let kwn = spec_normalize(kws[i]);
        let acc2 = if !kwn.contains(' ') {
            spec_better(acc, spec_word_attr(q, kwn, i == 0, true, ctx))
        } else {
            spec_best_over_words(q, spec_split(kwn), 0, i == 0, ctx, acc)
        };
        spec_best_from_keywords(q, kws, i + 1, ctx, acc2)
    }
}

/// The best attribute record of an entity for one query word, across all
/// of its keywords, or `None` when nothing matched.
pub open spec fn spec_entry_best(q: Seq<char>, kws: Seq<Seq<char>>, ctx: SingleCtx) -> Option<
    AttributesModel,
> {
    spec_best_from_keywords(q, kws, 0, ctx, None)
}

/// The view of an optional attribute record.
pub open spec fn opt_attr_view(o: Option<Attributes>) -> Option<AttributesModel> {
    match o {
        Some(a) => Some(a@),
        None => None,
    }
}

/// Check if the input word matches the keyword exactly or as a prefix.
pub fn compute_is_exact_match(input_word: &str, keyword: &str) -> (r: Option<bool>)
    ensures
        r == spec_match_kind(input_word@, keyword@),
{
    if str_eq(input_word, keyword) {
        Some(true)
    } else if str_starts_with(keyword, input_word) {
        Some(false)
    } else {
        None
    }
}

/// The context a scoring call reads, assembled from the exec values.
pub open spec fn ctx_of(
    emoji: Seq<char>,
    custom_rel: Seq<(String, String)>,
    rel: Seq<(String, String)>,
    recents: Seq<String>,
    tops: Seq<(String, usize)>,
) -> SingleCtx {
    SingleCtx {
        emoji: emoji,
        custom_relevant: str_pairs_view(custom_rel),
        relevant: str_pairs_view(rel),
        recents: seq_views(recents),
        tops: rank_pairs_view(tops),
    }
}

/// The attribute record of one keyword word against the query word, if it
/// matches.
fn make_word_attr(
    input_word: &str,
    word: &str,
    is_name: bool,
    is_single: bool,
    emoji: &String,
    custom_rel: &KeywordMostRelevantEmoji,
    rel: &KeywordMostRelevantEmoji,
    recents: &Vec<String>,
    tops: &WordToTop1000WordsIdx,
) -> (r: Option<Attributes>)
    ensures
        opt_attr_view(r) == spec_word_attr(
            input_word@,
            word@,
            is_name,
            is_single,
            ctx_of(emoji@, custom_rel@, rel@, recents@, tops@),
        ),
{
    let m = compute_is_exact_match(input_word, word);
    match m {
        None => None,
        Some(exact) => {
            let is_custom = relevant_is(custom_rel, word, emoji);
            let is_rel = relevant_is(rel, word, emoji);
            let recent_idx: Option<usize> = if !exact {
                last_index_of(recents, word)
            } else {
                None
            };
            let top_idx: Option<usize> = if !exact {
                rank_of(tops, word)
            } else {
                None
            };
            Some(
                Attributes {
                    is_exact_match: exact,
                    is_custom_most_relevant_emoji: is_custom,
                    is_most_relevant_emoji: is_rel,
                    is_emoji_name: is_name,
                    is_single_word: is_single,
                    match_word: word.to_owned(),
                    prefix_match_recently_searched_inputs_idx: recent_idx,
                    prefix_match_top_1000_words_idx: top_idx,
                },
            )
        },
    }
}

/// Get the best attribute record for an entity whose merged keyword list
/// is `keywords`, against one query word; `None` when no keyword matches.
#[verifier::loop_isolation(false)]
pub fn get_emoji_best_attributes(
    input_word: &str,
    emoji: &String,
    keywords: &Vec<&String>,
    custom_keyword_most_relevant_emoji: &KeywordMostRelevantEmoji,
    keyword_most_relevant_emoji: &KeywordMostRelevantEmoji,
    recently_searched_inputs: &Vec<String>,
    word_to_top_1000_words_idx: &WordToTop1000WordsIdx,
) -> (r: Option<Attributes>)
    ensures
        opt_attr_view(r) == spec_entry_best(
            input_word@,
            seq_views_ref(keywords@),
            ctx_of(
                emoji@,
                custom_keyword_most_relevant_emoji@,
                keyword_most_relevant_emoji@,
                recently_searched_inputs@,
                word_to_top_1000_words_idx@,
            ),
        ),
{
    let ghost q = input_word@;
    let ghost kwsm = seq_views_ref(keywords@);
    let ghost ctx = ctx_of(
        emoji@,
        custom_keyword_most_relevant_emoji@,
        keyword_most_relevant_emoji@,
        recently_searched_inputs@,
        word_to_top_1000_words_idx@,
    );
    let mut best: Option<Attributes> = None;
    let mut i: usize = 0;
    while i < keywords.len()
        invariant
            q == input_word@,
            kwsm == seq_views_ref(keywords@),
            ctx == ctx_of(
                emoji@,
                custom_keyword_most_relevant_emoji@,
                keyword_most_relevant_emoji@,
                recently_searched_inputs@,
                word_to_top_1000_words_idx@,
            ),
            i <= keywords.len(),
            spec_best_from_keywords(q, kwsm, i as int, ctx, opt_attr_view(best))
                == spec_entry_best(q, kwsm, ctx),
        decreases keywords.len() - i,
    {
        let kw = pre_process_string(keywords[i].as_str());
        proof {
            assert(kwsm[i as int] == keywords@[i as int]@);
        }
        let is_name = i == 0;
        if !str_contains_char(kw.as_str(), ' ') {
            let cand = make_word_attr(
                input_word,
                kw.as_str(),
                is_name,
                true,
                emoji,
                custom_keyword_most_relevant_emoji,
                keyword_most_relevant_emoji,
                recently_searched_inputs,
                word_to_top_1000_words_idx,
            );
            match cand {
                Some(attr) => {
                    let replace = match best {
                        None => true,
                        Some(ref b) => matches!(compare_attributes(&attr, b), Ordering::Less),
                    };
                    if replace {
                        best = Some(attr);
                    }
                },
                None => {},
            }
        } else {
            let words = split_on_space(kw.as_str());
            let ghost wsm = seq_views(words@);
            let ghost acc_entry = opt_attr_view(best);
            let mut j: usize = 0;
            while j < words.len()
                invariant
                    q == input_word@,
                    ctx == ctx_of(
                        emoji@,
                        custom_keyword_most_relevant_emoji@,
                        keyword_most_relevant_emoji@,
                        recently_searched_inputs@,
                        word_to_top_1000_words_idx@,
                    ),
                    wsm == seq_views(words@),
                    j <= words.len(),
                    spec_best_over_words(q, wsm, j as int, is_name, ctx, opt_attr_view(best))
                        == spec_best_over_words(q, wsm, 0, is_name, ctx, acc_entry),
                decreases words.len() - j,
            {
                proof {
                    assert(wsm[j as int] == words@[j as int]@);
                }
                let cand = make_word_attr(
                    input_word,
                    words[j].as_str(),
                    is_name,
                    false,
                    emoji,
                    custom_keyword_most_relevant_emoji,
                    keyword_most_relevant_emoji,
                    recently_searched_inputs,
                    word_to_top_1000_words_idx,
                );
                match cand {
                    Some(attr) => {
                        let replace = match best {
                            None => true,
                            Some(ref b) => matches!(compare_attributes(&attr, b), Ordering::Less),
                        };
                        if replace {
                            best = Some(attr);
                        }
                    },
                    None => {},
                }
                j = j + 1;
            }
        }
        i = i + 1;
    }
    best
}

/// The view of scored entities as pairs of an entity and its attribute
/// record.
pub open spec fn pairs_view(s: Seq<(String, Attributes)>) -> Seq<(Seq<char>, AttributesModel)> {
    s.map_values(|p: (String, Attributes)| (p.0@, p.1@))
}

/// Inserts a scored entity into an already ranked sequence, after every
/// entry that does not rank strictly worse: ties keep the earlier entry
/// first.
pub open spec fn insert_ranked(
    x: (Seq<char>, AttributesModel),
    s: Seq<(Seq<char>, AttributesModel)>,
) -> Seq<(Seq<char>, AttributesModel)>
    decreases s.len(),
{
    if s.len() == 0 {
        seq![x]
    } else if spec_compare(x.1, s[0].1) == Ordering::Less {
        seq![x] + s
    } else {
        seq![s[0]] + insert_ranked(x, s.drop_first())
    }
}

/// Inserting at the position found by a front-to-back scan for the first
/// strictly worse entry produces exactly `insert_ranked`.
pub proof fn lemma_insert_at(
    s: Seq<(Seq<char>, AttributesModel)>,
    x: (Seq<char>, AttributesModel),
    p: int,
)
    requires
        0 <= p <= s.len(),
        forall|k: int| 0 <= k < p ==> spec_compare(#[trigger] s[k].1, x.1) != Ordering::Greater,
        p < s.len() ==> spec_compare(s[p].1, x.1) == Ordering::Greater,
    ensures
        insert_ranked(x, s) == s.subrange(0, p) + seq![x] + s.subrange(p, s.len() as int),
    decreases p,
{
    if s.len() == 0 {
        assert(s.subrange(0, 0) =~= Seq::<(Seq<char>, AttributesModel)>::empty());
        assert(insert_ranked(x, s) =~= s.subrange(0, 0) + seq![x] + s.subrange(0, 0));
    } else if p == 0 {
        lemma_compare_flip(x.1, s[0].1);
        assert(s.subrange(0, 0) =~= Seq::<(Seq<char>, AttributesModel)>::empty());
        assert(s.subrange(0, s.len() as int) =~= s);
        assert(insert_ranked(x, s) =~= s.subrange(0, 0) + seq![x] + s.subrange(
            0,
            s.len() as int,
        ));
    } else {
        lemma_compare_flip(x.1, s[0].1);
        let rest = s.drop_first();
        assert(forall|k: int|
            0 <= k < p - 1 ==> spec_compare(#[trigger] rest[k].1, x.1) != Ordering::Greater);
        lemma_insert_at(rest, x, p - 1);
        assert(rest.subrange(0, p - 1) =~= s.subrange(1, p));
        assert(rest.subrange(p - 1, rest.len() as int) =~= s.subrange(p, s.len() as int));
        assert(seq![s[0]] + (s.subrange(1, p) + seq![x] + s.subrange(p, s.len() as int)) =~= s
            .subrange(0, p) + seq![x] + s.subrange(p, s.len() as int));
    }
}

/// The position of the first already ranked entry that ranks strictly
/// worse than `x`, or the length when none does.
pub fn find_insert_pos(ranked: &Vec<(String, Attributes)>, x: &Attributes) -> (p: usize)
    ensures
        p <= ranked@.len(),
        forall|k: int|
            0 <= k < p ==> spec_compare(#[trigger] pairs_view(ranked@)[k].1, x@)
                != Ordering::Greater,
        p < ranked@.len() ==> spec_compare(pairs_view(ranked@)[p as int].1, x@)
            == Ordering::Greater,
{
    let mut p: usize = 0;
    while p < ranked.len()
        invariant
            p <= ranked@.len(),
            forall|k: int|
                0 <= k < p ==> spec_compare(#[trigger] pairs_view(ranked@)[k].1, x@)
                    != Ordering::Greater,
        decreases ranked@.len() - p,
    {
        let c = compare_attributes(&ranked[p].1, x);
        proof {
            assert(pairs_view(ranked@)[p as int].1 == ranked@[p as int].1@);
        }
        if matches!(c, Ordering::Greater) {
            return p;
        }
        p = p + 1;
    }
    p
}

/// The single-word scoring context of one entity within a request.
pub open spec fn single_ctx_for(data: EmojiData, options: Options, em: Seq<char>) -> SingleCtx {
    SingleCtx {
        emoji: em,
        custom_relevant: options.custom_relevant_view(),
        relevant: data.relevant_view(),
        recents: options.recents_view(),
        tops: data.top_words_view(),
    }
}

/// Folds the entities from position `i` on into the ranking accumulated
/// so far: each entity with a best attribute record is inserted by rank,
/// ties keeping insertion order; entities without a match are left out.
pub open spec fn spec_rank_entries(
    q: Seq<char>,
    data: EmojiData,
    options: Options,
    i: int,
    acc: Seq<(Seq<char>, AttributesModel)>,
) -> Seq<(Seq<char>, AttributesModel)>
    decreases data.entries_view().len() - i,
{
    let entries = data.entries_view();
    if i < 0 || i >= entries.len() {
        acc
    } else {
        let em = entries[i].0;
        let kws = entries[i].1 + spec_custom_keywords_for(options, em);
        let acc2 = match spec_entry_best(q, kws, single_ctx_for(data, options, em)) {
            Some(a) => insert_ranked((em, a), acc),
            None => acc,
        };
        spec_rank_entries(q, data, options, i + 1, acc2)
    }
}

/// The entities returned for one query word, best first: every entity
/// with a matching keyword, ordered by the single-word ranking.
pub open spec fn spec_match_emojis_to_word(q: Seq<char>, data: EmojiData, options: Options) -> Seq<
    Seq<char>,
> {
    spec_rank_entries(q, data, options, 0, Seq::empty()).map_values(
        |p: (Seq<char>, AttributesModel)| p.0,
    )
}

/// Whether a scored sequence is ordered by the single-word ranking: no
/// entry ranks strictly worse than the one after it.
pub open spec fn spec_ranked_ordered(s: Seq<(Seq<char>, AttributesModel)>) -> bool {
    forall|i: int|
        0 <= i < s.len() - 1 ==> spec_compare(#[trigger] s[i].1, s[i + 1].1) != Ordering::Greater
}

/// Putting an entry that does not rank strictly worse than its head in
/// front of an ordered sequence keeps it ordered.
#[verifier::rlimit(100)]
proof fn lemma_cons_ordered(
    h: (Seq<char>, AttributesModel),
    t: Seq<(Seq<char>, AttributesModel)>,
)
    requires
        spec_ranked_ordered(t),
        t.len() > 0 ==> spec_compare(h.1, t[0].1) != Ordering::Greater,
    ensures
        spec_ranked_ordered(seq![h] + t),
{
    let r = seq![h] + t;
    assert forall|i: int| 0 <= i < r.len() - 1 implies spec_compare(
        #[trigger] r[i].1,
        r[i + 1].1,
    ) != Ordering::Greater by {
        if i == 0 {
            assert(r[0] == h);
            assert(r[1] == t[0]);
        } else {
            assert(r[i] == t[i - 1]);
            assert(r[i + 1] == t[i]);
        }
    }
}

/// Ranked insertion keeps a sequence ordered.
#[verifier::rlimit(100)]
proof fn lemma_insert_ranked_ordered(
    x: (Seq<char>, AttributesModel),
    s: Seq<(Seq<char>, AttributesModel)>,
)
    requires
        spec_ranked_ordered(s),
    ensures
        spec_ranked_ordered(insert_ranked(x, s)),
    decreases s.len(),
{
    if s.len() == 0 {
    } else if spec_compare(x.1, s[0].1) == Ordering::Less {
        lemma_cons_ordered(x, s);
    } else {
        lemma_compare_flip(x.1, s[0].1);
        let rest = s.drop_first();
        assert(spec_ranked_ordered(rest)) by {
            assert forall|i: int| 0 <= i < rest.len() - 1 implies spec_compare(
                #[trigger] rest[i].1,
                rest[i + 1].1,
            ) != Ordering::Greater by {
                assert(rest[i] == s[i + 1]);
                assert(rest[i + 1] == s[i + 2]);
            }
        }
        lemma_insert_ranked_ordered(x, rest);
        let ir = insert_ranked(x, rest);
        if rest.len() == 0 {
            assert(ir[0] == x);
        } else if spec_compare(x.1, rest[0].1) == Ordering::Less {
            assert(ir[0] == x);
        } else {
            assert(ir[0] == rest[0]);
            assert(rest[0] == s[1]);
        }
        assert(spec_compare(s[0].1, ir[0].1) != Ordering::Greater);
        lemma_cons_ordered(s[0], ir);
    }
}

/// Folding entities into an ordered ranking keeps it ordered.
#[verifier::rlimit(60)]
proof fn lemma_rank_entries_ordered(
    q: Seq<char>,
    data: EmojiData,
    options: Options,
    i: int,
    acc: Seq<(Seq<char>, AttributesModel)>,
)
    requires
        spec_ranked_ordered(acc),
    ensures
        spec_ranked_ordered(spec_rank_entries(q, data, options, i, acc)),
    decreases data.entries_view().len() - i,
{
    let entries = data.entries_view();
    if i < 0 || i >= entries.len() {
    } else {
        let em = entries[i].0;
        let kws = entries[i].1 + spec_custom_keywords_for(options, em);
        match spec_entry_best(q, kws, single_ctx_for(data, options, em)) {
            Some(a) => {
                lemma_insert_ranked_ordered((em, a), acc);
                lemma_rank_entries_ordered(q, data, options, i + 1, insert_ranked((em, a), acc));
            },
            None => {
                lemma_rank_entries_ordered(q, data, options, i + 1, acc);
            },
        }
    }
}

/// Law: the single-word ranking is sorted by the comparator. In the
/// scored sequence underlying `spec_match_emojis_to_word`, no entity
/// ranks strictly worse than the one that follows it.
pub proof fn lemma_ranking_ordered(q: Seq<char>, data: EmojiData, options: Options)
    ensures
        spec_ranked_ordered(spec_rank_entries(q, data, options, 0, Seq::empty())),
{
    lemma_rank_entries_ordered(q, data, options, 0, Seq::empty());
}

/// Whether some scored entry carries entity `e`.
pub open spec fn spec_has_entity(s: Seq<(Seq<char>, AttributesModel)>, e: Seq<char>) -> bool {
    exists|i: int| 0 <= i < s.len() && (#[trigger] s[i]).0 == e
}

/// Whether no entity appears twice in a scored sequence.
pub open spec fn spec_entities_distinct(s: Seq<(Seq<char>, AttributesModel)>) -> bool {
    forall|i: int, j: int| 0 <= i < j < s.len() ==> (#[trigger] s[i]).0 != (#[trigger] s[j]).0
}

/// Ranked insertion adds exactly the inserted entity to the members.
proof fn lemma_insert_ranked_members(
    x: (Seq<char>, AttributesModel),
    s: Seq<(Seq<char>, AttributesModel)>,
)
    ensures
        insert_ranked(x, s).len() == s.len() + 1,
        forall|e: Seq<char>|
            #[trigger] spec_has_entity(insert_ranked(x, s), e) <==> (e == x.0 || spec_has_entity(
                s,
                e,
            )),
    decreases s.len(),
{
    let r = insert_ranked(x, s);
    if s.len() == 0 {
        assert forall|e: Seq<char>|
            #[trigger] spec_has_entity(r, e) <==> (e == x.0 || spec_has_entity(s, e)) by {
            assert(r[0] == x);
            if e == x.0 {
                assert(r[0].0 == e);
            }
        }
    } else if spec_compare(x.1, s[0].1) == Ordering::Less {
        assert forall|e: Seq<char>|
            #[trigger] spec_has_entity(r, e) <==> (e == x.0 || spec_has_entity(s, e)) by {
            if e == x.0 {
                assert(r[0].0 == e);
            }
            if spec_has_entity(s, e) {
                let i = choose|i: int| 0 <= i < s.len() && (#[trigger] s[i]).0 == e;
                assert(r[i + 1].0 == e);
            }
            if spec_has_entity(r, e) {
                let i = choose|i: int| 0 <= i < r.len() && (#[trigger] r[i]).0 == e;
                if i > 0 {
                    assert(s[i - 1].0 == e);
                }
            }
        }
    } else {
        let rest = s.drop_first();
        lemma_insert_ranked_members(x, rest);
        let ir = insert_ranked(x, rest);
        assert forall|e: Seq<char>|
            #[trigger] spec_has_entity(r, e) <==> (e == x.0 || spec_has_entity(s, e)) by {
            if e == x.0 {
                assert(spec_has_entity(ir, e));
                let i = choose|i: int| 0 <= i < ir.len() && (#[trigger] ir[i]).0 == e;
                assert(r[i + 1].0 == e);
            }
            if spec_has_entity(s, e) {
                let i = choose|i: int| 0 <= i < s.len() && (#[trigger] s[i]).0 == e;
                if i == 0 {
                    assert(r[0].0 == e);
                } else {
                    assert(rest[i - 1].0 == e);
                    assert(spec_has_entity(rest, e));
                    assert(spec_has_entity(ir, e));
                    let k = choose|k: int| 0 <= k < ir.len() && (#[trigger] ir[k]).0 == e;
                    assert(r[k + 1].0 == e);
                }
            }
            if spec_has_entity(r, e) {
                let i = choose|i: int| 0 <= i < r.len() && (#[trigger] r[i]).0 == e;
                if i == 0 {
                    assert(s[0].0 == e);
                } else {
                    assert(ir[i - 1].0 == e);
                    assert(spec_has_entity(ir, e));
                    if e != x.0 {
                        assert(spec_has_entity(rest, e));
                        let k = choose|k: int| 0 <= k < rest.len() && (#[trigger] rest[k]).0 == e;
                        assert(s[k + 1].0 == e);
                    }
                }
            }
        }
    }
}

/// Ranked insertion of a fresh entity keeps the entities distinct.
proof fn lemma_insert_ranked_distinct(
    x: (Seq<char>, AttributesModel),
    s: Seq<(Seq<char>, AttributesModel)>,
)
    requires
        spec_entities_distinct(s),
        !spec_has_entity(s, x.0),
    ensures
        spec_entities_distinct(insert_ranked(x, s)),
    decreases s.len(),
{
    let r = insert_ranked(x, s);
    if s.len() == 0 {
    } else if spec_compare(x.1, s[0].1) == Ordering::Less {
        assert forall|i: int, j: int| 0 <= i < j < r.len() implies (#[trigger] r[i]).0 != (
        #[trigger] r[j]).0 by {
            if i == 0 {
                assert(r[j] == s[j - 1]);
                assert(!spec_has_entity(s, x.0));
                if r[j].0 == x.0 {
                    assert(s[j - 1].0 == x.0);
                }
            } else {
                assert(r[i] == s[i - 1]);
                assert(r[j] == s[j - 1]);
            }
        }
    } else {
        let rest = s.drop_first();
        assert(forall|i: int, j: int|
            0 <= i < j < rest.len() ==> (#[trigger] rest[i]).0 != (#[trigger] rest[j]).0);
        assert(!spec_has_entity(rest, x.0)) by {
            if spec_has_entity(rest, x.0) {
                let k = choose|k: int| 0 <= k < rest.len() && (#[trigger] rest[k]).0 == x.0;
                assert(s[k + 1].0 == x.0);
            }
        }
        lemma_insert_ranked_members(x, rest);
        lemma_insert_ranked_distinct(x, rest);
        let ir = insert_ranked(x, rest);
        assert forall|i: int, j: int| 0 <= i < j < r.len() implies (#[trigger] r[i]).0 != (
        #[trigger] r[j]).0 by {
            if i == 0 {
                assert(r[j] == ir[j - 1]);
                if r[j].0 == s[0].0 {
                    assert(spec_has_entity(ir, s[0].0));
                    if s[0].0 == x.0 {
                        assert(s[0].0 != x.0);
                    } else {
                        assert(spec_has_entity(rest, s[0].0));
                        let k = choose|k: int|
                            0 <= k < rest.len() && (#[trigger] rest[k]).0 == s[0].0;
                        assert(s[k + 1].0 == s[0].0);
                    }
                }
            } else {
                assert(r[i] == ir[i - 1]);
                assert(r[j] == ir[j - 1]);
            }
        }
    }
}

/// Folding the remaining entities into a ranking of earlier entities
/// keeps the entities distinct.
#[verifier::rlimit(100)]
proof fn lemma_rank_entries_distinct(
    q: Seq<char>,
    data: EmojiData,
    options: Options,
    i: int,
    acc: Seq<(Seq<char>, AttributesModel)>,
)
    requires
        spec_data_entities_distinct(data),
        spec_entities_distinct(acc),
        forall|e: Seq<char>| #[trigger] spec_has_entity(acc, e) ==> spec_entity_before(data, i, e),
    ensures
        spec_entities_distinct(spec_rank_entries(q, data, options, i, acc)),
    decreases data.entries_view().len() - i,
{
    let entries = data.entries_view();
    if i < 0 || i >= entries.len() {
    } else {
        let em = entries[i].0;
        let kws = entries[i].1 + spec_custom_keywords_for(options, em);
        match spec_entry_best(q, kws, single_ctx_for(data, options, em)) {
            Some(a) => {
                let x = (em, a);
                assert(!spec_has_entity(acc, em)) by {
                    if spec_has_entity(acc, em) {
                        assert(spec_entity_before(data, i, em));
                    }
                }
                lemma_insert_ranked_members(x, acc);
                lemma_insert_ranked_distinct(x, acc);
                let acc2 = insert_ranked(x, acc);
                assert(forall|e: Seq<char>|
                    #[trigger] spec_has_entity(acc2, e) ==> spec_entity_before(data, i + 1, e));
                lemma_rank_entries_distinct(q, data, options, i + 1, acc2);
            },
            None => {
                assert(forall|e: Seq<char>|
                    #[trigger] spec_has_entity(acc, e) ==> spec_entity_before(data, i + 1, e));
                lemma_rank_entries_distinct(q, data, options, i + 1, acc);
            },
        }
    }
}

/// Law: the single-word ranking is duplicate-free. When the dataset lists
/// each entity once, no entity appears twice in the scored sequence
/// underlying `spec_match_emojis_to_word`.
pub proof fn lemma_ranking_distinct(q: Seq<char>, data: EmojiData, options: Options)
    requires
        spec_data_entities_distinct(data),
    ensures
        spec_entities_distinct(spec_rank_entries(q, data, options, 0, Seq::empty())),
{
    lemma_rank_entries_distinct(q, data, options, 0, Seq::empty());
}

/// Whether entity `e` stands at some entry from position `i` on with a
/// best attribute record against the single-word query.
pub open spec fn spec_entity_matches_from(
    q: Seq<char>,
    data: EmojiData,
    options: Options,
    i: int,
    e: Seq<char>,
) -> bool {
    exists|j: int|
        i <= j < data.entries_view().len() && (#[trigger] data.entries_view()[j]).0 == e
            && spec_entry_best(q, data.entries_view()[j].1 + spec_custom_keywords_for(options, e), single_ctx_for(data, options, e)) is Some
}

/// Folding the remaining entities adds exactly the matching ones to the
/// members of the ranking.
#[verifier::rlimit(100)]
proof fn lemma_rank_entries_members(
    q: Seq<char>,
    data: EmojiData,
    options: Options,
    i: int,
    acc: Seq<(Seq<char>, AttributesModel)>,
)
    requires
        0 <= i,
    ensures
        forall|e: Seq<char>|
            #[trigger] spec_has_entity(spec_rank_entries(q, data, options, i, acc), e) <==> (
            spec_has_entity(acc, e) || spec_entity_matches_from(q, data, options, i, e)),
    decreases data.entries_view().len() - i,
{
    let entries = data.entries_view();
    if i < 0 || i >= entries.len() {
    } else {
        let em = entries[i].0;
        let kws = entries[i].1 + spec_custom_keywords_for(options, em);
        let best = spec_entry_best(q, kws, single_ctx_for(data, options, em));
        let acc2 = match best {
            Some(a) => insert_ranked((em, a), acc),
            None => acc,
        };
        match best {
            Some(a) => {
                lemma_insert_ranked_members((em, a), acc);
            },
            None => {},
        }
        lemma_rank_entries_members(q, data, options, i + 1, acc2);
        assert(spec_rank_entries(q, data, options, i, acc) == spec_rank_entries(
            q,
            data,
            options,
            i + 1,
            acc2,
        ));
        assert forall|e: Seq<char>|
            #[trigger] spec_has_entity(spec_rank_entries(q, data, options, i, acc), e) <==> (
        spec_has_entity(acc, e) || spec_entity_matches_from(q, data, options, i, e)) by {
            assert(spec_has_entity(spec_rank_entries(q, data, options, i, acc), e)
                == spec_has_entity(spec_rank_entries(q, data, options, i + 1, acc2), e));
            if spec_has_entity(spec_rank_entries(q, data, options, i, acc), e) {
                if !spec_has_entity(acc, e) {
                    if spec_has_entity(acc2, e) {
                        assert(e == em && best is Some);
                        assert(spec_entity_matches_from(q, data, options, i, e));
                    } else {
                        assert(spec_entity_matches_from(q, data, options, i + 1, e));
                        let j = choose|j: int|
                            i + 1 <= j < entries.len() && (#[trigger] entries[j]).0 == e
                                && spec_entry_best(q, entries[j].1 + spec_custom_keywords_for(options, e), single_ctx_for(data, options, e)) is Some;
                        assert(i <= j < entries.len());
                        assert(spec_entity_matches_from(q, data, options, i, e));
                    }
                }
            }
            if spec_has_entity(acc, e) {
                assert(spec_has_entity(acc2, e));
            }
            if spec_entity_matches_from(q, data, options, i, e) {
                let j = choose|j: int|
                    i <= j < entries.len() && (#[trigger] entries[j]).0 == e && spec_entry_best(q, entries[j].1 + spec_custom_keywords_for(options, e), single_ctx_for(data, options, e)) is Some;
                if j == i {
                    assert(spec_has_entity(acc2, e));
                } else {
                    assert(spec_entity_matches_from(q, data, options, i + 1, e));
                }
            }
        }
    }
}

/// Law: the single-word ranking contains exactly the matching entities.
/// An entity stands in the scored sequence underlying
/// `spec_match_emojis_to_word` if and only if some dataset entry for
/// it produces a best attribute record against the query.
pub proof fn lemma_ranking_members(q: Seq<char>, data: EmojiData, options: Options)
    ensures
        forall|e: Seq<char>|
            #[trigger] spec_has_entity(spec_rank_entries(q, data, options, 0, Seq::empty()), e)
                <==> spec_entity_matches_from(q, data, options, 0, e),
{
    lemma_rank_entries_members(q, data, options, 0, Seq::empty());
}

/// Search emojis for a single word input: every entity with a keyword
/// matching the word exactly or by prefix, ordered best first.
#[verifier::loop_isolation(false)]
pub fn match_emojis_to_word(input_word: &str, emoji_data: &EmojiData, options: &Options) -> (r: Vec<
    String,
>)
    ensures
        seq_views(r@) == spec_match_emojis_to_word(input_word@, *emoji_data, *options),
{
    let ghost q = input_word@;
    let empty_rel: KeywordMostRelevantEmoji = Vec::new();
    let empty_recents: Vec<String> = Vec::new();
    let custom_rel: &KeywordMostRelevantEmoji = match options.custom_keyword_most_relevant_emoji {
        Some(ref m) => m,
        None => &empty_rel,
    };
    proof {
        assert(str_pairs_view(custom_rel@) =~= options.custom_relevant_view());
    }
    let recents: &Vec<String> = match options.recently_searched_inputs {
        Some(ref v) => v,
        None => &empty_recents,
    };
    proof {
        assert(seq_views(recents@) =~= options.recents_view());
    }
    let mut ranked: Vec<(String, Attributes)> = Vec::new();
    proof {
        assert(pairs_view(ranked@) =~= Seq::<(Seq<char>, AttributesModel)>::empty());
    }
    let mut i: usize = 0;
    while i < emoji_data.emoji_keywords.len()
        invariant
            i <= emoji_data.emoji_keywords.len(),
            spec_rank_entries(q, *emoji_data, *options, i as int, pairs_view(ranked@))
                == spec_rank_entries(
                q,
                *emoji_data,
                *options,
                0,
                Seq::<(Seq<char>, AttributesModel)>::empty(),
            ),
        decreases emoji_data.emoji_keywords.len() - i,
    {
        let pair = &emoji_data.emoji_keywords[i];
        proof {
            assert(emoji_data.entries_view()[i as int] == (pair.0@, seq_views(pair.1@)));
        }
        let all_kws = merged_keywords(&pair.1, options, &pair.0);
        let cand = get_emoji_best_attributes(
            input_word,
            &pair.0,
            &all_kws,
            custom_rel,
            &emoji_data.keyword_most_relevant_emoji,
            recents,
            &emoji_data.word_to_top_1000_words_idx,
        );
        proof {
            assert(ctx_of(
                pair.0@,
                custom_rel@,
                emoji_data.keyword_most_relevant_emoji@,
                recents@,
                emoji_data.word_to_top_1000_words_idx@,
            ) == single_ctx_for(*emoji_data, *options, pair.0@));
        }
        match cand {
            Some(attrs) => {
                let pos = find_insert_pos(&ranked, &attrs);
                let ghost old_model = pairs_view(ranked@);
                proof {
                    lemma_insert_at(old_model, (pair.0@, attrs@), pos as int);
                }
                ranked.insert(pos, (pair.0.clone(), attrs));
                proof {
                    assert(pairs_view(ranked@) =~= old_model.subrange(0, pos as int) + seq![
                        (pair.0@, attrs@),
                    ] + old_model.subrange(pos as int, old_model.len() as int));
                }
            },
            None => {},
        }
        i = i + 1;
    }
    let mut out: Vec<String> = Vec::new();
    proof {
        assert(seq_views(out@) =~= Seq::<Seq<char>>::empty());
    }
    let mut k: usize = 0;
    while k < ranked.len()
        invariant
            k <= ranked.len(),
            seq_views(out@) =~= pairs_view(ranked@).subrange(0, k as int).map_values(
                |p: (Seq<char>, AttributesModel)| p.0,
            ),
        decreases ranked.len() - k,
    {
        let ghost old_out = out@;
        out.push(ranked[k].0.clone());
        proof {
            assert(seq_views(out@) =~= seq_views(old_out).push(ranked@[k as int].0@));
            assert(pairs_view(ranked@).subrange(0, k as int + 1).map_values(
                |p: (Seq<char>, AttributesModel)| p.0,
            ) =~= pairs_view(ranked@).subrange(0, k as int).map_values(
                |p: (Seq<char>, AttributesModel)| p.0,
            ).push(ranked@[k as int].0@));
        }
        k = k + 1;
    }
    proof {
        assert(pairs_view(ranked@).subrange(0, ranked@.len() as int) =~= pairs_view(ranked@));
        assert(seq_views(out@) =~= spec_match_emojis_to_word(q, *emoji_data, *options));
    }
    out
}

} // verus!
