use vstd::prelude::*;

use core::cmp::Ordering;

use crate::constants::{
    assoc_get, merged_keywords, relevant_is, spec_custom_keywords_for, spec_data_entities_distinct,
    spec_entity_before, str_pairs_view, EmojiData, KeywordMostRelevantEmoji, Options,
};
use crate::ordering::{bool_rank, cmp_bool_rank, cmp_int_asc, flip, usize_asc, usize_desc};
use crate::preprocess::{pre_process_string, spec_normalize};
use crate::strutil::{
    seq_views, seq_views_ref, spec_split, split_on_space, str_contains_char, str_eq,
    str_starts_with,
};

verus! {

/// Ranking signals of the best keyword match of one entity against a
/// multi-word query.
pub struct Attributes {
    pub is_multiple_words_keyword_match: bool,
    pub is_multiple_words_keyword_in_order_match: bool,
    pub is_multiple_words_keyword_in_order_match_exact_match: bool,
    pub is_custom_most_relevant_emoji: bool,
    pub num_exact_matches: usize,
    pub num_prefix_matches: usize,
    pub num_words_in_multiple_words_keyword: usize,
}

/// The mathematical shape of `Attributes`.
pub ghost struct AttributesModel {
    pub is_multi_kw: bool,
    pub is_in_order: bool,
    pub is_in_order_exact: bool,
    pub is_custom: bool,
    pub num_exact: int,
    pub num_prefix: int,
    pub num_kw_words: int,
}

impl View for Attributes {
    type V = AttributesModel;

    open spec fn view(&self) -> AttributesModel {
        AttributesModel {
            is_multi_kw: self.is_multiple_words_keyword_match,
            is_in_order: self.is_multiple_words_keyword_in_order_match,
            is_in_order_exact: self.is_multiple_words_keyword_in_order_match_exact_match,
            is_custom: self.is_custom_most_relevant_emoji,
            num_exact: self.num_exact_matches as int,
            num_prefix: self.num_prefix_matches as int,
            num_kw_words: self.num_words_in_multiple_words_keyword as int,
        }
    }
}

/// The multi-word ranking order: a multi-word-keyword match before a
/// jointed-only match; within the former, in-order before out-of-order,
/// then exactness and the custom-preferred flag (in-order) or the match
/// counts descending (out-of-order), then fewer keyword words; within
/// jointed-only matches, the match counts descending.
pub open spec fn spec_compare(a: AttributesModel, b: AttributesModel) -> Ordering {
    let c1 = cmp_bool_rank(a.is_multi_kw, b.is_multi_kw);
    if c1 != Ordering::Equal {
        c1
    } else if a.is_multi_kw {
        let c2 = cmp_bool_rank(a.is_in_order, b.is_in_order);
        if c2 != Ordering::Equal {
            c2
        } else {
            let c5 = cmp_int_asc(a.num_kw_words, b.num_kw_words);
            if a.is_in_order {
                let c3 = cmp_bool_rank(a.is_in_order_exact, b.is_in_order_exact);
                if c3 != Ordering::Equal {
                    c3
                } else {
                    let c4 = cmp_bool_rank(a.is_custom, b.is_custom);
                    if c4 != Ordering::Equal {
                        c4
                    } else {
                        c5
                    }
                }
            } else {
                let c3 = cmp_int_asc(b.num_exact, a.num_exact);
                if c3 != Ordering::Equal {
                    c3
                } else {
                    let c4 = cmp_int_asc(b.num_prefix, a.num_prefix);
                    if c4 != Ordering::Equal {
                        c4
                    } else {
                        c5
                    }
                }
            }
        }
    } else {
        let c2 = cmp_int_asc(b.num_exact, a.num_exact);
        if c2 != Ordering::Equal {
            c2
        } else {
            cmp_int_asc(b.num_prefix, a.num_prefix)
        }
    }
}

/// Swapping the arguments of the multi-word order flips its result.
pub proof fn lemma_compare_flip(a: AttributesModel, b: AttributesModel)
    ensures
        spec_compare(b, a) == flip(spec_compare(a, b)),
{
}

/// Compare attributes for ranking: the tie-breaking chain of the
/// multi-word search.
pub fn compare_attributes(a: &Attributes, b: &Attributes) -> (o: Ordering)
    ensures
        o == spec_compare(a@, b@),
{
    let c1 = bool_rank(a.is_multiple_words_keyword_match, b.is_multiple_words_keyword_match);
    if !matches!(c1, Ordering::Equal) {
        return c1;
    }
    if a.is_multiple_words_keyword_match {
        let c2 = bool_rank(
            a.is_multiple_words_keyword_in_order_match,
            b.is_multiple_words_keyword_in_order_match,
        );
        if !matches!(c2, Ordering::Equal) {
            return c2;
        }
        if a.is_multiple_words_keyword_in_order_match {
            let c3 = bool_rank(
                a.is_multiple_words_keyword_in_order_match_exact_match,
                b.is_multiple_words_keyword_in_order_match_exact_match,
            );
            if !matches!(c3, Ordering::Equal) {
                return c3;
            }
            let c4 = bool_rank(a.is_custom_most_relevant_emoji, b.is_custom_most_relevant_emoji);
            if !matches!(c4, Ordering::Equal) {
                return c4;
            }
        } else {
            let c3 = usize_desc(a.num_exact_matches, b.num_exact_matches);
            if !matches!(c3, Ordering::Equal) {
                return c3;
            }
            let c4 = usize_desc(a.num_prefix_matches, b.num_prefix_matches);
            if !matches!(c4, Ordering::Equal) {
                return c4;
            }
        }
        usize_asc(a.num_words_in_multiple_words_keyword, b.num_words_in_multiple_words_keyword)
    } else {
        let c2 = usize_desc(a.num_exact_matches, b.num_exact_matches);
        if !matches!(c2, Ordering::Equal) {
            return c2;
        }
        usize_desc(a.num_prefix_matches, b.num_prefix_matches)
    }
}

/// `Some(true)` when some keyword word equals the query word, otherwise
/// `Some(false)` when the query word is a prefix of some keyword word,
/// otherwise `None`.
pub open spec fn spec_word_match_kind(w: Seq<char>, kws: Seq<Seq<char>>) -> Option<bool> {
    if exists|k: int| 0 <= k < kws.len() && kws[k] == w {
        Some(true)
    } else if exists|k: int| 0 <= k < kws.len() && w.is_prefix_of(#[trigger] kws[k]) {
        Some(false)
    } else {
        None
    }
}

/// The exact and prefix counts of the query words from position `i` on
/// against a word collection; `None` as soon as one query word has no
/// match at all.
pub open spec fn spec_count_from(inputs: Seq<Seq<char>>, kws: Seq<Seq<char>>, i: int) -> Option<
    (int, int),
>
    decreases inputs.len() - i,
{
    if i < 0 || i >= inputs.len() {
        Some((0, 0))
    } else {
        match spec_word_match_kind(inputs[i], kws) {
            None => None,
            Some(exact) => match spec_count_from(inputs, kws, i + 1) {
                None => None,
                Some(c) => Some(
                    if exact {
                        (c.0 + 1, c.1)
                    } else {
                        (c.0, c.1 + 1)
                    },
                ),
            },
        }
    }
}

/// The exact and prefix counts of all query words; a single unmatched
/// query word discards the whole tally.
pub open spec fn spec_num_matches(inputs: Seq<Seq<char>>, kws: Seq<Seq<char>>) -> (int, int) {
    match spec_count_from(inputs, kws, 0) {
        None => (0, 0),
        Some(c) => c,
    }
}

/// Adds counts already tallied to a remaining tally, propagating a
/// discarded tally.
pub open spec fn add_counts(base: (int, int), rest: Option<(int, int)>) -> Option<(int, int)> {
    match rest {
        None => None,
        Some(c) => Some((base.0 + c.0, base.1 + c.1)),
    }
}

/// The best match kind of one query word against a word list.
#[verifier::loop_isolation(false)]
fn word_match_kind(w: &str, kws: &Vec<String>) -> (r: Option<bool>)
    ensures
        r == spec_word_match_kind(w@, seq_views(kws@)),
{
    let ghost model = seq_views(kws@);
    let mut found_prefix = false;
    let mut k: usize = 0;
    while k < kws.len()
        invariant
            k <= kws.len(),
            forall|j: int| 0 <= j < k ==> model[j] != w@,
            found_prefix <==> exists|j: int| 0 <= j < k && w@.is_prefix_of(#[trigger] model[j]),
        decreases kws.len() - k,
    {
        proof {
            assert(model[k as int] == kws@[k as int]@);
        }
        if str_eq(kws[k].as_str(), w) {
            return Some(true);
        } else if str_starts_with(kws[k].as_str(), w) {
            found_prefix = true;
        }
        k = k + 1;
    }
    if found_prefix {
        Some(false)
    } else {
        None
    }
}

/// Calculate the number of exact and prefix matches between the query
/// words and a word collection; one unmatched query word zeroes both.
#[verifier::loop_isolation(false)]
pub fn get_num_matches(input_words_array: &Vec<String>, keywords_array: &Vec<String>) -> (r: (
    usize,
    usize,
))
    ensures
        (r.0 as int, r.1 as int) == spec_num_matches(
            seq_views(input_words_array@),
            seq_views(keywords_array@),
        ),
{
    let ghost inputs = seq_views(input_words_array@);
    let ghost kws = seq_views(keywords_array@);
    let mut num_exact: usize = 0;
    let mut num_prefix: usize = 0;
    let mut i: usize = 0;
    while i < input_words_array.len()
        invariant
            i <= input_words_array.len(),
            num_exact + num_prefix <= i,
            spec_count_from(inputs, kws, 0) == add_counts(
                (num_exact as int, num_prefix as int),
                spec_count_from(inputs, kws, i as int),
            ),
        decreases input_words_array.len() - i,
    {
        proof {
            assert(inputs[i as int] == input_words_array@[i as int]@);
        }
        let m = word_match_kind(input_words_array[i].as_str(), keywords_array);
        match m {
            None => {
                return (0, 0);
            },
            Some(true) => {
                num_exact = num_exact + 1;
            },
            Some(false) => {
                num_prefix = num_prefix + 1;
            },
        }
        i = i + 1;
    }
    (num_exact, num_prefix)
}

/// Whether `q` occurs in `h` immediately after a space character.
pub open spec fn spec_contains_space_prefixed(h: Seq<char>, q: Seq<char>) -> bool {
    exists|i: int|
        0 <= i && i + 1 + q.len() <= h.len() && h[i] == ' ' && h.subrange(i + 1, i + 1 + q.len())
            == q
}

/// Whether the query occurs in the keyword right after a space.
#[verifier::loop_isolation(false)]
fn contains_space_prefixed(h: &str, q: &str) -> (r: bool)
    ensures
        r == spec_contains_space_prefixed(h@, q@),
{
    let n = h.unicode_len();
    let m = q.unicode_len();
    if m >= n {
        return false;
    }
    let mut i: usize = 0;
    while i < n - m
        invariant
            i <= n - m,
            forall|j: int|
                0 <= j < i ==> !(h@[j] == ' ' && h@.subrange(j + 1, j + 1 + q@.len()) == q@),
        decreases n - m - i,
    {
        if h.get_char(i) == ' ' {
            let sub = h.substring_char(i + 1, i + 1 + m);
            if str_eq(sub, q) {
                return true;
            }
        }
        i = i + 1;
    }
    false
}

/// Keeps the better of a best-so-far record and a candidate; the
/// best-so-far record wins ties.
pub open spec fn spec_better(
    acc: Option<AttributesModel>,
    cand: Option<AttributesModel>,
) -> Option<AttributesModel> {
    match cand {
        None => acc,
        Some(c) => match acc {
            None => Some(c),
            Some(b) => if spec_compare(c, b) == Ordering::Less {
                Some(c)
            } else {
                acc
            },
        },
    }
}

/// The candidate record of one normalized multi-word keyword: an exact
/// in-order match, a partial in-order match (the query is a leading or
/// space-prefixed substring), or an out-of-order word tally when the
/// keyword has at least as many words as the query.
pub open spec fn spec_keyword_attr(
    q: Seq<char>,
    inputs: Seq<Seq<char>>,
    kwn: Seq<char>,
    em: Seq<char>,
    crel: Seq<(Seq<char>, Seq<char>)>,
) -> Option<AttributesModel> {
    if kwn == q {
        Some(
            AttributesModel {
                is_multi_kw: true,
                is_in_order: true,
                is_in_order_exact: true,
                is_custom: assoc_get(crel, kwn) == Some(em),
                num_exact: 0,
                num_prefix: 0,
                num_kw_words: 0,
            },
        )
    } else if q.is_prefix_of(kwn) || spec_contains_space_prefixed(kwn, q) {
        Some(
            AttributesModel {
                is_multi_kw: true,
                is_in_order: true,
                is_in_order_exact: false,
                is_custom: assoc_get(crel, kwn) == Some(em),
                num_exact: 0,
                num_prefix: 0,
                num_kw_words: spec_split(kwn).len() as int,
            },
        )
    } else if spec_split(kwn).len() >= inputs.len() {
        let c = spec_num_matches(inputs, spec_split(kwn));
        if c.0 == 0 && c.1 == 0 {
            None
        } else {
            Some(
                AttributesModel {
                    is_multi_kw: true,
                    is_in_order: false,
                    is_in_order_exact: false,
                    is_custom: false,
                    num_exact: c.0,
                    num_prefix: c.1,
                    num_kw_words: spec_split(kwn).len() as int,
                },
            )
        }
    } else {
        None
    }
}

/// Folds the candidate records of the multi-word keywords, from keyword
/// `i` on, into the best-so-far record; keywords without a space are
/// passed over here.
pub open spec fn spec_best_from_keywords(
    q: Seq<char>,
    inputs: Seq<Seq<char>>,
    kws: Seq<Seq<char>>,
    i: int,
    em: Seq<char>,
    crel: Seq<(Seq<char>, Seq<char>)>,
    acc: Option<AttributesModel>,
) -> Option<AttributesModel>
    decreases kws.len() - i,
{
    if i < 0 || i >= kws.len() {
        acc
    } else {
        let kwn = spec_normalize(kws[i]);
        let acc2 = if kwn.contains(' ') {
            spec_better(acc, spec_keyword_attr(q, inputs, kwn, em, crel))
        } else {
            acc
        };
        spec_best_from_keywords(q, inputs, kws, i + 1, em, crel, acc2)
    }
}

/// All words of all keywords, normalized and split, from keyword `i` on.
pub open spec fn spec_jointed(kws: Seq<Seq<char>>, i: int) -> Seq<Seq<char>>
    decreases kws.len() - i,
{
    if i < 0 || i >= kws.len() {
        Seq::empty()
    } else {
        spec_split(spec_normalize(kws[i])) + spec_jointed(kws, i + 1)
    }
}

/// The best record of one entity against a multi-word query: the best
/// multi-word-keyword candidate, or failing that a tally against the
/// jointed word set, or `None` when neither produced a signal.
pub open spec fn spec_entry_attr(
    q: Seq<char>,
    inputs: Seq<Seq<char>>,
    kws: Seq<Seq<char>>,
    em: Seq<char>,
    crel: Seq<(Seq<char>, Seq<char>)>,
) -> Option<AttributesModel> {
    match spec_best_from_keywords(q, inputs, kws, 0, em, crel, None) {
        Some(a) => Some(a),
        None => {
            let c = spec_num_matches(inputs, spec_jointed(kws, 0));
            if c.0 > 0 || c.1 > 0 {
                Some(
                    AttributesModel {
                        is_multi_kw: false,
                        is_in_order: false,
                        is_in_order_exact: false,
                        is_custom: false,
                        num_exact: c.0,
                        num_prefix: c.1,
                        num_kw_words: 0,
                    },
                )
            } else {
                None
            }
        },
    }
}

/// The view of an optional attribute record.
pub open spec fn opt_attr_view(o: Option<Attributes>) -> Option<AttributesModel> {
    match o {
        Some(a) => Some(a@),
        None => None,
    }
}

/// Get the best attribute record for an entity whose merged keyword list
/// is `keywords`, against a multi-word query; `None` when nothing
/// matched.
#[verifier::loop_isolation(false)]
pub fn get_emoji_best_attributes(
    input_words: &str,
    input_words_array: &Vec<String>,
    emoji: &String,
    keywords: &Vec<&String>,
    custom_keyword_most_relevant_emoji: &KeywordMostRelevantEmoji,
) -> (r: Option<Attributes>)
    ensures
        opt_attr_view(r) == spec_entry_attr(
            input_words@,
            seq_views(input_words_array@),
            seq_views_ref(keywords@),
            emoji@,
            str_pairs_view(custom_keyword_most_relevant_emoji@),
        ),
{
    let ghost q = input_words@;
    let ghost inputs = seq_views(input_words_array@);
    let ghost kwsm = seq_views_ref(keywords@);
    let ghost em = emoji@;
    let ghost crel = str_pairs_view(custom_keyword_most_relevant_emoji@);
    let mut best: Option<Attributes> = None;
    let mut i: usize = 0;
    while i < keywords.len()
        invariant
            i <= keywords.len(),
            spec_best_from_keywords(q, inputs, kwsm, i as int, em, crel, opt_attr_view(best))
                == spec_best_from_keywords(q, inputs, kwsm, 0, em, crel, None),
        decreases keywords.len() - i,
    {
        let kwn = pre_process_string(keywords[i].as_str());
        proof {
            assert(kwsm[i as int] == keywords@[i as int]@);
        }
        if str_contains_char(kwn.as_str(), ' ') {
            let cand: Option<Attributes> = if str_eq(kwn.as_str(), input_words) {
                let is_custom = relevant_is(
                    custom_keyword_most_relevant_emoji,
                    kwn.as_str(),
                    emoji,
                );
                Some(
                    Attributes {
                        is_multiple_words_keyword_match: true,
                        is_multiple_words_keyword_in_order_match: true,
                        is_multiple_words_keyword_in_order_match_exact_match: true,
                        is_custom_most_relevant_emoji: is_custom,
                        num_exact_matches: 0,
                        num_prefix_matches: 0,
                        num_words_in_multiple_words_keyword: 0,
                    },
                )
            } else if str_starts_with(kwn.as_str(), input_words) || contains_space_prefixed(
                kwn.as_str(),
                input_words,
            ) {
                let words = split_on_space(kwn.as_str());
                let is_custom = relevant_is(
                    custom_keyword_most_relevant_emoji,
                    kwn.as_str(),
                    emoji,
                );
                Some(
                    Attributes {
                        is_multiple_words_keyword_match: true,
                        is_multiple_words_keyword_in_order_match: true,
                        is_multiple_words_keyword_in_order_match_exact_match: false,
                        is_custom_most_relevant_emoji: is_custom,
                        num_exact_matches: 0,
                        num_prefix_matches: 0,
                        num_words_in_multiple_words_keyword: words.len(),
                    },
                )
            } else {
                let words = split_on_space(kwn.as_str());
                if words.len() >= input_words_array.len() {
                    let counts = get_num_matches(input_words_array, &words);
                    if counts.0 > 0 || counts.1 > 0 {
                        Some(
                            Attributes {
                                is_multiple_words_keyword_match: true,
                                is_multiple_words_keyword_in_order_match: false,
                                is_multiple_words_keyword_in_order_match_exact_match: false,
                                is_custom_most_relevant_emoji: false,
                                num_exact_matches: counts.0,
                                num_prefix_matches: counts.1,
                                num_words_in_multiple_words_keyword: words.len(),
                            },
                        )
                    } else {
                        None
                    }
                } else {
                    None
                }
            };
            proof {
                assert(opt_attr_view(cand) == spec_keyword_attr(q, inputs, kwn@, em, crel));
            }
            match cand {
                Some(attr) => {
                    let replace = match best {
                        None => true,
                        Some(ref b) => matches!(compare_attributes(&attr, b), Ordering::Less),
                    };
                    if replace {
                        best = Some(attr);
                    }
                },
                None => {},
            }
        }
        i = i + 1;
    }
    if matches!(best, None) {
        let mut jointed: Vec<String> = Vec::new();
        proof {
            assert(seq_views(jointed@) =~= Seq::<Seq<char>>::empty());
            assert(seq_views(jointed@) + spec_jointed(kwsm, 0) =~= spec_jointed(kwsm, 0));
        }
        let mut k: usize = 0;
        while k < keywords.len()
            invariant
                k <= keywords.len(),
                spec_jointed(kwsm, 0) == seq_views(jointed@) + spec_jointed(kwsm, k as int),
            decreases keywords.len() - k,
        {
            proof {
                assert(kwsm[k as int] == keywords@[k as int]@);
            }
            let kwn = pre_process_string(keywords[k].as_str());
            let words = split_on_space(kwn.as_str());
            let ghost old_jointed = seq_views(jointed@);
            let mut j: usize = 0;
            while j < words.len()
                invariant
                    j <= words.len(),
                    seq_views(jointed@) =~= old_jointed + seq_views(words@).subrange(0, j as int),
                decreases words.len() - j,
            {
                let ghost before = jointed@;
                jointed.push(words[j].clone());
                proof {
                    assert(seq_views(jointed@) =~= seq_views(before).push(words@[j as int]@));
                }
                j = j + 1;
            }
            proof {
                assert(seq_views(words@).subrange(0, words@.len() as int) =~= seq_views(words@));
                assert(old_jointed + (seq_views(words@) + spec_jointed(kwsm, k as int + 1))
                    =~= (old_jointed + seq_views(words@)) + spec_jointed(kwsm, k as int + 1));
            }
            k = k + 1;
        }
        proof {
            assert(seq_views(jointed@) + spec_jointed(kwsm, keywords@.len() as int)
                =~= seq_views(jointed@));
        }
        let counts = get_num_matches(input_words_array, &jointed);
        if counts.0 > 0 || counts.1 > 0 {
            best = Some(
                Attributes {
                    is_multiple_words_keyword_match: false,
                    is_multiple_words_keyword_in_order_match: false,
                    is_multiple_words_keyword_in_order_match_exact_match: false,
                    is_custom_most_relevant_emoji: false,
                    num_exact_matches: counts.0,
                    num_prefix_matches: counts.1,
                    num_words_in_multiple_words_keyword: 0,
                },
            );
        }
    }
    best
}

/// The view of scored entities as pairs of an entity and its attribute
/// record.
pub open spec fn pairs_view(s: Seq<(String, Attributes)>) -> Seq<(Seq<char>, AttributesModel)> {
    s.map_values(|p: (String, Attributes)| (p.0@, p.1@))
}

/// Inserts a scored entity into an already ranked sequence, after every
/// entry that does not rank strictly worse: ties keep the earlier entry
/// first.
pub open spec fn insert_ranked(
    x: (Seq<char>, AttributesModel),
    s: Seq<(Seq<char>, AttributesModel)>,
) -> Seq<(Seq<char>, AttributesModel)>
    decreases s.len(),
{
    if s.len() == 0 {
        seq![x]
    } else if spec_compare(x.1, s[0].1) == Ordering::Less {
        seq![x] + s
    } else {
        seq![s[0]] + insert_ranked(x, s.drop_first())
    }
}

/// Inserting at the position found by a front-to-back scan for the first
/// strictly worse entry produces exactly `insert_ranked`.
pub proof fn lemma_insert_at(
    s: Seq<(Seq<char>, AttributesModel)>,
    x: (Seq<char>, AttributesModel),
    p: int,
)
    requires
        0 <= p <= s.len(),
        forall|k: int| 0 <= k < p ==> spec_compare(#[trigger] s[k].1, x.1) != Ordering::Greater,
        p < s.len() ==> spec_compare(s[p].1, x.1) == Ordering::Greater,
    ensures
        insert_ranked(x, s) == s.subrange(0, p) + seq![x] + s.subrange(p, s.len() as int),
    decreases p,
{
    if s.len() == 0 {
        assert(s.subrange(0, 0) =~= Seq::<(Seq<char>, AttributesModel)>::empty());
        assert(insert_ranked(x, s) =~= s.subrange(0, 0) + seq![x] + s.subrange(0, 0));
    } else if p == 0 {
        lemma_compare_flip(x.1, s[0].1);
        assert(s.subrange(0, 0) =~= Seq::<(Seq<char>, AttributesModel)>::empty());
        assert(s.subrange(0, s.len() as int) =~= s);
        assert(insert_ranked(x, s) =~= s.subrange(0, 0) + seq![x] + s.subrange(
            0,
            s.len() as int,
        ));
    } else {
        lemma_compare_flip(x.1, s[0].1);
        let rest = s.drop_first();
        assert(forall|k: int|
            0 <= k < p - 1 ==> spec_compare(#[trigger] rest[k].1, x.1) != Ordering::Greater);
        lemma_insert_at(rest, x, p - 1);
        assert(rest.subrange(0, p - 1) =~= s.subrange(1, p));
        assert(rest.subrange(p - 1, rest.len() as int) =~= s.subrange(p, s.len() as int));
        assert(seq![s[0]] + (s.subrange(1, p) + seq![x] + s.subrange(p, s.len() as int)) =~= s
            .subrange(0, p) + seq![x] + s.subrange(p, s.len() as int));
    }
}

/// The position of the first already ranked entry that ranks strictly
/// worse than `x`, or the length when none does.
pub fn find_insert_pos(ranked: &Vec<(String, Attributes)>, x: &Attributes) -> (p: usize)
    ensures
        p <= ranked@.len(),
        forall|k: int|
            0 <= k < p ==> spec_compare(#[trigger] pairs_view(ranked@)[k].1, x@)
                != Ordering::Greater,
        p < ranked@.len() ==> spec_compare(pairs_view(ranked@)[p as int].1, x@)
            == Ordering::Greater,
{
    let mut p: usize = 0;
    while p < ranked.len()
        invariant
            p <= ranked@.len(),
            forall|k: int|
                0 <= k < p ==> spec_compare(#[trigger] pairs_view(ranked@)[k].1, x@)
                    != Ordering::Greater,
        decreases ranked@.len() - p,
    {
        let c = compare_attributes(&ranked[p].1, x);
        proof {
            assert(pairs_view(ranked@)[p as int].1 == ranked@[p as int].1@);
        }
        if matches!(c, Ordering::Greater) {
            return p;
        }
        p = p + 1;
    }
    p
}

/// Folds the entities from position `i` on into the ranking accumulated
/// so far: each entity with a best attribute record is inserted by rank,
/// ties keeping insertion order; entities without a match are left out.
pub open spec fn spec_rank_entries(
    q: Seq<char>,
    data: EmojiData,
    options: Options,
    i: int,
    acc: Seq<(Seq<char>, AttributesModel)>,
) -> Seq<(Seq<char>, AttributesModel)>
    decreases data.entries_view().len() - i,
{
    let entries = data.entries_view();
    if i < 0 || i >= entries.len() {
        acc
    } else {
        let em = entries[i].0;
        let kws = entries[i].1 + spec_custom_keywords_for(options, em);
        let acc2 = match spec_entry_attr(q, spec_split(q), kws, em, options.custom_relevant_view()) {
            Some(a) => insert_ranked((em, a), acc),
            None => acc,
        };
        spec_rank_entries(q, data, options, i + 1, acc2)
    }
}

/// The entities returned for a multi-word query, best first: every
/// entity with a matching keyword or jointed word, ordered by the
/// multi-word ranking.
pub open spec fn spec_match_emojis_to_words_raw(
    q: Seq<char>,
    data: EmojiData,
    options: Options,
) -> Seq<Seq<char>> {
    spec_rank_entries(q, data, options, 0, Seq::empty()).map_values(
        |p: (Seq<char>, AttributesModel)| p.0,
    )
}

/// Whether a scored sequence is ordered by the multi-word ranking: no
/// entry ranks strictly worse than the one after it.
pub open spec fn spec_ranked_ordered(s: Seq<(Seq<char>, AttributesModel)>) -> bool {
    forall|i: int|
        0 <= i < s.len() - 1 ==> spec_compare(#[trigger] s[i].1, s[i + 1].1) != Ordering::Greater
}

/// Putting an entry that does not rank strictly worse than its head in
/// front of an ordered sequence keeps it ordered.
#[verifier::rlimit(100)]
proof fn lemma_cons_ordered(
    h: (Seq<char>, AttributesModel),
    t: Seq<(Seq<char>, AttributesModel)>,
)
    requires
        spec_ranked_ordered(t),
        t.len() > 0 ==> spec_compare(h.1, t[0].1) != Ordering::Greater,
    ensures
        spec_ranked_ordered(seq![h] + t),
{
    let r = seq![h] + t;
    assert forall|i: int| 0 <= i < r.len() - 1 implies spec_compare(
        #[trigger] r[i].1,
        r[i + 1].1,
    ) != Ordering::Greater by {
        if i == 0 {
            assert(r[0] == h);
            assert(r[1] == t[0]);
        } else {
            assert(r[i] == t[i - 1]);
            assert(r[i + 1] == t[i]);
        }
    }
}

/// Ranked insertion keeps a sequence ordered.
#[verifier::rlimit(100)]
proof fn lemma_insert_ranked_ordered(
    x: (Seq<char>, AttributesModel),
    s: Seq<(Seq<char>, AttributesModel)>,
)
    requires
        spec_ranked_ordered(s),
    ensures
        spec_ranked_ordered(insert_ranked(x, s)),
    decreases s.len(),
{
    if s.len() == 0 {
    } else if spec_compare(x.1, s[0].1) == Ordering::Less {
        lemma_cons_ordered(x, s);
    } else {
        lemma_compare_flip(x.1, s[0].1);
        let rest = s.drop_first();
        assert(spec_ranked_ordered(rest)) by {
            assert forall|i: int| 0 <= i < rest.len() - 1 implies spec_compare(
                #[trigger] rest[i].1,
                rest[i + 1].1,
            ) != Ordering::Greater by {
                assert(rest[i] == s[i + 1]);
                assert(rest[i + 1] == s[i + 2]);
            }
        }
        lemma_insert_ranked_ordered(x, rest);
        let ir = insert_ranked(x, rest);
        if rest.len() == 0 {
            assert(ir[0] == x);
        } else if spec_compare(x.1, rest[0].1) == Ordering::Less {
            assert(ir[0] == x);
        } else {
            assert(ir[0] == rest[0]);
            assert(rest[0] == s[1]);
        }
        assert(spec_compare(s[0].1, ir[0].1) != Ordering::Greater);
        lemma_cons_ordered(s[0], ir);
    }
}

/// Folding entities into an ordered ranking keeps it ordered.
#[verifier::rlimit(100)]
proof fn lemma_rank_entries_ordered(
    q: Seq<char>,
    data: EmojiData,
    options: Options,
    i: int,
    acc: Seq<(Seq<char>, AttributesModel)>,
)
    requires
        spec_ranked_ordered(acc),
    ensures
        spec_ranked_ordered(spec_rank_entries(q, data, options, i, acc)),
    decreases data.entries_view().len() - i,
{
    let entries = data.entries_view();
    if i < 0 || i >= entries.len() {
    } else {
        let em = entries[i].0;
        let kws = entries[i].1 + spec_custom_keywords_for(options, em);
        match spec_entry_attr(q, spec_split(q), kws, em, options.custom_relevant_view()) {
            Some(a) => {
                lemma_insert_ranked_ordered((em, a), acc);
                lemma_rank_entries_ordered(q, data, options, i + 1, insert_ranked((em, a), acc));
            },
            None => {
                lemma_rank_entries_ordered(q, data, options, i + 1, acc);
            },
        }
    }
}

/// Law: the multi-word ranking is sorted by the comparator. In the
/// scored sequence underlying `spec_match_emojis_to_words_raw`, no
/// entity ranks strictly worse than the one that follows it.
pub proof fn lemma_ranking_ordered(q: Seq<char>, data: EmojiData, options: Options)
    ensures
        spec_ranked_ordered(spec_rank_entries(q, data, options, 0, Seq::empty())),
{
    lemma_rank_entries_ordered(q, data, options, 0, Seq::empty());
}

/// Whether some scored entry carries entity `e`.
pub open spec fn spec_has_entity(s: Seq<(Seq<char>, AttributesModel)>, e: Seq<char>) -> bool {
    exists|i: int| 0 <= i < s.len() && (#[trigger] s[i]).0 == e
}

/// Whether no entity appears twice in a scored sequence.
pub open spec fn spec_entities_distinct(s: Seq<(Seq<char>, AttributesModel)>) -> bool {
    forall|i: int, j: int| 0 <= i < j < s.len() ==> (#[trigger] s[i]).0 != (#[trigger] s[j]).0
}

/// Ranked insertion adds exactly the inserted entity to the members.
proof fn lemma_insert_ranked_members(
    x: (Seq<char>, AttributesModel),
    s: Seq<(Seq<char>, AttributesModel)>,
)
    ensures
        insert_ranked(x, s).len() == s.len() + 1,
        forall|e: Seq<char>|
            #[trigger] spec_has_entity(insert_ranked(x, s), e) <==> (e == x.0 || spec_has_entity(
                s,
                e,
            )),
    decreases s.len(),
{
    let r = insert_ranked(x, s);
    if s.len() == 0 {
        assert forall|e: Seq<char>|
            #[trigger] spec_has_entity(r, e) <==> (e == x.0 || spec_has_entity(s, e)) by {
            assert(r[0] == x);
            if e == x.0 {
                assert(r[0].0 == e);
            }
        }
    } else if spec_compare(x.1, s[0].1) == Ordering::Less {
        assert forall|e: Seq<char>|
            #[trigger] spec_has_entity(r, e) <==> (e == x.0 || spec_has_entity(s, e)) by {
            if e == x.0 {
                assert(r[0].0 == e);
            }
            if spec_has_entity(s, e) {
                let i = choose|i: int| 0 <= i < s.len() && (#[trigger] s[i]).0 == e;
                assert(r[i + 1].0 == e);
            }
            if spec_has_entity(r, e) {
                let i = choose|i: int| 0 <= i < r.len() && (#[trigger] r[i]).0 == e;
                if i > 0 {
                    assert(s[i - 1].0 == e);
                }
            }
        }
    } else {
        let rest = s.drop_first();
        lemma_insert_ranked_members(x, rest);
        let ir = insert_ranked(x, rest);
        assert forall|e: Seq<char>|
            #[trigger] spec_has_entity(r, e) <==> (e == x.0 || spec_has_entity(s, e)) by {
            if e == x.0 {
                assert(spec_has_entity(ir, e));
                let i = choose|i: int| 0 <= i < ir.len() && (#[trigger] ir[i]).0 == e;
                assert(r[i + 1].0 == e);
            }
            if spec_has_entity(s, e) {
                let i = choose|i: int| 0 <= i < s.len() && (#[trigger] s[i]).0 == e;
                if i == 0 {
                    assert(r[0].0 == e);
                } else {
                    assert(rest[i - 1].0 == e);
                    assert(spec_has_entity(rest, e));
                    assert(spec_has_entity(ir, e));
                    let k = choose|k: int| 0 <= k < ir.len() && (#[trigger] ir[k]).0 == e;
                    assert(r[k + 1].0 == e);
                }
            }
            if spec_has_entity(r, e) {
                let i = choose|i: int| 0 <= i < r.len() && (#[trigger] r[i]).0 == e;
                if i == 0 {
                    assert(s[0].0 == e);
                } else {
                    assert(ir[i - 1].0 == e);
                    assert(spec_has_entity(ir, e));
                    if e != x.0 {
                        assert(spec_has_entity(rest, e));
                        let k = choose|k: int| 0 <= k < rest.len() && (#[trigger] rest[k]).0 == e;
                        assert(s[k + 1].0 == e);
                    }
                }
            }
        }
    }
}

/// Ranked insertion of a fresh entity keeps the entities distinct.
proof fn lemma_insert_ranked_distinct(
    x: (Seq<char>, AttributesModel),
    s: Seq<(Seq<char>, AttributesModel)>,
)
    requires
        spec_entities_distinct(s),
        !spec_has_entity(s, x.0),
    ensures
        spec_entities_distinct(insert_ranked(x, s)),
    decreases s.len(),
{
    let r = insert_ranked(x, s);
    if s.len() == 0 {
    } else if spec_compare(x.1, s[0].1) == Ordering::Less {
        assert forall|i: int, j: int| 0 <= i < j < r.len() implies (#[trigger] r[i]).0 != (
        #[trigger] r[j]).0 by {
            if i == 0 {
                assert(r[j] == s[j - 1]);
                assert(!spec_has_entity(s, x.0));
                if r[j].0 == x.0 {
                    assert(s[j - 1].0 == x.0);
                }
            } else {
                assert(r[i] == s[i - 1]);
                assert(r[j] == s[j - 1]);
            }
        }
    } else {
        let rest = s.drop_first();
        assert(forall|i: int, j: int|
            0 <= i < j < rest.len() ==> (#[trigger] rest[i]).0 != (#[trigger] rest[j]).0);
        assert(!spec_has_entity(rest, x.0)) by {
            if spec_has_entity(rest, x.0) {
                let k = choose|k: int| 0 <= k < rest.len() && (#[trigger] rest[k]).0 == x.0;
                assert(s[k + 1].0 == x.0);
            }
        }
        lemma_insert_ranked_members(x, rest);
        lemma_insert_ranked_distinct(x, rest);
        let ir = insert_ranked(x, rest);
        assert forall|i: int, j: int| 0 <= i < j < r.len() implies (#[trigger] r[i]).0 != (
        #[trigger] r[j]).0 by {
            if i == 0 {
                assert(r[j] == ir[j - 1]);
                if r[j].0 == s[0].0 {
                    assert(spec_has_entity(ir, s[0].0));
                    if s[0].0 == x.0 {
                        assert(s[0].0 != x.0);
                    } else {
                        assert(spec_has_entity(rest, s[0].0));
                        let k = choose|k: int|
                            0 <= k < rest.len() && (#[trigger] rest[k]).0 == s[0].0;
                        assert(s[k + 1].0 == s[0].0);
                    }
                }
            } else {
                assert(r[i] == ir[i - 1]);
                assert(r[j] == ir[j - 1]);
            }
        }
    }
}

/// Folding the remaining entities into a ranking of earlier entities
/// keeps the entities distinct.
#[verifier::rlimit(100)]
proof fn lemma_rank_entries_distinct(
    q: Seq<char>,
    data: EmojiData,
    options: Options,
    i: int,
    acc: Seq<(Seq<char>, AttributesModel)>,
)
    requires
        spec_data_entities_distinct(data),
        spec_entities_distinct(acc),
        forall|e: Seq<char>| #[trigger] spec_has_entity(acc, e) ==> spec_entity_before(data, i, e),
    ensures
        spec_entities_distinct(spec_rank_entries(q, data, options, i, acc)),
    decreases data.entries_view().len() - i,
{
    let entries = data.entries_view();
    if i < 0 || i >= entries.len() {
    } else {
        let em = entries[i].0;
        let kws = entries[i].1 + spec_custom_keywords_for(options, em);
        match spec_entry_attr(q, spec_split(q), kws, em, options.custom_relevant_view()) {
            Some(a) => {
                let x = (em, a);
                assert(!spec_has_entity(acc, em)) by {
                    if spec_has_entity(acc, em) {
                        assert(spec_entity_before(data, i, em));
                    }
                }
                lemma_insert_ranked_members(x, acc);
                lemma_insert_ranked_distinct(x, acc);
                let acc2 = insert_ranked(x, acc);
                assert(forall|e: Seq<char>|
                    #[trigger] spec_has_entity(acc2, e) ==> spec_entity_before(data, i + 1, e));
                lemma_rank_entries_distinct(q, data, options, i + 1, acc2);
            },
            None => {
                assert(forall|e: Seq<char>|
                    #[trigger] spec_has_entity(acc, e) ==> spec_entity_before(data, i + 1, e));
                lemma_rank_entries_distinct(q, data, options, i + 1, acc);
            },
        }
    }
}

/// Law: the multi-word ranking is duplicate-free. When the dataset lists
/// each entity once, no entity appears twice in the scored sequence
/// underlying `spec_match_emojis_to_words_raw`.
pub proof fn lemma_ranking_distinct(q: Seq<char>, data: EmojiData, options: Options)
    requires
        spec_data_entities_distinct(data),
    ensures
        spec_entities_distinct(spec_rank_entries(q, data, options, 0, Seq::empty())),
{
    lemma_rank_entries_distinct(q, data, options, 0, Seq::empty());
}

/// Whether entity `e` stands at some entry from position `i` on with a
/// best attribute record against the multi-word query.
pub open spec fn spec_entity_matches_from(
    q: Seq<char>,
    data: EmojiData,
    options: Options,
    i: int,
    e: Seq<char>,
) -> bool {
    exists|j: int|
        i <= j < data.entries_view().len() && (#[trigger] data.entries_view()[j]).0 == e
            && spec_entry_attr(
            q,
            spec_split(q),
            data.entries_view()[j].1 + spec_custom_keywords_for(options, e),
            e,
            options.custom_relevant_view(),
        ) is Some
}

/// Folding the remaining entities adds exactly the matching ones to the
/// members of the ranking.
#[verifier::rlimit(100)]
proof fn lemma_rank_entries_members(
    q: Seq<char>,
    data: EmojiData,
    options: Options,
    i: int,
    acc: Seq<(Seq<char>, AttributesModel)>,
)
    requires
        0 <= i,
    ensures
        forall|e: Seq<char>|
            #[trigger] spec_has_entity(spec_rank_entries(q, data, options, i, acc), e) <==> (
            spec_has_entity(acc, e) || spec_entity_matches_from(q, data, options, i, e)),
    decreases data.entries_view().len() - i,
{
    let entries = data.entries_view();
    if i < 0 || i >= entries.len() {
    } else {
        let em = entries[i].0;
        let kws = entries[i].1 + spec_custom_keywords_for(options, em);
        let best = spec_entry_attr(q, spec_split(q), kws, em, options.custom_relevant_view());
        let acc2 = match best {
            Some(a) => insert_ranked((em, a), acc),
            None => acc,
        };
        match best {
            Some(a) => {
                lemma_insert_ranked_members((em, a), acc);
            },
            None => {},
        }
        lemma_rank_entries_members(q, data, options, i + 1, acc2);
        assert(spec_rank_entries(q, data, options, i, acc) == spec_rank_entries(
            q,
            data,
            options,
            i + 1,
            acc2,
        ));
        assert forall|e: Seq<char>|
            #[trigger] spec_has_entity(spec_rank_entries(q, data, options, i, acc), e) <==> (
        spec_has_entity(acc, e) || spec_entity_matches_from(q, data, options, i, e)) by {
            assert(spec_has_entity(spec_rank_entries(q, data, options, i, acc), e)
                == spec_has_entity(spec_rank_entries(q, data, options, i + 1, acc2), e));
            if spec_has_entity(spec_rank_entries(q, data, options, i, acc), e) {
                if !spec_has_entity(acc, e) {
                    if spec_has_entity(acc2, e) {
                        assert(e == em && best is Some);
                        assert(spec_entity_matches_from(q, data, options, i, e));
                    } else {
                        assert(spec_entity_matches_from(q, data, options, i + 1, e));
                        let j = choose|j: int|
                            i + 1 <= j < entries.len() && (#[trigger] entries[j]).0 == e
                                && spec_entry_attr(
                                q,
                                spec_split(q),
                                entries[j].1 + spec_custom_keywords_for(options, e),
                                e,
                                options.custom_relevant_view(),
                            ) is Some;
                        assert(i <= j < entries.len());
                        assert(spec_entity_matches_from(q, data, options, i, e));
                    }
                }
            }
            if spec_has_entity(acc, e) {
                assert(spec_has_entity(acc2, e));
            }
            if spec_entity_matches_from(q, data, options, i, e) {
                let j = choose|j: int|
                    i <= j < entries.len() && (#[trigger] entries[j]).0 == e && spec_entry_attr(
                        q,
                        spec_split(q),
                        entries[j].1 + spec_custom_keywords_for(options, e),
                        e,
                        options.custom_relevant_view(),
                    ) is Some;
                if j == i {
                    assert(spec_has_entity(acc2, e));
                } else {
                    assert(spec_entity_matches_from(q, data, options, i + 1, e));
                }
            }
        }
    }
}

/// Law: the multi-word ranking contains exactly the matching entities.
/// An entity stands in the scored sequence underlying
/// `spec_match_emojis_to_words_raw` if and only if some dataset entry for
/// it produces a best attribute record against the query.
pub proof fn lemma_ranking_members(q: Seq<char>, data: EmojiData, options: Options)
    ensures
        forall|e: Seq<char>|
            #[trigger] spec_has_entity(spec_rank_entries(q, data, options, 0, Seq::empty()), e)
                <==> spec_entity_matches_from(q, data, options, 0, e),
{
    lemma_rank_entries_members(q, data, options, 0, Seq::empty());
}

/// Search emojis for an input with multiple words: every entity with a
/// multi-word keyword or jointed word match, ordered best first.
#[verifier::loop_isolation(false)]
pub fn match_emojis_to_words_raw(input_words: &str, emoji_data: &EmojiData, options: &Options) -> (r:
    Vec<String>)
    ensures
        seq_views(r@) == spec_match_emojis_to_words_raw(input_words@, *emoji_data, *options),
{
    let ghost q = input_words@;
    let input_words_array = split_on_space(input_words);
    let empty_rel: KeywordMostRelevantEmoji = Vec::new();
    let custom_rel: &KeywordMostRelevantEmoji = match options.custom_keyword_most_relevant_emoji {
        Some(ref m) => m,
        None => &empty_rel,
    };
    proof {
        assert(str_pairs_view(custom_rel@) =~= options.custom_relevant_view());
    }
    let mut ranked: Vec<(String, Attributes)> = Vec::new();
    proof {
        assert(pairs_view(ranked@) =~= Seq::<(Seq<char>, AttributesModel)>::empty());
    }
    let mut i: usize = 0;
    while i < emoji_data.emoji_keywords.len()
        invariant
            i <= emoji_data.emoji_keywords.len(),
            spec_rank_entries(q, *emoji_data, *options, i as int, pairs_view(ranked@))
                == spec_rank_entries(
                q,
                *emoji_data,
                *options,
                0,
                Seq::<(Seq<char>, AttributesModel)>::empty(),
            ),
        decreases emoji_data.emoji_keywords.len() - i,
    {
        let pair = &emoji_data.emoji_keywords[i];
        proof {
            assert(emoji_data.entries_view()[i as int] == (pair.0@, seq_views(pair.1@)));
        }
        let all_kws = merged_keywords(&pair.1, options, &pair.0);
        let cand = get_emoji_best_attributes(
            input_words,
            &input_words_array,
            &pair.0,
            &all_kws,
            custom_rel,
        );
        match cand {
            Some(attrs) => {
                let pos = find_insert_pos(&ranked, &attrs);
                let ghost old_model = pairs_view(ranked@);
                proof {
                    lemma_insert_at(old_model, (pair.0@, attrs@), pos as int);
                }
                ranked.insert(pos, (pair.0.clone(), attrs));
                proof {
                    assert(pairs_view(ranked@) =~= old_model.subrange(0, pos as int) + seq![
                        (pair.0@, attrs@),
                    ] + old_model.subrange(pos as int, old_model.len() as int));
                }
            },
            None => {},
        }
        i = i + 1;
    }
    let mut out: Vec<String> = Vec::new();
    proof {
        assert(seq_views(out@) =~= Seq::<Seq<char>>::empty());
    }
    let mut k: usize = 0;
    while k < ranked.len()
        invariant
            k <= ranked.len(),
            seq_views(out@) =~= pairs_view(ranked@).subrange(0, k as int).map_values(
                |p: (Seq<char>, AttributesModel)| p.0,
            ),
        decreases ranked.len() - k,
    {
        let ghost old_out = out@;
        out.push(ranked[k].0.clone());
        proof {
            assert(seq_views(out@) =~= seq_views(old_out).push(ranked@[k as int].0@));
            assert(pairs_view(ranked@).subrange(0, k as int + 1).map_values(
                |p: (Seq<char>, AttributesModel)| p.0,
            ) =~= pairs_view(ranked@).subrange(0, k as int).map_values(
                |p: (Seq<char>, AttributesModel)| p.0,
            ).push(ranked@[k as int].0@));
        }
        k = k + 1;
    }
    proof {
        assert(pairs_view(ranked@).subrange(0, ranked@.len() as int) =~= pairs_view(ranked@));
        assert(seq_views(out@) =~= spec_match_emojis_to_words_raw(q, *emoji_data, *options));
    }
    out
}

} // verus!
