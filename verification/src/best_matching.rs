use vstd::prelude::*;

use core::cmp::Ordering;

use crate::constants::{
    merged_keywords, spec_custom_keywords_for, spec_data_entities_distinct, spec_entity_before,
    EmojiData, Options,
};
use crate::multiple_words::spec_jointed;
use crate::ordering::{cmp_int_asc, flip, usize_desc};
use crate::parts_of_speech::{filter_parts_of_speech, spec_filter_pos};
use crate::preprocess::pre_process_string;
use crate::stemmer::{spec_stem, stem_word};
use crate::strutil::{seq_views, seq_views_ref, spec_split, split_on_space, str_eq, str_starts_with};

verus! {

/// Word match tallies of one entity against a POS-filtered, stemmed
/// query.
pub struct Attributes {
    pub num_exact_word_matches: usize,
    pub num_exact_stemmed_word_matches: usize,
    pub num_prefix_word_matches: usize,
    pub num_prefix_stemmed_word_matches: usize,
}

/// The mathematical shape of `Attributes`.
pub ghost struct AttributesModel {
    pub num_exact_word: int,
    pub num_exact_stemmed: int,
    pub num_prefix_word: int,
    pub num_prefix_stemmed: int,
}

impl View for Attributes {
    type V = AttributesModel;

    open spec fn view(&self) -> AttributesModel {
        AttributesModel {
            num_exact_word: self.num_exact_word_matches as int,
            num_exact_stemmed: self.num_exact_stemmed_word_matches as int,
            num_prefix_word: self.num_prefix_word_matches as int,
            num_prefix_stemmed: self.num_prefix_stemmed_word_matches as int,
        }
    }
}

/// The best-match ranking order: total exact matches descending, then
/// exact matches of the original words, then prefix matches of the
/// original words, then prefix matches of the stemmed words.
pub open spec fn spec_compare(a: AttributesModel, b: AttributesModel) -> Ordering {
    let c1 = cmp_int_asc(b.num_exact_word + b.num_exact_stemmed, a.num_exact_word
        + a.num_exact_stemmed);
    if c1 != Ordering::Equal {
        c1
    } else {
        let c2 = cmp_int_asc(b.num_exact_word, a.num_exact_word);
        if c2 != Ordering::Equal {
            c2
        } else {
            let c3 = cmp_int_asc(b.num_prefix_word, a.num_prefix_word);
            if c3 != Ordering::Equal {
                c3
            } else {
                cmp_int_asc(b.num_prefix_stemmed, a.num_prefix_stemmed)
            }
        }
    }
}

/// Swapping the arguments of the best-match order flips its result.
pub proof fn lemma_compare_flip(a: AttributesModel, b: AttributesModel)
    ensures
        spec_compare(b, a) == flip(spec_compare(a, b)),
{
}

/// Compare attributes for ranking best matching emojis.
pub fn compare_attributes(a: &Attributes, b: &Attributes) -> (o: Ordering)
    ensures
        o == spec_compare(a@, b@),
{
    let a_total: u128 = a.num_exact_word_matches as u128 + a.num_exact_stemmed_word_matches as u128;
    let b_total: u128 = b.num_exact_word_matches as u128 + b.num_exact_stemmed_word_matches as u128;
    if a_total != b_total {
        if b_total < a_total {
            return Ordering::Less;
        } else {
            return Ordering::Greater;
        }
    }
    let c2 = usize_desc(a.num_exact_word_matches, b.num_exact_word_matches);
    if !matches!(c2, Ordering::Equal) {
        return c2;
    }
    let c3 = usize_desc(a.num_prefix_word_matches, b.num_prefix_word_matches);
    if !matches!(c3, Ordering::Equal) {
        return c3;
    }
    usize_desc(a.num_prefix_stemmed_word_matches, b.num_prefix_stemmed_word_matches)
}

/// Whether `w` occurs in the word collection.
pub open spec fn spec_contains_word(kws: Seq<Seq<char>>, w: Seq<char>) -> bool {
    exists|k: int| 0 <= k < kws.len() && kws[k] == w
}

/// Whether some keyword word extends both the stem and the original word.
pub open spec fn spec_has_both_prefix(kws: Seq<Seq<char>>, w: Seq<char>, sw: Seq<char>) -> bool {
    exists|k: int|
        0 <= k < kws.len() && sw.is_prefix_of(#[trigger] kws[k]) && w.is_prefix_of(kws[k])
}

/// Whether some keyword word extends the stem.
pub open spec fn spec_has_stem_prefix(kws: Seq<Seq<char>>, sw: Seq<char>) -> bool {
    exists|k: int| 0 <= k < kws.len() && sw.is_prefix_of(#[trigger] kws[k])
}

/// The tally contribution of one query word: exact on the original word,
/// else exact on the stem (when it differs), else a prefix extension of
/// the stem that also extends the original, else a prefix extension of
/// the stem alone.
pub open spec fn spec_word_tally(w: Seq<char>, sw: Seq<char>, kws: Seq<Seq<char>>) -> (
    int,
    int,
    int,
    int,
) {
    if spec_contains_word(kws, w) {
        (1, 0, 0, 0)
    } else if w != sw && spec_contains_word(kws, sw) {
        (0, 1, 0, 0)
    } else if spec_has_both_prefix(kws, w, sw) {
        (0, 0, 1, 0)
    } else if spec_has_stem_prefix(kws, sw) {
        (0, 0, 0, 1)
    } else {
        (0, 0, 0, 0)
    }
}

/// The four match tallies of the query words from position `i` on.
pub open spec fn spec_counts_from(
    inputs: Seq<Seq<char>>,
    stems: Seq<Seq<char>>,
    kws: Seq<Seq<char>>,
    i: int,
) -> AttributesModel
    decreases inputs.len() - i,
{
    if i < 0 || i >= inputs.len() {
        AttributesModel { num_exact_word: 0, num_exact_stemmed: 0, num_prefix_word: 0, num_prefix_stemmed: 0 }
    } else {
        let t = spec_word_tally(inputs[i], stems[i], kws);
        let rest = spec_counts_from(inputs, stems, kws, i + 1);
        AttributesModel {
            num_exact_word: t.0 + rest.num_exact_word,
            num_exact_stemmed: t.1 + rest.num_exact_stemmed,
            num_prefix_word: t.2 + rest.num_prefix_word,
            num_prefix_stemmed: t.3 + rest.num_prefix_stemmed,
        }
    }
}

/// The four match tallies of the whole query against a word collection.
pub open spec fn spec_get_num_matches(
    inputs: Seq<Seq<char>>,
    stems: Seq<Seq<char>>,
    kws: Seq<Seq<char>>,
) -> AttributesModel {
    spec_counts_from(inputs, stems, kws, 0)
}

/// Whether `w` occurs in the word list.
#[verifier::loop_isolation(false)]
fn contains_word(kws: &Vec<String>, w: &str) -> (r: bool)
    ensures
        r == spec_contains_word(seq_views(kws@), w@),
{
    let mut k: usize = 0;
    while k < kws.len()
        invariant
            k <= kws.len(),
            forall|j: int| 0 <= j < k ==> seq_views(kws@)[j] != w@,
        decreases kws.len() - k,
    {
        proof {
            assert(seq_views(kws@)[k as int] == kws@[k as int]@);
        }
        if str_eq(kws[k].as_str(), w) {
            return true;
        }
        k = k + 1;
    }
    false
}

/// Whether some word of the list extends both prefixes.
#[verifier::loop_isolation(false)]
fn has_both_prefix(kws: &Vec<String>, w: &str, sw: &str) -> (r: bool)
    ensures
        r == spec_has_both_prefix(seq_views(kws@), w@, sw@),
{
    let mut k: usize = 0;
    while k < kws.len()
        invariant
            k <= kws.len(),
            forall|j: int|
                0 <= j < k ==> !(sw@.is_prefix_of(#[trigger] seq_views(kws@)[j])
                    && w@.is_prefix_of(seq_views(kws@)[j])),
        decreases kws.len() - k,
    {
        proof {
            assert(seq_views(kws@)[k as int] == kws@[k as int]@);
        }
        if str_starts_with(kws[k].as_str(), sw) && str_starts_with(kws[k].as_str(), w) {
            return true;
        }
        k = k + 1;
    }
    false
}

/// Whether some word of the list extends the stem.
#[verifier::loop_isolation(false)]
fn has_stem_prefix(kws: &Vec<String>, sw: &str) -> (r: bool)
    ensures
        r == spec_has_stem_prefix(seq_views(kws@), sw@),
{
    let mut k: usize = 0;
    while k < kws.len()
        invariant
            k <= kws.len(),
            forall|j: int| 0 <= j < k ==> !sw@.is_prefix_of(#[trigger] seq_views(kws@)[j]),
        decreases kws.len() - k,
    {
        proof {
            assert(seq_views(kws@)[k as int] == kws@[k as int]@);
        }
        if str_starts_with(kws[k].as_str(), sw) {
            return true;
        }
        k = k + 1;
    }
    false
}

/// Calculate the four kinds of matches between the query words, their
/// stems, and a word collection.
#[verifier::loop_isolation(false)]
pub fn get_num_matches(
    input_words_array: &Vec<String>,
    stemmed_input_words_array: &Vec<String>,
    keywords_array: &Vec<String>,
) -> (r: Attributes)
    requires
        input_words_array@.len() == stemmed_input_words_array@.len(),
    ensures
        r@ == spec_get_num_matches(
            seq_views(input_words_array@),
            seq_views(stemmed_input_words_array@),
            seq_views(keywords_array@),
        ),
{
    let ghost inputs = seq_views(input_words_array@);
    let ghost stems = seq_views(stemmed_input_words_array@);
    let ghost kws = seq_views(keywords_array@);
    let mut num_exact_word_matches: usize = 0;
    let mut num_exact_stemmed_word_matches: usize = 0;
    let mut num_prefix_word_matches: usize = 0;
    let mut num_prefix_stemmed_word_matches: usize = 0;
    let mut i: usize = 0;
    while i < input_words_array.len()
        invariant
            i <= input_words_array.len(),
            num_exact_word_matches + num_exact_stemmed_word_matches + num_prefix_word_matches
                + num_prefix_stemmed_word_matches <= i,
            spec_counts_from(inputs, stems, kws, 0) == (AttributesModel {
                num_exact_word: num_exact_word_matches + spec_counts_from(
                    inputs,
                    stems,
                    kws,
                    i as int,
                ).num_exact_word,
                num_exact_stemmed: num_exact_stemmed_word_matches + spec_counts_from(
                    inputs,
                    stems,
                    kws,
                    i as int,
                ).num_exact_stemmed,
                num_prefix_word: num_prefix_word_matches + spec_counts_from(
                    inputs,
                    stems,
                    kws,
                    i as int,
                ).num_prefix_word,
                num_prefix_stemmed: num_prefix_stemmed_word_matches + spec_counts_from(
                    inputs,
                    stems,
                    kws,
                    i as int,
                ).num_prefix_stemmed,
            }),
        decreases input_words_array.len() - i,
    {
        proof {
            assert(inputs[i as int] == input_words_array@[i as int]@);
            assert(stems[i as int] == stemmed_input_words_array@[i as int]@);
        }
        let input_word = &input_words_array[i];
        let stemmed_input_word = &stemmed_input_words_array[i];
        if contains_word(keywords_array, input_word.as_str()) {
            num_exact_word_matches = num_exact_word_matches + 1;
        } else if !str_eq(input_word.as_str(), stemmed_input_word.as_str()) && contains_word(
            keywords_array,
            stemmed_input_word.as_str(),
        ) {
            num_exact_stemmed_word_matches = num_exact_stemmed_word_matches + 1;
        } else if has_both_prefix(keywords_array, input_word.as_str(), stemmed_input_word.as_str())
        {
            num_prefix_word_matches = num_prefix_word_matches + 1;
        } else if has_stem_prefix(keywords_array, stemmed_input_word.as_str()) {
            num_prefix_stemmed_word_matches = num_prefix_stemmed_word_matches + 1;
        }
        i = i + 1;
    }
    Attributes {
        num_exact_word_matches,
        num_exact_stemmed_word_matches,
        num_prefix_word_matches,
        num_prefix_stemmed_word_matches,
    }
}

/// All words of all keywords of an entity, normalized and split.
#[verifier::loop_isolation(false)]
fn jointed_words(keywords: &Vec<&String>) -> (r: Vec<String>)
    ensures
        seq_views(r@) == spec_jointed(seq_views_ref(keywords@), 0),
{
    let ghost kwsm = seq_views_ref(keywords@);
    let mut jointed: Vec<String> = Vec::new();
    proof {
        assert(seq_views(jointed@) =~= Seq::<Seq<char>>::empty());
        assert(seq_views(jointed@) + spec_jointed(kwsm, 0) =~= spec_jointed(kwsm, 0));
    }
    let mut k: usize = 0;
    while k < keywords.len()
        invariant
            k <= keywords.len(),
            spec_jointed(kwsm, 0) == seq_views(jointed@) + spec_jointed(kwsm, k as int),
        decreases keywords.len() - k,
    {
        proof {
            assert(kwsm[k as int] == keywords@[k as int]@);
        }
        let kwn = pre_process_string(keywords[k].as_str());
        let words = split_on_space(kwn.as_str());
        let ghost old_jointed = seq_views(jointed@);
        let mut j: usize = 0;
        while j < words.len()
            invariant
                j <= words.len(),
                seq_views(jointed@) =~= old_jointed + seq_views(words@).subrange(0, j as int),
            decreases words.len() - j,
        {
            let ghost before = jointed@;
            jointed.push(words[j].clone());
            proof {
                assert(seq_views(jointed@) =~= seq_views(before).push(words@[j as int]@));
            }
            j = j + 1;
        }
        proof {
            assert(seq_views(words@).subrange(0, words@.len() as int) =~= seq_views(words@));
            assert(old_jointed + (seq_views(words@) + spec_jointed(kwsm, k as int + 1)) =~= (
            old_jointed + seq_views(words@)) + spec_jointed(kwsm, k as int + 1));
        }
        k = k + 1;
    }
    proof {
        assert(seq_views(jointed@) + spec_jointed(kwsm, keywords@.len() as int) =~= seq_views(
            jointed@,
        ));
    }
    jointed
}

/// The best record of one entity: the four tallies of the query words
/// against the entity's jointed keyword words, or `None` when all four
/// are zero.
pub open spec fn spec_entry_attr(
    inputs: Seq<Seq<char>>,
    stems: Seq<Seq<char>>,
    kws: Seq<Seq<char>>,
) -> Option<AttributesModel> {
    let m = spec_get_num_matches(inputs, stems, spec_jointed(kws, 0));
    if m.num_exact_word > 0 || m.num_exact_stemmed > 0 || m.num_prefix_word > 0
        || m.num_prefix_stemmed > 0 {
        Some(m)
    } else {
        None
    }
}

/// The view of an optional attribute record.
pub open spec fn opt_attr_view(o: Option<Attributes>) -> Option<AttributesModel> {
    match o {
        Some(a) => Some(a@),
        None => None,
    }
}

/// Get the best attribute record for the entity whose merged keyword
/// list is `keywords`, against the filtered query words and their stems.
pub fn get_emoji_best_attributes(
    input_words_array: &Vec<String>,
    stemmed_input_words_array: &Vec<String>,
    keywords: &Vec<&String>,
) -> (r: Option<Attributes>)
    requires
        input_words_array@.len() == stemmed_input_words_array@.len(),
    ensures
        opt_attr_view(r) == spec_entry_attr(
            seq_views(input_words_array@),
            seq_views(stemmed_input_words_array@),
            seq_views_ref(keywords@),
        ),
{
    let jointed = jointed_words(keywords);
    let attributes = get_num_matches(input_words_array, stemmed_input_words_array, &jointed);
    if attributes.num_exact_word_matches > 0 || attributes.num_exact_stemmed_word_matches > 0
        || attributes.num_prefix_word_matches > 0 || attributes.num_prefix_stemmed_word_matches
        > 0 {
        Some(attributes)
    } else {
        None
    }
}

/// The view of scored entities as pairs of an entity and its attribute
/// record.
pub open spec fn pairs_view(s: Seq<(String, Attributes)>) -> Seq<(Seq<char>, AttributesModel)> {
    s.map_values(|p: (String, Attributes)| (p.0@, p.1@))
}

/// Inserts a scored entity into an already ranked sequence, after every
/// entry that does not rank strictly worse: ties keep the earlier entry
/// first.
pub open spec fn insert_ranked(
    x: (Seq<char>, AttributesModel),
    s: Seq<(Seq<char>, AttributesModel)>,
) -> Seq<(Seq<char>, AttributesModel)>
    decreases s.len(),
{
    if s.len() == 0 {
        seq![x]
    } else if spec_compare(x.1, s[0].1) == Ordering::Less {
        seq![x] + s
    } else {
        seq![s[0]] + insert_ranked(x, s.drop_first())
    }
}

/// Inserting at the position found by a front-to-back scan for the first
/// strictly worse entry produces exactly `insert_ranked`.
pub proof fn lemma_insert_at(
    s: Seq<(Seq<char>, AttributesModel)>,
    x: (Seq<char>, AttributesModel),
    p: int,
)
    requires
        0 <= p <= s.len(),
        forall|k: int| 0 <= k < p ==> spec_compare(#[trigger] s[k].1, x.1) != Ordering::Greater,
        p < s.len() ==> spec_compare(s[p].1, x.1) == Ordering::Greater,
    ensures
        insert_ranked(x, s) == s.subrange(0, p) + seq![x] + s.subrange(p, s.len() as int),
    decreases p,
{
    if s.len() == 0 {
        assert(s.subrange(0, 0) =~= Seq::<(Seq<char>, AttributesModel)>::empty());
        assert(insert_ranked(x, s) =~= s.subrange(0, 0) + seq![x] + s.subrange(0, 0));
    } else if p == 0 {
        lemma_compare_flip(x.1, s[0].1);
        assert(s.subrange(0, 0) =~= Seq::<(Seq<char>, AttributesModel)>::empty());
        assert(s.subrange(0, s.len() as int) =~= s);
        assert(insert_ranked(x, s) =~= s.subrange(0, 0) + seq![x] + s.subrange(
            0,
            s.len() as int,
        ));
    } else {
        lemma_compare_flip(x.1, s[0].1);
        let rest = s.drop_first();
        assert(forall|k: int|
            0 <= k < p - 1 ==> spec_compare(#[trigger] rest[k].1, x.1) != Ordering::Greater);
        lemma_insert_at(rest, x, p - 1);
        assert(rest.subrange(0, p - 1) =~= s.subrange(1, p));
        assert(rest.subrange(p - 1, rest.len() as int) =~= s.subrange(p, s.len() as int));
        assert(seq![s[0]] + (s.subrange(1, p) + seq![x] + s.subrange(p, s.len() as int)) =~= s
            .subrange(0, p) + seq![x] + s.subrange(p, s.len() as int));
    }
}

/// The position of the first already ranked entry that ranks strictly
/// worse than `x`, or the length when none does.
pub fn find_insert_pos(ranked: &Vec<(String, Attributes)>, x: &Attributes) -> (p: usize)
    ensures
        p <= ranked@.len(),
        forall|k: int|
            0 <= k < p ==> spec_compare(#[trigger] pairs_view(ranked@)[k].1, x@)
                != Ordering::Greater,
        p < ranked@.len() ==> spec_compare(pairs_view(ranked@)[p as int].1, x@)
            == Ordering::Greater,
{
    let mut p: usize = 0;
    while p < ranked.len()
        invariant
            p <= ranked@.len(),
            forall|k: int|
                0 <= k < p ==> spec_compare(#[trigger] pairs_view(ranked@)[k].1, x@)
                    != Ordering::Greater,
        decreases ranked@.len() - p,
    {
        let c = compare_attributes(&ranked[p].1, x);
        proof {
            assert(pairs_view(ranked@)[p as int].1 == ranked@[p as int].1@);
        }
        if matches!(c, Ordering::Greater) {
            return p;
        }
        p = p + 1;
    }
    p
}

/// The POS-filtered words of the query.
pub open spec fn spec_filtered_inputs(q: Seq<char>) -> Seq<Seq<char>> {
    spec_filter_pos(spec_split(q))
}

/// The stems of the POS-filtered words of the query.
pub open spec fn spec_stemmed_inputs(q: Seq<char>) -> Seq<Seq<char>> {
    spec_filtered_inputs(q).map_values(|w: Seq<char>| spec_stem(w))
}

/// Folds the entities from position `i` on into the ranking accumulated
/// so far: each entity with a nonzero tally is inserted by rank, ties
/// keeping insertion order.
pub open spec fn spec_rank_entries(
    q: Seq<char>,
    data: EmojiData,
    options: Options,
    i: int,
    acc: Seq<(Seq<char>, AttributesModel)>,
) -> Seq<(Seq<char>, AttributesModel)>
    decreases data.entries_view().len() - i,
{
    let entries = data.entries_view();
    if i < 0 || i >= entries.len() {
        acc
    } else {
        let em = entries[i].0;
        let kws = entries[i].1 + spec_custom_keywords_for(options, em);
        let acc2 = match spec_entry_attr(spec_filtered_inputs(q), spec_stemmed_inputs(q), kws) {
            Some(a) => insert_ranked((em, a), acc),
            None => acc,
        };
        spec_rank_entries(q, data, options, i + 1, acc2)
    }
}

/// The entities returned for a best-matching multi-word query, best
/// first.
pub open spec fn spec_match_emoji_to_words(q: Seq<char>, data: EmojiData, options: Options) -> Seq<
    Seq<char>,
> {
    spec_rank_entries(q, data, options, 0, Seq::empty()).map_values(
        |p: (Seq<char>, AttributesModel)| p.0,
    )
}

/// Whether a scored sequence is ordered by the best-match ranking: no
/// entry ranks strictly worse than the one after it.
pub open spec fn spec_ranked_ordered(s: Seq<(Seq<char>, AttributesModel)>) -> bool {
    forall|i: int|
        0 <= i < s.len() - 1 ==> spec_compare(#[trigger] s[i].1, s[i + 1].1) != Ordering::Greater
}

/// Putting an entry that does not rank strictly worse than its head in
/// front of an ordered sequence keeps it ordered.
#[verifier::rlimit(100)]
proof fn lemma_cons_ordered(
    h: (Seq<char>, AttributesModel),
    t: Seq<(Seq<char>, AttributesModel)>,
)
    requires
        spec_ranked_ordered(t),
        t.len() > 0 ==> spec_compare(h.1, t[0].1) != Ordering::Greater,
    ensures
        spec_ranked_ordered(seq![h] + t),
{
    let r = seq![h] + t;
    assert forall|i: int| 0 <= i < r.len() - 1 implies spec_compare(
        #[trigger] r[i].1,
        r[i + 1].1,
    ) != Ordering::Greater by {
        if i == 0 {
            assert(r[0] == h);
            assert(r[1] == t[0]);
        } else {
            assert(r[i] == t[i - 1]);
            assert(r[i + 1] == t[i]);
        }
    }
}

/// Ranked insertion keeps a sequence ordered.
#[verifier::rlimit(100)]
proof fn lemma_insert_ranked_ordered(
    x: (Seq<char>, AttributesModel),
    s: Seq<(Seq<char>, AttributesModel)>,
)
    requires
        spec_ranked_ordered(s),
    ensures
        spec_ranked_ordered(insert_ranked(x, s)),
    decreases s.len(),
{
    if s.len() == 0 {
    } else if spec_compare(x.1, s[0].1) == Ordering::Less {
        lemma_cons_ordered(x, s);
    } else {
        lemma_compare_flip(x.1, s[0].1);
        let rest = s.drop_first();
        assert(spec_ranked_ordered(rest)) by {
            assert forall|i: int| 0 <= i < rest.len() - 1 implies spec_compare(
                #[trigger] rest[i].1,
                rest[i + 1].1,
            ) != Ordering::Greater by {
                assert(rest[i] == s[i + 1]);
                assert(rest[i + 1] == s[i + 2]);
            }
        }
        lemma_insert_ranked_ordered(x, rest);
        let ir = insert_ranked(x, rest);
        if rest.len() == 0 {
            assert(ir[0] == x);
        } else if spec_compare(x.1, rest[0].1) == Ordering::Less {
            assert(ir[0] == x);
        } else {
            assert(ir[0] == rest[0]);
            assert(rest[0] == s[1]);
        }
        assert(spec_compare(s[0].1, ir[0].1) != Ordering::Greater);
        lemma_cons_ordered(s[0], ir);
    }
}

/// Folding entities into an ordered ranking keeps it ordered.
#[verifier::rlimit(100)]
proof fn lemma_rank_entries_ordered(
    q: Seq<char>,
    data: EmojiData,
    options: Options,
    i: int,
    acc: Seq<(Seq<char>, AttributesModel)>,
)
    requires
        spec_ranked_ordered(acc),
    ensures
        spec_ranked_ordered(spec_rank_entries(q, data, options, i, acc)),
    decreases data.entries_view().len() - i,
{
    let entries = data.entries_view();
    if i < 0 || i >= entries.len() {
    } else {
        let em = entries[i].0;
        let kws = entries[i].1 + spec_custom_keywords_for(options, em);
        match spec_entry_attr(spec_filtered_inputs(q), spec_stemmed_inputs(q), kws) {
            Some(a) => {
                lemma_insert_ranked_ordered((em, a), acc);
                lemma_rank_entries_ordered(q, data, options, i + 1, insert_ranked((em, a), acc));
            },
            None => {
                lemma_rank_entries_ordered(q, data, options, i + 1, acc);
            },
        }
    }
}

/// Law: the best-match ranking is sorted by the comparator. In the
/// scored sequence underlying `spec_match_emoji_to_words`, no entity
/// ranks strictly worse than the one that follows it.
pub proof fn lemma_ranking_ordered(q: Seq<char>, data: EmojiData, options: Options)
    ensures
        spec_ranked_ordered(spec_rank_entries(q, data, options, 0, Seq::empty())),
{
    lemma_rank_entries_ordered(q, data, options, 0, Seq::empty());
}

/// Whether some scored entry carries entity `e`.
pub open spec fn spec_has_entity(s: Seq<(Seq<char>, AttributesModel)>, e: Seq<char>) -> bool {
    exists|i: int| 0 <= i < s.len() && (#[trigger] s[i]).0 == e
}

/// Whether no entity appears twice in a scored sequence.
pub open spec fn spec_entities_distinct(s: Seq<(Seq<char>, AttributesModel)>) -> bool {
    forall|i: int, j: int| 0 <= i < j < s.len() ==> (#[trigger] s[i]).0 != (#[trigger] s[j]).0
}

/// Ranked insertion adds exactly the inserted entity to the members.
proof fn lemma_insert_ranked_members(
    x: (Seq<char>, AttributesModel),
    s: Seq<(Seq<char>, AttributesModel)>,
)
    ensures
        insert_ranked(x, s).len() == s.len() + 1,
        forall|e: Seq<char>|
            #[trigger] spec_has_entity(insert_ranked(x, s), e) <==> (e == x.0 || spec_has_entity(
                s,
                e,
            )),
    decreases s.len(),
{
    let r = insert_ranked(x, s);
    if s.len() == 0 {
        assert forall|e: Seq<char>|
            #[trigger] spec_has_entity(r, e) <==> (e == x.0 || spec_has_entity(s, e)) by {
            assert(r[0] == x);
            if e == x.0 {
                assert(r[0].0 == e);
            }
        }
    } else if spec_compare(x.1, s[0].1) == Ordering::Less {
        assert forall|e: Seq<char>|
            #[trigger] spec_has_entity(r, e) <==> (e == x.0 || spec_has_entity(s, e)) by {
            if e == x.0 {
                assert(r[0].0 == e);
            }
            if spec_has_entity(s, e) {
                let i = choose|i: int| 0 <= i < s.len() && (#[trigger] s[i]).0 == e;
                assert(r[i + 1].0 == e);
            }
            if spec_has_entity(r, e) {
                let i = choose|i: int| 0 <= i < r.len() && (#[trigger] r[i]).0 == e;
                if i > 0 {
                    assert(s[i - 1].0 == e);
                }
            }
        }
    } else {
        let rest = s.drop_first();
        lemma_insert_ranked_members(x, rest);
        let ir = insert_ranked(x, rest);
        assert forall|e: Seq<char>|
            #[trigger] spec_has_entity(r, e) <==> (e == x.0 || spec_has_entity(s, e)) by {
            if e == x.0 {
                assert(spec_has_entity(ir, e));
                let i = choose|i: int| 0 <= i < ir.len() && (#[trigger] ir[i]).0 == e;
                assert(r[i + 1].0 == e);
            }
            if spec_has_entity(s, e) {
                let i = choose|i: int| 0 <= i < s.len() && (#[trigger] s[i]).0 == e;
                if i == 0 {
                    assert(r[0].0 == e);
                } else {
                    assert(rest[i - 1].0 == e);
                    assert(spec_has_entity(rest, e));
                    assert(spec_has_entity(ir, e));
                    let k = choose|k: int| 0 <= k < ir.len() && (#[trigger] ir[k]).0 == e;
                    assert(r[k + 1].0 == e);
                }
            }
            if spec_has_entity(r, e) {
                let i = choose|i: int| 0 <= i < r.len() && (#[trigger] r[i]).0 == e;
                if i == 0 {
                    assert(s[0].0 == e);
                } else {
                    assert(ir[i - 1].0 == e);
                    assert(spec_has_entity(ir, e));
                    if e != x.0 {
                        assert(spec_has_entity(rest, e));
                        let k = choose|k: int| 0 <= k < rest.len() && (#[trigger] rest[k]).0 == e;
                        assert(s[k + 1].0 == e);
                    }
                }
            }
        }
    }
}

/// Ranked insertion of a fresh entity keeps the entities distinct.
proof fn lemma_insert_ranked_distinct(
    x: (Seq<char>, AttributesModel),
    s: Seq<(Seq<char>, AttributesModel)>,
)
    requires
        spec_entities_distinct(s),
        !spec_has_entity(s, x.0),
    ensures
        spec_entities_distinct(insert_ranked(x, s)),
    decreases s.len(),
{
    let r = insert_ranked(x, s);
    if s.len() == 0 {
    } else if spec_compare(x.1, s[0].1) == Ordering::Less {
        assert forall|i: int, j: int| 0 <= i < j < r.len() implies (#[trigger] r[i]).0 != (
        #[trigger] r[j]).0 by {
            if i == 0 {
                assert(r[j] == s[j - 1]);
                assert(!spec_has_entity(s, x.0));
                if r[j].0 == x.0 {
                    assert(s[j - 1].0 == x.0);
                }
            } else {
                assert(r[i] == s[i - 1]);
                assert(r[j] == s[j - 1]);
            }
        }
    } else {
        let rest = s.drop_first();
        assert(forall|i: int, j: int|
            0 <= i < j < rest.len() ==> (#[trigger] rest[i]).0 != (#[trigger] rest[j]).0);
        assert(!spec_has_entity(rest, x.0)) by {
            if spec_has_entity(rest, x.0) {
                let k = choose|k: int| 0 <= k < rest.len() && (#[trigger] rest[k]).0 == x.0;
                assert(s[k + 1].0 == x.0);
            }
        }
        lemma_insert_ranked_members(x, rest);
        lemma_insert_ranked_distinct(x, rest);
        let ir = insert_ranked(x, rest);
        assert forall|i: int, j: int| 0 <= i < j < r.len() implies (#[trigger] r[i]).0 != (
        #[trigger] r[j]).0 by {
            if i == 0 {
                assert(r[j] == ir[j - 1]);
                if r[j].0 == s[0].0 {
                    assert(spec_has_entity(ir, s[0].0));
                    if s[0].0 == x.0 {
                        assert(s[0].0 != x.0);
                    } else {
                        assert(spec_has_entity(rest, s[0].0));
                        let k = choose|k: int|
                            0 <= k < rest.len() && (#[trigger] rest[k]).0 == s[0].0;
                        assert(s[k + 1].0 == s[0].0);
                    }
                }
            } else {
                assert(r[i] == ir[i - 1]);
                assert(r[j] == ir[j - 1]);
            }
        }
    }
}

/// Folding the remaining entities into a ranking of earlier entities
/// keeps the entities distinct.
#[verifier::rlimit(100)]
proof fn lemma_rank_entries_distinct(
    q: Seq<char>,
    data: EmojiData,
    options: Options,
    i: int,
    acc: Seq<(Seq<char>, AttributesModel)>,
)
    requires
        spec_data_entities_distinct(data),
        spec_entities_distinct(acc),
        forall|e: Seq<char>| #[trigger] spec_has_entity(acc, e) ==> spec_entity_before(data, i, e),
    ensures
        spec_entities_distinct(spec_rank_entries(q, data, options, i, acc)),
    decreases data.entries_view().len() - i,
{
    let entries = data.entries_view();
    if i < 0 || i >= entries.len() {
    } else {
        let em = entries[i].0;
        let kws = entries[i].1 + spec_custom_keywords_for(options, em);
        match spec_entry_attr(spec_filtered_inputs(q), spec_stemmed_inputs(q), kws) {
            Some(a) => {
                let x = (em, a);
                assert(!spec_has_entity(acc, em)) by {
                    if spec_has_entity(acc, em) {
                        assert(spec_entity_before(data, i, em));
                    }
                }
                lemma_insert_ranked_members(x, acc);
                lemma_insert_ranked_distinct(x, acc);
                let acc2 = insert_ranked(x, acc);
                assert(forall|e: Seq<char>|
                    #[trigger] spec_has_entity(acc2, e) ==> spec_entity_before(data, i + 1, e));
                lemma_rank_entries_distinct(q, data, options, i + 1, acc2);
            },
            None => {
                assert(forall|e: Seq<char>|
                    #[trigger] spec_has_entity(acc, e) ==> spec_entity_before(data, i + 1, e));
                lemma_rank_entries_distinct(q, data, options, i + 1, acc);
            },
        }
    }
}

/// Law: the best-match ranking is duplicate-free. When the dataset lists
/// each entity once, no entity appears twice in the scored sequence
/// underlying `spec_match_emoji_to_words`.
pub proof fn lemma_ranking_distinct(q: Seq<char>, data: EmojiData, options: Options)
    requires
        spec_data_entities_distinct(data),
    ensures
        spec_entities_distinct(spec_rank_entries(q, data, options, 0, Seq::empty())),
{
    lemma_rank_entries_distinct(q, data, options, 0, Seq::empty());
}

/// Whether entity `e` stands at some entry from position `i` on with a
/// best attribute record against the filtered, stemmed query.
pub open spec fn spec_entity_matches_from(
    q: Seq<char>,
    data: EmojiData,
    options: Options,
    i: int,
    e: Seq<char>,
) -> bool {
    exists|j: int|
        i <= j < data.entries_view().len() && (#[trigger] data.entries_view()[j]).0 == e
            && spec_entry_attr(spec_filtered_inputs(q), spec_stemmed_inputs(q), data.entries_view()[j].1 + spec_custom_keywords_for(options, e)) is Some
}

/// Folding the remaining entities adds exactly the matching ones to the
/// members of the ranking.
#[verifier::rlimit(100)]
proof fn lemma_rank_entries_members(
    q: Seq<char>,
    data: EmojiData,
    options: Options,
    i: int,
    acc: Seq<(Seq<char>, AttributesModel)>,
)
    requires
        0 <= i,
    ensures
        forall|e: Seq<char>|
            #[trigger] spec_has_entity(spec_rank_entries(q, data, options, i, acc), e) <==> (
            spec_has_entity(acc, e) || spec_entity_matches_from(q, data, options, i, e)),
    decreases data.entries_view().len() - i,
{
    let entries = data.entries_view();
    if i < 0 || i >= entries.len() {
    } else {
        let em = entries[i].0;
        let kws = entries[i].1 + spec_custom_keywords_for(options, em);
        let best = spec_entry_attr(spec_filtered_inputs(q), spec_stemmed_inputs(q), kws);
        let acc2 = match best {
            Some(a) => insert_ranked((em, a), acc),
            None => acc,
        };
        match best {
            Some(a) => {
                lemma_insert_ranked_members((em, a), acc);
            },
            None => {},
        }
        lemma_rank_entries_members(q, data, options, i + 1, acc2);
        assert(spec_rank_entries(q, data, options, i, acc) == spec_rank_entries(
            q,
            data,
            options,
            i + 1,
            acc2,
        ));
        assert forall|e: Seq<char>|
            #[trigger] spec_has_entity(spec_rank_entries(q, data, options, i, acc), e) <==> (
        spec_has_entity(acc, e) || spec_entity_matches_from(q, data, options, i, e)) by {
            assert(spec_has_entity(spec_rank_entries(q, data, options, i, acc), e)
                == spec_has_entity(spec_rank_entries(q, data, options, i + 1, acc2), e));
            if spec_has_entity(spec_rank_entries(q, data, options, i, acc), e) {
                if !spec_has_entity(acc, e) {
                    if spec_has_entity(acc2, e) {
                        assert(e == em && best is Some);
                        assert(spec_entity_matches_from(q, data, options, i, e));
                    } else {
                        assert(spec_entity_matches_from(q, data, options, i + 1, e));
                        let j = choose|j: int|
                            i + 1 <= j < entries.len() && (#[trigger] entries[j]).0 == e
                                && spec_entry_attr(spec_filtered_inputs(q), spec_stemmed_inputs(q), entries[j].1 + spec_custom_keywords_for(options, e)) is Some;
                        assert(i <= j < entries.len());
                        assert(spec_entity_matches_from(q, data, options, i, e));
                    }
                }
            }
            if spec_has_entity(acc, e) {
                assert(spec_has_entity(acc2, e));
            }
            if spec_entity_matches_from(q, data, options, i, e) {
                let j = choose|j: int|
                    i <= j < entries.len() && (#[trigger] entries[j]).0 == e && spec_entry_attr(spec_filtered_inputs(q), spec_stemmed_inputs(q), entries[j].1 + spec_custom_keywords_for(options, e)) is Some;
                if j == i {
                    assert(spec_has_entity(acc2, e));
                } else {
                    assert(spec_entity_matches_from(q, data, options, i + 1, e));
                }
            }
        }
    }
}

/// Law: the best-match ranking contains exactly the matching entities.
/// An entity stands in the scored sequence underlying
/// `spec_match_emoji_to_words` if and only if some dataset entry for
/// it produces a best attribute record against the query.
pub proof fn lemma_ranking_members(q: Seq<char>, data: EmojiData, options: Options)
    ensures
        forall|e: Seq<char>|
            #[trigger] spec_has_entity(spec_rank_entries(q, data, options, 0, Seq::empty()), e)
                <==> spec_entity_matches_from(q, data, options, 0, e),
{
    lemma_rank_entries_members(q, data, options, 0, Seq::empty());
}

/// Search for best matching emojis for an input with multiple words: a
/// forgiving search over the POS-filtered words and their stems.
#[verifier::loop_isolation(false)]
pub fn match_emoji_to_words(input_words: &str, emoji_data: &EmojiData, options: &Options) -> (r:
    Vec<String>)
    ensures
        seq_views(r@) == spec_match_emoji_to_words(input_words@, *emoji_data, *options),
{
    let ghost q = input_words@;
    let input_words_array = split_on_space(input_words);
    let filtered_input_words = filter_parts_of_speech(&input_words_array);
    let mut stemmed_input_words: Vec<String> = Vec::new();
    proof {
        assert(seq_views(stemmed_input_words@) =~= seq_views(filtered_input_words@).map_values(
            |w: Seq<char>| spec_stem(w),
        ).subrange(0, 0));
    }
    let mut j: usize = 0;
    while j < filtered_input_words.len()
        invariant
            j <= filtered_input_words.len(),
            seq_views(stemmed_input_words@) =~= seq_views(filtered_input_words@).map_values(
                |w: Seq<char>| spec_stem(w),
            ).subrange(0, j as int),
        decreases filtered_input_words.len() - j,
    {
        let ghost before = stemmed_input_words@;
        stemmed_input_words.push(stem_word(filtered_input_words[j].as_str()));
        proof {
            assert(seq_views(stemmed_input_words@) =~= seq_views(before).push(
                spec_stem(filtered_input_words@[j as int]@),
            ));
            assert(seq_views(filtered_input_words@).map_values(|w: Seq<char>| spec_stem(w))[
                j as int] == spec_stem(seq_views(filtered_input_words@)[j as int]));
        }
        j = j + 1;
    }
    proof {
        assert(seq_views(filtered_input_words@).map_values(|w: Seq<char>| spec_stem(w)).subrange(
            0,
            filtered_input_words@.len() as int,
        ) =~= seq_views(filtered_input_words@).map_values(|w: Seq<char>| spec_stem(w)));
        assert(seq_views(filtered_input_words@) == spec_filtered_inputs(q));
        assert(seq_views(stemmed_input_words@) == spec_stemmed_inputs(q));
    }
    let mut ranked: Vec<(String, Attributes)> = Vec::new();
    proof {
        assert(pairs_view(ranked@) =~= Seq::<(Seq<char>, AttributesModel)>::empty());
    }
    let mut i: usize = 0;
    while i < emoji_data.emoji_keywords.len()
        invariant
            i <= emoji_data.emoji_keywords.len(),
            stemmed_input_words@.len() == filtered_input_words@.len(),
            seq_views(filtered_input_words@) == spec_filtered_inputs(q),
            seq_views(stemmed_input_words@) == spec_stemmed_inputs(q),
            spec_rank_entries(q, *emoji_data, *options, i as int, pairs_view(ranked@))
                == spec_rank_entries(
                q,
                *emoji_data,
                *options,
                0,
                Seq::<(Seq<char>, AttributesModel)>::empty(),
            ),
        decreases emoji_data.emoji_keywords.len() - i,
    {
        let pair = &emoji_data.emoji_keywords[i];
        proof {
            assert(emoji_data.entries_view()[i as int] == (pair.0@, seq_views(pair.1@)));
        }
        let all_kws = merged_keywords(&pair.1, options, &pair.0);
        let cand = get_emoji_best_attributes(&filtered_input_words, &stemmed_input_words, &all_kws);
        match cand {
            Some(attrs) => {
                let pos = find_insert_pos(&ranked, &attrs);
                let ghost old_model = pairs_view(ranked@);
                proof {
                    lemma_insert_at(old_model, (pair.0@, attrs@), pos as int);
                }
                ranked.insert(pos, (pair.0.clone(), attrs));
                proof {
                    assert(pairs_view(ranked@) =~= old_model.subrange(0, pos as int) + seq![
                        (pair.0@, attrs@),
                    ] + old_model.subrange(pos as int, old_model.len() as int));
                }
            },
            None => {},
        }
        i = i + 1;
    }
    let mut out: Vec<String> = Vec::new();
    proof {
        assert(seq_views(out@) =~= Seq::<Seq<char>>::empty());
    }
    let mut k: usize = 0;
    while k < ranked.len()
        invariant
            k <= ranked.len(),
            seq_views(out@) =~= pairs_view(ranked@).subrange(0, k as int).map_values(
                |p: (Seq<char>, AttributesModel)| p.0,
            ),
        decreases ranked.len() - k,
    {
        let ghost old_out = out@;
        out.push(ranked[k].0.clone());
        proof {
            assert(seq_views(out@) =~= seq_views(old_out).push(ranked@[k as int].0@));
            assert(pairs_view(ranked@).subrange(0, k as int + 1).map_values(
                |p: (Seq<char>, AttributesModel)| p.0,
            ) =~= pairs_view(ranked@).subrange(0, k as int).map_values(
                |p: (Seq<char>, AttributesModel)| p.0,
            ).push(ranked@[k as int].0@));
        }
        k = k + 1;
    }
    proof {
        assert(pairs_view(ranked@).subrange(0, ranked@.len() as int) =~= pairs_view(ranked@));
        assert(seq_views(out@) =~= spec_match_emoji_to_words(q, *emoji_data, *options));
    }
    out
}

} // verus!
