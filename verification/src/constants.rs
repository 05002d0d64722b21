use vstd::prelude::*;

use crate::strutil::{seq_views, seq_views_ref, str_eq};

verus! {

/// Pairs from an entity to its ordered keyword list; the first keyword is
/// the entity's canonical name.
pub type EmojiKeywords = Vec<(String, Vec<String>)>;

/// Pairs from a keyword to the entity considered most representative of it.
pub type KeywordMostRelevantEmoji = Vec<(String, String)>;

/// Pairs from a common English word to its frequency rank (lower = more
/// common).
pub type WordToTop1000WordsIdx = Vec<(String, usize)>;

/// Options for customizing a single search request.
pub struct Options {
    /// Custom keywords appended to an entity's built-in keywords.
    pub custom_emoji_keywords: Option<EmojiKeywords>,
    /// Custom mappings from keywords to preferred entities.
    pub custom_keyword_most_relevant_emoji: Option<KeywordMostRelevantEmoji>,
    /// Recently searched inputs; earlier entries are more recent.
    pub recently_searched_inputs: Option<Vec<String>>,
}

/// The read-only dataset that searches run against.
pub struct EmojiData {
    /// Each entity with its ordered keywords.
    pub emoji_keywords: EmojiKeywords,
    /// The entity considered most representative of each keyword.
    pub keyword_most_relevant_emoji: KeywordMostRelevantEmoji,
    /// All valid entity identifiers.
    pub emoji_set: Vec<String>,
    /// Frequency ranks of common English words.
    pub word_to_top_1000_words_idx: WordToTop1000WordsIdx,
}

/// The view of entity/keyword-list pairs as sequences of characters.
pub open spec fn kw_pairs_view(s: Seq<(String, Vec<String>)>) -> Seq<(Seq<char>, Seq<Seq<char>>)> {
    s.map_values(|p: (String, Vec<String>)| (p.0@, seq_views(p.1@)))
}

/// The view of string/string pairs as sequences of characters.
pub open spec fn str_pairs_view(s: Seq<(String, String)>) -> Seq<(Seq<char>, Seq<char>)> {
    s.map_values(|p: (String, String)| (p.0@, p.1@))
}

/// The view of string/rank pairs as sequences of characters.
pub open spec fn rank_pairs_view(s: Seq<(String, usize)>) -> Seq<(Seq<char>, usize)> {
    s.map_values(|p: (String, usize)| (p.0@, p.1))
}

/// The value of the first pair whose key equals `k`, if any.
pub open spec fn assoc_get<V>(m: Seq<(Seq<char>, V)>, k: Seq<char>) -> Option<V>
    decreases m.len(),
{
    if m.len() == 0 {
        None
    } else if m[0].0 == k {
        Some(m[0].1)
    } else {
        assoc_get(m.drop_first(), k)
    }
}

/// The index of the last occurrence of `w` in `s`, if any.
pub open spec fn spec_last_index_of(s: Seq<Seq<char>>, w: Seq<char>) -> Option<int>
    decreases s.len(),
{
    if s.len() == 0 {
        None
    } else if s[s.len() - 1] == w {
        Some(s.len() - 1)
    } else {
        spec_last_index_of(s.drop_last(), w)
    }
}

impl Options {
    /// The custom keyword map, empty when absent.
    pub open spec fn custom_keywords_view(&self) -> Seq<(Seq<char>, Seq<Seq<char>>)> {
        match self.custom_emoji_keywords {
            Some(ref v) => kw_pairs_view(v@),
            None => Seq::empty(),
        }
    }

    /// The custom preferred-entity map, empty when absent.
    pub open spec fn custom_relevant_view(&self) -> Seq<(Seq<char>, Seq<char>)> {
        match self.custom_keyword_most_relevant_emoji {
            Some(ref v) => str_pairs_view(v@),
            None => Seq::empty(),
        }
    }

    /// The recently searched inputs, empty when absent.
    pub open spec fn recents_view(&self) -> Seq<Seq<char>> {
        match self.recently_searched_inputs {
            Some(ref v) => seq_views(v@),
            None => Seq::empty(),
        }
    }
}

impl Default for Options {
    /// Options with no customization at all.
    fn default() -> (r: Self)
        ensures
            r.custom_keywords_view() == Seq::<(Seq<char>, Seq<Seq<char>>)>::empty(),
            r.custom_relevant_view() == Seq::<(Seq<char>, Seq<char>)>::empty(),
            r.recents_view() == Seq::<Seq<char>>::empty(),
    {
        Options {
            custom_emoji_keywords: None,
            custom_keyword_most_relevant_emoji: None,
            recently_searched_inputs: None,
        }
    }
}

impl EmojiData {
    /// The entity/keyword-list pairs as sequences of characters.
    pub open spec fn entries_view(&self) -> Seq<(Seq<char>, Seq<Seq<char>>)> {
        kw_pairs_view(self.emoji_keywords@)
    }

    /// The keyword-to-preferred-entity map as sequences of characters.
    pub open spec fn relevant_view(&self) -> Seq<(Seq<char>, Seq<char>)> {
        str_pairs_view(self.keyword_most_relevant_emoji@)
    }

    /// The set of valid entity identifiers as sequences of characters.
    pub open spec fn emoji_set_view(&self) -> Seq<Seq<char>> {
        seq_views(self.emoji_set@)
    }

    /// The word-to-frequency-rank map as sequences of characters.
    pub open spec fn top_words_view(&self) -> Seq<(Seq<char>, usize)> {
        rank_pairs_view(self.word_to_top_1000_words_idx@)
    }

    /// Create a new empty dataset.
    pub fn new() -> (r: Self)
        ensures
            r.entries_view() == Seq::<(Seq<char>, Seq<Seq<char>>)>::empty(),
            r.relevant_view() == Seq::<(Seq<char>, Seq<char>)>::empty(),
            r.emoji_set_view() == Seq::<Seq<char>>::empty(),
            r.top_words_view() == Seq::<(Seq<char>, usize)>::empty(),
    {
        let r = EmojiData {
            emoji_keywords: Vec::new(),
            keyword_most_relevant_emoji: Vec::new(),
            emoji_set: Vec::new(),
            word_to_top_1000_words_idx: Vec::new(),
        };
        proof {
            assert(r.entries_view() =~= Seq::<(Seq<char>, Seq<Seq<char>>)>::empty());
            assert(r.relevant_view() =~= Seq::<(Seq<char>, Seq<char>)>::empty());
            assert(r.emoji_set_view() =~= Seq::<Seq<char>>::empty());
            assert(r.top_words_view() =~= Seq::<(Seq<char>, usize)>::empty());
        }
        r
    }

    /// Whether `s` is a known entity identifier.
    pub fn contains_emoji(&self, s: &str) -> (r: bool)
        ensures
            r == self.emoji_set_view().contains(s@),
    {
        let mut i: usize = 0;
        while i < self.emoji_set.len()
            invariant
                i <= self.emoji_set.len(),
                forall|k: int| 0 <= k < i ==> self.emoji_set_view()[k] != s@,
            decreases self.emoji_set.len() - i,
        {
            if str_eq(self.emoji_set[i].as_str(), s) {
                assert(self.emoji_set_view()[i as int] == s@);
                return true;
            }
            i = i + 1;
        }
        false
    }
}

/// Looks up the custom keywords recorded for `emoji`, if any.
pub fn lookup_custom_keywords<'a>(options: &'a Options, emoji: &String) -> (r: Option<
    &'a Vec<String>,
>)
    ensures
        match r {
            Some(v) => assoc_get(options.custom_keywords_view(), emoji@) == Some(seq_views(v@)),
            None => assoc_get(options.custom_keywords_view(), emoji@) is None,
        },
{
    match options.custom_emoji_keywords {
        Some(ref m) => {
            let ghost model = options.custom_keywords_view();
            proof {
                assert(model.subrange(0, m@.len() as int) =~= model);
            }
            let mut i: usize = 0;
            while i < m.len()
                invariant
                    model == kw_pairs_view(m@),
                    model == options.custom_keywords_view(),
                    i <= m.len(),
                    assoc_get(model, emoji@) == assoc_get(
                        model.subrange(i as int, m@.len() as int),
                        emoji@,
                    ),
                decreases m.len() - i,
            {
                proof {
                    assert(model.subrange(i as int, m@.len() as int).drop_first() =~= model.subrange(
                        i as int + 1,
                        m@.len() as int,
                    ));
                    assert(model.subrange(i as int, m@.len() as int)[0] == model[i as int]);
                }
                if str_eq(m[i].0.as_str(), emoji.as_str()) {
                    proof {
                        assert(model[i as int] == (m@[i as int].0@, seq_views(m@[i as int].1@)));
                        assert(assoc_get(model.subrange(i as int, m@.len() as int), emoji@)
                            == Some(model[i as int].1));
                    }
                    return Some(&m[i].1);
                }
                i = i + 1;
            }
            proof {
                assert(model.subrange(m@.len() as int, m@.len() as int) =~= Seq::<
                    (Seq<char>, Seq<Seq<char>>),
                >::empty());
            }
            None
        },
        None => None,
    }
}

/// Whether entity `e` stands among the first `i` dataset entries.
pub open spec fn spec_entity_before(data: EmojiData, i: int, e: Seq<char>) -> bool {
    exists|j: int|
        0 <= j < i && j < data.entries_view().len() && (#[trigger] data.entries_view()[j]).0 == e
}

/// Whether the dataset lists each entity at most once.
pub open spec fn spec_data_entities_distinct(data: EmojiData) -> bool {
    forall|i: int, j: int|
        0 <= i < j < data.entries_view().len() ==> (#[trigger] data.entries_view()[i]).0 != (
        #[trigger] data.entries_view()[j]).0
}

/// The custom keywords that a request adds for entity `em`, empty when
/// none are recorded.
pub open spec fn spec_custom_keywords_for(options: Options, em: Seq<char>) -> Seq<Seq<char>> {
    match assoc_get(options.custom_keywords_view(), em) {
        Some(ks) => ks,
        None => Seq::empty(),
    }
}

/// An entity's built-in keywords followed by the request's custom
/// keywords for it.
#[verifier::loop_isolation(false)]
pub fn merged_keywords<'a>(keywords: &'a Vec<String>, options: &'a Options, emoji: &String) -> (r:
    Vec<&'a String>)
    ensures
        seq_views_ref(r@) == seq_views(keywords@) + spec_custom_keywords_for(*options, emoji@),
{
    let mut r: Vec<&'a String> = Vec::new();
    proof {
        assert(seq_views_ref(r@) =~= Seq::<Seq<char>>::empty());
    }
    let mut i: usize = 0;
    while i < keywords.len()
        invariant
            i <= keywords.len(),
            seq_views_ref(r@) =~= seq_views(keywords@).subrange(0, i as int),
        decreases keywords.len() - i,
    {
        let ghost old_r = r@;
        r.push(&keywords[i]);
        proof {
            assert(seq_views_ref(r@) =~= seq_views_ref(old_r).push(keywords@[i as int]@));
        }
        i = i + 1;
    }
    proof {
        assert(seq_views(keywords@).subrange(0, keywords@.len() as int) =~= seq_views(keywords@));
    }
    match lookup_custom_keywords(options, emoji) {
        Some(cks) => {
            let mut k: usize = 0;
            while k < cks.len()
                invariant
                    k <= cks.len(),
                    seq_views_ref(r@) =~= seq_views(keywords@) + seq_views(cks@).subrange(
                        0,
                        k as int,
                    ),
                decreases cks.len() - k,
            {
                let ghost old_r = r@;
                r.push(&cks[k]);
                proof {
                    assert(seq_views_ref(r@) =~= seq_views_ref(old_r).push(cks@[k as int]@));
                }
                k = k + 1;
            }
            proof {
                assert(seq_views(cks@).subrange(0, cks@.len() as int) =~= seq_views(cks@));
                assert(spec_custom_keywords_for(*options, emoji@) == seq_views(cks@));
            }
        },
        None => {
            proof {
                assert(seq_views(keywords@) + spec_custom_keywords_for(*options, emoji@)
                    =~= seq_views(keywords@));
            }
        },
    }
    r
}

/// Whether the map assigns entity `emoji` to keyword `k` (first matching
/// pair wins).
pub fn relevant_is(m: &KeywordMostRelevantEmoji, k: &str, emoji: &String) -> (r: bool)
    ensures
        r == (assoc_get(str_pairs_view(m@), k@) == Some(emoji@)),
{
    let ghost model = str_pairs_view(m@);
    proof {
        assert(model.subrange(0, m@.len() as int) =~= model);
    }
    let mut i: usize = 0;
    while i < m.len()
        invariant
            model == str_pairs_view(m@),
            i <= m.len(),
            assoc_get(model, k@) == assoc_get(model.subrange(i as int, m@.len() as int), k@),
        decreases m.len() - i,
    {
        proof {
            assert(model.subrange(i as int, m@.len() as int).drop_first() =~= model.subrange(
                i as int + 1,
                m@.len() as int,
            ));
            assert(model.subrange(i as int, m@.len() as int)[0] == model[i as int]);
        }
        if str_eq(m[i].0.as_str(), k) {
            return str_eq(m[i].1.as_str(), emoji.as_str());
        }
        i = i + 1;
    }
    proof {
        assert(model.subrange(m@.len() as int, m@.len() as int) =~= Seq::<
            (Seq<char>, Seq<char>),
        >::empty());
    }
    false
}

/// Looks up the frequency rank of `k` (first matching pair wins).
pub fn rank_of(m: &WordToTop1000WordsIdx, k: &str) -> (r: Option<usize>)
    ensures
        r == assoc_get(rank_pairs_view(m@), k@),
{
    let ghost model = rank_pairs_view(m@);
    proof {
        assert(model.subrange(0, m@.len() as int) =~= model);
    }
    let mut i: usize = 0;
    while i < m.len()
        invariant
            model == rank_pairs_view(m@),
            i <= m.len(),
            assoc_get(model, k@) == assoc_get(model.subrange(i as int, m@.len() as int), k@),
        decreases m.len() - i,
    {
        proof {
            assert(model.subrange(i as int, m@.len() as int).drop_first() =~= model.subrange(
                i as int + 1,
                m@.len() as int,
            ));
            assert(model.subrange(i as int, m@.len() as int)[0] == model[i as int]);
        }
        if str_eq(m[i].0.as_str(), k) {
            return Some(m[i].1);
        }
        i = i + 1;
    }
    proof {
        assert(model.subrange(m@.len() as int, m@.len() as int) =~= Seq::<
            (Seq<char>, usize),
        >::empty());
    }
    None
}

/// The index of the last occurrence of `k` among the recently searched
/// inputs, if any; a later duplicate shadows an earlier one.
pub fn last_index_of(recents: &Vec<String>, k: &str) -> (r: Option<usize>)
    ensures
        match r {
            Some(u) => spec_last_index_of(seq_views(recents@), k@) == Some(u as int),
            None => spec_last_index_of(seq_views(recents@), k@) is None,
        },
{
    let ghost model = seq_views(recents@);
    proof {
        assert(model.subrange(0, recents@.len() as int) =~= model);
    }
    let mut i: usize = recents.len();
    while i > 0
        invariant
            model == seq_views(recents@),
            i <= recents.len(),
            spec_last_index_of(model, k@) == spec_last_index_of(
                model.subrange(0, i as int),
                k@,
            ),
        decreases i,
    {
        proof {
            assert(model.subrange(0, i as int).drop_last() =~= model.subrange(0, i as int - 1));
            assert(model.subrange(0, i as int)[i - 1] == model[i - 1]);
        }
        if str_eq(recents[i - 1].as_str(), k) {
            return Some(i - 1);
        }
        i = i - 1;
    }
    proof {
        assert(model.subrange(0, 0) =~= Seq::<Seq<char>>::empty());
    }
    None
}

} // verus!
