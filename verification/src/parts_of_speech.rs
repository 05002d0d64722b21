use vstd::prelude::*;

use crate::strutil::{seq_views, str_eq};

verus! {

/// Subject pronouns, object pronouns, possessive forms, demonstratives
/// and interrogatives.
pub open spec fn spec_is_pronoun(w: Seq<char>) -> bool {
    ||| w == "i"@
    ||| w == "you"@
    ||| w == "he"@
    ||| w == "she"@
    ||| w == "it"@
    ||| w == "we"@
    ||| w == "they"@
    ||| w == "me"@
    ||| w == "him"@
    ||| w == "her"@
    ||| w == "us"@
    ||| w == "them"@
    ||| w == "my"@
    ||| w == "your"@
    ||| w == "his"@
    ||| w == "its"@
    ||| w == "our"@
    ||| w == "their"@
    ||| w == "mine"@
    ||| w == "yours"@
    ||| w == "hers"@
    ||| w == "ours"@
    ||| w == "theirs"@
    ||| w == "myself"@
    ||| w == "yourself"@
    ||| w == "himself"@
    ||| w == "herself"@
    ||| w == "itself"@
    ||| w == "ourselves"@
    ||| w == "themselves"@
    ||| w == "yourselves"@
    ||| w == "this"@
    ||| w == "that"@
    ||| w == "these"@
    ||| w == "those"@
    ||| w == "who"@
    ||| w == "whom"@
    ||| w == "which"@
    ||| w == "what"@
}

/// Common prepositions.
pub open spec fn spec_is_preposition(w: Seq<char>) -> bool {
    ||| w == "about"@
    ||| w == "across"@
    ||| w == "after"@
    ||| w == "against"@
    ||| w == "along"@
    ||| w == "among"@
    ||| w == "around"@
    ||| w == "as"@
    ||| w == "at"@
    ||| w == "before"@
    ||| w == "behind"@
    ||| w == "beneath"@
    ||| w == "beside"@
    ||| w == "between"@
    ||| w == "beyond"@
    ||| w == "by"@
    ||| w == "despite"@
    ||| w == "during"@
    ||| w == "except"@
    ||| w == "for"@
    ||| w == "from"@
    ||| w == "in"@
    ||| w == "inside"@
    ||| w == "into"@
    ||| w == "near"@
    ||| w == "of"@
    ||| w == "on"@
    ||| w == "onto"@
    ||| w == "out"@
    ||| w == "outside"@
    ||| w == "over"@
    ||| w == "since"@
    ||| w == "than"@
    ||| w == "through"@
    ||| w == "throughout"@
    ||| w == "to"@
    ||| w == "toward"@
    ||| w == "under"@
    ||| w == "until"@
    ||| w == "upon"@
    ||| w == "via"@
    ||| w == "with"@
    ||| w == "within"@
    ||| w == "without"@
}

/// Coordinating conjunctions.
pub open spec fn spec_is_conjunction(w: Seq<char>) -> bool {
    ||| w == "for"@
    ||| w == "and"@
    ||| w == "nor"@
    ||| w == "but"@
    ||| w == "or"@
    ||| w == "yet"@
    ||| w == "so"@
}

/// Articles.
pub open spec fn spec_is_article(w: Seq<char>) -> bool {
    w == "a"@ || w == "an"@ || w == "the"@
}

/// Predeterminers: quantity words filtered unless the previous word is an
/// exception.
pub open spec fn spec_is_predeterminer(w: Seq<char>) -> bool {
    w == "all"@ || w == "both"@
}

/// Previous words that exempt a predeterminer from filtering.
pub open spec fn spec_is_predeterminer_exception(w: Seq<char>) -> bool {
    w == "calling"@
}

/// Other fixed stopwords.
pub open spec fn spec_is_other_stopword(w: Seq<char>) -> bool {
    ||| w == "is"@
    ||| w == "are"@
    ||| w == "was"@
    ||| w == "were"@
    ||| w == "if"@
    ||| w == "will"@
    ||| w == "would"@
    ||| w == "be"@
    ||| w == "being"@
    ||| w == "one"@
    ||| w == "have"@
    ||| w == "has"@
    ||| w == "had"@
    ||| w == "can"@
    ||| w == "more"@
    ||| w == "then"@
    ||| w == "do"@
    ||| w == "don't"@
    ||| w == "first"@
    ||| w == "even"@
    ||| w == "there"@
    ||| w == "only"@
    ||| w == "also"@
    ||| w == "such"@
    ||| w == "each"@
    ||| w == "because"@
    ||| w == "however"@
    ||| w == "very"@
    ||| w == "must"@
    ||| w == "due"@
}

/// Whether the word at position `i` survives the filter.
pub open spec fn spec_keeps_word(words: Seq<Seq<char>>, i: int) -> bool {
    let w = words[i];
    !(spec_is_pronoun(w) || spec_is_preposition(w) || spec_is_conjunction(w) || spec_is_article(w)
        || (spec_is_predeterminer(w) && !(i > 0 && spec_is_predeterminer_exception(words[i - 1])))
        || spec_is_other_stopword(w))
}

/// The kept words from position `i` onward, in order.
pub open spec fn spec_filter_pos_from(words: Seq<Seq<char>>, i: int) -> Seq<Seq<char>>
    decreases words.len() - i,
{
    if i < 0 || i >= words.len() {
        Seq::empty()
    } else if spec_keeps_word(words, i) {
        seq![words[i]] + spec_filter_pos_from(words, i + 1)
    } else {
        spec_filter_pos_from(words, i + 1)
    }
}

/// The subsequence of words that are not function words.
pub open spec fn spec_filter_pos(words: Seq<Seq<char>>) -> Seq<Seq<char>> {
    spec_filter_pos_from(words, 0)
}

fn is_pronoun(w: &str) -> (r: bool)
    ensures
        r == spec_is_pronoun(w@),
{
    str_eq(w, "i") || str_eq(w, "you") || str_eq(w, "he") || str_eq(w, "she") || str_eq(w, "it")
        || str_eq(w, "we") || str_eq(w, "they") || str_eq(w, "me") || str_eq(w, "him") || str_eq(
        w,
        "her",
    ) || str_eq(w, "us") || str_eq(w, "them") || str_eq(w, "my") || str_eq(w, "your") || str_eq(
        w,
        "his",
    ) || str_eq(w, "its") || str_eq(w, "our") || str_eq(w, "their") || str_eq(w, "mine") || str_eq(
        w,
        "yours",
    ) || str_eq(w, "hers") || str_eq(w, "ours") || str_eq(w, "theirs") || str_eq(w, "myself")
        || str_eq(w, "yourself") || str_eq(w, "himself") || str_eq(w, "herself") || str_eq(
        w,
        "itself",
    ) || str_eq(w, "ourselves") || str_eq(w, "themselves") || str_eq(w, "yourselves") || str_eq(
        w,
        "this",
    ) || str_eq(w, "that") || str_eq(w, "these") || str_eq(w, "those") || str_eq(w, "who")
        || str_eq(w, "whom") || str_eq(w, "which") || str_eq(w, "what")
}

fn is_preposition(w: &str) -> (r: bool)
    ensures
        r == spec_is_preposition(w@),
{
    str_eq(w, "about") || str_eq(w, "across") || str_eq(w, "after") || str_eq(w, "against")
        || str_eq(w, "along") || str_eq(w, "among") || str_eq(w, "around") || str_eq(w, "as")
        || str_eq(w, "at") || str_eq(w, "before") || str_eq(w, "behind") || str_eq(w, "beneath")
        || str_eq(w, "beside") || str_eq(w, "between") || str_eq(w, "beyond") || str_eq(w, "by")
        || str_eq(w, "despite") || str_eq(w, "during") || str_eq(w, "except") || str_eq(w, "for")
        || str_eq(w, "from") || str_eq(w, "in") || str_eq(w, "inside") || str_eq(w, "into")
        || str_eq(w, "near") || str_eq(w, "of") || str_eq(w, "on") || str_eq(w, "onto") || str_eq(
        w,
        "out",
    ) || str_eq(w, "outside") || str_eq(w, "over") || str_eq(w, "since") || str_eq(w, "than")
        || str_eq(w, "through") || str_eq(w, "throughout") || str_eq(w, "to") || str_eq(
        w,
        "toward",
    ) || str_eq(w, "under") || str_eq(w, "until") || str_eq(w, "upon") || str_eq(w, "via")
        || str_eq(w, "with") || str_eq(w, "within") || str_eq(w, "without")
}

fn is_conjunction(w: &str) -> (r: bool)
    ensures
        r == spec_is_conjunction(w@),
{
    str_eq(w, "for") || str_eq(w, "and") || str_eq(w, "nor") || str_eq(w, "but") || str_eq(w, "or")
        || str_eq(w, "yet") || str_eq(w, "so")
}

fn is_article(w: &str) -> (r: bool)
    ensures
        r == spec_is_article(w@),
{
    str_eq(w, "a") || str_eq(w, "an") || str_eq(w, "the")
}

fn is_predeterminer(w: &str) -> (r: bool)
    ensures
        r == spec_is_predeterminer(w@),
{
    str_eq(w, "all") || str_eq(w, "both")
}

fn is_predeterminer_exception(w: &str) -> (r: bool)
    ensures
        r == spec_is_predeterminer_exception(w@),
{
    str_eq(w, "calling")
}

fn is_other_stopword(w: &str) -> (r: bool)
    ensures
        r == spec_is_other_stopword(w@),
{
    str_eq(w, "is") || str_eq(w, "are") || str_eq(w, "was") || str_eq(w, "were") || str_eq(w, "if")
        || str_eq(w, "will") || str_eq(w, "would") || str_eq(w, "be") || str_eq(w, "being")
        || str_eq(w, "one") || str_eq(w, "have") || str_eq(w, "has") || str_eq(w, "had") || str_eq(
        w,
        "can",
    ) || str_eq(w, "more") || str_eq(w, "then") || str_eq(w, "do") || str_eq(w, "don't") || str_eq(
        w,
        "first",
    ) || str_eq(w, "even") || str_eq(w, "there") || str_eq(w, "only") || str_eq(w, "also")
        || str_eq(w, "such") || str_eq(w, "each") || str_eq(w, "because") || str_eq(w, "however")
        || str_eq(w, "very") || str_eq(w, "must") || str_eq(w, "due")
}

/// Filters out pronouns, prepositions, conjunctions, articles,
/// predeterminers (unless the previous word is an exception) and other
/// stopwords, keeping the remaining words in order.
pub fn filter_parts_of_speech(words: &Vec<String>) -> (r: Vec<String>)
    ensures
        seq_views(r@) == spec_filter_pos(seq_views(words@)),
{
    let ghost model = seq_views(words@);
    let mut out: Vec<String> = Vec::new();
    proof {
        assert(seq_views(out@) =~= Seq::<Seq<char>>::empty());
        assert(seq_views(out@) + spec_filter_pos_from(model, 0) =~= spec_filter_pos_from(model, 0));
    }
    let mut i: usize = 0;
    while i < words.len()
        invariant
            model == seq_views(words@),
            i <= words.len(),
            spec_filter_pos(model) == seq_views(out@) + spec_filter_pos_from(model, i as int),
        decreases words.len() - i,
    {
        let w = &words[i];
        let is_function_word = is_pronoun(w.as_str()) || is_preposition(w.as_str())
            || is_conjunction(w.as_str()) || is_article(w.as_str()) || (is_predeterminer(w.as_str())
            && !(i > 0 && is_predeterminer_exception(words[i - 1].as_str()))) || is_other_stopword(
            w.as_str(),
        );
        if !is_function_word {
            let ghost old_out = out@;
            out.push(w.clone());
            proof {
                assert(seq_views(out@) =~= seq_views(old_out).push(model[i as int]));
                assert(seq_views(old_out).push(model[i as int]) + spec_filter_pos_from(
                    model,
                    i as int + 1,
                ) =~= seq_views(old_out) + (seq![model[i as int]] + spec_filter_pos_from(
                    model,
                    i as int + 1,
                )));
            }
        }
        i = i + 1;
    }
    out
}

} // verus!
