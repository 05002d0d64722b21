use vstd::prelude::*;

use crate::strutil::{str_ends_with, str_eq};

verus! {

/// The base reduction: strip a trailing `ing`, `ed`, `s` or `ly`,
/// with the length guards of each case.
pub open spec fn spec_base_stem(w: Seq<char>) -> Seq<char> {
    if seq!['i', 'n', 'g'].is_suffix_of(w) {
        w.subrange(0, w.len() - 3)
    } else if seq!['e', 'd'].is_suffix_of(w) && w.len() > 3 {
        w.subrange(0, w.len() - 2)
    } else if seq!['s'].is_suffix_of(w) && !seq!['s', 's'].is_suffix_of(w) && w.len() > 2 {
        w.subrange(0, w.len() - 1)
    } else if seq!['l', 'y'].is_suffix_of(w) && w.len() > 3 {
        w.subrange(0, w.len() - 2)
    } else {
        w
    }
}

/// Whether an override rule fires: its word suffix must end the original
/// word, and its required suffix must end the base reduction, unless the
/// base reduction left the word unchanged.
pub open spec fn rule_matches(w: Seq<char>, b: Seq<char>, wsfx: Seq<char>, bsfx: Seq<char>) -> bool {
    wsfx.is_suffix_of(w) && (bsfx.is_suffix_of(b) || w == b)
}

/// The stem of a word: the base reduction unless one of the ordered
/// override rules fires; a rule whose cut would not leave a shorter word
/// is skipped in favour of the next rule.
pub open spec fn spec_stem(w: Seq<char>) -> Seq<char> {
    let b = spec_base_stem(w);
    if rule_matches(w, b, seq!['y'], seq!['i']) {
        w
    } else if rule_matches(w, b, seq!['Y'], seq!['i']) {
        w
    } else if rule_matches(w, b, seq!['y', 'i', 'n', 'g'], seq!['i']) && w.len() > 3 {
        w.subrange(0, w.len() - 3)
    } else if rule_matches(w, b, seq!['y', 'i', 'n', 'g', 's'], seq!['i']) && w.len() > 4 {
        w.subrange(0, w.len() - 4)
    } else if rule_matches(w, b, seq!['i', 'n', 'g'], seq!['e']) && w.len() > 3 {
        w.subrange(0, w.len() - 3)
    } else if rule_matches(w, b, seq!['i', 'n', 'g', 's'], seq!['e']) && w.len() > 4 {
        w.subrange(0, w.len() - 4)
    } else if rule_matches(w, b, seq!['i', 'n', 'g', 'l', 'y'], seq!['e']) && w.len() > 5 {
        w.subrange(0, w.len() - 5)
    } else if rule_matches(w, b, seq!['i', 'l', 'i', 't', 'y'], seq!['l']) && w.len() > 4 {
        w.subrange(0, w.len() - 4)
    } else if rule_matches(w, b, seq!['i', 'l', 'i', 't', 'i', 'e', 's'], seq!['l']) && w.len()
        > 6 {
        w.subrange(0, w.len() - 6)
    } else if rule_matches(w, b, seq!['y', 's'], seq!['i']) && w.len() > 1 {
        w.subrange(0, w.len() - 1)
    } else if rule_matches(w, b, seq!['e', 's', 't'], seq!['e', 's', 't']) && w.len() > 3 {
        w.subrange(0, w.len() - 3)
    } else {
        b
    }
}

/// Reduces a single word to an approximate root form: a base suffix
/// reduction, corrected by an ordered table of override rules.
pub fn stem_word(word: &str) -> (r: String)
    ensures
        r@ == spec_stem(word@),
{
    proof {
        reveal_strlit("ing");
        reveal_strlit("ed");
        reveal_strlit("s");
        reveal_strlit("ss");
        reveal_strlit("ly");
        reveal_strlit("y");
        reveal_strlit("Y");
        reveal_strlit("ying");
        reveal_strlit("yings");
        reveal_strlit("ings");
        reveal_strlit("ingly");
        reveal_strlit("ility");
        reveal_strlit("ilities");
        reveal_strlit("ys");
        reveal_strlit("est");
        reveal_strlit("i");
        reveal_strlit("e");
        reveal_strlit("l");
        assert("ing"@ =~= seq!['i', 'n', 'g']);
        assert("ed"@ =~= seq!['e', 'd']);
        assert("s"@ =~= seq!['s']);
        assert("ss"@ =~= seq!['s', 's']);
        assert("ly"@ =~= seq!['l', 'y']);
        assert("y"@ =~= seq!['y']);
        assert("Y"@ =~= seq!['Y']);
        assert("ying"@ =~= seq!['y', 'i', 'n', 'g']);
        assert("yings"@ =~= seq!['y', 'i', 'n', 'g', 's']);
        assert("ings"@ =~= seq!['i', 'n', 'g', 's']);
        assert("ingly"@ =~= seq!['i', 'n', 'g', 'l', 'y']);
        assert("ility"@ =~= seq!['i', 'l', 'i', 't', 'y']);
        assert("ilities"@ =~= seq!['i', 'l', 'i', 't', 'i', 'e', 's']);
        assert("ys"@ =~= seq!['y', 's']);
        assert("est"@ =~= seq!['e', 's', 't']);
        assert("i"@ =~= seq!['i']);
        assert("e"@ =~= seq!['e']);
        assert("l"@ =~= seq!['l']);
    }
    let n = word.unicode_len();
    let base: String = if str_ends_with(word, "ing") {
        word.substring_char(0, n - 3).to_owned()
    } else if str_ends_with(word, "ed") && n > 3 {
        word.substring_char(0, n - 2).to_owned()
    } else if str_ends_with(word, "s") && !str_ends_with(word, "ss") && n > 2 {
        word.substring_char(0, n - 1).to_owned()
    } else if str_ends_with(word, "ly") && n > 3 {
        word.substring_char(0, n - 2).to_owned()
    } else {
        word.to_owned()
    };
    assert(base@ == spec_base_stem(word@));
    if str_ends_with(word, "y") && (str_ends_with(base.as_str(), "i") || str_eq(
        word,
        base.as_str(),
    )) {
        word.to_owned()
    } else if str_ends_with(word, "Y") && (str_ends_with(base.as_str(), "i") || str_eq(
        word,
        base.as_str(),
    )) {
        word.to_owned()
    } else if str_ends_with(word, "ying") && (str_ends_with(base.as_str(), "i") || str_eq(
        word,
        base.as_str(),
    )) && n > 3 {
        word.substring_char(0, n - 3).to_owned()
    } else if str_ends_with(word, "yings") && (str_ends_with(base.as_str(), "i") || str_eq(
        word,
        base.as_str(),
    )) && n > 4 {
        word.substring_char(0, n - 4).to_owned()
    } else if str_ends_with(word, "ing") && (str_ends_with(base.as_str(), "e") || str_eq(
        word,
        base.as_str(),
    )) && n > 3 {
        word.substring_char(0, n - 3).to_owned()
    } else if str_ends_with(word, "ings") && (str_ends_with(base.as_str(), "e") || str_eq(
        word,
        base.as_str(),
    )) && n > 4 {
        word.substring_char(0, n - 4).to_owned()
    } else if str_ends_with(word, "ingly") && (str_ends_with(base.as_str(), "e") || str_eq(
        word,
        base.as_str(),
    )) && n > 5 {
        word.substring_char(0, n - 5).to_owned()
    } else if str_ends_with(word, "ility") && (str_ends_with(base.as_str(), "l") || str_eq(
        word,
        base.as_str(),
    )) && n > 4 {
        word.substring_char(0, n - 4).to_owned()
    } else if str_ends_with(word, "ilities") && (str_ends_with(base.as_str(), "l") || str_eq(
        word,
        base.as_str(),
    )) && n > 6 {
        word.substring_char(0, n - 6).to_owned()
    } else if str_ends_with(word, "ys") && (str_ends_with(base.as_str(), "i") || str_eq(
        word,
        base.as_str(),
    )) && n > 1 {
        word.substring_char(0, n - 1).to_owned()
    } else if str_ends_with(word, "est") && (str_ends_with(base.as_str(), "est") || str_eq(
        word,
        base.as_str(),
    )) && n > 3 {
        word.substring_char(0, n - 3).to_owned()
    } else {
        base
    }
}

} // verus!
