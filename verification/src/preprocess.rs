use vstd::prelude::*;

use crate::strutil::push_char;

verus! {

/// The Unicode lowercase mapping that `str::to_lowercase` computes: a
/// function of the characters alone.
pub uninterp spec fn lower_of(s: Seq<char>) -> Seq<char>;

/// Relies on str::to_lowercase: returns the lowercase equivalent of the
/// string. The result depends on the characters alone, and an empty
/// string stays empty.
#[verifier::external_body]
fn lowercase(s: &str) -> (r: String)
    ensures
        r@ == lower_of(s@),
        s@.len() == 0 ==> r@.len() == 0,
{
    s.to_lowercase()
}

/// The punctuation characters that normalization removes.
pub open spec fn is_stripped_char(c: char) -> bool {
    c == '"' || c == ':' || c == ';' || c == '(' || c == ')' || c == ',' || c == '.' || c == '!'
        || c == '?'
}

/// Normalization of one kept character: a hyphen becomes a space.
pub open spec fn norm_char(c: char) -> char {
    if c == '-' {
        ' '
    } else {
        c
    }
}

/// The stripping layer of normalization: punctuation removed, hyphens
/// replaced by spaces.
pub open spec fn spec_strip(s: Seq<char>) -> Seq<char>
    decreases s.len(),
{
    if s.len() == 0 {
        Seq::empty()
    } else if is_stripped_char(s[0]) {
        spec_strip(s.drop_first())
    } else {
        seq![norm_char(s[0])] + spec_strip(s.drop_first())
    }
}

/// The normalized form of a string: lowercased, punctuation removed,
/// hyphens replaced by spaces.
pub open spec fn spec_normalize(s: Seq<char>) -> Seq<char> {
    spec_strip(lower_of(s))
}

/// Stripping distributes over concatenation.
pub proof fn lemma_strip_append(a: Seq<char>, b: Seq<char>)
    ensures
        spec_strip(a + b) == spec_strip(a) + spec_strip(b),
    decreases a.len(),
{
    if a.len() == 0 {
        assert(a + b =~= b);
        assert(spec_strip(a) + spec_strip(b) =~= spec_strip(b));
    } else {
        assert((a + b).drop_first() =~= a.drop_first() + b);
        lemma_strip_append(a.drop_first(), b);
        if !is_stripped_char(a[0]) {
            assert(seq![norm_char(a[0])] + (spec_strip(a.drop_first()) + spec_strip(b)) =~= (seq![
                norm_char(a[0]),
            ] + spec_strip(a.drop_first())) + spec_strip(b));
        }
    }
}

/// A character produced by stripping is kept and unchanged when stripped
/// again.
proof fn lemma_norm_char_stable(c: char)
    requires
        !is_stripped_char(c),
    ensures
        !is_stripped_char(norm_char(c)),
        norm_char(norm_char(c)) == norm_char(c),
{
}

/// Law (stripping layer): removing punctuation and mapping hyphens to
/// spaces changes nothing when done a second time.
pub proof fn lemma_strip_idempotent(s: Seq<char>)
    ensures
        spec_strip(spec_strip(s)) == spec_strip(s),
    decreases s.len(),
{
    if s.len() == 0 {
    } else {
        lemma_strip_idempotent(s.drop_first());
        if !is_stripped_char(s[0]) {
            let m = norm_char(s[0]);
            lemma_norm_char_stable(s[0]);
            lemma_strip_append(seq![m], spec_strip(s.drop_first()));
            assert(seq![m].drop_first() =~= Seq::<char>::empty());
            assert(spec_strip(Seq::<char>::empty()) =~= Seq::<char>::empty());
            assert(spec_strip(seq![m]) =~= seq![norm_char(m)] + Seq::<char>::empty());
            assert(spec_strip(seq![m]) =~= seq![m]);
        }
    }
}

/// Law: normalizing an already-normalized string changes nothing,
/// granted that lowercasing fixes the normalized form. Its own stripping
/// layer is idempotent outright (`lemma_strip_idempotent`); that the
/// Unicode lowercase mapping also fixes every string it has produced is
/// true of the mapping but not part of the library's trusted contract,
/// so it stands here as the hypothesis.
pub proof fn lemma_normalize_idempotent(s: Seq<char>)
    ensures
        lower_of(spec_normalize(s)) == spec_normalize(s) ==> spec_normalize(spec_normalize(s))
            == spec_normalize(s),
{
    lemma_strip_idempotent(lower_of(s));
}

/// Normalizes a string for comparison: lowercases it, removes
/// `" : ; ( ) , . ! ?`, and replaces `-` with a space.
#[verifier::loop_isolation(false)]
pub fn pre_process_string(s: &str) -> (r: String)
    ensures
        r@ == spec_normalize(s@),
{
    let lowered = lowercase(s);
    let n = lowered.as_str().unicode_len();
    let mut out: String = String::new();
    proof {
        assert(lowered@.subrange(0, 0) =~= Seq::<char>::empty());
    }
    let mut i: usize = 0;
    while i < n
        invariant
            i <= n,
            out@ == spec_strip(lowered@.subrange(0, i as int)),
        decreases n - i,
    {
        let c = lowered.as_str().get_char(i);
        proof {
            assert(lowered@.subrange(0, i as int + 1) =~= lowered@.subrange(0, i as int) + seq![
                lowered@[i as int],
            ]);
            lemma_strip_append(lowered@.subrange(0, i as int), seq![lowered@[i as int]]);
            assert(seq![lowered@[i as int]].drop_first() =~= Seq::<char>::empty());
            assert(spec_strip(Seq::<char>::empty()) =~= Seq::<char>::empty());
            if !is_stripped_char(lowered@[i as int]) {
                assert(spec_strip(seq![lowered@[i as int]]) =~= seq![norm_char(lowered@[i as int])]
                    + Seq::<char>::empty());
                assert(spec_strip(seq![lowered@[i as int]]) =~= seq![
                    norm_char(lowered@[i as int]),
                ]);
            }
        }
        let is_stripped = c == '"' || c == ':' || c == ';' || c == '(' || c == ')' || c == ','
            || c == '.' || c == '!' || c == '?';
        if !is_stripped {
            let mapped = if c == '-' {
                ' '
            } else {
                c
            };
            push_char(&mut out, mapped);
        }
        i = i + 1;
    }
    proof {
        assert(lowered@.subrange(0, n as int) =~= lowered@);
    }
    out
}

} // verus!
