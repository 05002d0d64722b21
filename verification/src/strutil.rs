use vstd::prelude::*;

verus! {

/// The views of a sequence of owned strings, as sequences of characters.
pub open spec fn seq_views(s: Seq<String>) -> Seq<Seq<char>> {
    s.map_values(|x: String| x@)
}

/// The views of a sequence of borrowed strings, as sequences of characters.
pub open spec fn seq_views_ref(s: Seq<&String>) -> Seq<Seq<char>> {
    s.map_values(|x: &String| x@)
}

/// The Unicode White_Space characters, which trimming removes.
pub open spec fn is_blank_char(c: char) -> bool {
    let u = c as u32;
    ||| u == 0x0009
    ||| u == 0x000A
    ||| u == 0x000B
    ||| u == 0x000C
    ||| u == 0x000D
    ||| u == 0x0020
    ||| u == 0x0085
    ||| u == 0x00A0
    ||| u == 0x1680
    ||| (0x2000 <= u && u <= 0x200A)
    ||| u == 0x2028
    ||| u == 0x2029
    ||| u == 0x202F
    ||| u == 0x205F
    ||| u == 0x3000
}

/// Removes leading and trailing whitespace from a sequence of characters.
pub open spec fn spec_trim(s: Seq<char>) -> Seq<char>
    decreases s.len(),
{
    if s.len() == 0 {
        s
    } else if is_blank_char(s[0]) {
        spec_trim(s.drop_first())
    } else if is_blank_char(s[s.len() - 1]) {
        spec_trim(s.drop_last())
    } else {
        s
    }
}

/// Splitting on a single space character, keeping empty segments,
/// with `cur` the segment read so far.
pub open spec fn spec_split_acc(s: Seq<char>, cur: Seq<char>) -> Seq<Seq<char>>
    decreases s.len(),
{
    if s.len() == 0 {
        seq![cur]
    } else if s[0] == ' ' {
        seq![cur] + spec_split_acc(s.drop_first(), Seq::empty())
    } else {
        spec_split_acc(s.drop_first(), cur.push(s[0]))
    }
}

/// The segments of `s` between single space characters; empty segments are
/// kept, and the empty string yields one empty segment.
pub open spec fn spec_split(s: Seq<char>) -> Seq<Seq<char>> {
    spec_split_acc(s, Seq::empty())
}

/// Relies on String::push: appends the given character to the end of the string.
#[verifier::external_body]
pub fn push_char(s: &mut String, c: char)
    ensures
        final(s)@ == old(s)@.push(c),
{
    s.push(c)
}

/// Character-for-character equality of two string slices.
pub fn str_eq(a: &str, b: &str) -> (r: bool)
    ensures
        r == (a@ == b@),
{
    let n = a.unicode_len();
    if n != b.unicode_len() {
        return false;
    }
    let mut i: usize = 0;
    while i < n
        invariant
            n == a@.len(),
            n == b@.len(),
            i <= n,
            forall|k: int| 0 <= k < i ==> a@[k] == b@[k],
        decreases n - i,
    {
        if a.get_char(i) != b.get_char(i) {
            return false;
        }
        i = i + 1;
    }
    proof {
        assert(a@ =~= b@);
    }
    true
}

/// Whether `p` is a prefix of `s`, character for character.
pub fn str_starts_with(s: &str, p: &str) -> (r: bool)
    ensures
        r == p@.is_prefix_of(s@),
{
    let n = s.unicode_len();
    let m = p.unicode_len();
    if m > n {
        return false;
    }
    let mut i: usize = 0;
    while i < m
        invariant
            n == s@.len(),
            m == p@.len(),
            m <= n,
            i <= m,
            forall|k: int| 0 <= k < i ==> s@[k] == p@[k],
        decreases m - i,
    {
        if s.get_char(i) != p.get_char(i) {
            proof {
                assert(!(p@ =~= s@.subrange(0, m as int)));
            }
            return false;
        }
        i = i + 1;
    }
    proof {
        assert(p@ =~= s@.subrange(0, m as int));
    }
    true
}

/// Whether `p` is a suffix of `s`, character for character.
pub fn str_ends_with(s: &str, p: &str) -> (r: bool)
    ensures
        r == p@.is_suffix_of(s@),
{
    let n = s.unicode_len();
    let m = p.unicode_len();
    if m > n {
        return false;
    }
    let mut i: usize = 0;
    while i < m
        invariant
            n == s@.len(),
            m == p@.len(),
            m <= n,
            i <= m,
            forall|k: int| 0 <= k < i ==> s@[n - m + k] == p@[k],
        decreases m - i,
    {
        if s.get_char(n - m + i) != p.get_char(i) {
            proof {
                assert(!(p@ =~= s@.subrange(n - m, n as int)));
            }
            return false;
        }
        i = i + 1;
    }
    proof {
        assert(p@ =~= s@.subrange(n - m, n as int));
    }
    true
}

/// Whether the character `c` occurs in `s`.
pub fn str_contains_char(s: &str, c: char) -> (r: bool)
    ensures
        r == s@.contains(c),
{
    let n = s.unicode_len();
    let mut i: usize = 0;
    while i < n
        invariant
            n == s@.len(),
            i <= n,
            forall|k: int| 0 <= k < i ==> s@[k] != c,
        decreases n - i,
    {
        if s.get_char(i) == c {
            return true;
        }
        i = i + 1;
    }
    false
}

/// Whether the character is trimmed whitespace.
fn is_blank(c: char) -> (r: bool)
    ensures
        r == is_blank_char(c),
{
    let u = c as u32;
    u == 0x0009 || u == 0x000A || u == 0x000B || u == 0x000C || u == 0x000D || u == 0x0020 || u
        == 0x0085 || u == 0x00A0 || u == 0x1680 || (0x2000 <= u && u <= 0x200A) || u == 0x2028 || u
        == 0x2029 || u == 0x202F || u == 0x205F || u == 0x3000
}

/// A copy of `s` without its leading and trailing whitespace.
pub fn trim_spaces(s: &str) -> (r: String)
    ensures
        r@ == spec_trim(s@),
{
    let n = s.unicode_len();
    proof {
        assert(s@.subrange(0, n as int) =~= s@);
    }
    let mut start: usize = 0;
    let mut end: usize = n;
    while start < n && is_blank(s.get_char(start))
        invariant
            n == s@.len(),
            start <= n,
            spec_trim(s@) == spec_trim(s@.subrange(start as int, n as int)),
        decreases n - start,
    {
        proof {
            assert(s@.subrange(start as int, n as int).drop_first() =~= s@.subrange(
                start as int + 1,
                n as int,
            ));
        }
        start = start + 1;
    }
    while end > start && is_blank(s.get_char(end - 1))
        invariant
            n == s@.len(),
            start <= end <= n,
            start < n ==> !is_blank_char(s@[start as int]),
            start == n ==> end == start,
            spec_trim(s@) == spec_trim(s@.subrange(start as int, end as int)),
        decreases end,
    {
        proof {
            assert(s@.subrange(start as int, end as int).drop_last() =~= s@.subrange(
                start as int,
                end as int - 1,
            ));
        }
        end = end - 1;
    }
    let r = s.substring_char(start, end).to_owned();
    proof {
        if start == end {
            assert(s@.subrange(start as int, end as int) =~= Seq::<char>::empty());
        }
    }
    r
}

/// The words of `s`, split on single space characters; empty segments are kept.
pub fn split_on_space(s: &str) -> (r: Vec<String>)
    ensures
        seq_views(r@) == spec_split(s@),
        r@.len() > 0,
{
    let n = s.unicode_len();
    let mut out: Vec<String> = Vec::new();
    let mut cur: String = String::new();
    proof {
        assert(s@.subrange(0, n as int) =~= s@);
        assert(seq_views(out@) =~= Seq::<Seq<char>>::empty());
        assert(seq_views(out@) + spec_split_acc(s@, cur@) =~= spec_split_acc(s@, cur@));
    }
    let mut i: usize = 0;
    while i < n
        invariant
            n == s@.len(),
            i <= n,
            spec_split(s@) == seq_views(out@) + spec_split_acc(
                s@.subrange(i as int, n as int),
                cur@,
            ),
        decreases n - i,
    {
        let ghost rest = s@.subrange(i as int, n as int);
        proof {
            assert(rest.drop_first() =~= s@.subrange(i as int + 1, n as int));
            assert(rest[0] == s@[i as int]);
        }
        let c = s.get_char(i);
        if c == ' ' {
            let ghost old_out = out@;
            let ghost old_cur = cur@;
            out.push(cur);
            cur = String::new();
            proof {
                assert(seq_views(out@) =~= seq_views(old_out).push(old_cur));
                assert(seq_views(old_out).push(old_cur) =~= seq_views(old_out) + seq![old_cur]);
            }
        } else {
            push_char(&mut cur, c);
        }
        i = i + 1;
    }
    let ghost old_out = out@;
    let ghost old_cur = cur@;
    out.push(cur);
    proof {
        assert(s@.subrange(n as int, n as int) =~= Seq::<char>::empty());
        assert(seq_views(out@) =~= seq_views(old_out).push(old_cur));
        assert(seq_views(old_out).push(old_cur) =~= seq_views(old_out) + seq![old_cur]);
    }
    out
}

} // verus!
