use vstd::prelude::*;

use core::cmp::Ordering;

verus! {

/// The opposite of an ordering.
pub open spec fn flip(o: Ordering) -> Ordering {
    match o {
        Ordering::Less => Ordering::Greater,
        Ordering::Equal => Ordering::Equal,
        Ordering::Greater => Ordering::Less,
    }
}

/// Ranking of two boolean signals where `true` ranks higher (earlier).
pub open spec fn cmp_bool_rank(a: bool, b: bool) -> Ordering {
    if a && !b {
        Ordering::Less
    } else if !a && b {
        Ordering::Greater
    } else {
        Ordering::Equal
    }
}

/// Ascending ranking of two integers: the smaller ranks higher (earlier).
pub open spec fn cmp_int_asc(a: int, b: int) -> Ordering {
    if a < b {
        Ordering::Less
    } else if a > b {
        Ordering::Greater
    } else {
        Ordering::Equal
    }
}

/// Ranking of two optional indexes: a present, lower index ranks higher;
/// present beats absent; two equal indexes or two absences tie.
pub open spec fn cmp_opt_idx(a: Option<int>, b: Option<int>) -> Ordering {
    match (a, b) {
        (Some(x), Some(y)) => cmp_int_asc(x, y),
        (Some(x), None) => Ordering::Less,
        (None, Some(y)) => Ordering::Greater,
        (None, None) => Ordering::Equal,
    }
}

/// Lexicographic order of two character sequences by code point.
pub open spec fn cmp_seq_char(a: Seq<char>, b: Seq<char>) -> Ordering
    decreases a.len(),
{
    if a.len() == 0 && b.len() == 0 {
        Ordering::Equal
    } else if a.len() == 0 {
        Ordering::Less
    } else if b.len() == 0 {
        Ordering::Greater
    } else if (a[0] as u32) < (b[0] as u32) {
        Ordering::Less
    } else if (a[0] as u32) > (b[0] as u32) {
        Ordering::Greater
    } else {
        cmp_seq_char(a.drop_first(), b.drop_first())
    }
}

/// Swapping the arguments of the lexicographic order flips its result.
pub proof fn lemma_cmp_seq_char_flip(a: Seq<char>, b: Seq<char>)
    ensures
        cmp_seq_char(b, a) == flip(cmp_seq_char(a, b)),
    decreases a.len(),
{
    if a.len() > 0 && b.len() > 0 && !((a[0] as u32) < (b[0] as u32)) && !((a[0] as u32) > (
    b[0] as u32)) {
        lemma_cmp_seq_char_flip(a.drop_first(), b.drop_first());
    }
}

/// The view of an optional machine index as an optional integer.
pub open spec fn opt_int(o: Option<usize>) -> Option<int> {
    match o {
        Some(u) => Some(u as int),
        None => None,
    }
}

/// Compares two boolean ranking signals; `true` ranks higher.
pub fn bool_rank(a: bool, b: bool) -> (o: Ordering)
    ensures
        o == cmp_bool_rank(a, b),
{
    if a && !b {
        Ordering::Less
    } else if !a && b {
        Ordering::Greater
    } else {
        Ordering::Equal
    }
}

/// Compares two machine integers ascending.
pub fn usize_asc(a: usize, b: usize) -> (o: Ordering)
    ensures
        o == cmp_int_asc(a as int, b as int),
{
    if a < b {
        Ordering::Less
    } else if a > b {
        Ordering::Greater
    } else {
        Ordering::Equal
    }
}

/// Compares two machine integers descending: the larger ranks higher.
pub fn usize_desc(a: usize, b: usize) -> (o: Ordering)
    ensures
        o == cmp_int_asc(b as int, a as int),
{
    usize_asc(b, a)
}

/// Compares two optional indexes: present-and-lower ranks higher.
pub fn opt_idx_rank(a: &Option<usize>, b: &Option<usize>) -> (o: Ordering)
    ensures
        o == cmp_opt_idx(opt_int(*a), opt_int(*b)),
{
    match (a, b) {
        (Some(x), Some(y)) => usize_asc(*x, *y),
        (Some(_), None) => Ordering::Less,
        (None, Some(_)) => Ordering::Greater,
        (None, None) => Ordering::Equal,
    }
}

/// Compares two strings lexicographically by character code point.
pub fn str_cmp(a: &str, b: &str) -> (o: Ordering)
    ensures
        o == cmp_seq_char(a@, b@),
{
    let n = a.unicode_len();
    let m = b.unicode_len();
    proof {
        assert(a@.subrange(0, n as int) =~= a@);
        assert(b@.subrange(0, m as int) =~= b@);
    }
    let mut i: usize = 0;
    while i < n && i < m
        invariant
            n == a@.len(),
            m == b@.len(),
            i <= n,
            i <= m,
            cmp_seq_char(a@, b@) == cmp_seq_char(
                a@.subrange(i as int, n as int),
                b@.subrange(i as int, m as int),
            ),
        decreases n - i,
    {
        let ca = a.get_char(i);
        let cb = b.get_char(i);
        proof {
            assert(a@.subrange(i as int, n as int)[0] == a@[i as int]);
            assert(b@.subrange(i as int, m as int)[0] == b@[i as int]);
            assert(a@.subrange(i as int, n as int).drop_first() =~= a@.subrange(
                i as int + 1,
                n as int,
            ));
            assert(b@.subrange(i as int, m as int).drop_first() =~= b@.subrange(
                i as int + 1,
                m as int,
            ));
        }
        if (ca as u32) < (cb as u32) {
            return Ordering::Less;
        }
        if (ca as u32) > (cb as u32) {
            return Ordering::Greater;
        }
        proof {
            assert(a@[i as int] as u32 == b@[i as int] as u32);
        }
        i = i + 1;
    }
    proof {
        if i == n && i == m {
            assert(a@.subrange(i as int, n as int).len() == 0);
            assert(b@.subrange(i as int, m as int).len() == 0);
        } else if i == n {
            assert(a@.subrange(i as int, n as int).len() == 0);
            assert(b@.subrange(i as int, m as int).len() > 0);
        } else {
            assert(b@.subrange(i as int, m as int).len() == 0);
            assert(a@.subrange(i as int, n as int).len() > 0);
        }
    }
    if n == m {
        Ordering::Equal
    } else if n < m {
        Ordering::Less
    } else {
        Ordering::Greater
    }
}

} // verus!
