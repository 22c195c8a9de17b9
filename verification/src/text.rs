//! Text primitives for the filter engine and the executor: substring
//! search, trailing-whitespace trimming, character-sequence equality, and
//! the two text functions taken from outside code — Unicode lowercasing
//! and Levenshtein edit distance — each named by an uninterpreted spec
//! function so that contracts can speak of their results exactly.

use vstd::prelude::*;
use vstd::string::StrSliceExecFns;

verus! {

/// The lowercase folding of a character sequence, as `str::to_lowercase`
/// computes it; the result depends on the characters alone.
pub uninterp spec fn lower_of(s: Seq<char>) -> Seq<char>;

/// The Levenshtein edit distance between two character sequences, as the
/// `levenshtein` crate computes it; a function of the two sequences alone.
pub uninterp spec fn edit_distance(a: Seq<char>, b: Seq<char>) -> nat;

/// Relies on `str::to_lowercase`: the returned string is the Unicode
/// lowercase mapping of the input, a function of the input characters
/// alone, here named `lower_of`.
#[verifier::external_body]
pub(crate) fn to_lowercase(s: &str) -> (r: String)
    ensures
        r@ == lower_of(s@),
{
    s.to_lowercase()
}

/// Relies on `levenshtein::levenshtein`: the returned number is the edit
/// distance between the two strings, a function of their characters
/// alone, here named `edit_distance`.
#[verifier::external_body]
pub(crate) fn levenshtein_distance(a: &str, b: &str) -> (r: usize)
    ensures
        r as nat == edit_distance(a@, b@),
{
    levenshtein::levenshtein(a, b)
}

/// `needle` occurs contiguously somewhere in `hay`.
pub open spec fn is_substring(needle: Seq<char>, hay: Seq<char>) -> bool {
    exists|i: int|
        0 <= i && i + needle.len() <= hay.len() && #[trigger] hay.subrange(i, i + needle.len())
            == needle
}

/// Whether `c` has the Unicode `White_Space` property, which is what
/// trailing-whitespace trimming strips.
pub open spec fn is_space_char(c: char) -> bool {
    let u: u32 = c as u32;
    (9 <= u && u <= 13) || u == 32 || u == 0x85 || u == 0xA0 || u == 0x1680 || (0x2000 <= u && u
        <= 0x200A) || u == 0x2028 || u == 0x2029 || u == 0x202F || u == 0x205F || u == 0x3000
}

/// `s` with every trailing whitespace character removed.
pub open spec fn spec_trim_end(s: Seq<char>) -> Seq<char>
    decreases s.len(),
{
    if s.len() > 0 && is_space_char(s.last()) {
        spec_trim_end(s.drop_last())
    } else {
        s
    }
}

pub fn is_space(c: char) -> (r: bool)
    ensures
        r == is_space_char(c),
{
    let u: u32 = c as u32;
    (9 <= u && u <= 13) || u == 32 || u == 0x85 || u == 0xA0 || u == 0x1680 || (0x2000 <= u && u
        <= 0x200A) || u == 0x2028 || u == 0x2029 || u == 0x202F || u == 0x205F || u == 0x3000
}

/// Character-for-character equality of two string slices.
pub fn str_eq(a: &str, b: &str) -> (r: bool)
    ensures
        r == (a@ == b@),
{
    let n = a.unicode_len();
    if n != b.unicode_len() {
        proof {
            assert(a@ != b@) by {
                assert(a@.len() != b@.len());
            }
        }
        return false;
    }
    let mut i: usize = 0;
    while i < n
        invariant
            n == a@.len(),
            n == b@.len(),
            i <= n,
            forall|k: int| 0 <= k < i ==> a@[k] == b@[k],
        decreases n - i,
    {
        if a.get_char(i) != b.get_char(i) {
            return false;
        }
        i = i + 1;
    }
    proof {
        assert(a@ =~= b@);
    }
    true
}

/// Whether `needle` occurs in `hay`, by direct character comparison.
pub fn contains_substring(hay: &str, needle: &str) -> (r: bool)
    ensures
        r == is_substring(needle@, hay@),
{
    let n = hay.unicode_len();
    let m = needle.unicode_len();
    if m > n {
        proof {
            assert(!is_substring(needle@, hay@));
        }
        return false;
    }
    if m == 0 {
        proof {
            assert(hay@.subrange(0, 0 + needle@.len() as int) =~= needle@);
        }
        return true;
    }
    let mut i: usize = 0;
    while i <= n - m
        invariant
            n == hay@.len(),
            m == needle@.len(),
            1 <= m <= n,
            i <= n - m + 1,
            forall|s: int|
                0 <= s < i ==> #[trigger] hay@.subrange(s, s + needle@.len()) != needle@,
        decreases n - m + 1 - i,
    {
        let mut j: usize = 0;
        let mut all_equal = true;
        while j < m
            invariant
                n == hay@.len(),
                m == needle@.len(),
                m <= n,
                i + m <= n,
                j <= m,
                all_equal ==> forall|k: int| 0 <= k < j ==> hay@[i + k] == needle@[k],
                !all_equal ==> hay@.subrange(i as int, i + needle@.len()) != needle@,
            decreases m - j,
        {
            if hay.get_char(i + j) != needle.get_char(j) {
                proof {
                    assert(hay@.subrange(i as int, i + needle@.len())[j as int] != needle@[j as int]);
                }
                all_equal = false;
                j = m;
            } else {
                j = j + 1;
            }
        }
        if all_equal {
            proof {
                assert(hay@.subrange(i as int, i + needle@.len()) =~= needle@);
            }
            return true;
        }
        i = i + 1;
    }
    proof {
        assert forall|s: int| 0 <= s && s + needle@.len() <= hay@.len() implies #[trigger] hay@
            .subrange(s, s + needle@.len()) != needle@ by {
            assert(s < i);
        }
    }
    false
}

/// A copy of `s` with trailing whitespace removed.
pub fn trim_end(s: &str) -> (r: String)
    ensures
        r@ == spec_trim_end(s@),
{
    let n = s.unicode_len();
    proof {
        assert(s@.subrange(0, n as int) =~= s@);
    }
    let mut k: usize = n;
    let mut done = false;
    while !done && k > 0
        invariant
            n == s@.len(),
            k <= n,
            spec_trim_end(s@) == spec_trim_end(s@.subrange(0, k as int)),
            done ==> k > 0 && !is_space_char(s@.subrange(0, k as int).last()),
        decreases k + if done { 0int } else { 1int },
    {
        let c = s.get_char(k - 1);
        if !is_space(c) {
            proof {
                assert(s@.subrange(0, k as int).last() == c);
            }
            done = true;
        } else {
            proof {
                let pre = s@.subrange(0, k as int);
                assert(pre.last() == c);
                assert(pre.drop_last() =~= s@.subrange(0, k - 1));
            }
            k = k - 1;
        }
    }
    proof {
        let pre = s@.subrange(0, k as int);
        if k == 0 {
            assert(pre =~= Seq::<char>::empty());
            assert(spec_trim_end(pre) == pre);
        } else {
            assert(spec_trim_end(pre) == pre);
        }
    }
    let t = s.substring_char(0, k);
    t.to_owned()
}


/// The position of the first newline in `s`, or `s`'s length when there
/// is none.
pub open spec fn spec_find_nl(s: Seq<char>) -> int
    decreases s.len(),
{
    if s.len() == 0 {
        0
    } else if s[0] == '\n' {
        0
    } else {
        1 + spec_find_nl(s.drop_first())
    }
}

pub proof fn lemma_find_nl_bounds(s: Seq<char>)
    ensures
        0 <= spec_find_nl(s) <= s.len(),
        spec_find_nl(s) < s.len() ==> s[spec_find_nl(s)] == '\n',
        forall|k: int| 0 <= k < spec_find_nl(s) ==> s[k] != '\n',
    decreases s.len(),
{
    if s.len() > 0 && s[0] != '\n' {
        lemma_find_nl_bounds(s.drop_first());
        let rest = s.drop_first();
        assert forall|k: int| 0 <= k < spec_find_nl(s) implies s[k] != '\n' by {
            if k > 0 {
                assert(rest[k - 1] == s[k]);
            }
        }
        if spec_find_nl(s) < s.len() {
            assert(rest[spec_find_nl(rest)] == s[spec_find_nl(s)]);
        }
    }
}

/// A newline search behaves like a scan: no newline among the first `j`
/// characters decides the search at position `j`.
pub proof fn lemma_find_nl_at(s: Seq<char>, j: int)
    requires
        0 <= j <= s.len(),
        forall|k: int| 0 <= k < j ==> s[k] != '\n',
    ensures
        j == s.len() ==> spec_find_nl(s) == j,
        j < s.len() && s[j] == '\n' ==> spec_find_nl(s) == j,
    decreases s.len(),
{
    if s.len() > 0 && j > 0 {
        let rest = s.drop_first();
        assert forall|k: int| 0 <= k < j - 1 implies rest[k] != '\n' by {
            assert(rest[k] == s[k + 1]);
        }
        lemma_find_nl_at(rest, j - 1);
        if j < s.len() {
            assert(rest[j - 1] == s[j]);
        }
    }
}

/// `s` split at every newline: the segments between newlines, in order,
/// empty segments included; one more segment than there are newlines.
pub open spec fn spec_split_lines(s: Seq<char>) -> Seq<Seq<char>>
    decreases s.len(),
    via check_spec_split_lines
{
    let i = spec_find_nl(s);
    if i == s.len() {
        seq![s]
    } else {
        seq![s.subrange(0, i)] + spec_split_lines(s.subrange(i + 1, s.len() as int))
    }
}

#[via_fn]
proof fn check_spec_split_lines(s: Seq<char>) {
    lemma_find_nl_bounds(s);
}

/// The views of a sequence of strings, element for element.
pub open spec fn strs_views(s: Seq<String>) -> Seq<Seq<char>>
    decreases s,
{
    if s.len() == 0 {
        Seq::empty()
    } else {
        strs_views(s.drop_last()).push(s.last()@)
    }
}

pub broadcast proof fn lemma_strs_views(s: Seq<String>)
    ensures
        (#[trigger] strs_views(s)).len() == s.len(),
        forall|i: int| 0 <= i < s.len() ==> strs_views(s)[i] == s[i]@,
    decreases s.len(),
{
    if s.len() > 0 {
        lemma_strs_views(s.drop_last());
    }
}

/// The segments of `s` between newlines, in order.
#[verifier::loop_isolation(false)]
pub fn split_lines(s: &str) -> (r: Vec<String>)
    ensures
        strs_views(r@) == spec_split_lines(s@),
{
    let n = s.unicode_len();
    let mut out: Vec<String> = Vec::new();
    let mut start: usize = 0;
    let mut p: usize = 0;
    proof {
        assert(strs_views(out@) =~= Seq::<Seq<char>>::empty());
        assert(s@.subrange(0, n as int) =~= s@);
    }
    while p < n
        invariant
            start <= p <= n,
            strs_views(out@) + spec_split_lines(s@.subrange(start as int, n as int))
                =~= spec_split_lines(s@),
            forall|k: int| start <= k < p ==> s@[k] != '\n',
        decreases n - p,
    {
        let c = s.get_char(p);
        if c == '\n' {
            let seg = s.substring_char(start, p).to_owned();
            proof {
                let sub = s@.subrange(start as int, n as int);
                assert forall|k: int| 0 <= k < p - start implies sub[k] != '\n' by {
                    assert(sub[k] == s@[start + k]);
                }
                assert(sub[p - start] == s@[p as int]);
                lemma_find_nl_at(sub, p - start);
                assert(sub.subrange(0, p - start) =~= s@.subrange(start as int, p as int));
                assert(sub.subrange(p - start + 1, sub.len() as int) =~= s@.subrange(
                    p + 1,
                    n as int,
                ));
                assert(strs_views(out@.push(seg)) =~= strs_views(out@).push(seg@)) by {
                    assert(out@.push(seg).drop_last() =~= out@);
                }
            }
            out.push(seg);
            start = p + 1;
        }
        p = p + 1;
    }
    let seg = s.substring_char(start, n).to_owned();
    proof {
        let sub = s@.subrange(start as int, n as int);
        assert forall|k: int| 0 <= k < sub.len() implies sub[k] != '\n' by {
            assert(sub[k] == s@[start + k]);
        }
        lemma_find_nl_at(sub, sub.len() as int);
        assert(strs_views(out@.push(seg)) =~= strs_views(out@).push(seg@)) by {
            assert(out@.push(seg).drop_last() =~= out@);
        }
        assert(strs_views(out@).push(sub) =~= strs_views(out@) + seq![sub]);
    }
    out.push(seg);
    out
}

} // verus!
