//! Character-level string utilities: equality, prefix tests, substring
//! containment, and extraction of the value part of an `option=value` token.
//!
//! All contracts are stated over `Seq<char>` views of `&str` / `String`.

use vstd::prelude::*;

verus! {

/// True when `needle` occurs at position `i` of `hay`.
pub open spec fn matches_at(hay: Seq<char>, needle: Seq<char>, i: int) -> bool {
    0 <= i && i + needle.len() <= hay.len() && hay.subrange(i, i + needle.len()) == needle
}

/// True when `needle` occurs somewhere in `hay` (the ignore-pattern test).
pub open spec fn contains_seq(hay: Seq<char>, needle: Seq<char>) -> bool {
    exists|i: int| matches_at(hay, needle, i)
}

/// True when `p` is a prefix of `s`.
pub open spec fn has_prefix_seq(s: Seq<char>, p: Seq<char>) -> bool {
    p.len() <= s.len() && s.subrange(0, p.len() as int) == p
}

/// Character-by-character string equality.
pub fn str_eq(a: &str, b: &str) -> (r: bool)
    ensures
        r == (a@ == b@),
{
    let an = a.unicode_len();
    let bn = b.unicode_len();
    if an != bn {
        assert(a@ != b@);
        return false;
    }
    let mut i: usize = 0;
    while i < an
        invariant
            an == a@.len(),
            an == b@.len(),
            i <= an,
            forall|j: int| 0 <= j < i ==> a@[j] == b@[j],
        decreases an - i,
    {
        if a.get_char(i) != b.get_char(i) {
            return false;
        }
        i = i + 1;
    }
    proof {
        assert(a@ =~= b@);
    }
    true
}

/// Whether `p` is a prefix of `s`.
pub fn has_prefix(s: &str, p: &str) -> (r: bool)
    ensures
        r == has_prefix_seq(s@, p@),
{
    let sn = s.unicode_len();
    let pn = p.unicode_len();
    if pn > sn {
        return false;
    }
    let mut i: usize = 0;
    while i < pn
        invariant
            sn == s@.len(),
            pn == p@.len(),
            pn <= sn,
            i <= pn,
            forall|j: int| 0 <= j < i ==> s@[j] == p@[j],
        decreases pn - i,
    {
        if s.get_char(i) != p.get_char(i) {
            assert(s@.subrange(0, p@.len() as int)[i as int] != p@[i as int]);
            return false;
        }
        i = i + 1;
    }
    proof {
        assert(s@.subrange(0, p@.len() as int) =~= p@);
    }
    true
}

/// Whether `needle` occurs as a contiguous substring of `hay`.
pub fn contains_str(hay: &str, needle: &str) -> (r: bool)
    ensures
        r == contains_seq(hay@, needle@),
{
    let hn = hay.unicode_len();
    let nn = needle.unicode_len();
    if nn > hn {
        assert(forall|i: int| !matches_at(hay@, needle@, i));
        return false;
    }
    if nn == 0 {
        proof {
            assert(hay@.subrange(0, 0) =~= needle@);
            assert(matches_at(hay@, needle@, 0));
        }
        return true;
    }
    let mut i: usize = 0;
    while i <= hn - nn
        invariant
            hn == hay@.len(),
            nn == needle@.len(),
            1 <= nn <= hn,
            i <= hn - nn + 1,
            forall|k: int| 0 <= k < i ==> !matches_at(hay@, needle@, k),
        decreases hn + 1 - nn - i,
    {
        let mut j: usize = 0;
        let mut all_match = true;
        while j < nn
            invariant
                hn == hay@.len(),
                nn == needle@.len(),
                i + nn <= hn,
                j <= nn,
                all_match ==> forall|l: int| 0 <= l < j ==> hay@[i + l] == needle@[l],
                !all_match ==> !matches_at(hay@, needle@, i as int),
            decreases nn - j,
        {
            if all_match && hay.get_char(i + j) != needle.get_char(j) {
                proof {
                    let jj = j as int;
                    assert(hay@.subrange(i as int, i + needle@.len())[jj] != needle@[jj]);
                }
                all_match = false;
            }
            j = j + 1;
        }
        if all_match {
            proof {
                assert(hay@.subrange(i as int, i + needle@.len()) =~= needle@);
                assert(matches_at(hay@, needle@, i as int));
            }
            return true;
        }
        i = i + 1;
    }
    proof {
        assert forall|k: int| !matches_at(hay@, needle@, k) by {
            if matches_at(hay@, needle@, k) {
                assert(0 <= k < i);
            }
        }
    }
    false
}

/// The value part of an `option=value` token: every character of `arg`
/// after position `start`, to the end of the token.
pub fn value_after(arg: &str, start: usize) -> (r: String)
    requires
        start <= arg@.len(),
    ensures
        r@ == arg@.skip(start as int),
{
    let n = arg.unicode_len();
    let v = arg.substring_char(start, n).to_owned();
    proof {
        assert(v@ =~= arg@.skip(start as int));
    }
    v
}

} // verus!
