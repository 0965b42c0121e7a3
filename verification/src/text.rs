//! Character-level helpers for URL canonicalization: ASCII lowercasing,
//! stripping of trailing slashes, and substring search.

use vstd::prelude::*;
use vstd::string::*;

verus! {

/// ASCII lowercase of one character: `'A'..='Z'` map to `'a'..='z'`,
/// every other character is unchanged.
pub open spec fn lower_char(c: char) -> char {
    if 'A' <= c && c <= 'Z' {
        (((c as u32) + 32) as u8) as char
    } else {
        c
    }
}

/// ASCII lowercase of a character sequence.
pub open spec fn lower_seq(s: Seq<char>) -> Seq<char> {
    s.map_values(|c: char| lower_char(c))
}

/// The sequence with every trailing `'/'` removed.
pub open spec fn strip_slashes(s: Seq<char>) -> Seq<char>
    decreases s.len(),
{
    if s.len() > 0 && s.last() == '/' {
        strip_slashes(s.drop_last())
    } else {
        s
    }
}

/// `needle` occurs contiguously somewhere in `hay`.
pub open spec fn has_substring(hay: Seq<char>, needle: Seq<char>) -> bool {
    exists|i: int|
        0 <= i && i + needle.len() <= hay.len() && #[trigger] hay.subrange(i, i + needle.len())
            == needle
}

/// Relies on `String::push`: appends the character to the end of the string.
#[verifier::external_body]
pub(crate) fn push_char(s: &mut String, c: char)
    ensures
        final(s)@ == old(s)@.push(c),
{
    s.push(c);
}

pub fn lower_char_exec(c: char) -> (r: char)
    ensures
        r == lower_char(c),
{
    if 'A' <= c && c <= 'Z' {
        (((c as u32) + 32) as u8) as char
    } else {
        c
    }
}

pub fn lower_str(s: &str) -> (r: String)
    ensures
        r@ == lower_seq(s@),
{
    let n = s.unicode_len();
    let mut r = String::new();
    let mut i: usize = 0;
    while i < n
        invariant
            n == s@.len(),
            i <= n,
            r@ == lower_seq(s@.take(i as int)),
        decreases n - i,
    {
        let c = s.get_char(i);
        let lc = lower_char_exec(c);
        push_char(&mut r, lc);
        i = i + 1;
        proof {
            assert(s@.take(i as int) =~= s@.take(i - 1).push(s@[i - 1]));
            assert(lower_seq(s@.take(i as int)) =~= lower_seq(s@.take(i - 1)).push(
                lower_char(s@[i - 1]),
            ));
        }
    }
    proof {
        assert(s@.take(n as int) =~= s@);
    }
    r
}

pub fn strip_trailing_slashes(s: &str) -> (r: String)
    ensures
        r@ == strip_slashes(s@),
{
    let n = s.unicode_len();
    let mut cut = n;
    proof {
        assert(s@.take(n as int) =~= s@);
    }
    while cut > 0 && s.get_char(cut - 1) == '/'
        invariant
            n == s@.len(),
            cut <= n,
            strip_slashes(s@) == strip_slashes(s@.take(cut as int)),
        decreases cut,
    {
        proof {
            assert(s@.take(cut as int).last() == s@[cut - 1]);
            assert(s@.take(cut as int).drop_last() =~= s@.take(cut - 1));
        }
        cut = cut - 1;
    }
    let r = s.substring_char(0, cut);
    proof {
        assert(s@.take(cut as int) =~= s@.subrange(0, cut as int));
        if cut > 0 {
            assert(s@.take(cut as int).last() != '/');
        }
        assert(strip_slashes(s@.take(cut as int)) == s@.take(cut as int));
    }
    String::from_str(r)
}

fn match_at(hay: &str, needle: &str, i: usize) -> (r: bool)
    requires
        i + needle@.len() <= hay@.len(),
    ensures
        r == (hay@.subrange(i as int, i + needle@.len()) == needle@),
{
    let hn = hay.unicode_len();
    let nn = needle.unicode_len();
    let mut j: usize = 0;
    while j < nn
        invariant
            hn == hay@.len(),
            nn == needle@.len(),
            i + nn <= hn,
            j <= nn,
            forall|k: int| 0 <= k < j ==> hay@[i + k] == needle@[k],
        decreases nn - j,
    {
        let hc = hay.get_char(i + j);
        let nc = needle.get_char(j);
        if hc != nc {
            proof {
                assert(hay@.subrange(i as int, i + needle@.len())[j as int] != needle@[j as int]);
            }
            return false;
        }
        j = j + 1;
    }
    proof {
        assert(hay@.subrange(i as int, i + needle@.len()) =~= needle@);
    }
    true
}

pub fn contains_substring(hay: &str, needle: &str) -> (r: bool)
    ensures
        r == has_substring(hay@, needle@),
{
    let hn = hay.unicode_len();
    let nn = needle.unicode_len();
    if nn > hn {
        return false;
    }
    if nn == 0 {
        proof {
            assert(hay@.subrange(0, 0 + needle@.len() as int) =~= needle@);
        }
        return true;
    }
    let mut i: usize = 0;
    while i <= hn - nn
        invariant
            hn == hay@.len(),
            nn == needle@.len(),
            0 < nn <= hn,
            i <= hn - nn + 1,
            forall|j: int| 0 <= j < i ==> #[trigger] hay@.subrange(j, j + needle@.len()) != needle@,
        decreases hn - i,
    {
        if match_at(hay, needle, i) {
            return true;
        }
        i = i + 1;
    }
    false
}

/// Lowercasing is idempotent: a character already outside `'A'..='Z'`
/// stays where it is.
pub proof fn lemma_lower_char_idempotent(c: char)
    ensures
        lower_char(lower_char(c)) == lower_char(c),
{
}

/// Lowercasing a sequence twice is the same as lowercasing it once.
pub proof fn lemma_lower_seq_idempotent(s: Seq<char>)
    ensures
        lower_seq(lower_seq(s)) == lower_seq(s),
{
    assert forall|i: int| 0 <= i < s.len() implies lower_char(lower_char(s[i])) == lower_char(
        s[i],
    ) by {
        lemma_lower_char_idempotent(s[i]);
    }
    assert(lower_seq(lower_seq(s)) =~= lower_seq(s));
}

/// Stripping trailing slashes is idempotent.
pub proof fn lemma_strip_idempotent(s: Seq<char>)
    ensures
        strip_slashes(strip_slashes(s)) == strip_slashes(s),
    decreases s.len(),
{
    if s.len() > 0 && s.last() == '/' {
        lemma_strip_idempotent(s.drop_last());
    }
}

/// Lowercasing maps `'/'` to itself and nothing else to `'/'`, so it
/// commutes with stripping trailing slashes.
pub proof fn lemma_lower_strip_commute(s: Seq<char>)
    ensures
        strip_slashes(lower_seq(s)) == lower_seq(strip_slashes(s)),
    decreases s.len(),
{
    if s.len() > 0 {
        assert(lower_seq(s).last() == lower_char(s.last()));
        assert((lower_char(s.last()) == '/') == (s.last() == '/'));
        if s.last() == '/' {
            assert(lower_seq(s).drop_last() =~= lower_seq(s.drop_last()));
            lemma_lower_strip_commute(s.drop_last());
        } else {
            assert(strip_slashes(lower_seq(s)) == lower_seq(s));
        }
    } else {
        assert(lower_seq(s) =~= Seq::<char>::empty());
    }
}

} // verus!
