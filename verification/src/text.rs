//! Small helpers on strings, by characters.

use vstd::prelude::*;
use vstd::std_specs::iter::IteratorSpec;
use vstd::string::{StrSliceExecFns, StringExecFns};

verus! {

/// Whether `char::is_whitespace` holds of the character: whether it has the
/// Unicode property White_Space.
pub uninterp spec fn white_space(c: char) -> bool;

/// Calls `char::is_whitespace` of std. The contract gives its result the
/// name `white_space` and claims nothing else of it.
#[verifier::external_body]
fn is_whitespace(c: char) -> (b: bool)
    ensures
        b == white_space(c),
{
    c.is_whitespace()
}

/// `sep` stands in `s` at place `p`.
pub open spec fn occurs_at(s: Seq<char>, sep: Seq<char>, p: int) -> bool {
    0 <= p && p + sep.len() <= s.len() && s.subrange(p, p + sep.len()) == sep
}

/// The pieces of `s` from `start` on when the places before `i` are known to
/// hold no further separator: `s` is cut at each occurrence of `sep`, the
/// leftmost first, and an occurrence does not overlap the one before.
pub open spec fn pieces_from(s: Seq<char>, sep: Seq<char>, start: int, i: int) -> Seq<Seq<char>>
    decreases s.len() - i,
    when sep.len() > 0
{
    if i + sep.len() > s.len() {
        seq![s.subrange(start, s.len() as int)]
    } else if occurs_at(s, sep, i) {
        seq![s.subrange(start, i)] + pieces_from(s, sep, i + sep.len(), i + sep.len())
    } else {
        pieces_from(s, sep, start, i + 1)
    }
}

/// The pieces of `s` between the occurrences of `sep`.
pub open spec fn split_spec(s: Seq<char>, sep: Seq<char>) -> Seq<Seq<char>> {
    pieces_from(s, sep, 0, 0)
}

/// `s` without the white space at its start.
pub open spec fn trimmed_start(s: Seq<char>) -> Seq<char>
    decreases s.len(),
{
    if s.len() > 0 && white_space(s[0]) {
        trimmed_start(s.drop_first())
    } else {
        s
    }
}

/// `s` without the white space at its end.
pub open spec fn trimmed_end(s: Seq<char>) -> Seq<char>
    decreases s.len(),
{
    if s.len() > 0 && white_space(s.last()) {
        trimmed_end(s.drop_last())
    } else {
        s
    }
}

/// `s` without the white space at its start and at its end.
pub open spec fn trimmed(s: Seq<char>) -> Seq<char> {
    trimmed_end(trimmed_start(s))
}

/// The strings that a list of slices holds.
pub open spec fn strs(r: Seq<&str>) -> Seq<Seq<char>> {
    Seq::new(r.len(), |k: int| r[k]@)
}

/// The characters of a string.
pub fn to_chars(s: &str) -> (v: Vec<char>)
    ensures
        v@ == s@,
{
    broadcast use vstd::string::group_string_axioms;

    let mut v: Vec<char> = Vec::new();
    let mut it = s.chars();
    assert(it.remaining() == s@);
    loop
        invariant
            it.obeys_prophetic_iter_laws(),
            it.decrease() is Some,
            v@ + it.remaining() == s@,
        ensures
            v@ == s@,
        decreases it.decrease()->0,
    {
        let ghost before = it.remaining();
        match it.next() {
            None => {
                assert(v@ + before =~= v@);
                break ;
            },
            Some(c) => {
                assert(v@.push(c) + before.drop_first() =~= v@ + before);
                v.push(c);
            },
        }
    }
    v
}

/// Whether `s` begins with the characters of `prefix`.
pub fn starts_with(s: &str, prefix: &str) -> (b: bool)
    ensures
        b == prefix@.is_prefix_of(s@),
{
    broadcast use vstd::string::group_string_axioms;

    let mut ps = prefix.chars();
    let mut ss = s.chars();
    let ghost mut k = 0int;
    loop
        invariant
            ps.obeys_prophetic_iter_laws(),
            ss.obeys_prophetic_iter_laws(),
            ps.decrease() is Some,
            0 <= k <= prefix@.len(),
            k <= s@.len(),
            ps.remaining() == prefix@.skip(k),
            ss.remaining() == s@.skip(k),
            prefix@.take(k) == s@.take(k),
        decreases ps.decrease()->0,
    {
        match ps.next() {
            None => {
                assert(prefix@.take(k) =~= prefix@);
                assert(s@.take(k) =~= s@.subrange(0, prefix@.len() as int));
                return true;
            },
            Some(pc) => {
                assert(pc == prefix@[k]);
                match ss.next() {
                    None => {
                        return false;
                    },
                    Some(sc) => {
                        assert(sc == s@[k]);
                        if pc != sc {
                            assert(prefix@.is_prefix_of(s@) ==> s@.subrange(
                                0,
                                prefix@.len() as int,
                            )[k] == prefix@[k]);
                            return false;
                        }
                        proof {
                            assert(prefix@.skip(k).drop_first() =~= prefix@.skip(k + 1));
                            assert(s@.skip(k).drop_first() =~= s@.skip(k + 1));
                            assert(prefix@.take(k + 1) =~= prefix@.take(k).push(pc));
                            assert(s@.take(k + 1) =~= s@.take(k).push(sc));
                            k = k + 1;
                        }
                    },
                }
            },
        }
    }
}

/// What follows `prefix` in `s`, where `s` begins with it.
pub fn strip_prefix<'a>(s: &'a str, prefix: &str) -> (r: Option<&'a str>)
    ensures
        match r {
            Some(rest) => prefix@.is_prefix_of(s@) && rest@ == s@.skip(prefix@.len() as int),
            None => !prefix@.is_prefix_of(s@),
        },
{
    if starts_with(s, prefix) {
        Some(s.substring_char(prefix.unicode_len(), s.unicode_len()))
    } else {
        None
    }
}

/// Whether `pat` stands in `chars` at place `i`.
fn matches_at(chars: &Vec<char>, pat: &Vec<char>, i: usize) -> (b: bool)
    requires
        i + pat.len() <= chars.len(),
    ensures
        b == occurs_at(chars@, pat@, i as int),
{
    let ghost window = chars@.subrange(i as int, i + pat.len());
    for k in 0..pat.len()
        invariant
            i + pat.len() <= chars.len(),
            window == chars@.subrange(i as int, i + pat.len()),
            forall|j: int| 0 <= j < k ==> window[j] == pat@[j],
    {
        if chars[i + k] != pat[k] {
            assert(window[k as int] != pat@[k as int]);
            return false;
        }
    }
    assert(window =~= pat@);
    true
}

/// Cuts `s` at each occurrence of `sep`, the leftmost first.
pub fn split<'a>(s: &'a str, sep: &str) -> (r: Vec<&'a str>)
    requires
        sep@.len() > 0,
    ensures
        strs(r@) == split_spec(s@, sep@),
{
    let chars = to_chars(s);
    let pat = to_chars(sep);
    let n = chars.len();
    let m = pat.len();
    let mut out: Vec<&'a str> = Vec::new();
    let mut start: usize = 0;
    let mut i: usize = 0;
    assert(strs(out@) + pieces_from(s@, sep@, 0, 0) =~= split_spec(s@, sep@));
    while m <= n && i <= n - m
        invariant
            chars@ == s@,
            pat@ == sep@,
            n == s@.len(),
            m == sep@.len(),
            m > 0,
            start <= i <= n,
            strs(out@) + pieces_from(s@, sep@, start as int, i as int) == split_spec(s@, sep@),
        decreases n - i,
    {
        if matches_at(&chars, &pat, i) {
            out.push(s.substring_char(start, i));
            i = i + m;
            start = i;
            assert(strs(out@) + pieces_from(s@, sep@, start as int, i as int) =~= split_spec(
                s@,
                sep@,
            ));
        } else {
            i = i + 1;
        }
    }
    let ghost done = strs(out@);
    out.push(s.substring_char(start, n));
    assert(strs(out@) =~= done + pieces_from(s@, sep@, start as int, i as int));
    out
}

/// `s` without the white space at its start and at its end.
pub fn trim<'a>(s: &'a str) -> (r: &'a str)
    ensures
        r@ == trimmed(s@),
{
    let chars = to_chars(s);
    let n = chars.len();
    let mut a: usize = 0;
    assert(s@.skip(0) =~= s@);
    while a < n && is_whitespace(chars[a])
        invariant
            chars@ == s@,
            n == s@.len(),
            a <= n,
            trimmed_start(s@) == trimmed_start(s@.skip(a as int)),
        decreases n - a,
    {
        assert(s@.skip(a as int).drop_first() =~= s@.skip(a + 1));
        a = a + 1;
    }
    assert(trimmed_start(s@) == s@.skip(a as int));
    let mut b: usize = n;
    while b > a && is_whitespace(chars[b - 1])
        invariant
            chars@ == s@,
            n == s@.len(),
            a <= b <= n,
            trimmed(s@) == trimmed_end(s@.subrange(a as int, b as int)),
        decreases b,
    {
        assert(s@.subrange(a as int, b as int).drop_last() =~= s@.subrange(a as int, b - 1));
        b = b - 1;
    }
    proof {
        assert(s@.skip(a as int) =~= s@.subrange(a as int, n as int));
    }
    s.substring_char(a, b)
}

/// The characters of `s` from place `from` on, at most `to` of them.
pub fn substr(s: &str, from: usize, to: usize) -> (r: String)
    ensures
        r@ == s@.skip(
            if from < s@.len() {
                from as int
            } else {
                s@.len() as int
            },
        ).take(
            if to < s@.len() - from {
                to as int
            } else if from < s@.len() {
                s@.len() - from
            } else {
                0
            },
        ),
{
    let n = s.unicode_len();
    let a = if from < n {
        from
    } else {
        n
    };
    let b = if to < n - a {
        a + to
    } else {
        n
    };
    let piece = s.substring_char(a, b);
    assert(piece@ =~= s@.skip(a as int).take(b - a));
    String::from_str(piece)
}

} // verus!
