//! Text operations on character sequences that the directive parser needs:
//! trimming, prefix skipping, searching, splitting and case folding.
use vstd::prelude::*;
use crate::text::{
    ascii_lower, sub_chars, to_ascii_lower, trim_bounds, trim_end_index, trim_start_index,
};

verus! {

/// `str::trim`: the text without leading and trailing white space.
pub open spec fn trimmed(t: Seq<char>) -> Seq<char> {
    let a = trim_start_index(t, 0, t.len() as int);
    t.subrange(a, trim_end_index(t, a, t.len() as int))
}

/// `str::trim_start`: the text without leading white space.
pub open spec fn trimmed_start(t: Seq<char>) -> Seq<char> {
    t.subrange(trim_start_index(t, 0, t.len() as int), t.len() as int)
}

/// The first index at or after `i` whose character is not `c`.
pub open spec fn run_of(t: Seq<char>, c: char, i: int) -> int
    decreases t.len() - i,
{
    if 0 <= i < t.len() && t[i] == c {
        run_of(t, c, i + 1)
    } else {
        i
    }
}

pub proof fn lemma_run_of(t: Seq<char>, c: char, i: int)
    requires
        0 <= i <= t.len(),
    ensures
        i <= run_of(t, c, i) <= t.len(),
    decreases t.len() - i,
{
    if i < t.len() && t[i] == c {
        lemma_run_of(t, c, i + 1);
    }
}

/// `str::trim_start_matches(c)`: the text without the leading run of `c`.
pub open spec fn skip_leading(t: Seq<char>, c: char) -> Seq<char> {
    t.subrange(run_of(t, c, 0), t.len() as int)
}

/// The first index at or after `i` where `pat` occurs in `t`.
pub open spec fn find_from(t: Seq<char>, pat: Seq<char>, i: int) -> Option<int>
    decreases t.len() + 1 - i,
{
    if i < 0 || i + pat.len() > t.len() {
        None
    } else if t.subrange(i, i + pat.len()) == pat {
        Some(i)
    } else {
        find_from(t, pat, i + 1)
    }
}

pub proof fn lemma_find_from(t: Seq<char>, pat: Seq<char>, i: int)
    ensures
        find_from(t, pat, i) matches Some(k) ==> i <= k && k + pat.len() <= t.len(),
    decreases t.len() + 1 - i,
{
    if !(i < 0 || i + pat.len() > t.len()) && t.subrange(i, i + pat.len()) != pat {
        lemma_find_from(t, pat, i + 1);
    }
}

/// ASCII lowercasing of every character.
pub open spec fn lower_ascii(t: Seq<char>) -> Seq<char> {
    t.map_values(|c: char| ascii_lower(c))
}

/// Copies the characters of `t` into a string.
pub fn string_of(t: &[char]) -> (s: String)
    ensures
        s@ == t@,
{
    let mut s = String::new();
    push_chars(&mut s, t);
    s
}

/// Appends the characters of `t` to `out`.
pub fn push_chars(out: &mut String, t: &[char])
    ensures
        final(out)@ == old(out)@ + t@,
{
    let mut i: usize = 0;
    while i < t.len()
        invariant
            0 <= i <= t@.len(),
            out@ == old(out)@ + t@.subrange(0, i as int),
        decreases t@.len() - i,
    {
        out.push(t[i]);
        i = i + 1;
        assert(out@ =~= old(out)@ + t@.subrange(0, i as int));
    }
    assert(t@.subrange(0, t@.len() as int) =~= t@);
}

/// The characters of `t` without leading and trailing white space.
pub fn trim(t: &[char]) -> (r: Vec<char>)
    ensures
        r@ == trimmed(t@),
{
    let (a, b) = trim_bounds(t, 0, t.len());
    sub_chars(t, a, b)
}

/// The characters of `t` without leading white space.
pub fn trim_start(t: &[char]) -> (r: Vec<char>)
    ensures
        r@ == trimmed_start(t@),
{
    let (a, _) = trim_bounds(t, 0, t.len());
    sub_chars(t, a, t.len())
}

/// The characters of `t` without the leading run of `c`.
pub fn skip_leading_char(t: &[char], c: char) -> (r: Vec<char>)
    ensures
        r@ == skip_leading(t@, c),
{
    let mut i: usize = 0;
    while i < t.len() && t[i] == c
        invariant
            0 <= i <= t@.len(),
            run_of(t@, c, 0) == run_of(t@, c, i as int),
        decreases t@.len() - i,
    {
        i = i + 1;
    }
    sub_chars(t, i, t.len())
}

/// Whether `pat` occurs in `t` at index `i`.
pub fn occurs_at(t: &[char], pat: &[char], i: usize) -> (r: bool)
    requires
        i + pat@.len() <= t@.len(),
    ensures
        r == (t@.subrange(i as int, i + pat@.len()) == pat@),
{
    let n = t.len();
    let mut j: usize = 0;
    while j < pat.len()
        invariant
            i + pat@.len() <= t@.len(),
            n == t@.len(),
            0 <= j <= pat@.len(),
            forall|k: int| 0 <= k < j ==> t@[i + k] == pat@[k],
        decreases pat@.len() - j,
    {
        if t[i + j] != pat[j] {
            assert(t@.subrange(i as int, i + pat@.len())[j as int] != pat@[j as int]);
            return false;
        }
        j = j + 1;
    }
    assert(t@.subrange(i as int, i + pat@.len()) =~= pat@);
    true
}

/// The first index where `pat` occurs in `t`.
pub fn find(t: &[char], pat: &[char]) -> (r: Option<usize>)
    ensures
        match r {
            Some(k) => find_from(t@, pat@, 0) == Some(k as int) && k + pat@.len() <= t@.len(),
            None => find_from(t@, pat@, 0) is None,
        },
{
    if pat.len() > t.len() {
        return None;
    }
    let last = t.len() - pat.len();
    let mut i: usize = 0;
    while i <= last
        invariant
            pat@.len() <= t@.len(),
            last == t@.len() - pat@.len(),
            0 <= i <= last + 1,
            find_from(t@, pat@, 0) == find_from(t@, pat@, i as int),
        decreases last + 1 - i,
    {
        if occurs_at(t, pat, i) {
            return Some(i);
        }
        if i == last {
            return None;
        }
        i = i + 1;
    }
    None
}

/// The characters of `t`, ASCII letters lowercased.
pub fn lower(t: &[char]) -> (r: Vec<char>)
    ensures
        r@ == lower_ascii(t@),
{
    let mut r: Vec<char> = Vec::new();
    let mut i: usize = 0;
    while i < t.len()
        invariant
            0 <= i <= t@.len(),
            r@ == lower_ascii(t@.subrange(0, i as int)),
        decreases t@.len() - i,
    {
        r.push(to_ascii_lower(t[i]));
        i = i + 1;
        assert(r@ =~= lower_ascii(t@.subrange(0, i as int)));
    }
    assert(t@.subrange(0, t@.len() as int) =~= t@);
    r
}

} // verus!
