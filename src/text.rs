//! Character-level helpers on strings, stated over their character sequences.

use vstd::prelude::*;

verus! {

/// The last position before `n` that holds `c`, or -1.
pub open spec fn last_index_before(s: Seq<char>, c: char, n: int) -> int
    decreases n,
{
    if n <= 0 {
        -1
    } else if s[n - 1] == c {
        n - 1
    } else {
        last_index_before(s, c, n - 1)
    }
}

/// The last position of `c` in `s`, or -1.
pub open spec fn last_index_of(s: Seq<char>, c: char) -> int {
    last_index_before(s, c, s.len() as int)
}

pub proof fn lemma_last_index_before_range(s: Seq<char>, c: char, n: int)
    requires
        0 <= n <= s.len(),
    ensures
        -1 <= last_index_before(s, c, n) < n,
        last_index_before(s, c, n) >= 0 ==> s[last_index_before(s, c, n)] == c,
    decreases n,
{
    if n > 0 && s[n - 1] != c {
        lemma_last_index_before_range(s, c, n - 1);
    }
}

/// What follows the last `c` in `s`, if `s` holds a `c`.
pub open spec fn after_last(s: Seq<char>, c: char) -> Option<Seq<char>> {
    let k = last_index_of(s, c);
    if k >= 0 {
        Some(s.subrange(k + 1, s.len() as int))
    } else {
        None
    }
}

/// The last position of `c` in `s`.
pub fn find_last(s: &str, c: char) -> (r: Option<usize>)
    ensures
        r matches Some(k) ==> k == last_index_of(s@, c) && k < s@.len(),
        r is None ==> last_index_of(s@, c) == -1,
{
    let len = s.unicode_len();
    let mut n: usize = len;
    while n > 0
        invariant
            n <= len,
            len == s@.len(),
            last_index_of(s@, c) == last_index_before(s@, c, n as int),
        decreases n,
    {
        if s.get_char(n - 1) == c {
            return Some(n - 1);
        }
        n = n - 1;
    }
    None
}

/// What follows the last `c` in `s`, if `s` holds a `c`.
pub fn split_after_last(s: &str, c: char) -> (r: Option<&str>)
    ensures
        r matches Some(t) ==> after_last(s@, c) == Some(t@),
        r is None ==> after_last(s@, c) is None,
{
    match find_last(s, c) {
        Some(k) => {
            let len = s.unicode_len();
            Some(s.substring_char(k + 1, len))
        },
        None => None,
    }
}

/// The characters of `s`, one by one.
pub fn chars_of(s: &str) -> (r: Vec<char>)
    ensures
        r@ == s@,
{
    let len = s.unicode_len();
    let mut out: Vec<char> = Vec::new();
    let mut i: usize = 0;
    while i < len
        invariant
            i <= len,
            len == s@.len(),
            out@ == s@.subrange(0, i as int),
        decreases len - i,
    {
        out.push(s.get_char(i));
        i = i + 1;
        assert(out@ =~= s@.subrange(0, i as int));
    }
    assert(out@ =~= s@);
    out
}

} // verus!
