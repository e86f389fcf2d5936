//! Line-oriented scanning of query text: lines, white space, words, prefixes and
//! searches, each stated over character sequences.

use vstd::prelude::*;

verus! {

broadcast use vstd::std_specs::vec::group_vec_axioms;

/// Unicode white space, as `char::is_whitespace` has it.
pub open spec fn is_ws(c: char) -> bool {
    let n = c as u32;
    (0x9 <= n <= 0xD) || n == 0x20 || n == 0x85 || n == 0xA0 || n == 0x1680 || (0x2000 <= n
        <= 0x200A) || n == 0x2028 || n == 0x2029 || n == 0x202F || n == 0x205F || n == 0x3000
}

pub fn is_ws_exec(c: char) -> (r: bool)
    ensures
        r == is_ws(c),
{
    let n = c as u32;
    (0x9 <= n && n <= 0xD) || n == 0x20 || n == 0x85 || n == 0xA0 || n == 0x1680 || (0x2000 <= n
        && n <= 0x200A) || n == 0x2028 || n == 0x2029 || n == 0x202F || n == 0x205F || n == 0x3000
}

/// The end of the line that starts at `i`: the next `\n` from `i` on, or the end.
pub open spec fn line_end(s: Seq<char>, i: int) -> int
    decreases s.len() - i,
{
    if i < 0 || i >= s.len() {
        s.len() as int
    } else if s[i] == '\n' {
        i
    } else {
        line_end(s, i + 1)
    }
}

pub proof fn lemma_line_end(s: Seq<char>, i: int)
    requires
        0 <= i <= s.len(),
    ensures
        i <= line_end(s, i) <= s.len(),
        line_end(s, i) < s.len() ==> s[line_end(s, i)] == '\n',
    decreases s.len() - i,
{
    if i < s.len() && s[i] != '\n' {
        lemma_line_end(s, i + 1);
    }
}

/// The part of `s[a..b]` that is left once trailing white space is removed: its end.
pub open spec fn trim_end_at(s: Seq<char>, a: int, b: int) -> int
    decreases b - a,
{
    if b > a && is_ws(s[b - 1]) {
        trim_end_at(s, a, b - 1)
    } else {
        b
    }
}

/// The end of `s[a..b]` once every trailing `c` is removed.
pub open spec fn strip_end_at(s: Seq<char>, a: int, b: int, c: char) -> int
    decreases b - a,
{
    if b > a && s[b - 1] == c {
        strip_end_at(s, a, b - 1, c)
    } else {
        b
    }
}

/// The start of `s[a..b]` once leading white space is removed.
pub open spec fn trim_start_at(s: Seq<char>, a: int, b: int) -> int
    decreases b - a,
{
    if a < b && is_ws(s[a]) {
        trim_start_at(s, a + 1, b)
    } else {
        a
    }
}

/// The end of the word that starts at `i`, before `b`.
pub open spec fn word_end(s: Seq<char>, i: int, b: int) -> int
    decreases b - i,
{
    if i < b && !is_ws(s[i]) {
        word_end(s, i + 1, b)
    } else {
        i
    }
}

pub proof fn lemma_word_end(s: Seq<char>, i: int, b: int)
    requires
        0 <= i <= b <= s.len(),
    ensures
        i <= word_end(s, i, b) <= b,
        i < b && !is_ws(s[i]) ==> word_end(s, i, b) > i,
    decreases b - i,
{
    if i < b && !is_ws(s[i]) {
        lemma_word_end(s, i + 1, b);
    }
}

/// The words of `s[i..b]`: its maximal runs of characters other than white space.
pub open spec fn words_from(s: Seq<char>, i: int, b: int) -> Seq<Seq<char>>
    decreases b - i,
{
    if i < 0 || b > s.len() || i >= b {
        Seq::empty()
    } else if is_ws(s[i]) {
        words_from(s, i + 1, b)
    } else {
        let e = word_end(s, i, b);
        proof {
            lemma_word_end(s, i, b);
        }
        seq![s.subrange(i, e)] + words_from(s, e, b)
    }
}

/// Whether `s` starts with `p`.
pub open spec fn starts_with(s: Seq<char>, p: Seq<char>) -> bool {
    p.len() <= s.len() && s.subrange(0, p.len() as int) == p
}

/// The first position from `i` on, before `b`, where `p` occurs within `s[..b]`, or -1.
pub open spec fn find_from(s: Seq<char>, p: Seq<char>, i: int, b: int) -> int
    decreases b - i + 1,
{
    if i < 0 || i + p.len() > b {
        -1
    } else if s.subrange(i, i + p.len()) == p {
        i
    } else {
        find_from(s, p, i + 1, b)
    }
}

/// What follows the last `#`, else the last `/`, else the last `:` of a name; the
/// whole name where it holds none of them.
pub open spec fn prefixed_local_name(s: Seq<char>) -> Seq<char> {
    match crate::text::after_last(s, '#') {
        Some(n) => n,
        None => match crate::text::after_last(s, '/') {
            Some(n) => n,
            None => match crate::text::after_last(s, ':') {
                Some(n) => n,
                None => s,
            },
        },
    }
}

pub fn line_end_exec(s: &Vec<char>, i: usize) -> (r: usize)
    requires
        i <= s@.len(),
    ensures
        r == line_end(s@, i as int),
        i <= r <= s@.len(),
{
    proof {
        lemma_line_end(s@, i as int);
    }
    let mut k = i;
    while k < s.len() && s[k] != '\n'
        invariant
            i <= k <= s@.len(),
            line_end(s@, i as int) == line_end(s@, k as int),
        decreases s.len() - k,
    {
        k = k + 1;
    }
    k
}

pub fn trim_end_exec(s: &Vec<char>, a: usize, b: usize) -> (r: usize)
    requires
        a <= b <= s@.len(),
    ensures
        r == trim_end_at(s@, a as int, b as int),
        a <= r <= b,
{
    let mut k = b;
    while k > a && is_ws_exec(s[k - 1])
        invariant
            a <= k <= b,
            b <= s@.len(),
            trim_end_at(s@, a as int, b as int) == trim_end_at(s@, a as int, k as int),
        decreases k,
    {
        k = k - 1;
    }
    k
}

pub fn strip_end_exec(s: &Vec<char>, a: usize, b: usize, c: char) -> (r: usize)
    requires
        a <= b <= s@.len(),
    ensures
        r == strip_end_at(s@, a as int, b as int, c),
        a <= r <= b,
{
    let mut k = b;
    while k > a && s[k - 1] == c
        invariant
            a <= k <= b,
            b <= s@.len(),
            strip_end_at(s@, a as int, b as int, c) == strip_end_at(s@, a as int, k as int, c),
        decreases k,
    {
        k = k - 1;
    }
    k
}

pub fn trim_start_exec(s: &Vec<char>, a: usize, b: usize) -> (r: usize)
    requires
        a <= b <= s@.len(),
    ensures
        r == trim_start_at(s@, a as int, b as int),
        a <= r <= b,
{
    let mut k = a;
    while k < b && is_ws_exec(s[k])
        invariant
            a <= k <= b,
            b <= s@.len(),
            trim_start_at(s@, a as int, b as int) == trim_start_at(s@, k as int, b as int),
        decreases b - k,
    {
        k = k + 1;
    }
    k
}

/// The next word of `s[i..b]`, as its start and end.
pub fn next_word(s: &Vec<char>, i: usize, b: usize) -> (r: Option<(usize, usize)>)
    requires
        i <= b <= s@.len(),
    ensures
        r is None ==> words_from(s@, i as int, b as int).len() == 0,
        r matches Some((ws, we)) ==> i <= ws < we <= b && words_from(s@, i as int, b as int) == seq![
            s@.subrange(ws as int, we as int),
        ] + words_from(s@, we as int, b as int),
{
    let mut k = i;
    while k < b && is_ws_exec(s[k])
        invariant
            i <= k <= b,
            b <= s@.len(),
            words_from(s@, i as int, b as int) == words_from(s@, k as int, b as int),
        decreases b - k,
    {
        k = k + 1;
    }
    if k >= b {
        return None;
    }
    let mut e = k;
    while e < b && !is_ws_exec(s[e])
        invariant
            k <= e <= b,
            b <= s@.len(),
            word_end(s@, k as int, b as int) == word_end(s@, e as int, b as int),
        decreases b - e,
    {
        e = e + 1;
    }
    proof {
        lemma_word_end(s@, k as int, b as int);
    }
    Some((k, e))
}

/// Whether `s[a..b]` starts with `p`.
pub fn starts_with_exec(s: &Vec<char>, a: usize, b: usize, p: &Vec<char>) -> (r: bool)
    requires
        a <= b <= s@.len(),
    ensures
        r == starts_with(s@.subrange(a as int, b as int), p@),
{
    if p.len() > b - a {
        return false;
    }
    let mut k: usize = 0;
    while k < p.len()
        invariant
            k <= p@.len(),
            p@.len() <= b - a,
            a <= b <= s@.len(),
            forall|j: int| 0 <= j < k ==> s@[a + j] == #[trigger] p@[j],
        decreases p.len() - k,
    {
        if s[a + k] != p[k] {
            assert(s@.subrange(a as int, b as int).subrange(0, p@.len() as int)[k as int] != p@[k as int]);
            return false;
        }
        k = k + 1;
    }
    assert(s@.subrange(a as int, b as int).subrange(0, p@.len() as int) =~= p@);
    true
}

/// Whether `s[a..b]` is exactly `p`.
pub fn equals_exec(s: &Vec<char>, a: usize, b: usize, p: &Vec<char>) -> (r: bool)
    requires
        a <= b <= s@.len(),
    ensures
        r == (s@.subrange(a as int, b as int) == p@),
{
    if p.len() != b - a {
        return false;
    }
    let r = starts_with_exec(s, a, b, p);
    assert(s@.subrange(a as int, b as int).subrange(0, p@.len() as int) =~= s@.subrange(
        a as int,
        b as int,
    ));
    r
}

/// The first position from `i` on where `p` occurs within `s[..b]`.
pub fn find_from_exec(s: &Vec<char>, p: &Vec<char>, i: usize, b: usize) -> (r: Option<usize>)
    requires
        i <= b <= s@.len(),
    ensures
        r matches Some(k) ==> k == find_from(s@, p@, i as int, b as int) && i <= k && k + p@.len()
            <= b,
        r is None ==> find_from(s@, p@, i as int, b as int) == -1,
{
    if p.len() == 0 {
        assert(s@.subrange(i as int, i as int) =~= p@);
        return Some(i);
    }
    let mut k = i;
    while k <= b && p.len() <= b - k
        invariant
            i <= k,
            p@.len() > 0,
            b <= s@.len(),
            find_from(s@, p@, i as int, b as int) == find_from(s@, p@, k as int, b as int),
        decreases b - k,
    {
        if starts_with_exec(s, k, k + p.len(), p) {
            assert(s@.subrange(k as int, k + p@.len()).subrange(0, p@.len() as int) =~= s@.subrange(
                k as int,
                k + p@.len(),
            ));
            return Some(k);
        }
        assert(s@.subrange(k as int, k + p@.len()).subrange(0, p@.len() as int) =~= s@.subrange(
            k as int,
            k + p@.len(),
        ));
        k = k + 1;
    }
    None
}

} // verus!
