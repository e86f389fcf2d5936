//! Numbers in literal text: integer parsing as `str::parse` does it, and the
//! canonical text of a number.

use vstd::prelude::*;

verus! {

pub open spec fn is_digit(c: char) -> bool {
    '0' <= c && c <= '9'
}

pub open spec fn all_digits(s: Seq<char>) -> bool {
    s.len() > 0 && forall|i: int| 0 <= i < s.len() ==> is_digit(#[trigger] s[i])
}

/// The value of a run of decimal digits.
pub open spec fn digits_value(s: Seq<char>) -> int
    decreases s.len(),
{
    if s.len() == 0 {
        0
    } else {
        digits_value(s.drop_last()) * 10 + ((s.last() as int) - ('0' as int))
    }
}

/// An integer in decimal, with an optional sign, as `str::parse` reads it
/// (`signed` says whether a `-` is allowed).
pub open spec fn integer_value(s: Seq<char>, signed: bool) -> Option<int> {
    if s.len() > 0 && s[0] == '-' && signed && all_digits(s.drop_first()) {
        Some(-digits_value(s.drop_first()))
    } else if s.len() > 0 && s[0] == '+' && all_digits(s.drop_first()) {
        Some(digits_value(s.drop_first()))
    } else if all_digits(s) {
        Some(digits_value(s))
    } else {
        None
    }
}

/// `s` read as an `i64`, if it is one.
pub open spec fn i64_value(s: Seq<char>) -> Option<int> {
    match integer_value(s, true) {
        Some(v) => if i64::MIN <= v <= i64::MAX {
            Some(v)
        } else {
            None
        },
        None => None,
    }
}

/// `s` read as a `u32`, if it is one.
pub open spec fn u32_value(s: Seq<char>) -> Option<u32> {
    match integer_value(s, false) {
        Some(v) => if 0 <= v <= u32::MAX {
            Some(v as u32)
        } else {
            None
        },
        None => None,
    }
}

proof fn lemma_digits_value_nonneg(s: Seq<char>)
    requires
        forall|i: int| 0 <= i < s.len() ==> is_digit(#[trigger] s[i]),
    ensures
        digits_value(s) >= 0,
    decreases s.len(),
{
    if s.len() > 0 {
        lemma_digits_value_nonneg(s.drop_last());
    }
}

/// Reads the digits of `s[start..]` as a non-negative number, up to `limit`;
/// none if one is no digit, there are none, or the value passes the limit.
fn digits_upto(s: &Vec<char>, start: usize, limit: u64) -> (r: Option<u64>)
    requires
        start <= s@.len(),
    ensures
        r matches Some(v) ==> all_digits(s@.subrange(start as int, s@.len() as int)) && v
            == digits_value(s@.subrange(start as int, s@.len() as int)) && v <= limit,
        r is None ==> !all_digits(s@.subrange(start as int, s@.len() as int)) || digits_value(
            s@.subrange(start as int, s@.len() as int),
        ) > limit,
{
    let ghost d = s@.subrange(start as int, s@.len() as int);
    if start >= s.len() {
        return None;
    }
    let mut v: u64 = 0;
    let mut i = start;
    assert(d.subrange(0, 0) =~= Seq::<char>::empty());
    while i < s.len()
        invariant
            start <= i <= s@.len(),
            d == s@.subrange(start as int, s@.len() as int),
            forall|j: int| 0 <= j < i - start ==> is_digit(#[trigger] d[j]),
            v == digits_value(d.subrange(0, i - start)),
            v <= limit,
        decreases s.len() - i,
    {
        let c = s[i];
        assert(d[i - start] == c);
        if !('0' <= c && c <= '9') {
            assert(!all_digits(d));
            return None;
        }
        let dv = (c as u32 - '0' as u32) as u64;
        assert(d.subrange(0, i - start + 1).drop_last() =~= d.subrange(0, i - start));
        if v > limit / 10 || dv > limit - v * 10 {
            proof {
                lemma_digits_value_nonneg(d.subrange(0, i - start));
                assert(digits_value(d.subrange(0, i - start + 1)) > limit) by (nonlinear_arith)
                    requires
                        digits_value(d.subrange(0, i - start + 1)) == v * 10 + dv,
                        v > limit / 10 || (v <= limit / 10 && dv > limit - v * 10),
                        limit >= 0,
                ;
                lemma_prefix_exceeds(d, (i - start + 1) as int, limit as int);
            }
            return None;
        }
        v = v * 10 + dv;
        i = i + 1;
    }
    assert(d.subrange(0, i - start) =~= d);
    Some(v)
}

proof fn lemma_prefix_exceeds(d: Seq<char>, k: int, limit: int)
    requires
        0 < k <= d.len(),
        forall|j: int| 0 <= j < k ==> is_digit(#[trigger] d[j]),
        digits_value(d.subrange(0, k)) > limit,
        limit >= 0,
    ensures
        !all_digits(d) || digits_value(d) > limit,
    decreases d.len() - k,
{
    if k < d.len() && all_digits(d) {
        assert(d.subrange(0, k + 1).drop_last() =~= d.subrange(0, k));
        lemma_digits_value_nonneg(d.subrange(0, k));
        assert(digits_value(d.subrange(0, k + 1)) > limit) by (nonlinear_arith)
            requires
                digits_value(d.subrange(0, k + 1)) == digits_value(d.subrange(0, k)) * 10 + ((d[k] as int) - ('0' as int)),
                digits_value(d.subrange(0, k)) > limit,
                limit >= 0,
                is_digit(d[k]),
        ;
        lemma_prefix_exceeds(d, k + 1, limit);
    } else if k == d.len() {
        assert(d.subrange(0, k) =~= d);
    }
}

/// `s` read as an `i64` (see [`i64_value`]).
pub fn parse_i64(s: &str) -> (r: Option<i64>)
    ensures
        r matches Some(v) ==> i64_value(s@) == Some(v as int),
        r is None ==> i64_value(s@) is None,
{
    let c = crate::text::chars_of(s);
    if c.len() == 0 {
        return None;
    }
    if c[0] == '-' {
        assert(c@.subrange(1, c@.len() as int) =~= c@.drop_first());
        match digits_upto(&c, 1, 9223372036854775808u64) {
            Some(v) => {
                if v == 9223372036854775808u64 {
                    Some(i64::MIN)
                } else {
                    Some(-(v as i64))
                }
            },
            None => None,
        }
    } else if c[0] == '+' {
        assert(c@.subrange(1, c@.len() as int) =~= c@.drop_first());
        assert(!all_digits(c@));
        match digits_upto(&c, 1, 9223372036854775807u64) {
            Some(v) => Some(v as i64),
            None => None,
        }
    } else {
        assert(c@.subrange(0, c@.len() as int) =~= c@);
        match digits_upto(&c, 0, 9223372036854775807u64) {
            Some(v) => Some(v as i64),
            None => None,
        }
    }
}

/// `s` read as a `u32` (see [`u32_value`]).
pub fn parse_u32(s: &str) -> (r: Option<u32>)
    ensures
        r == u32_value(s@),
{
    let c = crate::text::chars_of(s);
    if c.len() == 0 {
        return None;
    }
    if c[0] == '+' {
        assert(c@.subrange(1, c@.len() as int) =~= c@.drop_first());
        assert(!all_digits(c@));
        match digits_upto(&c, 1, 4294967295u64) {
            Some(v) => Some(v as u32),
            None => None,
        }
    } else {
        assert(c@.subrange(0, c@.len() as int) =~= c@);
        if c[0] == '-' {
            assert(!all_digits(c@));
        }
        match digits_upto(&c, 0, 4294967295u64) {
            Some(v) => Some(v as u32),
            None => None,
        }
    }
}

/// The decimal digits of a natural number.
pub open spec fn nat_text(n: nat) -> Seq<char>
    decreases n,
{
    if n < 10 {
        seq![(('0' as int) + n) as char]
    } else {
        nat_text(n / 10).push((('0' as int) + n % 10) as char)
    }
}

/// The decimal text of an integer: its digits, after a `-` when negative.
pub open spec fn int_text(n: int) -> Seq<char> {
    if n < 0 {
        seq!['-'] + nat_text((-n) as nat)
    } else {
        nat_text(n as nat)
    }
}

/// The text of one decimal digit.
fn digit_text(d: u64) -> (r: &'static str)
    requires
        d < 10,
    ensures
        r@ == seq![(('0' as int) + d) as char],
{
    match d {
        0 => {
            proof {
                reveal_strlit("0");
            }
            "0"
        },
        1 => {
            proof {
                reveal_strlit("1");
            }
            "1"
        },
        2 => {
            proof {
                reveal_strlit("2");
            }
            "2"
        },
        3 => {
            proof {
                reveal_strlit("3");
            }
            "3"
        },
        4 => {
            proof {
                reveal_strlit("4");
            }
            "4"
        },
        5 => {
            proof {
                reveal_strlit("5");
            }
            "5"
        },
        6 => {
            proof {
                reveal_strlit("6");
            }
            "6"
        },
        7 => {
            proof {
                reveal_strlit("7");
            }
            "7"
        },
        8 => {
            proof {
                reveal_strlit("8");
            }
            "8"
        },
        _ => {
            proof {
                reveal_strlit("9");
            }
            "9"
        },
    }
}

/// The decimal digits of a natural number (see [`nat_text`]).
fn nat_text_exec(n: u64) -> (r: String)
    ensures
        r@ == nat_text(n as nat),
    decreases n,
{
    if n < 10 {
        digit_text(n).to_owned()
    } else {
        let head = nat_text_exec(n / 10);
        head.concat(digit_text(n % 10))
    }
}

/// The decimal text of an `i64` (see [`int_text`]).
pub fn i64_text(n: i64) -> (r: String)
    ensures
        r@ == int_text(n as int),
{
    if n < 0 {
        let magnitude = (0i128 - n as i128) as u64;
        proof {
            reveal_strlit("-");
        }
        "-".to_owned().concat(nat_text_exec(magnitude).as_str())
    } else {
        nat_text_exec(n as u64)
    }
}

/// The text of the JSON number that a decimal literal stands for, if it reads as
/// a finite floating-point number.
pub uninterp spec fn float_number_text(s: Seq<char>) -> Option<Seq<char>>;

/// Relies on `str::parse` to a double and `serde_json::Number::from_f64`: the
/// literal read as a floating-point number, kept only when finite, and written
/// as that JSON number prints.
#[verifier::external_body]
pub fn float_text(s: &str) -> (r: Option<String>)
    ensures
        r matches Some(t) ==> float_number_text(s@) == Some(t@),
        r is None ==> float_number_text(s@) is None,
{
    s.parse().ok().and_then(serde_json::Number::from_f64).map(|n| n.to_string())
}

} // verus!
