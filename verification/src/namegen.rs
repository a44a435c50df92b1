//! Decimal rendering of counter values, used to generate the stable names of
//! logic devices (`disk0`, `net1`, ...). The rendering is specified by
//! `dec_rep` and proved injective, which is what makes generated names
//! distinct.

use vstd::prelude::*;
use vstd::string::StringExecFns;
use vstd::arithmetic::div_mod::{lemma_div_decreases, lemma_fundamental_div_mod};

verus! {

/// The character of one decimal digit.
pub open spec fn digit_char(d: int) -> char {
    if d == 0 {
        '0'
    } else if d == 1 {
        '1'
    } else if d == 2 {
        '2'
    } else if d == 3 {
        '3'
    } else if d == 4 {
        '4'
    } else if d == 5 {
        '5'
    } else if d == 6 {
        '6'
    } else if d == 7 {
        '7'
    } else if d == 8 {
        '8'
    } else {
        '9'
    }
}

/// The usual decimal rendering of a non-negative integer: no sign, no
/// leading zeroes (except for the single digit of zero itself).
pub open spec fn dec_rep(n: int) -> Seq<char>
    decreases n,
    when n >= 0
    via dec_rep_decreases
{
    if n < 10 {
        seq![digit_char(n)]
    } else {
        dec_rep(n / 10).push(digit_char(n % 10))
    }
}

#[via_fn]
proof fn dec_rep_decreases(n: int) {
    if n >= 10 {
        lemma_div_decreases(n, 10);
    }
}

pub proof fn lemma_dec_rep_len(n: int)
    requires
        n >= 0,
    ensures
        dec_rep(n).len() >= 1,
        n < 10 ==> dec_rep(n).len() == 1,
        n >= 10 ==> dec_rep(n).len() >= 2,
    decreases n,
{
    if n >= 10 {
        lemma_div_decreases(n, 10);
        lemma_dec_rep_len(n / 10);
    }
}

/// Distinct numbers render to distinct digit strings.
pub proof fn lemma_dec_rep_injective(a: int, b: int)
    requires
        a >= 0,
        b >= 0,
        dec_rep(a) == dec_rep(b),
    ensures
        a == b,
    decreases a,
{
    lemma_dec_rep_len(a);
    lemma_dec_rep_len(b);
    if a < 10 && b < 10 {
        assert(dec_rep(a)[0] == digit_char(a));
        assert(dec_rep(b)[0] == digit_char(b));
    } else if a < 10 {
        assert(dec_rep(a).len() == 1 && dec_rep(b).len() >= 2);
    } else if b < 10 {
        assert(dec_rep(a).len() >= 2 && dec_rep(b).len() == 1);
    } else {
        lemma_div_decreases(a, 10);
        lemma_div_decreases(b, 10);
        assert(dec_rep(a).last() == digit_char(a % 10));
        assert(dec_rep(b).last() == digit_char(b % 10));
        assert(a % 10 == b % 10);
        assert(dec_rep(a).drop_last() =~= dec_rep(a / 10));
        assert(dec_rep(b).drop_last() =~= dec_rep(b / 10));
        lemma_dec_rep_injective(a / 10, b / 10);
        lemma_fundamental_div_mod(a, 10);
        lemma_fundamental_div_mod(b, 10);
    }
}

/// A decimal digit character.
pub open spec fn is_digit(c: char) -> bool {
    '0' <= c && c <= '9'
}

/// Decimal renderings consist of digit characters only.
pub proof fn lemma_dec_rep_digits(n: int)
    requires
        n >= 0,
    ensures
        forall|i: int| 0 <= i < dec_rep(n).len() ==> is_digit(#[trigger] dec_rep(n)[i]),
    decreases n,
{
    if n >= 10 {
        lemma_div_decreases(n, 10);
        lemma_dec_rep_digits(n / 10);
        assert forall|i: int| 0 <= i < dec_rep(n).len() implies is_digit(
            #[trigger] dec_rep(n)[i],
        ) by {
            if i < dec_rep(n / 10).len() {
                assert(dec_rep(n)[i] == dec_rep(n / 10)[i]);
            } else {
                assert(dec_rep(n)[i] == digit_char(n % 10));
            }
        }
    }
}

/// A counter-generated name: a fixed prefix followed by the decimal counter.
pub open spec fn prefixed_name(prefix: Seq<char>, n: int) -> Seq<char> {
    prefix + dec_rep(n)
}

/// Same prefix: the counter value decides.
pub proof fn lemma_prefixed_name_injective(prefix: Seq<char>, a: int, b: int)
    requires
        a >= 0,
        b >= 0,
        prefixed_name(prefix, a) == prefixed_name(prefix, b),
    ensures
        a == b,
{
    let sa = prefixed_name(prefix, a);
    let sb = prefixed_name(prefix, b);
    assert(dec_rep(a) =~= sa.subrange(prefix.len() as int, sa.len() as int));
    assert(dec_rep(b) =~= sb.subrange(prefix.len() as int, sb.len() as int));
    lemma_dec_rep_injective(a, b);
}

/// Prefixes that differ within their first two characters generate disjoint
/// name spaces.
pub proof fn lemma_distinct_prefixes(p1: Seq<char>, p2: Seq<char>, a: int, b: int)
    requires
        a >= 0,
        b >= 0,
        p1.len() >= 2,
        p2.len() >= 2,
        p1[0] != p2[0] || p1[1] != p2[1],
    ensures
        prefixed_name(p1, a) != prefixed_name(p2, b),
{
    let s1 = prefixed_name(p1, a);
    let s2 = prefixed_name(p2, b);
    assert(s1[0] == p1[0] && s1[1] == p1[1]);
    assert(s2[0] == p2[0] && s2[1] == p2[1]);
}

/// The reversal of a list of digits, as characters: the last collected
/// (most significant) digit comes first.
pub open spec fn rev_digit_chars(ds: Seq<u64>) -> Seq<char> {
    Seq::new(ds.len(), |i: int| digit_char(ds[ds.len() - 1 - i] as int))
}

/// The one-character string of a decimal digit.
fn digit_str(d: u64) -> (r: &'static str)
    requires
        d < 10,
    ensures
        r@ =~= seq![digit_char(d as int)],
{
    proof {
        reveal_strlit("0");
        reveal_strlit("1");
        reveal_strlit("2");
        reveal_strlit("3");
        reveal_strlit("4");
        reveal_strlit("5");
        reveal_strlit("6");
        reveal_strlit("7");
        reveal_strlit("8");
        reveal_strlit("9");
    }
    match d {
        0 => "0",
        1 => "1",
        2 => "2",
        3 => "3",
        4 => "4",
        5 => "5",
        6 => "6",
        7 => "7",
        8 => "8",
        _ => "9",
    }
}

/// Renders a counter value in decimal.
pub fn u64_to_dec(n: u64) -> (s: String)
    ensures
        s@ == dec_rep(n as int),
{
    let mut digits: Vec<u64> = Vec::new();
    let mut m: u64 = n;
    loop
        invariant_except_break
            m > 0 || digits@.len() == 0,
        invariant
            forall|k: int| 0 <= k < digits@.len() ==> #[trigger] digits@[k] < 10,
            dec_rep(n as int) == (if digits@.len() == 0 {
                dec_rep(m as int)
            } else if m > 0 {
                dec_rep(m as int) + rev_digit_chars(digits@)
            } else {
                rev_digit_chars(digits@)
            }),
        ensures
            m == 0,
            digits@.len() > 0,
            dec_rep(n as int) == rev_digit_chars(digits@),
        decreases m,
    {
        let ghost pre_digits = digits@;
        let ghost pre_m = m as int;
        let d = m % 10;
        digits.push(d);
        m = m / 10;
        proof {
            let post = digits@;
            assert(post == pre_digits.push(d));
            // One step of the rendering: the digit just collected is the
            // next character from the right.
            if pre_m < 10 {
                assert(dec_rep(pre_m) =~= seq![digit_char(pre_m)]);
                assert(rev_digit_chars(post) =~= seq![digit_char(d as int)] + rev_digit_chars(
                    pre_digits,
                ));
                if pre_digits.len() == 0 {
                    assert(dec_rep(n as int) =~= rev_digit_chars(post));
                } else {
                    assert(dec_rep(n as int) =~= rev_digit_chars(post));
                }
            } else {
                assert(dec_rep(pre_m) == dec_rep(pre_m / 10).push(digit_char(pre_m % 10)));
                assert(dec_rep(pre_m) =~= dec_rep(m as int) + seq![digit_char(d as int)]);
                assert(rev_digit_chars(post) =~= seq![digit_char(d as int)] + rev_digit_chars(
                    pre_digits,
                ));
                if pre_digits.len() == 0 {
                    assert(dec_rep(n as int) =~= dec_rep(m as int) + rev_digit_chars(post));
                } else {
                    assert(dec_rep(n as int) =~= dec_rep(m as int) + rev_digit_chars(post));
                }
            }
        }
        if m == 0 {
            break;
        }
    }

    let mut s = String::new();
    let mut i: usize = digits.len();
    while i > 0
        invariant
            i <= digits@.len(),
            forall|k: int| 0 <= k < digits@.len() ==> #[trigger] digits@[k] < 10,
            s@ == rev_digit_chars(digits@).take(digits@.len() - i),
        decreases i,
    {
        i = i - 1;
        s.append(digit_str(digits[i]));
        proof {
            assert(s@ =~= rev_digit_chars(digits@).take(digits@.len() - i));
        }
    }
    proof {
        assert(s@ =~= rev_digit_chars(digits@));
    }
    s
}

/// Builds `prefix` followed by the decimal rendering of `n`.
pub fn make_counter_name(prefix: &str, n: u64) -> (s: String)
    ensures
        s@ == prefixed_name(prefix@, n as int),
{
    let mut s = String::from_str(prefix);
    s.append(u64_to_dec(n).as_str());
    s
}

} // verus!
