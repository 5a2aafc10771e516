//! Decimal rendering of integers into strings, with the facts about the
//! rendering that label and register naming relies on.

use vstd::prelude::*;
use vstd::string::*;

verus! {

/// The character of one decimal digit.
pub open spec fn digit_char(d: int) -> char {
    if d == 0 {
        '0'
    } else if d == 1 {
        '1'
    } else if d == 2 {
        '2'
    } else if d == 3 {
        '3'
    } else if d == 4 {
        '4'
    } else if d == 5 {
        '5'
    } else if d == 6 {
        '6'
    } else if d == 7 {
        '7'
    } else if d == 8 {
        '8'
    } else {
        '9'
    }
}

/// The decimal digits of a natural number, most significant first, without
/// leading zeros (zero itself is the single digit `0`).
pub open spec fn decimal(n: nat) -> Seq<char>
    decreases n,
{
    if n < 10 {
        seq![digit_char(n as int)]
    } else {
        decimal(n / 10).push(digit_char((n % 10) as int))
    }
}

/// The decimal rendering of an integer: a minus sign before the digits of a
/// negative number.
pub open spec fn signed_decimal(i: int) -> Seq<char> {
    if i < 0 {
        seq!['-'] + decimal((-i) as nat)
    } else {
        decimal(i as nat)
    }
}

/// A sequence of `n` spaces.
pub open spec fn spaces(n: nat) -> Seq<char> {
    Seq::new(n, |i: int| ' ')
}

/// Every rendering has at least one digit.
pub proof fn lemma_decimal_nonempty(n: nat)
    ensures
        decimal(n).len() >= 1,
    decreases n,
{
    if n >= 10 {
        lemma_decimal_nonempty(n / 10);
    }
}

/// Different numbers have different renderings.
pub proof fn lemma_decimal_injective(a: nat, b: nat)
    requires
        decimal(a) == decimal(b),
    ensures
        a == b,
    decreases a,
{
    lemma_decimal_nonempty(a / 10);
    lemma_decimal_nonempty(b / 10);
    if a < 10 {
        if b >= 10 {
            assert(decimal(b).len() >= 2);
            assert(decimal(a).len() == 1);
        } else {
            assert(decimal(a)[0] == digit_char(a as int));
            assert(decimal(b)[0] == digit_char(b as int));
        }
    } else {
        if b < 10 {
            assert(decimal(a).len() >= 2);
            assert(decimal(b).len() == 1);
        } else {
            let pa = decimal(a / 10);
            let pb = decimal(b / 10);
            assert(decimal(a).len() == pa.len() + 1);
            assert(decimal(b).len() == pb.len() + 1);
            assert(decimal(a).last() == digit_char((a % 10) as int));
            assert(decimal(b).last() == digit_char((b % 10) as int));
            assert(a % 10 == b % 10);
            assert(pa =~= decimal(a).drop_last());
            assert(pb =~= decimal(b).drop_last());
            lemma_decimal_injective(a / 10, b / 10);
            assert(a == 10 * (a / 10) + a % 10);
            assert(b == 10 * (b / 10) + b % 10);
        }
    }
}

/// Appends the character of one decimal digit.
fn append_digit(s: &mut String, d: u8)
    requires
        d < 10,
    ensures
        final(s)@ == old(s)@.push(digit_char(d as int)),
{
    proof {
        reveal_strlit("0");
        reveal_strlit("1");
        reveal_strlit("2");
        reveal_strlit("3");
        reveal_strlit("4");
        reveal_strlit("5");
        reveal_strlit("6");
        reveal_strlit("7");
        reveal_strlit("8");
        reveal_strlit("9");
    }
    let lit = if d == 0 {
        "0"
    } else if d == 1 {
        "1"
    } else if d == 2 {
        "2"
    } else if d == 3 {
        "3"
    } else if d == 4 {
        "4"
    } else if d == 5 {
        "5"
    } else if d == 6 {
        "6"
    } else if d == 7 {
        "7"
    } else if d == 8 {
        "8"
    } else {
        "9"
    };
    assert(lit@ =~= seq![digit_char(d as int)]);
    s.append(lit);
    assert(s@ =~= old(s)@.push(digit_char(d as int)));
}

/// Appends the decimal digits of `n` to `s`.
pub fn append_decimal(s: &mut String, n: u64)
    ensures
        final(s)@ == old(s)@ + decimal(n as nat),
    decreases n,
{
    if n >= 10 {
        append_decimal(s, n / 10);
    }
    append_digit(s, (n % 10) as u8);
    assert(s@ =~= old(s)@ + decimal(n as nat));
}

/// Appends the decimal rendering of a signed number to `s`.
pub fn append_signed_decimal(s: &mut String, i: i64)
    ensures
        final(s)@ == old(s)@ + signed_decimal(i as int),
{
    if i < 0 {
        proof {
            reveal_strlit("-");
        }
        s.append("-");
        let m: u64 = if i == i64::MIN {
            0x8000_0000_0000_0000u64
        } else {
            (-i) as u64
        };
        append_decimal(s, m);
        assert(s@ =~= old(s)@ + signed_decimal(i as int));
    } else {
        append_decimal(s, i as u64);
    }
}

/// Appends `n` spaces to `s`.
pub fn append_spaces(s: &mut String, n: usize)
    ensures
        final(s)@ == old(s)@ + spaces(n as nat),
{
    let mut k: usize = 0;
    while k < n
        invariant
            k <= n,
            s@ == old(s)@ + spaces(k as nat),
        decreases n - k,
    {
        proof {
            reveal_strlit(" ");
        }
        s.append(" ");
        k = k + 1;
        assert(s@ =~= old(s)@ + spaces(k as nat));
    }
}

/// The text `prefix` followed by the decimal digits of `n`.
pub fn numbered(prefix: &str, n: u64) -> (s: String)
    ensures
        s@ == prefix@ + decimal(n as nat),
{
    let mut s = String::from_str(prefix);
    append_decimal(&mut s, n);
    s
}

} // verus!
