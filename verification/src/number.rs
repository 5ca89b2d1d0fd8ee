//! Numbers as text.

use vstd::prelude::*;

use crate::text;

verus! {

/// The digit that `c` stands for in base `radix`.
pub open spec fn digit_of(c: char, radix: int) -> Option<int> {
    let d = if '0' <= c <= '9' {
        c as int - '0' as int
    } else if 'a' <= c <= 'z' {
        c as int - 'a' as int + 10
    } else if 'A' <= c <= 'Z' {
        c as int - 'A' as int + 10
    } else {
        radix
    };
    if d < radix {
        Some(d)
    } else {
        None
    }
}

/// The number that a row of digits writes, if all its characters are digits.
pub open spec fn digits_value(s: Seq<char>, radix: int) -> Option<int>
    decreases s.len(),
{
    if s.len() == 0 {
        Some(0)
    } else {
        match (digits_value(s.drop_last(), radix), digit_of(s.last(), radix)) {
            (Some(v), Some(d)) => Some(v * radix + d),
            _ => None,
        }
    }
}

/// The number of at most `max` that `s` writes: at least one digit, after an
/// optional plus sign.
pub open spec fn number_of(s: Seq<char>, radix: int, max: int) -> Option<int> {
    let digits = if s.len() > 0 && s[0] == '+' {
        s.skip(1)
    } else {
        s
    };
    match digits_value(digits, radix) {
        Some(v) if digits.len() > 0 && v <= max => Some(v),
        _ => None,
    }
}

proof fn lemma_digits_value_grows(s: Seq<char>, radix: int, n: int)
    requires
        2 <= radix,
        0 <= n <= s.len(),
    ensures
        digits_value(s.take(n), radix) is None ==> digits_value(s, radix) is None,
        digits_value(s.take(n), radix) matches Some(v) ==> v >= 0 && (digits_value(
            s,
            radix,
        ) matches Some(u) ==> v <= u),
    decreases s.len() - n, n,
{
    if n == s.len() {
        assert(s.take(n) =~= s);
        lemma_digits_value_nonneg(s, radix);
    } else {
        lemma_digits_value_grows(s, radix, n + 1);
        let a = s.take(n);
        let b = s.take(n + 1);
        assert(b.drop_last() =~= a);
        lemma_digits_value_nonneg(a, radix);
        if let Some(v) = digits_value(a, radix) {
            if let Some(d) = digit_of(s[n], radix) {
                assert(v <= v * radix + d) by (nonlinear_arith)
                    requires
                        v >= 0,
                        radix >= 2,
                        d >= 0,
                ;
            }
        }
    }
}

proof fn lemma_digits_value_nonneg(s: Seq<char>, radix: int)
    requires
        2 <= radix,
    ensures
        digits_value(s, radix) matches Some(v) ==> v >= 0,
    decreases s.len(),
{
    if s.len() > 0 {
        lemma_digits_value_nonneg(s.drop_last(), radix);
        if let Some(v) = digits_value(s.drop_last(), radix) {
            if let Some(d) = digit_of(s.last(), radix) {
                assert(0 <= v * radix + d) by (nonlinear_arith)
                    requires
                        v >= 0,
                        radix >= 2,
                        d >= 0,
                ;
            }
        }
    }
}

/// The digit that a character stands for.
pub fn to_digit(c: char, radix: u32) -> (d: Option<u32>)
    requires
        2 <= radix <= 36,
    ensures
        (match d {
            Some(v) => digit_of(c, radix as int) == Some(v as int) && v < radix,
            None => digit_of(c, radix as int) is None,
        }),
{
    let d: u32 = if '0' <= c && c <= '9' {
        c as u32 - '0' as u32
    } else if 'a' <= c && c <= 'z' {
        c as u32 - 'a' as u32 + 10
    } else if 'A' <= c && c <= 'Z' {
        c as u32 - 'A' as u32 + 10
    } else {
        radix
    };
    if d < radix {
        Some(d)
    } else {
        None
    }
}

/// Reads a number of at most `max`.
pub fn parse_number(cs: &[char], radix: u32, max: u64) -> (r: Option<u64>)
    requires
        2 <= radix <= 36,
    ensures
        (match r {
            Some(v) => number_of(cs@, radix as int, max as int) == Some(v as int),
            None => number_of(cs@, radix as int, max as int) is None,
        }),
{
    let start: usize = if cs.len() > 0 && cs[0] == '+' { 1 } else { 0 };
    let digits = text::part(cs, start, cs.len());
    proof {
        assert(start == 1 ==> digits@ =~= cs@.skip(1));
        assert(start == 0 ==> digits@ =~= cs@);
    }
    if digits.len() == 0 {
        return None;
    }
    let mut v: u64 = 0;
    let mut i: usize = 0;
    while i < digits.len()
        invariant
            2 <= radix <= 36,
            digits@.len() > 0,
            digits@ == (if cs@.len() > 0 && cs@[0] == '+' {
                cs@.skip(1)
            } else {
                cs@
            }),
            i <= digits@.len(),
            v <= max,
            digits_value(digits@.take(i as int), radix as int) == Some(v as int),
        decreases digits@.len() - i,
    {
        proof {
            lemma_digits_value_grows(digits@, radix as int, i + 1);
            assert(digits@.take(i + 1).drop_last() =~= digits@.take(i as int));
        }
        match to_digit(digits[i], radix) {
            None => {
                return None;
            },
            Some(d) => {
                assert(0 <= v * radix <= u64::MAX * 36) by (nonlinear_arith)
                    requires
                        0 <= v <= u64::MAX,
                        0 <= radix <= 36,
                ;
                let wide: u128 = v as u128 * radix as u128 + d as u128;
                if wide > max as u128 {
                    return None;
                }
                v = wide as u64;
            },
        }
        i += 1;
    }
    assert(digits@.take(i as int) =~= digits@);
    Some(v)
}

/// The decimal digits of `n`.
pub open spec fn decimal(n: nat) -> Seq<char>
    decreases n,
{
    let last = ('0' as int + n % 10) as char;
    if n < 10 {
        seq![last]
    } else {
        decimal(n / 10).push(last)
    }
}

/// The decimal digits of a number.
pub fn to_decimal(n: u64) -> (cs: Vec<char>)
    ensures
        cs@ == decimal(n as nat),
    decreases n,
{
    let last: char = ('0' as u8 + (n % 10) as u8) as char;
    let mut cs: Vec<char> = if n < 10 { Vec::new() } else { to_decimal(n / 10) };
    cs.push(last);
    assert(n < 10 ==> cs@ =~= seq![last]);
    cs
}

/// A number that is written down reads back as it was.
pub proof fn law_a_written_number_reads_back(n: nat, max: int)
    requires
        n <= max,
    ensures
        number_of(decimal(n), 10, max) == Some(n as int),
{
    lemma_decimal(n);
}

proof fn lemma_decimal(n: nat)
    ensures
        digits_value(decimal(n), 10) == Some(n as int),
        decimal(n).len() > 0,
        decimal(n)[0] != '+',
    decreases n,
{
    let last = ('0' as int + n % 10) as char;
    assert(digit_of(last, 10) == Some((n % 10) as int));
    if n < 10 {
        let s = decimal(n);
        assert(s.drop_last() =~= seq![]);
        assert(digits_value(s.drop_last(), 10) == Some(0int));
    } else {
        lemma_decimal(n / 10);
        assert(decimal(n).drop_last() =~= decimal(n / 10));
    }
}

} // verus!
