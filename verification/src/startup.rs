//! Settings read when the bot starts.
use vstd::prelude::*;
use crate::text::{chars_of, decimal, digit_char};

verus! {

/// `c` is one of `0`..`9`.
pub open spec fn is_digit(c: char) -> bool {
    '0' <= c && c <= '9'
}

/// Every character of `s` is a decimal digit.
pub open spec fn all_digits(s: Seq<char>) -> bool {
    forall|i: int| 0 <= i < s.len() ==> #[trigger] is_digit(s[i])
}

/// The sign-less part of a number written with an optional leading `+`.
pub open spec fn unsigned_part(s: Seq<char>) -> Seq<char> {
    if s.len() > 0 && s[0] == '+' {
        s.drop_first()
    } else {
        s
    }
}

/// The number the decimal digits `s` write.
pub open spec fn digits_value(s: Seq<char>) -> nat
    decreases s.len(),
{
    if s.len() == 0 {
        0
    } else {
        digits_value(s.drop_last()) * 10 + ((s.last() as int) - 48) as nat
    }
}

/// The unsigned 64-bit number that `s` writes in decimal, with an optional
/// leading `+` (`u64::from_str`): at least one digit, nothing else, and no
/// more than `u64::MAX`.
pub open spec fn parse_u64(s: Seq<char>) -> Option<u64> {
    let d = unsigned_part(s);
    if d.len() > 0 && all_digits(d) && digits_value(d) <= u64::MAX {
        Some(digits_value(d) as u64)
    } else {
        None
    }
}

/// The delay before start-up that the setting `value` asks for: a positive
/// number of milliseconds; nothing when it is unset, not a number, or zero.
pub open spec fn restart_delay(value: Option<Seq<char>>) -> Option<u64> {
    match value {
        None => None,
        Some(v) => match parse_u64(v) {
            Some(ms) => if ms > 0 {
                Some(ms)
            } else {
                None
            },
            None => None,
        },
    }
}

proof fn lemma_digits_value_prefix(s: Seq<char>, i: int)
    requires
        0 <= i <= s.len(),
    ensures
        digits_value(s.take(i)) <= digits_value(s),
    decreases s.len() - i,
{
    if i < s.len() {
        lemma_digits_value_prefix(s, i + 1);
        assert(s.take(i + 1).drop_last() =~= s.take(i));
        assert(digits_value(s.take(i + 1)) == digits_value(s.take(i)) * 10 + ((s.take(i + 1).last() as int) - 48) as nat);
    } else {
        assert(s.take(i) =~= s);
    }
}

/// The number that `value` writes in decimal (see `parse_u64`).
pub fn parse_decimal_u64(value: &str) -> (r: Option<u64>)
    ensures
        r == parse_u64(value@),
{
    let cs = chars_of(value);
    let start: usize = if cs.len() > 0 && cs[0] == '+' {
        1
    } else {
        0
    };
    let ghost d = cs@.skip(start as int);
    assert(d =~= unsigned_part(value@));
    if start == cs.len() {
        return None;
    }
    let mut i: usize = start;
    while i < cs.len()
        invariant
            start <= i <= cs@.len(),
            cs@ == value@,
            d == cs@.skip(start as int),
            d == unsigned_part(value@),
            forall|j: int| start <= j < i ==> is_digit(cs@[j]),
        decreases cs.len() - i,
    {
        if !('0' <= cs[i] && cs[i] <= '9') {
            assert(!is_digit(d[i - start]));
            assert(!all_digits(d));
            return None;
        }
        i += 1;
    }
    assert(all_digits(d));
    let mut value_so_far: u64 = 0;
    let mut k: usize = start;
    while k < cs.len()
        invariant
            start <= k <= cs@.len(),
            cs@ == value@,
            d == cs@.skip(start as int),
            d == unsigned_part(value@),
            d.len() > 0,
            all_digits(d),
            value_so_far as nat == digits_value(d.take(k - start)),
        decreases cs.len() - k,
    {
        let c = cs[k];
        assert(d[k - start] == c);
        assert(is_digit(c));
        let digit: u64 = ((c as u32) - 48) as u64;
        assert(digit as int == (c as int) - 48);
        assert(d.take(k - start + 1).drop_last() =~= d.take(k - start));
        assert(d.take(k - start + 1).last() == cs@[k as int]);
        match value_so_far.checked_mul(10) {
            Some(tens) => match tens.checked_add(digit) {
                Some(next) => {
                    value_so_far = next;
                },
                None => {
                    proof {
                        lemma_digits_value_prefix(d, k - start + 1);
                    }
                    return None;
                },
            },
            None => {
                proof {
                    lemma_digits_value_prefix(d, k - start + 1);
                }
                return None;
            },
        }
        k += 1;
    }
    assert(d.take(d.len() as int) =~= d);
    Some(value_so_far)
}

/// The start-up delay asked for by the restart-delay setting, if it is
/// set (see `restart_delay`).
pub fn restart_delay_ms(value: Option<&str>) -> (r: Option<u64>)
    ensures
        r == restart_delay(
            match value {
                Some(v) => Some(v@),
                None => None,
            },
        ),
{
    match value {
        None => None,
        Some(v) => match parse_decimal_u64(v) {
            Some(ms) => if ms > 0 {
                Some(ms)
            } else {
                None
            },
            None => None,
        },
    }
}

proof fn lemma_decimal_digits(n: nat)
    ensures
        decimal(n).len() > 0,
        all_digits(decimal(n)),
        digits_value(decimal(n)) == n,
    decreases n,
{
    if n < 10 {
        assert(decimal(n).drop_last() =~= Seq::<char>::empty());
        assert((digit_char(n as int) as int) == n + 48);
        assert(digits_value(Seq::<char>::empty()) == 0);
        assert(decimal(n).last() == digit_char(n as int));
        assert(digits_value(decimal(n)) == digits_value(decimal(n).drop_last()) * 10 + ((decimal(n).last() as int) - 48) as nat);
    } else {
        lemma_decimal_digits(n / 10);
        let d = (n % 10) as int;
        assert((digit_char(d) as int) == d + 48);
        assert(decimal(n).drop_last() =~= decimal(n / 10));
        assert(all_digits(decimal(n)));
        assert(digits_value(decimal(n)) == (n / 10) * 10 + d);
        assert((n / 10) * 10 + n % 10 == n) by (nonlinear_arith);
    }
}

/// Reading back a number written in decimal gives the number.
pub proof fn lemma_parse_decimal_roundtrip(n: u64)
    ensures
        parse_u64(decimal(n as nat)) == Some(n),
{
    lemma_decimal_digits(n as nat);
    assert(is_digit(decimal(n as nat)[0]));
    assert(unsigned_part(decimal(n as nat)) == decimal(n as nat));
}

} // verus!
