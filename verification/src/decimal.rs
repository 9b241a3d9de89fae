//! Decimal numerals.

use vstd::prelude::*;
use vstd::string::*;
use vstd::utf8::*;

use crate::ascii::{NINE, ZERO};
use crate::text::{bytes, lemma_bytes_concat};

verus! {

broadcast use {vstd::seq::group_seq_axioms, vstd::string::group_string_axioms};

/// The digits of `n`, without leading zeros.
pub open spec fn decimal(n: nat) -> Seq<u8>
    decreases n,
{
    if n < 10 {
        seq![(ZERO + n) as u8]
    } else {
        decimal(n / 10).push((ZERO + n % 10) as u8)
    }
}

/// What the digits `d` stand for.
pub open spec fn value(d: Seq<u8>) -> nat
    decreases d.len(),
{
    if d.len() == 0 {
        0
    } else {
        (value(d.drop_last()) * 10 + (d.last() - ZERO)) as nat
    }
}

/// Every byte is an ASCII digit.
pub open spec fn all_digits(d: Seq<u8>) -> bool {
    forall|k: int| 0 <= k < d.len() ==> ZERO <= #[trigger] d[k] <= NINE
}

/// Reading back the digits of a number gives the number.
pub proof fn lemma_value_of_decimal(n: nat)
    ensures
        value(decimal(n)) == n,
        all_digits(decimal(n)),
        decimal(n).len() > 0,
    decreases n,
{
    reveal_with_fuel(value, 2);
    if n < 10 {
        assert(decimal(n).drop_last() =~= Seq::empty());
    } else {
        lemma_value_of_decimal(n / 10);
        assert(decimal(n).drop_last() =~= decimal(n / 10));
    }
}

/// Nine digits stay below a thousand million.
pub proof fn lemma_value_bound(d: Seq<u8>)
    requires
        all_digits(d),
        d.len() <= 9,
    ensures
        value(d) < 1_000_000_000,
{
    lemma_value_power(d);
    assert(pow10(0) == 1 && pow10(1) == 10 && pow10(2) == 100 && pow10(3) == 1_000 && pow10(4) == 10_000
        && pow10(5) == 100_000 && pow10(6) == 1_000_000 && pow10(7) == 10_000_000 && pow10(8)
        == 100_000_000 && pow10(9) == 1_000_000_000) by {
        reveal_with_fuel(pow10, 10);
    }
}

spec fn pow10(n: nat) -> nat
    decreases n,
{
    if n == 0 {
        1
    } else {
        pow10((n - 1) as nat) * 10
    }
}

proof fn lemma_value_power(d: Seq<u8>)
    requires
        all_digits(d),
    ensures
        value(d) < pow10(d.len()),
    decreases d.len(),
{
    if d.len() > 0 {
        lemma_value_power(d.drop_last());
    }
}

/// The digit `d` as a string.
fn digit_str(d: u64) -> (r: &'static str)
    requires
        d < 10,
    ensures
        r.spec_bytes() == seq![(ZERO + d) as u8],
{
    let r = if d == 0 {
        "0"
    } else if d == 1 {
        "1"
    } else if d == 2 {
        "2"
    } else if d == 3 {
        "3"
    } else if d == 4 {
        "4"
    } else if d == 5 {
        "5"
    } else if d == 6 {
        "6"
    } else if d == 7 {
        "7"
    } else if d == 8 {
        "8"
    } else {
        "9"
    };
    proof {
        reveal_strlit("0");
        reveal_strlit("1");
        reveal_strlit("2");
        reveal_strlit("3");
        reveal_strlit("4");
        reveal_strlit("5");
        reveal_strlit("6");
        reveal_strlit("7");
        reveal_strlit("8");
        reveal_strlit("9");
        assert(is_ascii_chars(r@));
        is_ascii_chars_encode_utf8(r@);
        assert(r.spec_bytes() =~= seq![(ZERO + d) as u8]);
    }
    r
}

/// `n` in decimal.
pub fn to_decimal(n: u64) -> (r: String)
    ensures
        bytes(r@) == decimal(n as nat),
    decreases n,
{
    if n < 10 {
        String::from_str(digit_str(n))
    } else {
        let mut r = to_decimal(n / 10);
        let last = digit_str(n % 10);
        proof {
            lemma_bytes_concat(r@, last@);
            assert(bytes(r@) + last.spec_bytes() =~= decimal(n as nat));
        }
        r.append(last);
        r
    }
}

/// The number that up to nine digits stand for.
pub fn parse_decimal(b: &[u8], from: usize, to: usize) -> (r: u64)
    requires
        from <= to <= b@.len(),
        to - from <= 9,
        all_digits(b@.subrange(from as int, to as int)),
    ensures
        r == value(b@.subrange(from as int, to as int)),
        r < 1_000_000_000,
{
    let ghost all = b@.subrange(from as int, to as int);
    let mut r: u64 = 0;
    let mut i: usize = from;
    while i < to
        invariant
            from <= i <= to <= b@.len(),
            to - from <= 9,
            all == b@.subrange(from as int, to as int),
            all_digits(all),
            r == value(all.take(i - from)),
            r < 1_000_000_000,
        decreases to - i,
    {
        let ghost k = i - from;
        proof {
            assert(all[k] == b@[i as int]);
            assert(all.take(k + 1).drop_last() =~= all.take(k));
            assert(all_digits(all.take(k + 1))) by {
                assert forall|m: int| 0 <= m < k + 1 implies ZERO <= #[trigger] all.take(k + 1)[m]
                    <= NINE by {
                    assert(all.take(k + 1)[m] == all[m]);
                }
            }
            lemma_value_bound(all.take(k + 1));
        }
        r = r * 10 + (b[i] - ZERO) as u64;
        i += 1;
    }
    assert(all.take(to - from) =~= all);
    r
}

/// A number is written digit by digit, its last digit last, and never with a zero in
/// front.
pub proof fn law_numbers_are_written_digit_by_digit(n: nat, d: nat)
    requires
        d < 10,
    ensures
        decimal(d) == seq![(0x30 + d) as u8],
        n > 0 ==> decimal(n * 10 + d) == decimal(n).push((0x30 + d) as u8),
        n > 0 ==> decimal(n)[0] != 0x30,
    decreases n,
{
    if n > 0 {
        assert((n * 10 + d) / 10 == n && (n * 10 + d) % 10 == d);
        if n >= 10 {
            law_numbers_are_written_digit_by_digit(n / 10, d);
            lemma_value_of_decimal(n / 10);
            assert(decimal(n)[0] == decimal(n / 10)[0]);
        }
    }
}

/// Digits are read one by one, each counting ten times what is behind it.
pub proof fn law_digits_are_read_one_by_one(d: Seq<u8>, c: u8)
    requires
        0x30 <= c <= 0x39,
    ensures
        value(Seq::empty()) == 0,
        value(d.push(c)) == value(d) * 10 + (c - 0x30),
{
    assert(d.push(c).drop_last() =~= d);
}

} // verus!
