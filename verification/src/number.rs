//! Numbers written as text: digits in base ten or sixteen, and canonical decimals.

use vstd::prelude::*;

verus! {

/// The largest magnitude of a negative 64-bit integer.
pub const I64_MIN_MAGNITUDE: u64 = 0x8000_0000_0000_0000;

/// The value of an ASCII digit; sixteen for a byte that is no digit in either base.
pub open spec fn digit_value(b: u8) -> nat {
    if 48 <= b <= 57 {
        (b - 48) as nat
    } else if 97 <= b <= 102 {
        (b - 87) as nat
    } else if 65 <= b <= 70 {
        (b - 55) as nat
    } else {
        16
    }
}

/// Every byte of `s` is a digit in `base`.
pub open spec fn all_digits(s: Seq<u8>, base: nat) -> bool {
    forall|i: int| 0 <= i < s.len() ==> digit_value(#[trigger] s[i]) < base
}

/// What a run of digits stands for, most significant digit first.
pub open spec fn digits_value(s: Seq<u8>, base: nat) -> nat
    decreases s.len(),
{
    if s.len() == 0 {
        0
    } else {
        digits_value(s.drop_last(), base) * base + digit_value(s.last())
    }
}

/// The number that a non-empty run of digits stands for.
pub open spec fn read_number(s: Seq<u8>, base: nat) -> Option<nat> {
    if s.len() > 0 && all_digits(s, base) {
        Some(digits_value(s, base))
    } else {
        None
    }
}

/// The decimal digits of `n`, without leading zeros.
pub open spec fn decimal(n: nat) -> Seq<u8>
    decreases n,
{
    if n < 10 {
        seq![(48 + n) as u8]
    } else {
        decimal(n / 10).push((48 + n % 10) as u8)
    }
}

/// The decimal text of an integer, with a minus sign before a negative one.
pub open spec fn decimal_int(i: int) -> Seq<u8> {
    if i < 0 {
        seq![45u8] + decimal((-i) as nat)
    } else {
        decimal(i as nat)
    }
}

/// A decimal text without superfluous zeros: what `decimal` writes.
pub open spec fn is_decimal(s: Seq<u8>) -> bool {
    &&& s.len() > 0
    &&& all_digits(s, 10)
    &&& s.len() > 1 ==> s[0] != 48
}

/// The decimal text of a number is canonical and stands for that number.
pub proof fn lemma_decimal_reads_back(n: nat)
    ensures
        is_decimal(decimal(n)),
        digits_value(decimal(n), 10) == n,
        n > 0 ==> decimal(n)[0] != 48,
    decreases n,
{
    let s = decimal(n);
    if n < 10 {
        assert(s.drop_last() =~= Seq::<u8>::empty());
        assert(digits_value(s.drop_last(), 10) == 0);
    } else {
        lemma_decimal_reads_back(n / 10);
        assert(s.drop_last() =~= decimal(n / 10));
        assert forall|i: int| 0 <= i < s.len() implies digit_value(#[trigger] s[i]) < 10 by {
            if i < s.len() - 1 {
                assert(s[i] == decimal(n / 10)[i]);
            }
        }
        assert(s[0] == decimal(n / 10)[0]);
    }
}

/// A longer run of digits stands for no less than its beginning.
proof fn lemma_digits_value_grows(s: Seq<u8>, i: int)
    requires
        0 <= i <= s.len(),
    ensures
        digits_value(s.take(i), 10) <= digits_value(s, 10),
    decreases s.len(),
{
    if i < s.len() {
        lemma_digits_value_grows(s.drop_last(), i);
        assert(s.drop_last().take(i) =~= s.take(i));
    } else {
        assert(s.take(i) =~= s);
    }
}

/// Reads a run of decimal digits. `None` for an empty run, for a byte that is no digit, and
/// for a number that does not fit.
pub fn read_digits(s: &[u8]) -> (r: Option<u64>)
    ensures
        match read_number(s@, 10) {
            Some(n) => if n <= u64::MAX {
                r == Some(n as u64)
            } else {
                r is None
            },
            None => r is None,
        },
{
    if s.len() == 0 {
        return None;
    }
    let mut v: u64 = 0;
    let mut i: usize = 0;
    while i < s.len()
        invariant
            s@.len() > 0,
            i <= s@.len(),
            all_digits(s@.take(i as int), 10),
            v == digits_value(s@.take(i as int), 10),
        decreases s@.len() - i,
    {
        let b: u8 = s[i];
        let ghost head = s@.take(i + 1);
        proof {
            assert(head.drop_last() =~= s@.take(i as int));
            lemma_digits_value_grows(s@, i + 1);
        }
        if b < 48 || 57 < b {
            assert(!all_digits(s@, 10)) by {
                assert(digit_value(s@[i as int]) >= 10);
            }
            return None;
        }
        match v.checked_mul(10) {
            Some(m) => match m.checked_add((b - 48) as u64) {
                Some(n) => {
                    v = n;
                },
                None => {
                    return None;
                },
            },
            None => {
                return None;
            },
        }
        assert forall|k: int| 0 <= k < head.len() implies digit_value(#[trigger] head[k]) < 10 by {
            if k < i {
                assert(head[k] == s@.take(i as int)[k]);
            }
        }
        i = i + 1;
    }
    assert(s@.take(i as int) =~= s@);
    Some(v)
}

/// Writes a number in decimal.
pub fn decimal_bytes(n: u64) -> (r: Vec<u8>)
    ensures
        r@ == decimal(n as nat),
    decreases n,
{
    if n < 10 {
        let mut out: Vec<u8> = Vec::new();
        out.push(48 + n as u8);
        assert(out@ =~= decimal(n as nat));
        out
    } else {
        let mut out: Vec<u8> = decimal_bytes(n / 10);
        out.push(48 + (n % 10) as u8);
        out
    }
}

/// Writes a signed integer in decimal.
pub fn decimal_int_bytes(i: i64) -> (r: Vec<u8>)
    ensures
        r@ == decimal_int(i as int),
{
    if i < 0 {
        let magnitude: u64 = if i == i64::MIN {
            I64_MIN_MAGNITUDE
        } else {
            (-i) as u64
        };
        let mut digits: Vec<u8> = decimal_bytes(magnitude);
        let mut out: Vec<u8> = Vec::new();
        out.push(45);
        out.append(&mut digits);
        assert(out@ =~= decimal_int(i as int));
        out
    } else {
        decimal_bytes(i as u64)
    }
}

/// The integer that a sign and a magnitude make, where 64 bits hold it.
pub open spec fn signed_value(negative: bool, magnitude: nat) -> Option<i64> {
    if negative && magnitude <= I64_MIN_MAGNITUDE {
        Some((-(magnitude as int)) as i64)
    } else if !negative && magnitude <= i64::MAX {
        Some(magnitude as i64)
    } else {
        None
    }
}

/// Puts a sign before a magnitude. `None` where 64 bits do not hold the result.
pub fn signed(negative: bool, magnitude: u64) -> (r: Option<i64>)
    ensures
        r == signed_value(negative, magnitude as nat),
{
    if negative {
        if magnitude == I64_MIN_MAGNITUDE {
            Some(i64::MIN)
        } else if magnitude < I64_MIN_MAGNITUDE {
            Some(-(magnitude as i64))
        } else {
            None
        }
    } else if magnitude <= i64::MAX as u64 {
        Some(magnitude as i64)
    } else {
        None
    }
}

/// A run of digits stands for ten, or sixteen, times what the run without its last digit
/// stands for, and the last digit.
pub proof fn law_digits_count_by_place(s: Seq<u8>, b: u8, base: nat)
    ensures
        digits_value(Seq::empty(), base) == 0,
        digits_value(s.push(b), base) == digits_value(s, base) * base + digit_value(b),
        48 <= b <= 57 ==> digit_value(b) == b - 48,
        97 <= b <= 102 ==> digit_value(b) == b - 97 + 10,
        65 <= b <= 70 ==> digit_value(b) == b - 65 + 10,
        !(48 <= b <= 57 || 97 <= b <= 102 || 65 <= b <= 70) ==> digit_value(b) >= 16,
{
    assert(s.push(b).drop_last() =~= s);
}

/// A run is a number exactly where it is not empty and each of its bytes is a digit, and it is
/// then the number that its digits stand for.
pub proof fn law_number_is_made_of_digits(s: Seq<u8>, base: nat)
    ensures
        read_number(s, base) is Some <==> s.len() > 0 && forall|i: int|
            0 <= i < s.len() ==> digit_value(#[trigger] s[i]) < base,
        read_number(s, base) matches Some(n) ==> n == digits_value(s, base),
{
}

/// The decimal text of a number stands for that number, and a negative number has the text of
/// its opposite behind a minus sign.
pub proof fn law_decimal_stands_for_number(n: nat)
    ensures
        read_number(decimal(n), 10) == Some(n),
        decimal_int(n as int) == decimal(n),
        n > 0 ==> decimal_int(-(n as int)) == seq![45u8] + decimal(n),
        decimal(n).len() > 1 ==> decimal(n)[0] != 48,
{
    lemma_decimal_reads_back(n);
}

/// A run of digits without superfluous zeros is the decimal text of the number that it stands
/// for.
pub proof fn law_decimal_is_canonical(s: Seq<u8>)
    requires
        is_decimal(s),
    ensures
        decimal(digits_value(s, 10)) == s,
        s.len() > 0,
        s.len() > 1 ==> s[0] != 48,
        forall|i: int| 0 <= i < s.len() ==> 48 <= #[trigger] s[i] <= 57,
        s.len() > 1 ==> digits_value(s, 10) >= 10,
    decreases s.len(),
{
    assert forall|i: int| 0 <= i < s.len() implies 48 <= #[trigger] s[i] <= 57 by {
        assert(digit_value(s[i]) < 10);
    }
    let head = s.drop_last();
    let n = digits_value(s, 10);
    if s.len() == 1 {
        assert(digits_value(head, 10) == 0);
        assert(decimal(n) =~= s);
    } else {
        assert forall|i: int| 0 <= i < head.len() implies digit_value(#[trigger] head[i]) < 10 by {
            assert(head[i] == s[i]);
        }
        assert(head[0] == s[0]);
        law_decimal_is_canonical(head);
        let m = digits_value(head, 10);
        if head.len() == 1 {
            assert(digits_value(head.drop_last(), 10) == 0);
            assert(m == digit_value(head[0]));
        }
        assert(m >= 1);
        assert(n == m * 10 + digit_value(s.last()));
        assert(n / 10 == m && n % 10 == digit_value(s.last()));
        assert(decimal(n) =~= s);
    }
}

/// A sign and a magnitude give the number they say, wherever 64 bits hold it.
pub proof fn law_signed_value_is_exact(negative: bool, magnitude: nat)
    ensures
        ({
            let i = if negative {
                -(magnitude as int)
            } else {
                magnitude as int
            };
            if i64::MIN <= i <= i64::MAX {
                signed_value(negative, magnitude) == Some(i as i64)
            } else {
                signed_value(negative, magnitude) is None
            }
        }),
{
}

} // verus!
