use vstd::prelude::*;

verus! {

/// Most digits accepted before the decimal point of a value.
pub const MAX_INT_DIGITS: usize = 6;

/// Largest magnitude of a parsed value, in tenths.
pub const MAX_ABS_TENTHS: i64 = 9999999;

pub open spec fn is_digit(b: u8) -> bool {
    48 <= b <= 57
}

pub open spec fn all_digits(s: Seq<u8>) -> bool {
    forall|i: int| 0 <= i < s.len() ==> is_digit(#[trigger] s[i])
}

pub open spec fn pow10(n: nat) -> int
    decreases n,
{
    if n == 0 {
        1
    } else {
        10 * pow10((n - 1) as nat)
    }
}

/// The number that a run of decimal digits writes.
pub open spec fn digits_value(s: Seq<u8>) -> int
    decreases s.len(),
{
    if s.len() == 0 {
        0
    } else {
        digits_value(s.drop_last()) * 10 + (s.last() - 48)
    }
}

/// `d...d.d` with 1 to `MAX_INT_DIGITS` integer digits, in tenths.
pub open spec fn unsigned_tenths(s: Seq<u8>) -> Option<int> {
    let n = s.len() as int;
    if 3 <= n && n - 2 <= MAX_INT_DIGITS && s[n - 2] == 46u8 && all_digits(s.take(n - 2))
        && is_digit(s[n - 1]) {
        Some(digits_value(s.take(n - 2)) * 10 + (s[n - 1] - 48))
    } else {
        None
    }
}

/// The value a field writes, in tenths: an optional `-`, then `d...d.d`.
pub open spec fn tenths_of(s: Seq<u8>) -> Option<int> {
    if s.len() > 0 && s[0] == 45u8 {
        match unsigned_tenths(s.drop_first()) {
            Some(v) => Some(-v),
            None => None,
        }
    } else {
        unsigned_tenths(s)
    }
}

/// `n / d` rounded to the nearest integer, halves away from zero.
pub open spec fn round_half_away(n: int, d: int) -> int {
    if n >= 0 {
        (2 * n + d) / (2 * d)
    } else {
        -((2 * (-n) + d) / (2 * d))
    }
}

proof fn lemma_pow10_bound(n: nat)
    requires
        n <= MAX_INT_DIGITS,
    ensures
        1 <= pow10(n) <= 1000000,
    decreases n,
{
    reveal_with_fuel(pow10, 7);
    if n > 0 {
        lemma_pow10_bound((n - 1) as nat);
    }
}

/// Parses a value field into tenths; `None` where the field is not a value.
pub fn parse_value(s: &[u8]) -> (r: Option<i64>)
    ensures
        r is Some <==> tenths_of(s@) is Some,
        r is Some ==> r.unwrap() as int == tenths_of(s@).unwrap(),
        r is Some ==> -MAX_ABS_TENTHS <= r.unwrap() <= MAX_ABS_TENTHS,
{
    let len = s.len();
    let negative = len > 0 && s[0] == 45u8;
    let start: usize = if negative { 1 } else { 0 };
    let body = Ghost(s@.subrange(start as int, len as int));
    assert(negative ==> body@ =~= s@.drop_first());
    assert(!negative ==> body@ =~= s@);
    if len < start + 3 || len - start - 2 > MAX_INT_DIGITS || s[len - 2] != 46u8 || !(48u8
        <= s[len - 1] && s[len - 1] <= 57u8) {
        return None;
    }
    let mut acc: i64 = 0;
    let mut i: usize = start;
    while i < len - 2
        invariant
            start <= i <= len - 2,
            len - start - 2 <= MAX_INT_DIGITS,
            len == s@.len(),
            body@ == s@.subrange(start as int, len as int),
            negative == (len > 0 && s@[0] == 45u8),
            start == (if negative { 1usize } else { 0usize }),
            negative ==> body@ == s@.drop_first(),
            !negative ==> body@ == s@,
            all_digits(s@.subrange(start as int, i as int)),
            acc as int == digits_value(s@.subrange(start as int, i as int)),
            0 <= acc < pow10((i - start) as nat),
        decreases len - 2 - i,
    {
        let b = s[i];
        if !(48u8 <= b && b <= 57u8) {
            assert(body@.take(body@.len() - 2)[i - start] == b);
            return None;
        }
        proof {
            lemma_pow10_bound((i + 1 - start) as nat);
            assert(s@.subrange(start as int, i + 1).drop_last() == s@.subrange(
                start as int,
                i as int,
            ));
        }
        acc = acc * 10 + (b - 48u8) as i64;
        i = i + 1;
    }
    proof {
        lemma_pow10_bound((len - 2 - start) as nat);
        assert(body@.take(body@.len() - 2) == s@.subrange(start as int, len - 2));
    }
    let mag = acc * 10 + (s[len - 1] - 48u8) as i64;
    if negative {
        Some(-mag)
    } else {
        Some(mag)
    }
}

/// `numerator / denominator` rounded to one decimal place, halves away from
/// zero; both sides are in tenths, so a value already in tenths stays as it is.
pub fn round_off(numerator: i128, denominator: u64) -> (r: i128)
    requires
        denominator > 0,
        -0x10000000000000000000000000 < numerator < 0x10000000000000000000000000,
    ensures
        r as int == round_half_away(numerator as int, denominator as int),
{
    let d = denominator as i128;
    if numerator >= 0 {
        (2 * numerator + d) / (2 * d)
    } else {
        -((2 * (-numerator) + d) / (2 * d))
    }
}

/// Rounding a value that is already in tenths gives it back.
pub proof fn lemma_round_off_idempotent(v: int, k: int)
    requires
        k > 0,
    ensures
        round_half_away(v * k, k) == v,
{
    if v >= 0 {
        assert(v * k >= 0) by (nonlinear_arith)
            requires
                v >= 0,
                k > 0,
        ;
        assert(2 * (v * k) + k == v * (2 * k) + k) by (nonlinear_arith);
        vstd::arithmetic::div_mod::lemma_fundamental_div_mod_converse(
            2 * (v * k) + k,
            2 * k,
            v,
            k,
        );
    } else {
        assert(v * k < 0) by (nonlinear_arith)
            requires
                v < 0,
                k > 0,
        ;
        assert(2 * (-(v * k)) + k == (-v) * (2 * k) + k) by (nonlinear_arith);
        vstd::arithmetic::div_mod::lemma_fundamental_div_mod_converse(
            2 * (-(v * k)) + k,
            2 * k,
            -v,
            k,
        );
    }
}

/// Rounding keeps a quotient between any bounds that hold of it exactly.
pub proof fn lemma_round_between(n: int, d: int, lo: int, hi: int)
    requires
        d > 0,
        lo * d <= n <= hi * d,
    ensures
        lo <= round_half_away(n, d) <= hi,
    decreases
        if n >= 0 { 0int } else { 1int },
{
    if n >= 0 {
        assert(2 * n + d >= 2 * (lo * d) + d);
        if lo >= 0 {
            assert(2 * (lo * d) + d == lo * (2 * d) + d) by (nonlinear_arith);
            vstd::arithmetic::div_mod::lemma_div_is_ordered(lo * (2 * d), 2 * n + d, 2 * d);
            vstd::arithmetic::div_mod::lemma_div_multiples_vanish(lo, 2 * d);
        }
        assert(2 * n + d <= hi * (2 * d) + d) by (nonlinear_arith)
            requires
                n <= hi * d,
        ;
        assert(2 * n + d < (hi + 1) * (2 * d)) by (nonlinear_arith)
            requires
                2 * n + d <= hi * (2 * d) + d,
                d > 0,
        ;
        vstd::arithmetic::div_mod::lemma_div_is_ordered(2 * n + d, (hi + 1) * (2 * d) - 1, 2 * d);
        vstd::arithmetic::div_mod::lemma_div_is_ordered(0, 2 * n + d, 2 * d);
        assert(((hi + 1) * (2 * d) - 1) / (2 * d) == hi) by {
            assert((hi + 1) * (2 * d) - 1 == hi * (2 * d) + (2 * d - 1)) by (nonlinear_arith);
            vstd::arithmetic::div_mod::lemma_fundamental_div_mod_converse(
                (hi + 1) * (2 * d) - 1,
                2 * d,
                hi,
                2 * d - 1,
            );
        }
    } else {
        assert((-hi) * d <= -n <= (-lo) * d) by (nonlinear_arith)
            requires
                lo * d <= n <= hi * d,
        ;
        lemma_round_between(-n, d, -hi, -lo);
        assert(round_half_away(-n, d) == (2 * (-n) + d) / (2 * d));
    }
}

} // verus!
