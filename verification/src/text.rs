//! Decimal numbers written in ASCII, read into fixed-point integers.
use vstd::prelude::*;
use vstd::arithmetic::div_mod::lemma_fundamental_div_mod_converse;

verus! {

/// The byte `.`.
pub const POINT: u8 = 0x2e;

/// The byte `+`.
pub const PLUS: u8 = 0x2b;

/// The byte `-`.
pub const MINUS: u8 = 0x2d;

/// The byte `0`; the other digits follow it in order.
pub const ZERO: u8 = 0x30;

/// The byte `9`.
pub const NINE: u8 = 0x39;

/// Whether `b` is one of `0` to `9`.
pub open spec fn is_digit(b: u8) -> bool {
    ZERO <= b <= NINE
}

/// Whether `s` holds digits only.
pub open spec fn all_digits(s: Seq<u8>) -> bool {
    forall|i: int| 0 <= i < s.len() ==> is_digit(#[trigger] s[i])
}

/// The number that the digits `s` write, the most significant first.
pub open spec fn digits_value(s: Seq<u8>) -> nat
    decreases s.len(),
{
    if s.len() == 0 {
        0
    } else {
        digits_value(s.drop_last()) * 10 + (s.last() - ZERO) as nat
    }
}

/// Ten to the power `n`.
pub open spec fn pow10(n: nat) -> nat
    decreases n,
{
    if n == 0 {
        1
    } else {
        10 * pow10((n - 1) as nat)
    }
}

/// The place of the first `a` or `b` in `s` at or after `from`, or the
/// length of `s` if there is none.
pub open spec fn find_either(s: Seq<u8>, from: int, a: u8, b: u8) -> int
    decreases s.len() - from,
{
    if from >= s.len() {
        s.len() as int
    } else if s[from] == a || s[from] == b {
        from
    } else {
        find_either(s, from + 1, a, b)
    }
}

/// The digits of `s` before its first point.
pub open spec fn whole_part(s: Seq<u8>) -> Seq<u8> {
    s.subrange(0, find_either(s, 0, POINT, POINT))
}

/// What follows the first point of `s`; nothing if `s` has no point.
pub open spec fn fraction_part(s: Seq<u8>) -> Seq<u8> {
    if find_either(s, 0, POINT, POINT) < s.len() {
        s.subrange(find_either(s, 0, POINT, POINT) + 1, s.len() as int)
    } else {
        Seq::empty()
    }
}

/// Whether `s` is an unsigned decimal number: one digit or more, then
/// perhaps a point and any number of digits.
pub open spec fn is_decimal(s: Seq<u8>) -> bool {
    &&& whole_part(s).len() >= 1
    &&& all_digits(whole_part(s))
    &&& all_digits(fraction_part(s))
}

/// The first `places` digits of the fraction `frac` as a whole number,
/// with zeros for the digits that `frac` lacks.
pub open spec fn leading(frac: Seq<u8>, places: nat) -> nat {
    if frac.len() >= places {
        digits_value(frac.take(places as int))
    } else {
        digits_value(frac) * pow10((places - frac.len()) as nat)
    }
}

/// The decimal number `s` counted in units of ten to the power minus
/// `places`; digits beyond that many places are left off.
pub open spec fn scaled(s: Seq<u8>, places: nat) -> nat {
    digits_value(whole_part(s)) * pow10(places) + leading(fraction_part(s), places)
}

/// The decimal number `s` counted in units of ten to the power minus
/// `places`, where `s` is such a number and the count is at most `limit`.
pub open spec fn decimal(s: Seq<u8>, places: nat, limit: nat) -> Option<nat> {
    if is_decimal(s) && scaled(s, places) <= limit {
        Some(scaled(s, places))
    } else {
        None
    }
}

/// The decimal number `s`, which may begin with a sign, counted in units of
/// ten to the power minus `places`, where its size is at most `limit`.
pub open spec fn signed_decimal(s: Seq<u8>, places: nat, limit: nat) -> Option<int> {
    if s.len() > 0 && s[0] == MINUS {
        match decimal(s.skip(1), places, limit) {
            Some(v) => Some(-(v as int)),
            None => None,
        }
    } else if s.len() > 0 && s[0] == PLUS {
        match decimal(s.skip(1), places, limit) {
            Some(v) => Some(v as int),
            None => None,
        }
    } else {
        match decimal(s, places, limit) {
            Some(v) => Some(v as int),
            None => None,
        }
    }
}

/// Where `find_either` stops: at the first of the two bytes, with none of
/// them before it.
pub proof fn lemma_find_either(s: Seq<u8>, from: int, a: u8, b: u8)
    requires
        0 <= from <= s.len(),
    ensures
        from <= find_either(s, from, a, b) <= s.len(),
        find_either(s, from, a, b) < s.len() ==> s[find_either(s, from, a, b)] == a || s[find_either(
            s,
            from,
            a,
            b,
        )] == b,
        forall|k: int| from <= k < find_either(s, from, a, b) ==> s[k] != a && s[k] != b,
    decreases s.len() - from,
{
    if from < s.len() && !(s[from] == a || s[from] == b) {
        lemma_find_either(s, from + 1, a, b);
    }
}

/// A place with one of the two bytes, or the end, that has none of them
/// before it is where `find_either` stops.
pub proof fn lemma_found(s: Seq<u8>, from: int, a: u8, b: u8, at: int)
    requires
        0 <= from <= at <= s.len(),
        at < s.len() ==> s[at] == a || s[at] == b,
        forall|k: int| from <= k < at ==> s[k] != a && s[k] != b,
    ensures
        find_either(s, from, a, b) == at,
    decreases at - from,
{
    if from < at {
        lemma_found(s, from + 1, a, b, at);
    }
}

/// More digits never write a smaller number.
pub proof fn lemma_digits_grow(s: Seq<u8>, k: int)
    requires
        0 <= k <= s.len(),
        all_digits(s),
    ensures
        digits_value(s.take(k)) <= digits_value(s),
    decreases s.len() - k,
{
    if k < s.len() {
        lemma_digits_grow(s.drop_last(), k);
        assert(s.drop_last().take(k) =~= s.take(k));
        assert(is_digit(s[s.len() - 1]));
    } else {
        assert(s.take(k) =~= s);
    }
}

/// `n` digits write a number below ten to the power `n`.
pub proof fn lemma_digits_bound(s: Seq<u8>)
    requires
        all_digits(s),
    ensures
        digits_value(s) < pow10(s.len()),
    decreases s.len(),
{
    if s.len() > 0 {
        lemma_digits_bound(s.drop_last());
        assert(is_digit(s[s.len() - 1]));
    }
}

/// The number that a decimal number writes once its point is taken out.
pub open spec fn unpointed(s: Seq<u8>) -> nat {
    digits_value(whole_part(s) + fraction_part(s))
}

/// Digits written one after the other: those in front count for as many
/// powers of ten more as digits follow.
pub proof fn lemma_digits_concat(a: Seq<u8>, b: Seq<u8>)
    ensures
        digits_value(a + b) == digits_value(a) * pow10(b.len()) + digits_value(b),
    decreases b.len(),
{
    if b.len() == 0 {
        assert(a + b =~= a);
        assert(digits_value(a) * 1 == digits_value(a)) by (nonlinear_arith);
    } else {
        lemma_digits_concat(a, b.drop_last());
        assert((a + b).drop_last() =~= a + b.drop_last());
        let high = digits_value(a);
        let low = digits_value(b.drop_last());
        let power = pow10((b.len() - 1) as nat);
        assert((high * power + low) * 10 == high * (10 * power) + low * 10) by (nonlinear_arith);
    }
}

/// Counting a decimal number in units of ten to the power minus `places`
/// loses nothing if its fraction has no more than `places` digits, and is
/// rounded down otherwise.
pub proof fn lemma_scaled_is_rounded_down(s: Seq<u8>, places: nat)
    requires
        is_decimal(s),
    ensures
        fraction_part(s).len() <= places ==> scaled(s, places) == unpointed(s) * pow10(
            (places - fraction_part(s).len()) as nat,
        ),
        fraction_part(s).len() > places ==> scaled(s, places) == unpointed(s) / pow10(
            (fraction_part(s).len() - places) as nat,
        ),
{
    let whole = whole_part(s);
    let frac = fraction_part(s);
    let k = frac.len();
    lemma_digits_concat(whole, frac);
    let high = digits_value(whole);
    if k <= places {
        let rest = (places - k) as nat;
        lemma_pow10_sum(k, rest);
        if k == places {
            assert(frac.take(places as int) =~= frac);
        }
        lemma_pow10_grows(0, rest);
        assert(pow10(0) == 1);
        let low = digits_value(frac);
        assert((high * pow10(k) + low) * pow10(rest) == high * (pow10(k) * pow10(rest)) + low
            * pow10(rest)) by (nonlinear_arith);
        if k == places {
            assert(low * pow10(rest) == low) by (nonlinear_arith)
                requires
                    pow10(rest) == 1,
            ;
        }
    } else {
        let rest = (k - places) as nat;
        let kept = frac.take(places as int);
        let dropped = frac.skip(places as int);
        assert(kept + dropped =~= frac);
        lemma_digits_concat(kept, dropped);
        lemma_digits_bound(dropped);
        lemma_pow10_sum(places, rest);
        lemma_pow10_grows(0, rest);
        let unit = pow10(rest) as int;
        let quotient = high * pow10(places) + digits_value(kept);
        let remainder = digits_value(dropped) as int;
        assert(unpointed(s) == quotient * unit + remainder) by (nonlinear_arith)
            requires
                unpointed(s) == high * pow10(k) + digits_value(frac),
                digits_value(frac) == digits_value(kept) * unit + remainder,
                pow10(places) * unit == pow10(k),
                quotient == high * pow10(places) + digits_value(kept),
        ;
        lemma_fundamental_div_mod_converse(unpointed(s) as int, unit, quotient as int, remainder);
    }
}

/// Ten to the power `n`, for `n` up to 9.
fn power_of_ten(n: u8) -> (p: u64)
    requires
        n <= 9,
    ensures
        p == pow10(n as nat),
        1 <= p <= 1_000_000_000,
{
    let mut p: u64 = 1;
    let mut i: u8 = 0;
    while i < n
        invariant
            0 <= i <= n <= 9,
            p == pow10(i as nat),
            1 <= p,
            p <= 1_000_000_000,
            i < 9 ==> p <= 100_000_000,
            i < 8 ==> p <= 10_000_000,
            i < 7 ==> p <= 1_000_000,
            i < 6 ==> p <= 100_000,
            i < 5 ==> p <= 10_000,
            i < 4 ==> p <= 1_000,
            i < 3 ==> p <= 100,
            i < 2 ==> p <= 10,
            i < 1 ==> p <= 1,
        decreases n - i,
    {
        p = p * 10;
        i = i + 1;
    }
    p
}

/// Reads the bytes from `start` to `end` as an unsigned decimal number in
/// units of ten to the power minus `places`.
///
/// Gives nothing if they are no such number, or if it is above `limit`.
pub fn parse_decimal(bytes: &[u8], start: usize, end: usize, places: u8, limit: u32) -> (r: Option<
    u64,
>)
    requires
        start <= end <= bytes@.len(),
        places <= 9,
    ensures
        r matches Some(v) ==> decimal(
            bytes@.subrange(start as int, end as int),
            places as nat,
            limit as nat,
        ) == Some(v as nat),
        r is None ==> decimal(bytes@.subrange(start as int, end as int), places as nat, limit as nat)
            is None,
{
    let ghost s = bytes@.subrange(start as int, end as int);
    let scale: u64 = power_of_ten(places);
    let mut whole: u64 = 0;
    let mut i: usize = start;
    while i < end && bytes[i] != POINT
        invariant
            start <= i <= end <= bytes@.len(),
            s == bytes@.subrange(start as int, end as int),
            forall|k: int| 0 <= k < i - start ==> s[k] != POINT,
            all_digits(s.take(i - start)),
            whole == digits_value(s.take(i - start)),
            whole * scale <= limit,
            scale == pow10(places as nat),
            1 <= scale <= 1_000_000_000,
        decreases end - i,
    {
        let b: u8 = bytes[i];
        proof {
            let upto = s.take(i - start + 1);
            assert(upto.drop_last() =~= s.take(i - start));
            assert(upto.last() == b);
            assert(s[i - start] == b);
        }
        if b < ZERO || b > NINE {
            proof {
                lemma_found_after(s, i - start);
                assert(!is_digit(whole_part(s)[i - start]));
            }
            return None;
        }
        assert(whole <= 0xffff_ffff) by (nonlinear_arith)
            requires
                whole * scale <= limit,
                limit <= 0xffff_ffff,
                scale >= 1,
        ;
        let next: u64 = whole * 10 + (b - ZERO) as u64;
        assert(next * scale <= 10 * 0xffff_ffff + 9 * 1_000_000_000) by (nonlinear_arith)
            requires
                next == whole * 10 + (b - ZERO),
                0 <= b - ZERO <= 9,
                whole * scale <= 0xffff_ffff,
                0 <= scale <= 1_000_000_000,
        ;
        if next * scale > limit as u64 {
            proof {
                if is_decimal(s) {
                    lemma_found_after(s, i - start);
                    let w = whole_part(s);
                    assert(w.take(i - start + 1) =~= s.take(i - start + 1));
                    lemma_digits_grow(w, i - start + 1);
                    assert(next * scale <= digits_value(w) * scale) by (nonlinear_arith)
                        requires
                            next <= digits_value(w),
                            scale >= 0,
                    ;
                }
            }
            return None;
        }
        whole = next;
        i = i + 1;
    }
    proof {
        lemma_found(s, 0, POINT, POINT, i - start);
        assert(whole_part(s) =~= s.take(i - start));
    }
    if i == start {
        return None;
    }
    let ghost frac = fraction_part(s);
    let mut part: u64 = 0;
    let mut taken: u8 = 0;
    if i < end {
        let first: usize = i + 1;
        assert(frac =~= bytes@.subrange(first as int, end as int));
        let mut j: usize = first;
        while j < end
            invariant
                start <= first <= j <= end <= bytes@.len(),
                s == bytes@.subrange(start as int, end as int),
                frac == bytes@.subrange(first as int, end as int),
                frac == fraction_part(s),
                all_digits(frac.take(j - first)),
                taken <= places <= 9,
                taken == if j - first < places {
                    j - first
                } else {
                    places as int
                },
                part == digits_value(frac.take(taken as int)),
                part < pow10(taken as nat),
                pow10(taken as nat) <= pow10(places as nat) <= 1_000_000_000,
            decreases end - j,
        {
            let b: u8 = bytes[j];
            assert(frac[j - first] == b);
            if b < ZERO || b > NINE {
                assert(!is_digit(fraction_part(s)[j - first]));
                return None;
            }
            proof {
                let upto = frac.take(j - first + 1);
                assert(upto.drop_last() =~= frac.take(j - first));
                assert(upto.last() == b);
            }
            if taken < places {
                proof {
                    lemma_pow10_grows(taken as nat + 1, places as nat);
                }
                part = part * 10 + (b - ZERO) as u64;
                taken = taken + 1;
            }
            j = j + 1;
        }
        assert(frac.take(j - first) =~= frac);
    } else {
        assert(frac.take(0) =~= frac);
    }
    assert(all_digits(frac));
    assert(taken == if frac.len() < places {
        frac.len() as int
    } else {
        places as int
    });
    assert(part == digits_value(frac.take(taken as int)));
    assert(part < pow10(taken as nat));
    let pad: u64 = power_of_ten(places - taken);
    proof {
        lemma_pow10_sum(taken as nat, (places - taken) as nat);
        assert(part * pad <= pow10(taken as nat) * pad) by (nonlinear_arith)
            requires
                part < pow10(taken as nat),
                pad >= 0,
        ;
        if frac.len() >= places {
            assert(part * pad == part) by (nonlinear_arith)
                requires
                    pad == 1,
            ;
        } else {
            assert(frac.take(taken as int) =~= frac);
            assert(part == digits_value(frac));
            assert(pad == pow10((places - frac.len()) as nat));
            assert(part * pad == digits_value(frac) * pow10((places - frac.len()) as nat))
                by (nonlinear_arith)
                requires
                    part == digits_value(frac),
                    pad == pow10((places - frac.len()) as nat),
            ;
        }
        assert(part * pad == leading(frac, places as nat));
        assert(scaled(s, places as nat) == whole * scale + part * pad);
    }
    let total: u64 = whole * scale + part * pad;
    if total > limit as u64 {
        None
    } else {
        Some(total)
    }
}

/// Reads the bytes from `start` to `end` as a decimal number that may begin
/// with a sign, in units of ten to the power minus `places`.
///
/// Gives nothing if they are no such number, or if its size is above `limit`.
pub fn parse_signed_decimal(
    bytes: &[u8],
    start: usize,
    end: usize,
    places: u8,
    limit: u32,
) -> (r: Option<i64>)
    requires
        start <= end <= bytes@.len(),
        places <= 9,
    ensures
        r matches Some(v) ==> signed_decimal(
            bytes@.subrange(start as int, end as int),
            places as nat,
            limit as nat,
        ) == Some(v as int),
        r is None ==> signed_decimal(
            bytes@.subrange(start as int, end as int),
            places as nat,
            limit as nat,
        ) is None,
{
    let ghost s = bytes@.subrange(start as int, end as int);
    if start < end && bytes[start] == MINUS {
        assert(s[0] == MINUS);
        assert(s.skip(1) =~= bytes@.subrange(start + 1, end as int));
        match parse_decimal(bytes, start + 1, end, places, limit) {
            Some(v) => Some(-(v as i64)),
            None => None,
        }
    } else if start < end && bytes[start] == PLUS {
        assert(s[0] == PLUS);
        assert(s.skip(1) =~= bytes@.subrange(start + 1, end as int));
        match parse_decimal(bytes, start + 1, end, places, limit) {
            Some(v) => Some(v as i64),
            None => None,
        }
    } else {
        assert(start < end ==> s[0] == bytes@[start as int]);
        match parse_decimal(bytes, start, end, places, limit) {
            Some(v) => Some(v as i64),
            None => None,
        }
    }
}

/// A byte with no point before it, itself no point, lies in the whole part.
proof fn lemma_found_after(s: Seq<u8>, at: int)
    requires
        0 <= at < s.len(),
        forall|k: int| 0 <= k <= at ==> s[k] != POINT,
    ensures
        at < find_either(s, 0, POINT, POINT) <= s.len(),
        whole_part(s).len() > at,
        whole_part(s)[at] == s[at],
{
    lemma_find_either(s, 0, POINT, POINT);
}

/// Powers of ten grow with the exponent.
proof fn lemma_pow10_grows(a: nat, b: nat)
    requires
        a <= b,
    ensures
        pow10(a) <= pow10(b),
        pow10(a) >= 1,
    decreases b,
{
    if a < b {
        lemma_pow10_grows(a, (b - 1) as nat);
    } else if a > 0 {
        lemma_pow10_grows((a - 1) as nat, (a - 1) as nat);
    }
}

/// Powers of ten multiply as their exponents add.
proof fn lemma_pow10_sum(a: nat, b: nat)
    ensures
        pow10(a) * pow10(b) == pow10(a + b),
    decreases a,
{
    if a > 0 {
        lemma_pow10_sum((a - 1) as nat, b);
        assert(10 * pow10((a - 1) as nat) * pow10(b) == 10 * (pow10((a - 1) as nat) * pow10(b)))
            by (nonlinear_arith);
    } else {
        assert(1 * pow10(b) == pow10(b)) by (nonlinear_arith);
    }
}

} // verus!
