//! Decimal numbers in text.
//!
//! A number is an optional sign, digits, and optionally a point and more digits, with
//! at least one digit in all: `12`, `-0.35`, `+.5`, `7.`. Its value is taken in grid
//! steps and rounded towards zero. There is no exponent and no name for infinity.

use crate::scalar::lemma_cancel_factor;
use crate::scalar::LIMIT;
use crate::scalar::ONE;
use vstd::arithmetic::div_mod::lemma_div_is_ordered;
use vstd::arithmetic::div_mod::lemma_div_pos_is_pos;
use vstd::arithmetic::div_mod::lemma_fundamental_div_mod;
use vstd::arithmetic::div_mod::lemma_fundamental_div_mod_converse;
use vstd::arithmetic::div_mod::lemma_mod_bound;
use vstd::prelude::*;

verus! {

/// Why a text is not a number of the grid.
#[derive(Debug, Clone, Copy, PartialEq, Eq, Structural)]
pub enum NumberError {
    /// The text is empty.
    Empty,
    /// The text is not an optional sign, digits and at most one point, or has no digit.
    Invalid,
    /// The number is larger in magnitude than `LIMIT` grid steps.
    OutOfRange,
}

/// The byte `.`.
pub const POINT: u8 = 46;

/// The byte `+`.
pub const PLUS: u8 = 43;

/// The byte `-`.
pub const MINUS: u8 = 45;

/// `b` is one of the digits `0` to `9`.
pub open spec fn is_digit(b: u8) -> bool {
    48 <= b <= 57
}

/// Every byte of `s` is a digit.
pub open spec fn all_digits(s: Seq<u8>) -> bool {
    forall|i: int| 0 <= i < s.len() ==> is_digit(#[trigger] s[i])
}

/// The value of the digit `b`.
pub open spec fn digit_value(b: u8) -> nat {
    if b >= 48 {
        (b - 48) as nat
    } else {
        0
    }
}

/// The number that the digits `s` write in base ten (0 for no digits).
pub open spec fn digits_value(s: Seq<u8>) -> nat
    decreases s.len(),
{
    if s.len() == 0 {
        0
    } else {
        digits_value(s.drop_last()) * 10 + digit_value(s.last())
    }
}

/// Ten to the power `k`.
pub open spec fn pow10(k: nat) -> nat
    decreases k,
{
    if k == 0 {
        1
    } else {
        10 * pow10((k - 1) as nat)
    }
}

/// The first index at or after `from` at which `s` holds the byte `b`, or the length of
/// `s` if there is none.
pub open spec fn index_from(s: Seq<u8>, b: u8, from: int) -> int
    decreases s.len() - from,
{
    if from >= s.len() {
        s.len() as int
    } else if s[from] == b {
        from
    } else {
        index_from(s, b, from + 1)
    }
}

/// The first index at which `s` holds the byte `b`, or the length of `s`.
pub open spec fn index_of(s: Seq<u8>, b: u8) -> int {
    index_from(s, b, 0)
}

/// The digits of `s` before its first point.
pub open spec fn whole_part(s: Seq<u8>) -> Seq<u8> {
    s.subrange(0, index_of(s, POINT))
}

/// The digits of `s` after its first point; none if `s` has no point.
pub open spec fn fraction_part(s: Seq<u8>) -> Seq<u8> {
    if index_of(s, POINT) < s.len() {
        s.subrange(index_of(s, POINT) + 1, s.len() as int)
    } else {
        Seq::empty()
    }
}

/// `s` is digits with at most one point among them, and at least one digit.
pub open spec fn well_formed(s: Seq<u8>) -> bool {
    all_digits(whole_part(s)) && all_digits(fraction_part(s)) && whole_part(s).len()
        + fraction_part(s).len() > 0
}

/// The value of the unsigned number `s` in grid steps, rounded down: the whole part
/// times `ONE`, and the fraction `f / 10^k` of `ONE`.
pub open spec fn magnitude(s: Seq<u8>) -> nat {
    (digits_value(whole_part(s)) * ONE + (digits_value(fraction_part(s)) * ONE) / (pow10(
        fraction_part(s).len(),
    ) as int)) as nat
}

/// `s` starts with a sign.
pub open spec fn has_sign(s: Seq<u8>) -> bool {
    s.len() > 0 && (s[0] == PLUS || s[0] == MINUS)
}

/// `s` without its sign.
pub open spec fn unsigned_part(s: Seq<u8>) -> Seq<u8> {
    if has_sign(s) {
        s.subrange(1, s.len() as int)
    } else {
        s
    }
}

/// What the text `s` says: a number of grid steps, or why it says none.
pub open spec fn number(s: Seq<u8>) -> Result<i64, NumberError> {
    let body = unsigned_part(s);
    if s.len() == 0 {
        Err(NumberError::Empty)
    } else if !well_formed(body) {
        Err(NumberError::Invalid)
    } else if magnitude(body) > LIMIT {
        Err(NumberError::OutOfRange)
    } else if s[0] == MINUS {
        Ok((-(magnitude(body) as int)) as i64)
    } else {
        Ok(magnitude(body) as i64)
    }
}

/// `k` digits write a number below ten to the power `k`.
pub proof fn lemma_digits_value_bound(s: Seq<u8>)
    requires
        all_digits(s),
    ensures
        digits_value(s) < pow10(s.len()),
    decreases s.len(),
{
    if s.len() > 0 {
        lemma_digits_value_bound(s.drop_last());
        assert(is_digit(s.last()));
    }
}

/// Digits written after other digits: the value of the first ones moves up by as many
/// places as digits follow.
pub proof fn lemma_digits_value_split(s: Seq<u8>, cut: int)
    requires
        0 <= cut <= s.len(),
    ensures
        digits_value(s) == digits_value(s.subrange(0, cut)) * pow10((s.len() - cut) as nat)
            + digits_value(s.subrange(cut, s.len() as int)),
    decreases s.len() - cut,
{
    let head = s.subrange(0, cut);
    let tail = s.subrange(cut, s.len() as int);
    if cut == s.len() {
        assert(head =~= s);
        assert(tail.len() == 0);
        assert(pow10(0) == 1);
        assert(digits_value(head) * 1 == digits_value(head)) by (nonlinear_arith);
    } else {
        let shorter = s.drop_last();
        lemma_digits_value_split(shorter, cut);
        assert(shorter.subrange(0, cut) =~= head);
        assert(shorter.subrange(cut, shorter.len() as int) =~= tail.drop_last());
        assert(tail.last() == s.last());
        let h = digits_value(head) as int;
        let p = pow10((s.len() - 1 - cut) as nat) as int;
        let t = digits_value(tail.drop_last()) as int;
        assert((h * p + t) * 10 == h * (10 * p) + t * 10) by (nonlinear_arith);
        assert(pow10((s.len() - cut) as nat) == 10 * p);
        assert(digits_value(shorter) == h * p + t);
        assert(digits_value(s) == digits_value(shorter) * 10 + digit_value(s.last()));
        assert(digits_value(tail) == t * 10 + digit_value(tail.last()));
        assert(digits_value(head) * pow10((s.len() - cut) as nat) == h * (10 * p));
    }
}

/// Digits beyond the sixteenth place after the point do not change the rounded value:
/// a grid step is a whole number of `10^-16`.
pub proof fn lemma_sixteen_places_suffice(frac: Seq<u8>)
    requires
        all_digits(frac),
        frac.len() >= 16,
    ensures
        (digits_value(frac) * ONE) / (pow10(frac.len()) as int) == (digits_value(
            frac.subrange(0, 16),
        ) * ONE) / (pow10(16) as int),
{
    let head = frac.subrange(0, 16);
    let tail = frac.subrange(16, frac.len() as int);
    let rest = (frac.len() - 16) as nat;
    let d = pow10(rest) as int;
    let lead = digits_value(head) as int;
    let t = digits_value(tail) as int;
    lemma_digits_value_split(frac, 16);
    lemma_digits_value_bound(tail);
    lemma_pow10_sum(16, rest);
    lemma_pow10_sixteen();
    lemma_pow10_positive(rest);
    // 10^16 = 2^16 * 5^16, so both quotients are quotients by 5^16 after cancelling 2^16.
    let five = 152587890625int;
    assert(pow10(16) == ONE * five);
    lemma_cancel_factor(lead, five, ONE as int);
    assert(lead * ONE == lead * (ONE as int));
    assert((lead * ONE) / (pow10(16) as int) == lead / five) by {
        assert(five * ONE == pow10(16));
    }
    let n = lead * d + t;
    assert(digits_value(frac) == n);
    assert(pow10(frac.len()) == five * d * ONE) by (nonlinear_arith)
        requires
            pow10(frac.len()) == pow10(16) * pow10(rest),
            pow10(16) == ONE * five,
            d == pow10(rest),
    ;
    assert(five * d > 0) by (nonlinear_arith)
        requires
            d > 0,
            five > 0,
    ;
    lemma_cancel_factor(n, five * d, ONE as int);
    assert((n * ONE) / (pow10(frac.len()) as int) == n / (five * d));
    let q = lead / five;
    let r = lead % five;
    lemma_fundamental_div_mod(lead, five);
    lemma_mod_bound(lead, five);
    assert(n == (five * d) * q + (r * d + t) && 0 <= r * d + t < five * d) by (nonlinear_arith)
        requires
            n == lead * d + t,
            lead == five * q + r,
            0 <= r < five,
            0 <= t < d,
    ;
    lemma_fundamental_div_mod_converse(n, five * d, q, r * d + t);
}

/// A whole part this large is beyond `LIMIT` whatever follows it.
pub const WHOLE_CAP: u64 = 16385;

fn ten_to(k: usize) -> (p: u64)
    requires
        k <= 16,
    ensures
        p == pow10(k as nat),
        1 <= p <= 10000000000000000,
{
    let mut p: u64 = 1;
    let mut i: usize = 0;
    proof {
        lemma_pow10_sixteen();
    }
    while i < k
        invariant
            0 <= i <= k <= 16,
            p == pow10(i as nat),
            1 <= p,
            p * pow10((16 - i) as nat) == pow10(16),
            pow10(16) == 10000000000000000,
        decreases k - i,
    {
        proof {
            lemma_pow10_positive((16 - i - 1) as nat);
            assert(pow10((16 - i) as nat) == 10 * pow10((16 - i - 1) as nat));
            assert(p * 10 * pow10((16 - i - 1) as nat) == p * (10 * pow10((16 - i - 1) as nat)))
                by (nonlinear_arith);
            assert(p * 10 <= p * 10 * pow10((16 - i - 1) as nat)) by (nonlinear_arith)
                requires
                    pow10((16 - i - 1) as nat) >= 1,
                    p >= 1,
            ;
        }
        p = p * 10;
        i = i + 1;
    }
    proof {
        lemma_pow10_positive((16 - k) as nat);
        assert(p <= p * pow10((16 - k) as nat)) by (nonlinear_arith)
            requires
                pow10((16 - k) as nat) >= 1,
                p >= 1,
        ;
    }
    p
}

proof fn lemma_fraction_below_one(lead: int, scale: int)
    requires
        0 <= lead < scale,
    ensures
        0 <= (lead * ONE) / scale < ONE,
{
    lemma_div_pos_is_pos(lead * ONE, scale);
    assert(lead * ONE <= scale * ONE - 1) by (nonlinear_arith)
        requires
            0 <= lead < scale,
    ;
    lemma_div_is_ordered(lead * ONE, scale * ONE - 1, scale);
    assert(scale * ONE - 1 == scale * (ONE - 1) + (scale - 1)) by (nonlinear_arith);
    lemma_fundamental_div_mod_converse(scale * ONE - 1, scale, ONE - 1, scale - 1);
}

proof fn lemma_digits_value_push(s: Seq<u8>, k: int)
    requires
        0 <= k < s.len(),
    ensures
        digits_value(s.subrange(0, k + 1)) == digits_value(s.subrange(0, k)) * 10 + digit_value(
            s[k],
        ),
{
    assert(s.subrange(0, k + 1).drop_last() =~= s.subrange(0, k));
}

proof fn lemma_index_from_found(s: Seq<u8>, b: u8, from: int, at: int)
    requires
        0 <= from <= at <= s.len(),
        forall|k: int| from <= k < at ==> s[k] != b,
        at == s.len() || s[at] == b,
    ensures
        index_from(s, b, from) == at,
    decreases at - from,
{
    if from < at {
        lemma_index_from_found(s, b, from + 1, at);
    }
}

/// The number that the text `s` says, in grid steps.
pub fn parse_number(s: &[u8]) -> (r: Result<i64, NumberError>)
    ensures
        r == number(s@),
{
    let n = s.len();
    if n == 0 {
        return Err(NumberError::Empty);
    }
    let negative = s[0] == MINUS;
    let start: usize = if s[0] == PLUS || s[0] == MINUS {
        1
    } else {
        0
    };
    let ghost body = s@.subrange(start as int, n as int);
    assert(body =~= unsigned_part(s@));
    let mut i: usize = start;
    let mut whole: u64 = 0;
    while i < n && s[i] != POINT
        invariant
            start <= i <= n,
            n == s@.len(),
            body == s@.subrange(start as int, n as int),
            body == unsigned_part(s@),
            forall|k: int| 0 <= k < i - start ==> is_digit(#[trigger] body[k]),
            whole <= WHOLE_CAP,
            digits_value(body.subrange(0, i - start)) < WHOLE_CAP ==> whole == digits_value(
                body.subrange(0, i - start),
            ),
            digits_value(body.subrange(0, i - start)) >= WHOLE_CAP ==> whole == WHOLE_CAP,
        decreases n - i,
    {
        let b = s[i];
        assert(body[i - start] == b);
        if b < 48 || b > 57 {
            proof {
                lemma_index_from_not_before(body, POINT, i - start + 1);
                lemma_index_from_bounds(body, POINT, 0);
                assert(whole_part(body)[i - start] == b);
                assert(!is_digit(whole_part(body)[i - start]));
            }
            return Err(NumberError::Invalid);
        }
        proof {
            lemma_digits_value_push(body, i - start);
        }
        let next: u64 = whole * 10 + (b - 48) as u64;
        whole = if next > WHOLE_CAP {
            WHOLE_CAP
        } else {
            next
        };
        i = i + 1;
    }
    let dot = i;
    proof {
        lemma_index_from_found(body, POINT, 0, dot - start);
        assert(whole_part(body) =~= body.subrange(0, dot - start));
    }
    let begin: usize = if dot < n {
        dot + 1
    } else {
        n
    };
    let ghost frac = body.subrange(begin - start, n - start);
    assert(frac =~= fraction_part(body));
    let mut j: usize = begin;
    let mut lead: u64 = 0;
    let mut taken: usize = 0;
    while j < n
        invariant
            start <= begin <= j <= n,
            n == s@.len(),
            body == s@.subrange(start as int, n as int),
            body == unsigned_part(s@),
            frac == body.subrange(begin - start, n - start),
            frac == fraction_part(body),
            forall|k: int| 0 <= k < j - begin ==> is_digit(#[trigger] frac[k]),
            taken <= 16,
            taken <= j - begin,
            taken < 16 ==> taken == j - begin,
            lead == digits_value(frac.subrange(0, taken as int)),
            lead < pow10(taken as nat),
            pow10(taken as nat) <= 10000000000000000,
        decreases n - j,
    {
        let b = s[j];
        assert(frac[j - begin] == b);
        if b < 48 || b > 57 {
            assert(!is_digit(fraction_part(body)[j - begin]));
            return Err(NumberError::Invalid);
        }
        if taken < 16 {
            proof {
                lemma_digits_value_push(frac, taken as int);
                lemma_pow10_sixteen();
                lemma_pow10_sum((taken + 1) as nat, (16 - taken - 1) as nat);
                lemma_pow10_positive((16 - taken - 1) as nat);
                assert(pow10((taken + 1) as nat) <= pow10(16)) by (nonlinear_arith)
                    requires
                        pow10(16) == pow10((taken + 1) as nat) * pow10((16 - taken - 1) as nat),
                        pow10((16 - taken - 1) as nat) >= 1,
                ;
            }
            lead = lead * 10 + (b - 48) as u64;
            taken = taken + 1;
        }
        j = j + 1;
    }
    if dot - start + (n - begin) == 0 {
        return Err(NumberError::Invalid);
    }
    assert(well_formed(body));
    let scale = ten_to(taken);
    proof {
        lemma_fraction_below_one(lead as int, scale as int);
        assert(lead * ONE <= 10000000000000000 * ONE) by (nonlinear_arith)
            requires
                lead <= 10000000000000000,
        ;
        if frac.len() <= 16 {
            assert(frac.subrange(0, taken as int) =~= frac);
        } else {
            lemma_sixteen_places_suffice(frac);
        }
    }
    let part: u64 = ((lead as u128 * ONE as u128) / scale as u128) as u64;
    assert(part == (digits_value(frac) * ONE) / (pow10(frac.len()) as int));
    if whole >= WHOLE_CAP {
        proof {
            assert(digits_value(whole_part(body)) * ONE >= WHOLE_CAP * ONE) by (nonlinear_arith)
                requires
                    digits_value(whole_part(body)) >= WHOLE_CAP,
            ;
        }
        return Err(NumberError::OutOfRange);
    }
    let m: i64 = (whole * ONE as u64 + part) as i64;
    assert(m == magnitude(body));
    if m > LIMIT {
        return Err(NumberError::OutOfRange);
    }
    if negative {
        Ok(-m)
    } else {
        Ok(m)
    }
}

proof fn lemma_index_from_not_before(s: Seq<u8>, b: u8, upto: int)
    requires
        0 <= upto <= s.len(),
        forall|k: int| 0 <= k < upto ==> s[k] != b,
    ensures
        index_of(s, b) >= upto,
{
    lemma_index_from_at_least(s, b, 0, upto);
}

proof fn lemma_index_from_at_least(s: Seq<u8>, b: u8, from: int, upto: int)
    requires
        0 <= from <= upto <= s.len(),
        forall|k: int| from <= k < upto ==> s[k] != b,
    ensures
        index_from(s, b, from) >= upto,
    decreases upto - from,
{
    if from < upto {
        lemma_index_from_at_least(s, b, from + 1, upto);
    } else {
        lemma_index_from_bounds(s, b, from);
    }
}

/// The search ends at or after its start and within the text.
pub proof fn lemma_index_from_bounds(s: Seq<u8>, b: u8, from: int)
    requires
        0 <= from <= s.len(),
    ensures
        from <= index_from(s, b, from) <= s.len(),
    decreases s.len() - from,
{
    if from < s.len() && s[from] != b {
        lemma_index_from_bounds(s, b, from + 1);
    }
}

/// Ten to a sum of powers is the product of the two powers of ten.
pub proof fn lemma_pow10_sum(a: nat, b: nat)
    ensures
        pow10(a + b) == pow10(a) * pow10(b),
    decreases a,
{
    if a > 0 {
        lemma_pow10_sum((a - 1) as nat, b);
        assert(pow10(a + b) == 10 * pow10((a - 1 + b) as nat));
        assert(10 * (pow10((a - 1) as nat) * pow10(b)) == (10 * pow10((a - 1) as nat)) * pow10(b))
            by (nonlinear_arith);
    } else {
        assert(pow10(a) * pow10(b) == pow10(b)) by (nonlinear_arith)
            requires
                pow10(a) == 1,
        ;
    }
}

/// A power of ten is positive.
pub proof fn lemma_pow10_positive(k: nat)
    ensures
        pow10(k) > 0,
    decreases k,
{
    if k > 0 {
        lemma_pow10_positive((k - 1) as nat);
    }
}

/// Ten to the power sixteen.
pub proof fn lemma_pow10_sixteen()
    ensures
        pow10(16) == 10000000000000000,
{
    reveal_with_fuel(pow10, 17);
}

} // verus!
