//! The fields of the tape's records as text: whole numbers, decimal numbers
//! and the flag that tells buyers from sellers.

use vstd::prelude::*;
use crate::types::{Direction, Price};

verus! {

/// Whether a byte is a decimal digit.
pub open spec fn is_digit(byte: u8) -> bool {
    48 <= byte <= 57
}

/// Whether every byte is a decimal digit.
pub open spec fn all_digits(text: Seq<u8>) -> bool {
    forall|i: int| 0 <= i < text.len() ==> is_digit(#[trigger] text[i])
}

/// The number that decimal digits denote.
pub open spec fn digits_value(digits: Seq<u8>) -> nat
    decreases digits.len(),
{
    if digits.len() == 0 {
        0
    } else {
        digits_value(digits.drop_last()) * 10 + (digits.last() - 48) as nat
    }
}

/// The text without a plus sign in front.
pub open spec fn unsigned_digits(text: Seq<u8>) -> Seq<u8> {
    if text.len() > 0 && text[0] == 43 {
        text.drop_first()
    } else {
        text
    }
}

/// The whole number that a text denotes: decimal digits, at least one, with
/// or without a plus sign in front, and no larger than a `u64` can hold.
pub open spec fn unsigned_of(text: Seq<u8>) -> Option<u64> {
    let digits = unsigned_digits(text);
    if digits.len() > 0 && all_digits(digits) && digits_value(digits) <= u64::MAX {
        Some(digits_value(digits) as u64)
    } else {
        None
    }
}

/// The number that digits denote when they follow digits that denote `start`.
pub open spec fn digits_onto(start: nat, digits: Seq<u8>) -> nat
    decreases digits.len(),
{
    if digits.len() == 0 {
        start
    } else {
        digits_onto(start, digits.drop_last()) * 10 + (digits.last() - 48) as nat
    }
}

/// Digits that follow nothing denote their own number.
pub proof fn lemma_digits_onto_nothing(digits: Seq<u8>)
    ensures
        digits_onto(0, digits) == digits_value(digits),
    decreases digits.len(),
{
    if digits.len() > 0 {
        lemma_digits_onto_nothing(digits.drop_last());
    }
}

/// Two runs of digits denote the number of the second run following the first.
pub proof fn lemma_digits_joined(first: Seq<u8>, second: Seq<u8>)
    ensures
        digits_value(first + second) == digits_onto(digits_value(first), second),
    decreases second.len(),
{
    if second.len() == 0 {
        assert(first + second =~= first);
    } else {
        lemma_digits_joined(first, second.drop_last());
        assert((first + second).drop_last() =~= first + second.drop_last());
        assert((first + second).last() == second.last());
    }
}

/// More digits denote no smaller a number, whatever they follow.
pub proof fn lemma_digits_onto_grows(start: nat, digits: Seq<u8>, shorter: int)
    requires
        0 <= shorter <= digits.len(),
        all_digits(digits),
    ensures
        digits_onto(start, digits.take(shorter)) <= digits_onto(start, digits),
    decreases digits.len() - shorter,
{
    if shorter == digits.len() {
        assert(digits.take(shorter) =~= digits);
    } else {
        lemma_digits_onto_grows(start, digits, shorter + 1);
        let longer = digits.take(shorter + 1);
        assert(longer.drop_last() =~= digits.take(shorter));
        assert(is_digit(digits[shorter]));
        assert(longer.last() == digits[shorter]);
    }
}

/// The number that the digits of a stretch of text denote when they follow
/// digits that denote `start`; `None` where a byte is no digit or the number
/// is larger than `limit`.
pub fn read_digits(text: &[u8], from: usize, to: usize, start: u64, limit: u64) -> (r: Option<u64>)
    requires
        from <= to <= text.len(),
        start <= limit,
    ensures
        r == if all_digits(text@.subrange(from as int, to as int)) && digits_onto(
            start as nat,
            text@.subrange(from as int, to as int),
        ) <= limit {
            Some(digits_onto(start as nat, text@.subrange(from as int, to as int)) as u64)
        } else {
            None::<u64>
        },
{
    let ghost digits = text@.subrange(from as int, to as int);
    let mut value: u64 = start;
    let mut at: usize = from;
    proof {
        assert(digits.take(0) =~= Seq::<u8>::empty());
    }
    while at < to
        invariant
            from <= at <= to <= text.len(),
            digits == text@.subrange(from as int, to as int),
            all_digits(digits.take(at - from)),
            value == digits_onto(start as nat, digits.take(at - from)),
            value <= limit,
        decreases to - at,
    {
        let byte = text[at];
        let ghost longer = digits.take(at - from + 1);
        proof {
            assert(longer.drop_last() =~= digits.take(at - from));
            assert(longer.last() == byte);
            assert(digits[at - from] == byte);
        }
        if byte < 48 || byte > 57 {
            proof {
                assert(!is_digit(digits[at - from]));
            }
            return None;
        }
        let digit = (byte - 48) as u64;
        proof {
            assert forall|i: int| 0 <= i < longer.len() implies is_digit(#[trigger] longer[i]) by {
                if i < at - from {
                    assert(longer[i] == digits.take(at - from)[i]);
                }
            }
        }
        if digit > limit || value > (limit - digit) / 10 {
            proof {
                assert(digits_onto(start as nat, longer) > limit);
                if all_digits(digits) {
                    lemma_digits_onto_grows(start as nat, digits, at - from + 1);
                }
            }
            return None;
        }
        value = value * 10 + digit;
        at = at + 1;
    }
    proof {
        assert(digits.take(at - from) =~= digits);
    }
    Some(value)
}

/// The whole number that a text denotes.
pub fn parse_u64(text: &[u8]) -> (r: Option<u64>)
    ensures
        r == unsigned_of(text@),
{
    let from: usize = if text.len() > 0 && text[0] == 43 {
        1
    } else {
        0
    };
    proof {
        assert(text@.subrange(0, text@.len() as int) =~= text@);
        assert(text@.subrange(1, text@.len() as int) =~= text@.drop_first());
        lemma_digits_onto_nothing(unsigned_digits(text@));
    }
    if from == text.len() {
        return None;
    }
    read_digits(text, from, text.len(), 0, u64::MAX)
}

/// Whether two texts are the same.
pub fn same_text(a: &[u8], b: &[u8]) -> (r: bool)
    ensures
        r == (a@ == b@),
{
    if a.len() != b.len() {
        return false;
    }
    let mut at: usize = 0;
    while at < a.len()
        invariant
            at <= a.len(),
            a.len() == b.len(),
            a@.take(at as int) == b@.take(at as int),
        decreases a.len() - at,
    {
        if a[at] != b[at] {
            return false;
        }
        proof {
            assert(a@.take(at + 1) =~= a@.take(at as int).push(a@[at as int]));
            assert(b@.take(at + 1) =~= b@.take(at as int).push(b@[at as int]));
        }
        at = at + 1;
    }
    proof {
        assert(a@.take(at as int) =~= a@);
        assert(b@.take(at as int) =~= b@);
    }
    true
}

/// The texts that stand for a buyer: `0`, `B`, `b`, `False`, `false`.
pub open spec fn says_buy(flag: Seq<u8>) -> bool {
    flag == seq![48u8] || flag == seq![66u8] || flag == seq![98u8] || flag == seq![
        70u8,
        97u8,
        108u8,
        115u8,
        101u8,
    ] || flag == seq![102u8, 97u8, 108u8, 115u8, 101u8]
}

/// The texts that stand for a seller: `1`, `S`, `s`, `True`, `true`.
pub open spec fn says_sell(flag: Seq<u8>) -> bool {
    flag == seq![49u8] || flag == seq![83u8] || flag == seq![115u8] || flag == seq![
        84u8,
        114u8,
        117u8,
        101u8,
    ] || flag == seq![116u8, 114u8, 117u8, 101u8]
}

/// The direction that a flag stands for.
pub open spec fn direction_of(flag: Seq<u8>) -> Option<Direction> {
    if says_buy(flag) {
        Some(Direction::Buy)
    } else if says_sell(flag) {
        Some(Direction::Sell)
    } else {
        None
    }
}

/// The direction that a flag stands for; `None` for a text that is no flag.
pub fn parse_direction(flag: &[u8]) -> (r: Option<Direction>)
    ensures
        r == direction_of(flag@),
{
    let zero: [u8; 1] = [48];
    let upper_b: [u8; 1] = [66];
    let lower_b: [u8; 1] = [98];
    let upper_false: [u8; 5] = [70, 97, 108, 115, 101];
    let lower_false: [u8; 5] = [102, 97, 108, 115, 101];
    let one: [u8; 1] = [49];
    let upper_s: [u8; 1] = [83];
    let lower_s: [u8; 1] = [115];
    let upper_true: [u8; 4] = [84, 114, 117, 101];
    let lower_true: [u8; 4] = [116, 114, 117, 101];
    proof {
        assert(zero@ =~= seq![48u8]);
        assert(upper_b@ =~= seq![66u8]);
        assert(lower_b@ =~= seq![98u8]);
        assert(upper_false@ =~= seq![70u8, 97u8, 108u8, 115u8, 101u8]);
        assert(lower_false@ =~= seq![102u8, 97u8, 108u8, 115u8, 101u8]);
        assert(one@ =~= seq![49u8]);
        assert(upper_s@ =~= seq![83u8]);
        assert(lower_s@ =~= seq![115u8]);
        assert(upper_true@ =~= seq![84u8, 114u8, 117u8, 101u8]);
        assert(lower_true@ =~= seq![116u8, 114u8, 117u8, 101u8]);
    }
    if same_text(flag, zero.as_slice()) || same_text(flag, upper_b.as_slice()) || same_text(
        flag,
        lower_b.as_slice(),
    ) || same_text(flag, upper_false.as_slice()) || same_text(flag, lower_false.as_slice()) {
        Some(Direction::Buy)
    } else if same_text(flag, one.as_slice()) || same_text(flag, upper_s.as_slice()) || same_text(
        flag,
        lower_s.as_slice(),
    ) || same_text(flag, upper_true.as_slice()) || same_text(flag, lower_true.as_slice()) {
        Some(Direction::Sell)
    } else {
        None
    }
}

/// A decimal number: `digits` divided by ten to the power of `scale`, with its sign.
#[derive(Debug, PartialEq, Eq, Structural, Clone, Copy)]
pub struct Decimal {
    pub negative: bool,
    pub digits: u64,
    pub scale: u8,
}

/// The most digits that a decimal number may have.
pub const MAX_DECIMAL_DIGITS: u64 = 999_999_999_999_999_999;

/// The text without its sign.
pub open spec fn unsigned_part(text: Seq<u8>) -> Seq<u8> {
    if text.len() > 0 && (text[0] == 43 || text[0] == 45) {
        text.drop_first()
    } else {
        text
    }
}

/// The place of the decimal point in a text without sign; its length where it has none.
pub open spec fn point_of(body: Seq<u8>) -> int
    decreases body.len(),
{
    if body.len() == 0 || body[0] == 46 {
        0
    } else {
        1 + point_of(body.drop_first())
    }
}

/// The digits behind the decimal point of a text without sign.
pub open spec fn fraction_of(body: Seq<u8>) -> Seq<u8> {
    if point_of(body) < body.len() {
        body.skip(point_of(body) + 1)
    } else {
        Seq::empty()
    }
}

/// The decimal number that a text denotes: an optional sign, digits, and
/// optionally a point and more digits; at least one digit, at most eighteen
/// behind the point, and in all a number of at most eighteen digits.
pub open spec fn decimal_of(text: Seq<u8>) -> Option<Decimal> {
    let body = unsigned_part(text);
    let whole = body.take(point_of(body));
    let fraction = fraction_of(body);
    if all_digits(whole) && all_digits(fraction) && whole.len() + fraction.len() > 0
        && fraction.len() <= 18 && digits_value(whole + fraction) <= MAX_DECIMAL_DIGITS {
        Some(
            Decimal {
                negative: text[0] == 45,
                digits: digits_value(whole + fraction) as u64,
                scale: fraction.len() as u8,
            },
        )
    } else {
        None
    }
}

/// The decimal point lies within the text or at its end, and no byte before it is a point.
pub proof fn lemma_point_of(body: Seq<u8>, at: int)
    requires
        0 <= at <= body.len(),
        forall|i: int| 0 <= i < at ==> #[trigger] body[i] != 46,
        at < body.len() ==> body[at] == 46,
    ensures
        point_of(body) == at,
    decreases body.len(),
{
    if at > 0 {
        let rest = body.drop_first();
        assert(body[0] != 46);
        assert forall|i: int| 0 <= i < at - 1 implies #[trigger] rest[i] != 46 by {
            assert(rest[i] == body[i + 1]);
        }
        lemma_point_of(rest, at - 1);
    }
}

/// The decimal number that a text denotes; `None` for a text that denotes none.
pub fn parse_decimal(text: &[u8]) -> (r: Option<Decimal>)
    ensures
        r == decimal_of(text@),
{
    let signed = text.len() > 0 && (text[0] == 43 || text[0] == 45);
    let negative = text.len() > 0 && text[0] == 45;
    let from: usize = if signed {
        1
    } else {
        0
    };
    let ghost body = unsigned_part(text@);
    proof {
        assert(body =~= text@.subrange(from as int, text@.len() as int));
    }
    let mut point: usize = from;
    while point < text.len() && text[point] != 46
        invariant
            from <= point <= text.len(),
            body == text@.subrange(from as int, text@.len() as int),
            forall|i: int| 0 <= i < point - from ==> #[trigger] body[i] != 46,
        decreases text.len() - point,
    {
        point = point + 1;
    }
    proof {
        lemma_point_of(body, point - from);
    }
    let behind: usize = if point < text.len() {
        point + 1
    } else {
        point
    };
    let ghost whole = body.take(point - from);
    let ghost fraction = fraction_of(body);
    proof {
        assert(whole =~= text@.subrange(from as int, point as int));
        assert(fraction =~= text@.subrange(behind as int, text@.len() as int));
        lemma_digits_onto_nothing(whole);
        lemma_digits_joined(whole, fraction);
        if all_digits(whole) && all_digits(fraction) {
            lemma_digits_onto_grows(digits_value(whole), fraction, 0);
            assert(fraction.take(0) =~= Seq::<u8>::empty());
        }
    }
    if (point - from) + (text.len() - behind) == 0 || text.len() - behind > 18 {
        return None;
    }
    let whole_value = match read_digits(text, from, point, 0, MAX_DECIMAL_DIGITS) {
        Some(value) => value,
        None => {
            return None;
        },
    };
    match read_digits(text, behind, text.len(), whole_value, MAX_DECIMAL_DIGITS) {
        Some(digits) => Some(Decimal { negative, digits, scale: (text.len() - behind) as u8 }),
        None => None,
    }
}

/// Ten to the power of a number of places behind the point.
pub open spec fn pow10(places: u8) -> nat {
    match places {
        0 => 1,
        1 => 10,
        2 => 100,
        3 => 1_000,
        4 => 10_000,
        5 => 100_000,
        6 => 1_000_000,
        7 => 10_000_000,
        8 => 100_000_000,
        9 => 1_000_000_000,
        10 => 10_000_000_000,
        11 => 100_000_000_000,
        12 => 1_000_000_000_000,
        13 => 10_000_000_000_000,
        14 => 100_000_000_000_000,
        15 => 1_000_000_000_000_000,
        16 => 10_000_000_000_000_000,
        17 => 100_000_000_000_000_000,
        _ => 1_000_000_000_000_000_000,
    }
}

/// Ten to the power of a number of places behind the point.
pub fn power_of_ten(places: u8) -> (r: u64)
    ensures
        r == pow10(places),
{
    match places {
        0 => 1,
        1 => 10,
        2 => 100,
        3 => 1_000,
        4 => 10_000,
        5 => 100_000,
        6 => 1_000_000,
        7 => 10_000_000,
        8 => 100_000_000,
        9 => 1_000_000_000,
        10 => 10_000_000_000,
        11 => 100_000_000_000,
        12 => 1_000_000_000_000,
        13 => 10_000_000_000_000,
        14 => 100_000_000_000_000,
        15 => 1_000_000_000_000_000,
        16 => 10_000_000_000_000_000,
        17 => 100_000_000_000_000_000,
        _ => 1_000_000_000_000_000_000,
    }
}

/// The price, in ticks, that a decimal number is: the number divided by the
/// size of a tick, where that is a whole number that a price can hold. The
/// size of a tick must be above zero, and neither number may have more than
/// eighteen places behind the point.
pub open spec fn ticks_of(value: Decimal, step: Decimal) -> Option<Price> {
    let numerator = value.digits * pow10(step.scale);
    let denominator = step.digits * pow10(value.scale);
    if step.negative || step.digits == 0 || value.scale > 18 || step.scale > 18 {
        None
    } else if numerator % denominator != 0 || numerator / denominator > i64::MAX {
        None
    } else if value.negative {
        Some(Price((-(numerator / denominator)) as i64))
    } else {
        Some(Price((numerator / denominator) as i64))
    }
}

impl Price {
    /// The price that a decimal number is, in ticks of the given size;
    /// `None` where the number is no whole number of ticks.
    pub fn from_decimal(value: Decimal, price_step: Decimal) -> (r: Option<Price>)
        ensures
            r == ticks_of(value, price_step),
    {
        if price_step.negative || price_step.digits == 0 || value.scale > 18 || price_step.scale
            > 18 {
            return None;
        }
        let up = power_of_ten(price_step.scale) as u128;
        let down = power_of_ten(value.scale) as u128;
        assert(value.digits * up <= 0xffff_ffff_ffff_ffff * 1_000_000_000_000_000_000)
            by (nonlinear_arith)
            requires
                value.digits <= 0xffff_ffff_ffff_ffff,
                up <= 1_000_000_000_000_000_000,
        ;
        assert(price_step.digits * down <= 0xffff_ffff_ffff_ffff * 1_000_000_000_000_000_000)
            by (nonlinear_arith)
            requires
                price_step.digits <= 0xffff_ffff_ffff_ffff,
                down <= 1_000_000_000_000_000_000,
        ;
        assert(price_step.digits * down > 0) by (nonlinear_arith)
            requires
                price_step.digits > 0,
                down > 0,
        ;
        let numerator: u128 = value.digits as u128 * up;
        let denominator: u128 = price_step.digits as u128 * down;
        if numerator % denominator != 0 {
            return None;
        }
        let ticks: u128 = numerator / denominator;
        if ticks > i64::MAX as u128 {
            return None;
        }
        if value.negative {
            Some(Price(-(ticks as i64)))
        } else {
            Some(Price(ticks as i64))
        }
    }

    /// The price that a decimal number written as text is, in ticks of the
    /// given size; `None` where the text denotes no decimal number or the
    /// number is no whole number of ticks.
    pub fn from_decimal_str(string: &[u8], price_step: Decimal) -> (r: Option<Price>)
        ensures
            r == match decimal_of(string@) {
                Some(value) => ticks_of(value, price_step),
                None => None,
            },
    {
        match parse_decimal(string) {
            Some(value) => Price::from_decimal(value, price_step),
            None => None,
        }
    }
}

} // verus!
