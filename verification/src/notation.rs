//! The notation of numbers that may have a fraction and an exponent.
use crate::text::{
    all_digits, find_char, finding_stops_at_the_first, is_digit, lemma_find_joined, lowered,
    position_of, same, to_chars, to_lower,
};
use vstd::prelude::*;
use vstd::slice::slice_subrange;

verus! {

/// `s` without a sign in front.
pub open spec fn without_sign(s: Seq<char>) -> Seq<char> {
    if s.len() > 0 && (s[0] == '+' || s[0] == '-') {
        s.drop_first()
    } else {
        s
    }
}

/// Decimal digits, at least one, among which one point may stand.
pub open spec fn is_mantissa(s: Seq<char>) -> bool {
    let i = find_char(s, '.') as int;
    if i >= s.len() {
        s.len() > 0 && all_digits(s)
    } else {
        s.len() > 1 && all_digits(s.take(i)) && all_digits(s.skip(i + 1))
    }
}

/// Decimal digits, at least one, behind an optional sign.
pub open spec fn is_exponent(s: Seq<char>) -> bool {
    without_sign(s).len() > 0 && all_digits(without_sign(s))
}

/// A mantissa, or a mantissa, an `e` and an exponent.
pub open spec fn is_scientific(s: Seq<char>) -> bool {
    let i = find_char(s, 'e') as int;
    if i >= s.len() {
        is_mantissa(s)
    } else {
        is_mantissa(s.take(i)) && is_exponent(s.skip(i + 1))
    }
}

/// The text is a number: in upper or lower case and behind an optional sign, a mantissa that an
/// exponent may follow, or a word for infinity or for what is no number.
pub open spec fn is_real(s: Seq<char>) -> bool {
    let t = without_sign(lowered(s));
    t == "inf"@ || t == "infinity"@ || t == "nan"@ || is_scientific(t)
}

fn skip_sign<'a>(s: &'a [char]) -> (r: &'a [char])
    ensures
        r@ == without_sign(s@),
{
    if s.len() > 0 && (s[0] == '+' || s[0] == '-') {
        let r = slice_subrange(s, 1, s.len());
        assert(r@ =~= s@.drop_first());
        r
    } else {
        s
    }
}

fn has_digits_only(s: &[char]) -> (r: bool)
    ensures
        r == all_digits(s@),
{
    let mut i: usize = 0;
    while i < s.len()
        invariant
            i <= s.len(),
            forall|j: int| 0 <= j < i ==> is_digit(#[trigger] s@[j]),
        decreases s.len() - i,
    {
        if s[i] < '0' || s[i] > '9' {
            assert(!is_digit(s@[i as int]));
            return false;
        }
        i += 1;
    }
    true
}

fn mantissa(s: &[char]) -> (r: bool)
    ensures
        r == is_mantissa(s@),
{
    let i: usize = position_of(s, '.');
    if i >= s.len() {
        return s.len() > 0 && has_digits_only(s);
    }
    let whole = slice_subrange(s, 0, i);
    let fraction = slice_subrange(s, i + 1, s.len());
    assert(whole@ =~= s@.take(i as int));
    assert(fraction@ =~= s@.skip(i + 1));
    s.len() > 1 && has_digits_only(whole) && has_digits_only(fraction)
}

fn exponent(s: &[char]) -> (r: bool)
    ensures
        r == is_exponent(s@),
{
    let digits = skip_sign(s);
    digits.len() > 0 && has_digits_only(digits)
}

fn scientific(s: &[char]) -> (r: bool)
    ensures
        r == is_scientific(s@),
{
    let i: usize = position_of(s, 'e');
    if i >= s.len() {
        return mantissa(s);
    }
    let front = slice_subrange(s, 0, i);
    let power = slice_subrange(s, i + 1, s.len());
    assert(front@ =~= s@.take(i as int));
    assert(power@ =~= s@.skip(i + 1));
    mantissa(front) && exponent(power)
}

/// Whether the text is a number.
pub fn reads_as_real(s: &[char]) -> (r: bool)
    ensures
        r == is_real(s@),
{
    let low = to_lower(s);
    let rest = skip_sign(low.as_slice());
    let inf = to_chars("inf");
    let infinity = to_chars("infinity");
    let nan = to_chars("nan");
    same(rest, inf.as_slice()) || same(rest, infinity.as_slice()) || same(rest, nan.as_slice())
        || scientific(rest)
}

// ---------------------------------------------------------------------------
// The grammar
// ---------------------------------------------------------------------------
/// All characters are decimal digits.
pub open spec fn is_digits(s: Seq<char>) -> bool {
    forall|i: int| 0 <= i < s.len() ==> '0' <= #[trigger] s[i] <= '9'
}

/// Nothing, a plus sign or a minus sign.
pub open spec fn is_sign(s: Seq<char>) -> bool {
    s.len() == 0 || (s.len() == 1 && (s[0] == '+' || s[0] == '-'))
}

/// At least one digit, or digits on both sides of a point, of which there is at least one.
pub open spec fn has_digits(s: Seq<char>) -> bool {
    (s.len() > 0 && is_digits(s)) || exists|whole: Seq<char>, fraction: Seq<char>|
        #![trigger is_digits(whole), is_digits(fraction)]
        is_digits(whole) && is_digits(fraction) && whole.len() + fraction.len() > 0 && s
            == whole.push('.') + fraction
}

/// Digits with or without a point, and with or without an `e` behind them that a sign and at least
/// one digit follow.
pub open spec fn has_digits_and_power(s: Seq<char>) -> bool {
    has_digits(s) || exists|m: Seq<char>, sign: Seq<char>, power: Seq<char>|
        #![trigger has_digits(m), is_sign(sign), is_digits(power)]
        has_digits(m) && is_sign(sign) && is_digits(power) && power.len() > 0 && s == m.push('e') + (
        sign + power)
}

proof fn lemma_digits_hold_no(s: Seq<char>, c: char)
    requires
        is_digits(s),
        !('0' <= c <= '9'),
    ensures
        !s.contains(c),
{
    if s.contains(c) {
        let k = choose|k: int| 0 <= k < s.len() && s[k] == c;
        assert('0' <= s[k] <= '9');
    }
}

proof fn lemma_all_digits(s: Seq<char>)
    ensures
        is_digits(s) <==> all_digits(s),
{
    if is_digits(s) {
        assert forall|i: int| 0 <= i < s.len() implies is_digit(#[trigger] s[i]) by {}
    }
    if all_digits(s) {
        assert forall|i: int| 0 <= i < s.len() implies '0' <= #[trigger] s[i] <= '9' by {
            assert(is_digit(s[i]));
        }
    }
}

proof fn lemma_mantissa(s: Seq<char>)
    ensures
        is_mantissa(s) <==> has_digits(s),
{
    let i = find_char(s, '.') as int;
    finding_stops_at_the_first(s, '.');
    lemma_all_digits(s);
    if is_mantissa(s) && i < s.len() {
        let whole = s.take(i);
        let fraction = s.skip(i + 1);
        lemma_all_digits(whole);
        lemma_all_digits(fraction);
        assert(s =~= whole.push('.') + fraction);
        assert(is_digits(whole) && is_digits(fraction));
    }
    if has_digits(s) {
        if s.len() > 0 && is_digits(s) {
            lemma_digits_hold_no(s, '.');
            lemma_find_joined(s, '.', s);
        } else {
            let (whole, fraction) = choose|whole: Seq<char>, fraction: Seq<char>|
                #![trigger is_digits(whole), is_digits(fraction)]
                is_digits(whole) && is_digits(fraction) && whole.len() + fraction.len() > 0 && s
                    == whole.push('.') + fraction;
            lemma_digits_hold_no(whole, '.');
            lemma_find_joined(whole, '.', fraction);
            assert(s.take(whole.len() as int) =~= whole);
            assert(s.skip(whole.len() as int + 1) =~= fraction);
            lemma_all_digits(whole);
            lemma_all_digits(fraction);
        }
    }
}

proof fn lemma_no_letter(s: Seq<char>)
    requires
        has_digits(s),
    ensures
        !s.contains('e'),
{
    if s.len() > 0 && is_digits(s) {
        lemma_digits_hold_no(s, 'e');
    } else {
        let (whole, fraction) = choose|whole: Seq<char>, fraction: Seq<char>|
            #![trigger is_digits(whole), is_digits(fraction)]
            is_digits(whole) && is_digits(fraction) && whole.len() + fraction.len() > 0 && s
                == whole.push('.') + fraction;
        if s.contains('e') {
            let k = choose|k: int| 0 <= k < s.len() && s[k] == 'e';
            if k < whole.len() {
                assert(s[k] == whole[k]);
            } else if k > whole.len() {
                assert(s[k] == fraction[k - whole.len() - 1]);
            }
        }
    }
}

proof fn lemma_exponent(s: Seq<char>)
    ensures
        is_exponent(s) <==> exists|sign: Seq<char>, power: Seq<char>|
            #![trigger is_sign(sign), is_digits(power)]
            is_sign(sign) && is_digits(power) && power.len() > 0 && s == sign + power,
{
    let power = without_sign(s);
    lemma_all_digits(power);
    if is_exponent(s) {
        let sign = s.take(s.len() - power.len());
        assert(s =~= sign + power);
        assert(is_sign(sign));
        assert(is_digits(power));
    }
    if exists|sign: Seq<char>, power: Seq<char>|
        #![trigger is_sign(sign), is_digits(power)]
        is_sign(sign) && is_digits(power) && power.len() > 0 && s == sign + power {
        let (sign, digits) = choose|sign: Seq<char>, power: Seq<char>|
            #![trigger is_sign(sign), is_digits(power)]
            is_sign(sign) && is_digits(power) && power.len() > 0 && s == sign + power;
        assert('0' <= digits[0] <= '9');
        if sign.len() == 0 {
            assert(s =~= digits);
        } else {
            assert(s[0] == sign[0]);
            assert(s.drop_first() =~= digits);
        }
        assert(power =~= digits);
    }
}

proof fn lemma_scientific(s: Seq<char>)
    ensures
        is_scientific(s) <==> has_digits_and_power(s),
{
    let i = find_char(s, 'e') as int;
    finding_stops_at_the_first(s, 'e');
    lemma_mantissa(s);
    if is_scientific(s) && i < s.len() {
        let m = s.take(i);
        let rest = s.skip(i + 1);
        lemma_mantissa(m);
        lemma_exponent(rest);
        let (sign, power) = choose|sign: Seq<char>, power: Seq<char>|
            #![trigger is_sign(sign), is_digits(power)]
            is_sign(sign) && is_digits(power) && power.len() > 0 && rest == sign + power;
        assert(s =~= m.push('e') + rest);
        assert(has_digits(m) && is_sign(sign) && is_digits(power));
    }
    if has_digits_and_power(s) {
        if has_digits(s) {
            lemma_no_letter(s);
            lemma_find_joined(s, 'e', s);
        } else {
            let (m, sign, power) = choose|m: Seq<char>, sign: Seq<char>, power: Seq<char>|
                #![trigger has_digits(m), is_sign(sign), is_digits(power)]
                has_digits(m) && is_sign(sign) && is_digits(power) && power.len() > 0 && s
                    == m.push('e') + (sign + power);
            lemma_no_letter(m);
            lemma_find_joined(m, 'e', sign + power);
            lemma_mantissa(m);
            lemma_exponent(sign + power);
            assert(s.take(m.len() as int) =~= m);
            assert(s.skip(m.len() as int + 1) =~= sign + power);
        }
    }
}

/// A text is a number exactly where it is, in either case and behind an optional sign, a word for
/// infinity or for what is no number, or digits with or without a point and a power of ten.
pub proof fn numbers_follow_the_grammar(s: Seq<char>)
    ensures
        is_real(s) <==> exists|sign: Seq<char>, t: Seq<char>| #[trigger]
            is_sign(sign) && lowered(s) == #[trigger] (sign + t) && (t == "inf"@ || t
                == "infinity"@ || t == "nan"@ || has_digits_and_power(t)),
{
    let low = lowered(s);
    let t = without_sign(low);
    lemma_scientific(t);
    if is_real(s) {
        let sign = low.take(low.len() - t.len());
        assert(low =~= sign + t);
        assert(is_sign(sign));
    }
    if exists|sign: Seq<char>, t: Seq<char>| #[trigger]
        is_sign(sign) && lowered(s) == #[trigger] (sign + t) && (t == "inf"@ || t == "infinity"@
            || t == "nan"@ || has_digits_and_power(t)) {
        let (sign, rest) = choose|sign: Seq<char>, t: Seq<char>| #[trigger]
            is_sign(sign) && lowered(s) == #[trigger] (sign + t) && (t == "inf"@ || t
                == "infinity"@ || t == "nan"@ || has_digits_and_power(t));
        reveal_strlit("inf");
        reveal_strlit("infinity");
        reveal_strlit("nan");
        if has_digits_and_power(rest) {
            lemma_no_sign_in_front(rest);
        }
        assert(rest.len() > 0 && rest[0] != '+' && rest[0] != '-');
        if sign.len() == 0 {
            assert(low =~= rest);
        } else {
            assert(low[0] == sign[0]);
            assert(low.drop_first() =~= rest);
        }
        assert(t =~= rest);
    }
}

proof fn lemma_no_sign_in_front(s: Seq<char>)
    requires
        has_digits_and_power(s),
    ensures
        s.len() > 0,
        s[0] != '+',
        s[0] != '-',
{
    if has_digits(s) {
        lemma_digits_in_front(s);
    } else {
        let (m, sign, power) = choose|m: Seq<char>, sign: Seq<char>, power: Seq<char>|
            #![trigger has_digits(m), is_sign(sign), is_digits(power)]
            has_digits(m) && is_sign(sign) && is_digits(power) && power.len() > 0 && s
                == m.push('e') + (sign + power);
        lemma_digits_in_front(m);
        assert(s[0] == m[0]);
    }
}

proof fn lemma_digits_in_front(s: Seq<char>)
    requires
        has_digits(s),
    ensures
        s.len() > 0,
        s[0] != '+',
        s[0] != '-',
{
    if s.len() > 0 && is_digits(s) {
        assert('0' <= s[0] <= '9');
    } else {
        let (whole, fraction) = choose|whole: Seq<char>, fraction: Seq<char>|
            #![trigger is_digits(whole), is_digits(fraction)]
            is_digits(whole) && is_digits(fraction) && whole.len() + fraction.len() > 0 && s
                == whole.push('.') + fraction;
        if whole.len() > 0 {
            assert('0' <= whole[0] <= '9');
            assert(s[0] == whole[0]);
        } else {
            assert(s[0] == '.');
        }
    }
}

} // verus!
