//! Decimal literals and their exact values.
//!
//! A number of the language is kept as it was written: a sign, the decimal
//! digits and the place of the point. Nothing is rounded.

use vstd::prelude::*;
use crate::chars::{
    char_of_digit,
    digit_char,
    digit_value,
    is_digit,
    is_number_char,
    to_chars,
    value_of_digit,
};

verus! {

/// The number that a sequence of decimal digits denotes, most significant
/// digit first.
pub open spec fn digits_value(digits: Seq<u8>) -> nat
    decreases digits.len(),
{
    if digits.len() == 0 {
        0
    } else {
        digits_value(digits.drop_last()) * 10 + digits.last() as nat
    }
}

/// The values of a sequence of digit characters.
pub open spec fn digit_values(text: Seq<char>) -> Seq<u8> {
    text.map_values(|c: char| digit_value(c))
}

/// Whether every character of `text` is a decimal digit.
pub open spec fn all_digits(text: Seq<char>) -> bool {
    forall|i: int| 0 <= i < text.len() ==> is_digit(#[trigger] text[i])
}

/// The index of the first decimal point at or after `from`, or the length
/// of the text if there is none.
pub open spec fn point_from(text: Seq<char>, from: int) -> int
    decreases text.len() - from,
{
    if 0 <= from < text.len() && text[from] != '.' {
        point_from(text, from + 1)
    } else if from < text.len() {
        from
    } else {
        text.len() as int
    }
}

/// The index of the first decimal point of `text`, or its length if it has
/// none.
pub open spec fn point_index(text: Seq<char>) -> int {
    point_from(text, 0)
}

/// Whether `text` is a decimal literal: digits and decimal points only, at
/// most one point, and at least one digit.
pub open spec fn is_decimal_literal(text: Seq<char>) -> bool {
    &&& forall|i: int| 0 <= i < text.len() ==> is_number_char(#[trigger] text[i])
    &&& forall|i: int, j: int|
        0 <= i < j < text.len() ==> !(#[trigger] text[i] == '.' && #[trigger] text[j] == '.')
    &&& exists|i: int| 0 <= i < text.len() && is_digit(#[trigger] text[i])
}

/// Whether `text` is an index literal: one digit or more, and nothing else.
pub open spec fn is_index_literal(text: Seq<char>) -> bool {
    text.len() > 0 && all_digits(text)
}

/// The part of a literal before its decimal point; all of it if it has no
/// point.
pub open spec fn whole_part(text: Seq<char>) -> Seq<char> {
    text.take(point_index(text))
}

/// The part of a literal after its decimal point; nothing if it has no
/// point.
pub open spec fn fraction_part(text: Seq<char>) -> Seq<char> {
    if point_index(text) < text.len() {
        text.skip(point_index(text) + 1)
    } else {
        Seq::empty()
    }
}

/// Ten to the power of `n`.
pub open spec fn pow10(n: nat) -> nat
    decreases n,
{
    if n == 0 {
        1
    } else {
        10 * pow10((n - 1) as nat)
    }
}

/// The mathematical content of a [`Decimal`]: the number
/// `mantissa() / pow10(scale)`, negated if `negative`.
pub struct Numeral {
    /// Whether a minus sign stood before the literal.
    pub negative: bool,
    /// The digits of the literal in order, the point left out.
    pub digits: Seq<u8>,
    /// How many of the digits follow the point.
    pub scale: int,
}

impl Numeral {
    /// The digits read as one natural number.
    pub open spec fn mantissa(self) -> nat {
        digits_value(self.digits)
    }

    /// Every digit is at most 9, there is at least one, and the point stands
    /// among them or at either end.
    pub open spec fn well_formed(self) -> bool {
        &&& self.digits.len() >= 1
        &&& 0 <= self.scale <= self.digits.len()
        &&& forall|i: int| 0 <= i < self.digits.len() ==> #[trigger] self.digits[i] <= 9
    }

    /// The digits before the point.
    pub open spec fn whole(self) -> Seq<u8> {
        self.digits.take(self.digits.len() - self.scale)
    }

    /// The digits after the point.
    pub open spec fn fraction(self) -> Seq<u8> {
        self.digits.skip(self.digits.len() - self.scale)
    }

    /// The numeral written out: a minus sign if it is negative, the digits
    /// before the point, and, if any digits follow it, the point and those
    /// digits.
    pub open spec fn text(self) -> Seq<char> {
        (if self.negative {
            seq!['-']
        } else {
            Seq::<char>::empty()
        }) + self.magnitude_text()
    }

    /// The numeral written out without its sign.
    pub open spec fn magnitude_text(self) -> Seq<char> {
        self.whole().map_values(|d: u8| digit_char(d)) + (if self.scale > 0 {
            seq!['.'] + self.fraction().map_values(|d: u8| digit_char(d))
        } else {
            Seq::<char>::empty()
        })
    }
}

/// The numeral that a decimal literal denotes, with the given sign.
pub open spec fn numeral_of(text: Seq<char>, negative: bool) -> Numeral {
    Numeral {
        negative,
        digits: digit_values(whole_part(text) + fraction_part(text)),
        scale: fraction_part(text).len() as int,
    }
}

/// What `point_from` finds: the first point at or after `from`.
proof fn lemma_point_from(text: Seq<char>, from: int)
    requires
        0 <= from <= text.len(),
    ensures
        from <= point_from(text, from) <= text.len(),
        point_from(text, from) < text.len() ==> text[point_from(text, from)] == '.',
        forall|i: int| from <= i < point_from(text, from) ==> #[trigger] text[i] != '.',
    decreases text.len() - from,
{
    if from < text.len() && text[from] != '.' {
        lemma_point_from(text, from + 1);
    }
}

/// A point with no point before it is the first one.
proof fn lemma_point_is_first(text: Seq<char>, p: int)
    requires
        0 <= p <= text.len(),
        p < text.len() ==> text[p] == '.',
        forall|i: int| 0 <= i < p ==> #[trigger] text[i] != '.',
    ensures
        point_index(text) == p,
{
    lemma_point_from(text, 0);
}

/// In a decimal literal everything but its one point, if it has one, is a
/// digit, and there is a digit before or after the point.
pub proof fn lemma_decimal_literal(text: Seq<char>)
    requires
        is_decimal_literal(text),
    ensures
        0 <= point_index(text) <= text.len(),
        point_index(text) < text.len() ==> text[point_index(text)] == '.',
        all_digits(whole_part(text)),
        all_digits(fraction_part(text)),
        whole_part(text).len() + fraction_part(text).len() >= 1,
        text == if point_index(text) < text.len() {
            whole_part(text) + seq!['.'] + fraction_part(text)
        } else {
            whole_part(text)
        },
{
    let p = point_index(text);
    lemma_point_from(text, 0);
    assert forall|i: int| 0 <= i < text.len() && i != p implies is_digit(#[trigger] text[i]) by {
        assert(is_number_char(text[i]));
        if text[i] == '.' {
            if i < p {
                assert(text[i] != '.');
            } else {
                assert(text[p] == '.' && text[i] == '.');
            }
        }
    }
    let w = choose|i: int| 0 <= i < text.len() && is_digit(#[trigger] text[i]);
    assert(w != p);
    assert forall|i: int| 0 <= i < fraction_part(text).len() implies is_digit(
        #[trigger] fraction_part(text)[i],
    ) by {
        assert(fraction_part(text)[i] == text[p + 1 + i]);
    }
    if p < text.len() {
        assert(text =~= whole_part(text) + seq!['.'] + fraction_part(text));
    } else {
        assert(text =~= whole_part(text));
    }
}

/// The values of digits written one after the other are the values of the
/// first followed by the values of the second.
pub proof fn lemma_digit_values_concat(first: Seq<char>, second: Seq<char>)
    ensures
        digit_values(first + second) == digit_values(first) + digit_values(second),
{
    assert(digit_values(first + second) =~= digit_values(first) + digit_values(second));
}

/// Digits written after other digits shift them to the left: the value of
/// `first + second` is the value of `first` times ten to the number of
/// digits of `second`, plus the value of `second`.
pub proof fn lemma_digits_value_concat(first: Seq<u8>, second: Seq<u8>)
    ensures
        digits_value(first + second) == digits_value(first) * pow10(second.len()) + digits_value(
            second,
        ),
    decreases second.len(),
{
    let v = digits_value(first) as int;
    if second.len() == 0 {
        assert(first + second =~= first);
        assert(pow10(0) == 1);
        assert(v * 1 == v);
    } else {
        let shorter = second.drop_last();
        let last = second.last() as int;
        assert((first + second).drop_last() =~= first + shorter);
        assert((first + second).last() == second.last());
        lemma_digits_value_concat(first, shorter);
        let p = pow10(shorter.len()) as int;
        let s = digits_value(shorter) as int;
        assert(pow10(second.len()) == 10 * p);
        assert(digits_value(first + shorter) == v * p + s);
        assert(digits_value(first + second) == (v * p + s) * 10 + last);
        assert(digits_value(second) == s * 10 + last);
        assert((v * p + s) * 10 == v * (10 * p) + s * 10) by (nonlinear_arith);
    }
}

/// The value of a decimal literal: its numeral has as many places as the
/// literal has digits after the point, and its mantissa is the number
/// before the point, shifted by that many places, plus the number after
/// the point.
pub proof fn lemma_numeral_of_value(text: Seq<char>, negative: bool)
    ensures
        numeral_of(text, negative).negative == negative,
        numeral_of(text, negative).scale == fraction_part(text).len(),
        numeral_of(text, negative).mantissa() == digits_value(digit_values(whole_part(text)))
            * pow10(fraction_part(text).len()) + digits_value(
            digit_values(fraction_part(text)),
        ),
{
    lemma_digit_values_concat(whole_part(text), fraction_part(text));
    lemma_digits_value_concat(
        digit_values(whole_part(text)),
        digit_values(fraction_part(text)),
    );
}

/// The numeral of a decimal literal is well formed.
pub proof fn lemma_numeral_of_well_formed(text: Seq<char>, negative: bool)
    requires
        is_decimal_literal(text),
    ensures
        numeral_of(text, negative).well_formed(),
{
    lemma_decimal_literal(text);
    let n = numeral_of(text, negative);
    let all = whole_part(text) + fraction_part(text);
    assert forall|i: int| 0 <= i < n.digits.len() implies #[trigger] n.digits[i] <= 9 by {
        if i < whole_part(text).len() {
            assert(is_digit(whole_part(text)[i]));
        } else {
            assert(is_digit(fraction_part(text)[i - whole_part(text).len()]));
        }
        assert(is_digit(all[i]));
    }
}

/// A text of digits with at most one point among them, and with at least
/// one digit, is a decimal literal whose point stands there.
proof fn lemma_digits_and_point(text: Seq<char>, p: int)
    requires
        0 <= p <= text.len(),
        p < text.len() ==> text[p] == '.',
        forall|i: int| 0 <= i < text.len() && i != p ==> is_digit(#[trigger] text[i]),
        text.len() >= 2 || (text.len() == 1 && p == 1),
    ensures
        is_decimal_literal(text),
        point_index(text) == p,
        whole_part(text) + fraction_part(text) == if p < text.len() {
            text.remove(p)
        } else {
            text
        },
{
    assert forall|i: int| 0 <= i < p implies #[trigger] text[i] != '.' by {
        assert(is_digit(text[i]));
    }
    lemma_point_is_first(text, p);
    if p < text.len() {
        assert(text.remove(p) =~= whole_part(text) + fraction_part(text));
    } else {
        assert(text =~= whole_part(text) + fraction_part(text));
    }
    assert forall|i: int| 0 <= i < text.len() implies is_number_char(#[trigger] text[i]) by {
        if i != p {
            assert(is_digit(text[i]));
        }
    }
    assert forall|a: int, b: int| 0 <= a < b < text.len() implies !(#[trigger] text[a] == '.'
        && #[trigger] text[b] == '.') by {
        if a != p {
            assert(is_digit(text[a]));
        } else {
            assert(is_digit(text[b]));
        }
    }
    let w = if p == 0 {
        1int
    } else {
        0int
    };
    assert(is_digit(text[w]));
}

/// A well-formed numeral, written out without its sign, is a decimal
/// literal, and the literal denotes the numeral.
pub proof fn lemma_text_denotes(numeral: Numeral)
    requires
        numeral.well_formed(),
    ensures
        is_decimal_literal(numeral.magnitude_text()),
        numeral_of(numeral.magnitude_text(), numeral.negative) == numeral,
{
    let text = numeral.magnitude_text();
    let whole = numeral.whole().map_values(|d: u8| digit_char(d));
    let fraction = numeral.fraction().map_values(|d: u8| digit_char(d));
    let p = whole.len() as int;
    assert forall|d: u8| d <= 9 implies is_digit(#[trigger] digit_char(d)) && digit_value(
        digit_char(d),
    ) == d by {}
    assert forall|i: int| 0 <= i < text.len() && i != p implies is_digit(#[trigger] text[i]) by {
        if i < p {
            assert(text[i] == digit_char(numeral.digits[i]));
        } else {
            assert(text[i] == digit_char(numeral.digits[i - 1]));
        }
    }
    lemma_digits_and_point(text, p);
    assert(whole_part(text) =~= whole);
    assert(fraction_part(text) =~= if numeral.scale > 0 {
        fraction
    } else {
        Seq::empty()
    });
    assert(digit_values(whole_part(text) + fraction_part(text)) =~= numeral.digits) by {
        let all = whole_part(text) + fraction_part(text);
        assert(all.len() == numeral.digits.len());
        assert forall|i: int| 0 <= i < all.len() implies digit_value(#[trigger] all[i])
            == numeral.digits[i] by {
            assert(all[i] == digit_char(numeral.digits[i]));
        }
    }
}

/// A signed decimal number, exactly as it was written.
#[derive(Debug, PartialEq, Eq)]
pub struct Decimal {
    negative: bool,
    digits: Vec<u8>,
    scale: usize,
}

impl View for Decimal {
    type V = Numeral;

    closed spec fn view(&self) -> Numeral {
        Numeral { negative: self.negative, digits: self.digits@, scale: self.scale as int }
    }
}

impl Decimal {
    #[verifier::type_invariant]
    spec fn valid(self) -> bool {
        self@.well_formed()
    }

    /// Reads a decimal literal. The literal has a value if and only if it is
    /// made of digits and at most one decimal point and has at least one
    /// digit; `negative` says whether a minus sign preceded it.
    pub fn from_literal(literal: &str, negative: bool) -> (number: Option<Decimal>)
        ensures
            number.is_some() == is_decimal_literal(literal@),
            number matches Some(d) ==> d@ == numeral_of(literal@, negative) && d@.well_formed(),
    {
        let chars = to_chars(literal);
        let ghost text = chars@;
        let mut digits: Vec<u8> = Vec::new();
        let mut point: Option<usize> = None;
        let mut i: usize = 0;
        while i < chars.len()
            invariant
                0 <= i <= chars.len(),
                text == chars@,
                text == literal@,
                forall|j: int| 0 <= j < i ==> is_number_char(#[trigger] text[j]),
                point matches Some(p) ==> p < i && text[p as int] == '.',
                forall|j: int|
                    0 <= j < i && point != Some(j as usize) ==> is_digit(#[trigger] text[j]),
                digits@ == digit_values(
                    match point {
                        Some(p) => text.take(i as int).remove(p as int),
                        None => text.take(i as int),
                    },
                ),
                forall|j: int| 0 <= j < digits.len() ==> #[trigger] digits[j] <= 9,
            decreases chars.len() - i,
        {
            let c = chars[i];
            let ghost seen = match point {
                Some(p) => text.take(i as int).remove(p as int),
                None => text.take(i as int),
            };
            if is_digit(c) {
                digits.push(value_of_digit(c));
                assert(match point {
                    Some(p) => text.take(i + 1).remove(p as int),
                    None => text.take(i + 1),
                } =~= seen.push(c));
                assert(digit_values(seen.push(c)) =~= digit_values(seen).push(digit_value(c)));
            } else if c == '.' && point.is_none() {
                point = Some(i);
                assert(text.take(i + 1).remove(i as int) =~= seen);
            } else {
                proof {
                    if c == '.' {
                        let p = point.unwrap() as int;
                        assert(text[p] == '.' && text[i as int] == '.');
                    } else {
                        assert(!is_number_char(text[i as int]));
                    }
                }
                return None;
            }
            i = i + 1;
        }
        assert(text.take(i as int) =~= text);
        if digits.len() == 0 {
            proof {
                assert forall|j: int| 0 <= j < text.len() implies !is_digit(
                    #[trigger] text[j],
                ) by {
                    if point != Some(j as usize) {
                        match point {
                            Some(p) => {
                                text.remove_ensures(p as int);
                            },
                            None => {},
                        }
                    }
                }
            }
            return None;
        }
        let scale: usize = match point {
            Some(p) => chars.len() - p - 1,
            None => 0,
        };
        proof {
            let p = match point {
                Some(p) => p as int,
                None => text.len() as int,
            };
            lemma_digits_and_point(text, p);
        }
        Some(Decimal { negative, digits, scale })
    }

    /// Whether the number carries a minus sign.
    pub fn is_negative(&self) -> (negative: bool)
        ensures
            negative == self@.negative,
    {
        self.negative
    }

    /// The digits of the number in order, the point left out.
    pub fn digits(&self) -> (digits: &Vec<u8>)
        ensures
            digits@ == self@.digits,
            self@.well_formed(),
    {
        proof {
            use_type_invariant(self);
        }
        &self.digits
    }

    /// How many of the digits follow the point.
    pub fn scale(&self) -> (scale: usize)
        ensures
            scale == self@.scale,
    {
        self.scale
    }

    /// The number written out: a minus sign if it is negative, the digits
    /// before the point, and, if any digits follow it, the point and those
    /// digits.
    pub fn to_string(&self) -> (text: String)
        ensures
            text@ == self@.text(),
    {
        proof {
            use_type_invariant(self);
        }
        let mut text = String::new();
        if self.negative {
            text.push('-');
        }
        let ghost sign = text@;
        let point: usize = self.digits.len() - self.scale;
        let mut i: usize = 0;
        while i < point
            invariant
                0 <= i <= point <= self.digits.len(),
                self@.well_formed(),
                text@ == sign + self.digits@.take(i as int).map_values(|d: u8| digit_char(d)),
            decreases point - i,
        {
            text.push(char_of_digit(self.digits[i]));
            assert(self.digits@.take(i + 1) =~= self.digits@.take(i as int).push(
                self.digits@[i as int],
            ));
            i = i + 1;
        }
        let ghost whole = text@;
        if self.scale > 0 {
            text.push('.');
            while i < self.digits.len()
                invariant
                    point <= i <= self.digits.len(),
                    self@.well_formed(),
                    text@ == whole + seq!['.'] + self.digits@.subrange(
                        point as int,
                        i as int,
                    ).map_values(|d: u8| digit_char(d)),
                decreases self.digits.len() - i,
            {
                text.push(char_of_digit(self.digits[i]));
                assert(self.digits@.subrange(point as int, i + 1) =~= self.digits@.subrange(
                    point as int,
                    i as int,
                ).push(self.digits@[i as int]));
                i = i + 1;
            }
        }
        assert(text@ =~= self@.text());
        text
    }
}

/// Reads an index literal: the number that its digits denote, if the literal
/// is one digit or more and nothing else and the number fits a `usize`.
pub fn index_from_literal(literal: &str) -> (index: Option<usize>)
    ensures
        index.is_some() == (is_index_literal(literal@) && digits_value(digit_values(literal@))
            <= usize::MAX),
        index matches Some(n) ==> n == digits_value(digit_values(literal@)),
{
    let chars = to_chars(literal);
    let ghost text = chars@;
    if chars.len() == 0 {
        return None;
    }
    let mut value: usize = 0;
    let mut i: usize = 0;
    while i < chars.len()
        invariant
            0 <= i <= chars.len(),
            text == chars@,
            text == literal@,
            all_digits(text.take(i as int)),
            value == digits_value(digit_values(text.take(i as int))),
        decreases chars.len() - i,
    {
        let c = chars[i];
        if !is_digit(c) {
            assert(!is_digit(text[i as int]));
            return None;
        }
        let ghost next = text.take(i + 1);
        proof {
            assert(next.drop_last() =~= text.take(i as int));
            assert(digit_values(next).drop_last() =~= digit_values(text.take(i as int)));
            assert(digit_values(next).last() == digit_value(c));
            assert(digits_value(digit_values(next)) == value * 10 + digit_value(c));
            assert(digit_values(next) =~= digit_values(text).take(i + 1));
            lemma_digits_value_grows(digit_values(next), digit_values(text), i + 1);
            assert(all_digits(next)) by {
                assert forall|j: int| 0 <= j < next.len() implies is_digit(#[trigger] next[j]) by {
                    if j < i {
                        assert(next[j] == text.take(i as int)[j]);
                    }
                }
            }
        }
        let d: usize = value_of_digit(c) as usize;
        match value.checked_mul(10) {
            Some(tens) => match tens.checked_add(d) {
                Some(sum) => {
                    value = sum;
                },
                None => {
                    return None;
                },
            },
            None => {
                return None;
            },
        }
        i = i + 1;
    }
    assert(text.take(i as int) =~= text);
    Some(value)
}

/// A number is at least as large as the number that any of its leading
/// digits denote.
pub proof fn lemma_digits_value_grows(prefix: Seq<u8>, digits: Seq<u8>, n: int)
    requires
        0 <= n <= digits.len(),
        prefix == digits.take(n),
    ensures
        digits_value(prefix) <= digits_value(digits),
    decreases digits.len() - n,
{
    if n < digits.len() {
        let longer = digits.take(n + 1);
        assert(longer.drop_last() =~= prefix);
        lemma_digits_value_grows(longer, digits, n + 1);
    } else {
        assert(prefix =~= digits);
    }
}

} // verus!
