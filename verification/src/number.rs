//! The texts that stand for a measured value.
//!
//! A value field is accepted if it is written as a decimal number: an
//! optional sign, digits with an optional fractional part, and an optional
//! exponent. The words `inf`, `infinity` and `nan` are accepted too, in any
//! mix of upper and lower case. Nothing may stand in front or behind.

use vstd::prelude::*;
use vstd::slice::slice_subrange;

verus! {

pub open spec fn is_digit(b: u8) -> bool {
    48 <= b <= 57
}

pub open spec fn is_sign(b: u8) -> bool {
    b == 43 || b == 45
}

pub open spec fn is_exponent_mark(b: u8) -> bool {
    b == 101 || b == 69
}

pub open spec fn all_digits(s: Seq<u8>) -> bool {
    forall|i: int| 0 <= i < s.len() ==> is_digit(#[trigger] s[i])
}

/// Digits, or digits around one decimal point, where one side of the point
/// may be left empty but not both.
pub open spec fn is_decimal(s: Seq<u8>) -> bool {
    ||| s.len() > 0 && all_digits(s)
    ||| exists|dot: int|
        {
            &&& 0 <= dot < s.len()
            &&& #[trigger] s[dot] == 46
            &&& s.len() > 1
            &&& all_digits(s.subrange(0, dot))
            &&& all_digits(s.subrange(dot + 1, s.len() as int))
        }
}

/// An exponent mark, an optional sign and at least one digit.
pub open spec fn is_exponent(s: Seq<u8>) -> bool {
    &&& s.len() >= 2
    &&& is_exponent_mark(s[0])
    &&& {
        let digits = if is_sign(s[1]) {
            s.skip(2)
        } else {
            s.skip(1)
        };
        digits.len() > 0 && all_digits(digits)
    }
}

/// A decimal, with or without an exponent behind it.
pub open spec fn is_number(s: Seq<u8>) -> bool {
    ||| is_decimal(s)
    ||| exists|mark: int|
        {
            &&& 0 < mark < s.len()
            &&& is_exponent_mark(#[trigger] s[mark])
            &&& is_decimal(s.subrange(0, mark))
            &&& is_exponent(s.subrange(mark, s.len() as int))
        }
}

/// An ASCII letter in lower case; any other byte as it is.
pub open spec fn lower(b: u8) -> u8 {
    if 65 <= b <= 90 {
        (b + 32) as u8
    } else {
        b
    }
}

/// Whether `s` is `word` up to the case of its letters. `word` is written in
/// lower case.
pub open spec fn spells(s: Seq<u8>, word: Seq<u8>) -> bool {
    s.len() == word.len() && forall|i: int| 0 <= i < s.len() ==> lower(#[trigger] s[i]) == word[i]
}

/// `inf`, `infinity` or `nan`.
pub open spec fn is_special(s: Seq<u8>) -> bool {
    ||| spells(s, seq![105u8, 110u8, 102u8])
    ||| spells(s, seq![105u8, 110u8, 102u8, 105u8, 110u8, 105u8, 116u8, 121u8])
    ||| spells(s, seq![110u8, 97u8, 110u8])
}

/// What is left of a text behind its sign, if it has one.
pub open spec fn unsigned_part(s: Seq<u8>) -> Seq<u8> {
    if s.len() > 0 && is_sign(s[0]) {
        s.skip(1)
    } else {
        s
    }
}

/// Whether `s` is the text of a value.
pub open spec fn is_number_text(s: Seq<u8>) -> bool {
    is_number(unsigned_part(s)) || is_special(unsigned_part(s))
}

/// Where the run of digits that starts at `from` ends.
pub open spec fn digit_run(s: Seq<u8>, from: int) -> int
    decreases s.len() - from,
{
    if 0 <= from < s.len() && is_digit(s[from]) {
        digit_run(s, from + 1)
    } else {
        from
    }
}

proof fn lemma_digit_run(s: Seq<u8>, from: int)
    requires
        0 <= from <= s.len(),
    ensures
        from <= digit_run(s, from) <= s.len(),
        all_digits(s.subrange(from, digit_run(s, from))),
        digit_run(s, from) < s.len() ==> !is_digit(s[digit_run(s, from)]),
    decreases s.len() - from,
{
    if from < s.len() && is_digit(s[from]) {
        lemma_digit_run(s, from + 1);
        let end = digit_run(s, from);
        assert forall|i: int| 0 <= i < end - from implies is_digit(
            #[trigger] s.subrange(from, end)[i],
        ) by {
            if i > 0 {
                assert(s.subrange(from + 1, end)[i - 1] == s[from + i]);
            }
        }
    }
}

/// A run of digits from `from` up to `to` is all of the run that starts at
/// `from`, if no digit follows it.
proof fn lemma_digit_run_known(s: Seq<u8>, from: int, to: int)
    requires
        0 <= from <= to <= s.len(),
        all_digits(s.subrange(from, to)),
        to < s.len() ==> !is_digit(s[to]),
    ensures
        digit_run(s, from) == to,
    decreases to - from,
{
    if from < to {
        assert(s.subrange(from, to)[0] == s[from]);
        assert forall|i: int| 0 <= i < to - from - 1 implies is_digit(
            #[trigger] s.subrange(from + 1, to)[i],
        ) by {
            assert(s.subrange(from, to)[i + 1] == s[from + 1 + i]);
        }
        lemma_digit_run_known(s, from + 1, to);
    }
}

/// Where the decimal at the start of `s` ends, if there is one.
spec fn mantissa_end(s: Seq<u8>) -> int {
    let whole = digit_run(s, 0);
    if whole < s.len() && s[whole] == 46 {
        digit_run(s, whole + 1)
    } else {
        whole
    }
}

/// How many digits the decimal at the start of `s` has.
spec fn mantissa_digits(s: Seq<u8>) -> int {
    let whole = digit_run(s, 0);
    if whole < s.len() && s[whole] == 46 {
        mantissa_end(s) - 1
    } else {
        whole
    }
}

proof fn lemma_mantissa_is_decimal(s: Seq<u8>)
    requires
        mantissa_digits(s) > 0,
    ensures
        0 < mantissa_end(s) <= s.len(),
        is_decimal(s.subrange(0, mantissa_end(s))),
{
    let whole = digit_run(s, 0);
    lemma_digit_run(s, 0);
    let end = mantissa_end(s);
    let head = s.subrange(0, end);
    if whole < s.len() && s[whole] == 46 {
        lemma_digit_run(s, whole + 1);
        assert(head[whole] == 46);
        assert(head.subrange(0, whole) == s.subrange(0, whole));
        assert(head.subrange(whole + 1, head.len() as int) == s.subrange(whole + 1, end));
    }
}

proof fn lemma_decimal_is_mantissa(s: Seq<u8>, end: int)
    requires
        0 < end <= s.len(),
        is_decimal(s.subrange(0, end)),
        end < s.len() ==> is_exponent_mark(s[end]),
    ensures
        mantissa_end(s) == end,
        mantissa_digits(s) > 0,
{
    let head = s.subrange(0, end);
    if head.len() > 0 && all_digits(head) {
        lemma_digit_run_known(s, 0, end);
    } else {
        let dot = choose|dot: int|
            {
                &&& 0 <= dot < head.len()
                &&& #[trigger] head[dot] == 46
                &&& head.len() > 1
                &&& all_digits(head.subrange(0, dot))
                &&& all_digits(head.subrange(dot + 1, head.len() as int))
            };
        assert(head.subrange(0, dot) == s.subrange(0, dot));
        assert(head.subrange(dot + 1, head.len() as int) == s.subrange(dot + 1, end));
        assert(s[dot] == head[dot]);
        lemma_digit_run_known(s, 0, dot);
        lemma_digit_run_known(s, dot + 1, end);
    }
}

/// A number is a decimal at the start with nothing, or an exponent, behind it.
proof fn lemma_number_by_scanning(s: Seq<u8>)
    ensures
        is_number(s) <==> mantissa_digits(s) > 0 && (mantissa_end(s) == s.len() || is_exponent(
            s.subrange(mantissa_end(s), s.len() as int),
        )),
{
    let end = mantissa_end(s);
    if mantissa_digits(s) > 0 {
        lemma_mantissa_is_decimal(s);
        if end == s.len() {
            assert(s.subrange(0, end) == s);
        } else if is_exponent(s.subrange(end, s.len() as int)) {
            assert(s.subrange(end, s.len() as int)[0] == s[end]);
            assert(is_exponent_mark(s[end]));
        }
    }
    if is_number(s) {
        if is_decimal(s) {
            assert(s.subrange(0, s.len() as int) == s);
            lemma_decimal_is_mantissa(s, s.len() as int);
        } else {
            let mark = choose|mark: int|
                {
                    &&& 0 < mark < s.len()
                    &&& is_exponent_mark(#[trigger] s[mark])
                    &&& is_decimal(s.subrange(0, mark))
                    &&& is_exponent(s.subrange(mark, s.len() as int))
                };
            lemma_decimal_is_mantissa(s, mark);
        }
    }
}

fn is_digit_byte(b: u8) -> (r: bool)
    ensures
        r == is_digit(b),
{
    48 <= b && b <= 57
}

fn is_sign_byte(b: u8) -> (r: bool)
    ensures
        r == is_sign(b),
{
    b == 43 || b == 45
}

fn to_lower(b: u8) -> (r: u8)
    ensures
        r == lower(b),
{
    if 65 <= b && b <= 90 {
        b + 32
    } else {
        b
    }
}

/// Skips the digits that start at `from`.
fn scan_digits(text: &[u8], from: usize) -> (end: usize)
    requires
        from <= text@.len(),
    ensures
        end == digit_run(text@, from as int),
        from <= end <= text@.len(),
{
    let mut i: usize = from;
    proof {
        lemma_digit_run(text@, from as int);
    }
    while i < text.len() && is_digit_byte(text[i])
        invariant
            from <= i <= text@.len(),
            digit_run(text@, from as int) == digit_run(text@, i as int),
        decreases text@.len() - i,
    {
        i = i + 1;
    }
    i
}

fn exponent_accepts(tail: &[u8]) -> (ok: bool)
    ensures
        ok == is_exponent(tail@),
{
    let len = tail.len();
    if len < 2 || !(tail[0] == 101 || tail[0] == 69) {
        return false;
    }
    let from: usize = if is_sign_byte(tail[1]) {
        2
    } else {
        1
    };
    let end = scan_digits(tail, from);
    proof {
        lemma_digit_run(tail@, from as int);
        let digits = tail@.skip(from as int);
        assert(digits == tail@.subrange(from as int, len as int));
        if end == len {
        } else {
            assert(digits[end - from] == tail@[end as int]);
        }
    }
    end == len && from < len
}

fn number_accepts(body: &[u8]) -> (ok: bool)
    ensures
        ok == is_number(body@),
{
    let len = body.len();
    let whole = scan_digits(body, 0);
    let end: usize;
    let digits: usize;
    if whole < len && body[whole] == 46 {
        end = scan_digits(body, whole + 1);
        digits = end - 1;
    } else {
        end = whole;
        digits = whole;
    }
    proof {
        lemma_number_by_scanning(body@);
    }
    if digits == 0 {
        false
    } else if end == len {
        true
    } else {
        exponent_accepts(slice_subrange(body, end, len))
    }
}

fn special_accepts(body: &[u8]) -> (ok: bool)
    ensures
        ok == is_special(body@),
{
    let len = body.len();
    let inf = len >= 3 && to_lower(body[0]) == 105 && to_lower(body[1]) == 110 && to_lower(body[2])
        == 102;
    let nan = len == 3 && to_lower(body[0]) == 110 && to_lower(body[1]) == 97 && to_lower(body[2])
        == 110;
    let inity = len == 8 && to_lower(body[3]) == 105 && to_lower(body[4]) == 110 && to_lower(
        body[5],
    ) == 105 && to_lower(body[6]) == 116 && to_lower(body[7]) == 121;
    proof {
        let s = body@;
        let w_inf = seq![105u8, 110u8, 102u8];
        let w_infinity = seq![105u8, 110u8, 102u8, 105u8, 110u8, 105u8, 116u8, 121u8];
        let w_nan = seq![110u8, 97u8, 110u8];
        if spells(s, w_inf) {
            assert(lower(s[0]) == w_inf[0] && lower(s[1]) == w_inf[1] && lower(s[2]) == w_inf[2]);
        }
        if spells(s, w_nan) {
            assert(lower(s[0]) == w_nan[0] && lower(s[1]) == w_nan[1] && lower(s[2]) == w_nan[2]);
        }
        if spells(s, w_infinity) {
            assert(lower(s[0]) == w_infinity[0] && lower(s[1]) == w_infinity[1] && lower(s[2])
                == w_infinity[2] && lower(s[3]) == w_infinity[3] && lower(s[4]) == w_infinity[4]
                && lower(s[5]) == w_infinity[5] && lower(s[6]) == w_infinity[6] && lower(s[7])
                == w_infinity[7]);
        }
    }
    (inf && len == 3) || (inf && inity) || nan
}

/// Whether `text` is the text of a value.
pub fn is_value_text(text: &[u8]) -> (ok: bool)
    ensures
        ok == is_number_text(text@),
{
    let len = text.len();
    let from: usize = if len > 0 && is_sign_byte(text[0]) {
        1
    } else {
        0
    };
    let body = slice_subrange(text, from, len);
    proof {
        assert(body@ == unsigned_part(text@));
    }
    number_accepts(body) || special_accepts(body)
}

} // verus!
