//! Text: numbers as digits, and what the standard library knows of text.

use vstd::prelude::*;
use vstd::string::StringExecFns;
use vstd::utf8::{decode_utf8, valid_utf8};
use duckdb::arrow::buffer::{Buffer, ScalarBuffer};
use qvd::QvdSymbol;
use crate::double::{is_nan, NOT_A_NUMBER, SIGN_BIT};
use crate::rounding::INFINITY;

verus! {

/// Whether a character has the Unicode property `White_Space`.
pub open spec fn is_space(c: char) -> bool {
    ||| 0x9 <= c as u32 <= 0xD
    ||| c as u32 == 0x20
    ||| c as u32 == 0x85
    ||| c as u32 == 0xA0
    ||| c as u32 == 0x1680
    ||| 0x2000 <= c as u32 <= 0x200A
    ||| c as u32 == 0x2028
    ||| c as u32 == 0x2029
    ||| c as u32 == 0x202F
    ||| c as u32 == 0x205F
    ||| c as u32 == 0x3000
}

/// A text without the white space at its start.
pub open spec fn without_leading_space(s: Seq<char>) -> Seq<char>
    decreases s.len(),
{
    if s.len() > 0 && is_space(s[0]) {
        without_leading_space(s.drop_first())
    } else {
        s
    }
}

/// A text without the white space at its end.
pub open spec fn without_trailing_space(s: Seq<char>) -> Seq<char>
    decreases s.len(),
{
    if s.len() > 0 && is_space(s.last()) {
        without_trailing_space(s.drop_last())
    } else {
        s
    }
}

/// A text without the white space around it.
pub open spec fn trimmed(s: Seq<char>) -> Seq<char> {
    without_trailing_space(without_leading_space(s))
}

/// `str::trim` of the standard library: the text without the leading and trailing
/// characters that have the Unicode property `White_Space`.
pub assume_specification[ str::trim ](s: &str) -> (r: &str)
    ensures
        r@ == trimmed(s@),
;

/// The digit for a number below ten.
pub open spec fn digit(n: nat) -> char {
    (48 + n) as char
}

/// The decimal digits of a number, without leading zeros.
pub open spec fn decimal(n: nat) -> Seq<char>
    decreases n,
{
    if n < 10 {
        seq![digit(n)]
    } else {
        decimal(n / 10).push(digit(n % 10))
    }
}

/// The decimal digits of a whole number, after a minus sign where it is negative.
pub open spec fn signed_decimal(n: int) -> Seq<char> {
    if n < 0 {
        seq!['-'] + decimal((-n) as nat)
    } else {
        decimal(n as nat)
    }
}

/// The text of one digit.
fn digit_text(n: u64) -> (r: &'static str)
    requires
        n < 10,
    ensures
        r@ == seq![digit(n as nat)],
{
    proof {
        reveal_strlit("0");
        reveal_strlit("1");
        reveal_strlit("2");
        reveal_strlit("3");
        reveal_strlit("4");
        reveal_strlit("5");
        reveal_strlit("6");
        reveal_strlit("7");
        reveal_strlit("8");
        reveal_strlit("9");
    }
    if n == 0 {
        "0"
    } else if n == 1 {
        "1"
    } else if n == 2 {
        "2"
    } else if n == 3 {
        "3"
    } else if n == 4 {
        "4"
    } else if n == 5 {
        "5"
    } else if n == 6 {
        "6"
    } else if n == 7 {
        "7"
    } else if n == 8 {
        "8"
    } else {
        "9"
    }
}

/// Appends the decimal digits of a number to a text.
pub fn append_decimal(text: &mut String, n: u64)
    ensures
        final(text)@ == old(text)@ + decimal(n as nat),
    decreases n,
{
    if n >= 10 {
        append_decimal(text, n / 10);
    }
    text.append(digit_text(n % 10));
    assert(text@ =~= old(text)@ + decimal(n as nat));
}

/// The decimal text of a whole number.
pub fn integer_text(n: i64) -> (r: String)
    ensures
        r@ == signed_decimal(n as int),
{
    let mut r: String = String::new();
    if n < 0 {
        proof {
            reveal_strlit("-");
        }
        r.append("-");
        append_decimal(&mut r, (-(n as i128)) as u64);
        assert(r@ =~= signed_decimal(n as int));
    } else {
        append_decimal(&mut r, n as u64);
        assert(r@ =~= signed_decimal(n as int));
    }
    r
}

/// Whether a character is one of the ten decimal digits.
pub open spec fn is_digit(c: char) -> bool {
    48 <= c as u32 <= 57
}

/// Whether a text holds nothing but decimal digits.
pub open spec fn all_digits(s: Seq<char>) -> bool {
    forall|i: int| 0 <= i < s.len() ==> is_digit(#[trigger] s[i])
}

/// The number that decimal digits spell.
pub open spec fn digits_value(s: Seq<char>) -> int
    decreases s.len(),
{
    if s.len() == 0 {
        0
    } else {
        10 * digits_value(s.drop_last()) + (s.last() as u32 - 48)
    }
}

/// The whole number that a text spells: an optional sign and at least one digit.
pub open spec fn parsed_integer(s: Seq<char>) -> Option<int> {
    let has_sign = s.len() > 0 && (s[0] == '-' || s[0] == '+');
    let digits = if has_sign {
        s.drop_first()
    } else {
        s
    };
    if digits.len() == 0 || !all_digits(digits) {
        None
    } else if has_sign && s[0] == '-' {
        Some(-digits_value(digits))
    } else {
        Some(digits_value(digits))
    }
}

/// The 64-bit whole number that a text spells.
pub open spec fn parsed_i64(s: Seq<char>) -> Option<i64> {
    match parsed_integer(s) {
        Some(v) => if i64::MIN <= v <= i64::MAX {
            Some(v as i64)
        } else {
            None
        },
        None => None,
    }
}

/// Decimal digits spell the number that they were made from.
pub proof fn lemma_decimal_spells_its_number(n: nat)
    ensures
        decimal(n).len() > 0,
        all_digits(decimal(n)),
        digits_value(decimal(n)) == n,
    decreases n,
{
    let s = decimal(n);
    if n < 10 {
        assert(s.drop_last() =~= Seq::empty());
        assert(digits_value(s.drop_last()) == 0);
    } else {
        lemma_decimal_spells_its_number(n / 10);
        assert(s.drop_last() =~= decimal(n / 10));
        assert forall|i: int| 0 <= i < s.len() implies is_digit(#[trigger] s[i]) by {
            if i < s.len() - 1 {
                assert(s[i] == decimal(n / 10)[i]);
            }
        }
    }
}

/// The text of a whole number is read as that number.
pub proof fn lemma_integer_text_reads_back(n: i64)
    ensures
        parsed_i64(signed_decimal(n as int)) == Some(n),
{
    let a = if n < 0 {
        (-n) as nat
    } else {
        n as nat
    };
    let s = signed_decimal(n as int);
    lemma_decimal_spells_its_number(a);
    if n < 0 {
        assert(s.drop_first() =~= decimal(a));
    } else {
        assert(is_digit(s[0]));
    }
}

/// The characters of a text.
pub fn characters(s: &str) -> (r: Vec<char>)
    ensures
        r@ == s@,
{
    let mut r: Vec<char> = Vec::new();
    for c in it: s.chars()
        invariant
            it.seq() == s@,
            r@ == s@.take(it.index() as int),
    {
        r.push(c);
    }
    r
}

/// Reads a 64-bit whole number: an optional sign and at least one digit, nothing else.
pub fn parse_i64(s: &str) -> (r: Option<i64>)
    ensures
        r == parsed_i64(s@),
{
    let chars: Vec<char> = characters(s);
    let has_sign: bool = chars.len() > 0 && (chars[0] == '-' || chars[0] == '+');
    let minus: bool = has_sign && chars[0] == '-';
    let start: usize = if has_sign {
        1
    } else {
        0
    };
    if chars.len() == start {
        return None;
    }
    let ghost digits: Seq<char> = if has_sign {
        s@.drop_first()
    } else {
        s@
    };
    let mut i: usize = start;
    let mut sum: i128 = 0;
    let mut within: bool = true;
    while i < chars.len()
        invariant
            chars@ == s@,
            start <= i <= chars@.len(),
            start == if has_sign {
                1int
            } else {
                0int
            },
            digits == if has_sign {
                s@.drop_first()
            } else {
                s@
            },
            digits.len() == chars@.len() - start,
            parsed_integer(s@) == if all_digits(digits) {
                Some(
                    if minus {
                        -digits_value(digits)
                    } else {
                        digits_value(digits)
                    },
                )
            } else {
                None
            },
            all_digits(digits.take(i - start)),
            within ==> sum == digits_value(digits.take(i - start)),
            within ==> 0 <= sum <= 0x8000_0000_0000_0000,
            !within ==> digits_value(digits.take(i - start)) > 0x8000_0000_0000_0000,
        decreases chars@.len() - i,
    {
        let c: char = chars[i];
        let ghost before: Seq<char> = digits.take(i - start);
        let ghost after: Seq<char> = digits.take(i - start + 1);
        proof {
            assert(after.drop_last() =~= before);
            assert(after.last() == c);
            assert(digits[i - start] == c);
        }
        if (c as u32) < 48 || (c as u32) > 57 {
            assert(!all_digits(digits));
            return None;
        }
        proof {
            assert forall|j: int| 0 <= j < after.len() implies is_digit(#[trigger] after[j]) by {
                if j < before.len() {
                    assert(after[j] == before[j]);
                }
            }
        }
        if within {
            sum = 10 * sum + (c as u32 - 48) as i128;
            if sum > 0x8000_0000_0000_0000 {
                within = false;
            }
        }
        i = i + 1;
    }
    assert(digits.take(i - start) =~= digits);
    if !within {
        return None;
    }
    let total: i128 = if minus {
        -sum
    } else {
        sum
    };
    if total > i64::MAX as i128 {
        None
    } else {
        Some(total as i64)
    }
}

/// A double, with one bit pattern for everything that is not a number.
pub open spec fn canonical(bits: u64) -> u64 {
    if is_nan(bits) {
        NOT_A_NUMBER
    } else {
        bits
    }
}

/// The double that `str::parse` of the standard library reads from a text, as its
/// bits; `None` where it reads none.
pub uninterp spec fn parsed_double(s: Seq<char>) -> Option<u64>;

/// Calls `str::parse` of the standard library for a double and hands out its bits.
///
/// What the result is for a given text is left to the standard library; it is the
/// same for the same text. Only which bits stand for something that is not a
/// number is open, so these are compared as one.
#[verifier::external_body]
fn std_parse_double(s: &str) -> (r: Option<u64>)
    ensures
        match r {
            Some(bits) => parsed_double(s@) == Some(canonical(bits)),
            None => parsed_double(s@) is None,
        },
{
    match s.parse().map(QvdSymbol::Double) {
        Ok(QvdSymbol::Double(x)) => Some(x.to_bits()),
        _ => None,
    }
}

/// Reads a double from a text.
pub fn parse_double(s: &str) -> (r: Option<u64>)
    ensures
        r == parsed_double(s@),
{
    match std_parse_double(s) {
        Some(bits) => {
            let size: u64 = if bits >= SIGN_BIT {
                bits - SIGN_BIT
            } else {
                bits
            };
            if size > INFINITY {
                Some(NOT_A_NUMBER)
            } else {
                Some(bits)
            }
        },
        None => None,
    }
}

/// The text of a double that `QvdSymbol::to_string_repr` of the crate `qvd` gives, by its
/// bits.
pub uninterp spec fn double_text(bits: u64) -> Seq<char>;

/// Calls `QvdSymbol::to_string_repr` of the crate `qvd` for the double with the given bits.
///
/// The bits are read as a double by `ScalarBuffer` of the crate `arrow`. What the text is
/// for a given double is left to the standard library, which that function calls; it is
/// the same for the same bits.
#[verifier::external_body]
pub(crate) fn show_double(bits: u64) -> (r: String)
    ensures
        r@ == double_text(bits),
{
    let values: ScalarBuffer<_> = Buffer::from_vec(vec![bits]).into();
    QvdSymbol::Double(values[0]).to_string_repr()
}

/// What `String::from_utf8_lossy` of the standard library makes of bytes.
pub uninterp spec fn lossy_text(bytes: Seq<u8>) -> Seq<char>;

/// Calls `String::from_utf8_lossy` of the standard library.
///
/// Bytes that are valid UTF-8 are decoded as they stand. What stands for invalid
/// bytes is left to the standard library.
#[verifier::external_body]
pub(crate) fn from_utf8_lossy(bytes: &Vec<u8>) -> (r: String)
    ensures
        r@ == lossy_text(bytes@),
        valid_utf8(bytes@) ==> r@ == decode_utf8(bytes@),
{
    String::from_utf8_lossy(bytes).into_owned()
}

/// The characters that have the Unicode property `White_Space` are these 25.
pub proof fn lemma_white_space(c: char)
    ensures
        is_space(c) <==> seq![
            0x9u32,
            0xA,
            0xB,
            0xC,
            0xD,
            0x20,
            0x85,
            0xA0,
            0x1680,
            0x2000,
            0x2001,
            0x2002,
            0x2003,
            0x2004,
            0x2005,
            0x2006,
            0x2007,
            0x2008,
            0x2009,
            0x200A,
            0x2028,
            0x2029,
            0x202F,
            0x205F,
            0x3000,
        ].contains(c as u32),
{
    let all = seq![
        0x9u32,
        0xA,
        0xB,
        0xC,
        0xD,
        0x20,
        0x85,
        0xA0,
        0x1680,
        0x2000,
        0x2001,
        0x2002,
        0x2003,
        0x2004,
        0x2005,
        0x2006,
        0x2007,
        0x2008,
        0x2009,
        0x200A,
        0x2028,
        0x2029,
        0x202F,
        0x205F,
        0x3000,
    ];
    let n = c as u32;
    if is_space(c) {
        let i = if n <= 0xD {
            n - 0x9
        } else if n == 0x20 {
            5
        } else if n == 0x85 {
            6
        } else if n == 0xA0 {
            7
        } else if n == 0x1680 {
            8
        } else if n <= 0x200A {
            n - 0x2000 + 9
        } else if n == 0x2028 {
            20
        } else if n == 0x2029 {
            21
        } else if n == 0x202F {
            22
        } else if n == 0x205F {
            23
        } else {
            24
        };
        assert(all[i] == n);
    }
}

/// Whether a text holds nothing but white space.
pub open spec fn all_space(s: Seq<char>) -> bool {
    forall|i: int| 0 <= i < s.len() ==> is_space(#[trigger] s[i])
}

/// Trimming takes away the white space around a text, all of it and nothing else.
pub proof fn lemma_trimming_keeps_the_core(before: Seq<char>, core: Seq<char>, after: Seq<char>)
    requires
        all_space(before),
        all_space(after),
        core.len() > 0 ==> !is_space(core[0]) && !is_space(core.last()),
    ensures
        trimmed(before + core + after) == core,
{
    let s = before + core + after;
    assert(s =~= before + (core + after));
    lemma_leading_space_goes(before, core + after);
    if core.len() > 0 {
        assert((core + after)[0] == core[0]);
        assert(without_leading_space(core + after) == core + after);
        lemma_trailing_space_goes(core, after);
    } else {
        assert(core + after =~= after + Seq::<char>::empty());
        lemma_leading_space_goes(after, Seq::empty());
        assert(core =~= Seq::<char>::empty());
    }
}

/// White space at the start goes.
proof fn lemma_leading_space_goes(before: Seq<char>, s: Seq<char>)
    requires
        all_space(before),
    ensures
        without_leading_space(before + s) == without_leading_space(s),
    decreases before.len(),
{
    if before.len() > 0 {
        let rest = before.drop_first();
        assert((before + s)[0] == before[0]);
        assert((before + s).drop_first() =~= rest + s);
        assert forall|i: int| 0 <= i < rest.len() implies is_space(#[trigger] rest[i]) by {
            assert(rest[i] == before[i + 1]);
        }
        lemma_leading_space_goes(rest, s);
    } else {
        assert(before + s =~= s);
    }
}

/// White space at the end goes.
proof fn lemma_trailing_space_goes(core: Seq<char>, after: Seq<char>)
    requires
        all_space(after),
        core.len() > 0,
        !is_space(core.last()),
    ensures
        without_trailing_space(core + after) == core,
    decreases after.len(),
{
    if after.len() > 0 {
        let rest = after.drop_last();
        assert((core + after).last() == after.last());
        assert(is_space(after[after.len() - 1]));
        assert((core + after).drop_last() =~= core + rest);
        assert forall|i: int| 0 <= i < rest.len() implies is_space(#[trigger] rest[i]) by {
            assert(rest[i] == after[i]);
        }
        lemma_trailing_space_goes(core, rest);
    } else {
        assert(core + after =~= core);
    }
}

/// Every text is its trimmed form with white space around it.
pub proof fn lemma_every_text_has_a_core(s: Seq<char>) -> (r: (Seq<char>, Seq<char>))
    ensures
        all_space(r.0),
        all_space(r.1),
        s == r.0 + trimmed(s) + r.1,
        trimmed(s).len() > 0 ==> !is_space(trimmed(s)[0]) && !is_space(trimmed(s).last()),
{
    let before = lemma_leading_space(s);
    let rest = without_leading_space(s);
    let after = lemma_trailing_space(rest);
    let core = trimmed(s);
    assert(s =~= before + core + after);
    if core.len() > 0 {
        assert(rest[0] == core[0]);
    }
    (before, after)
}

/// The white space at the start of a text.
proof fn lemma_leading_space(s: Seq<char>) -> (before: Seq<char>)
    ensures
        all_space(before),
        s == before + without_leading_space(s),
        without_leading_space(s).len() > 0 ==> !is_space(without_leading_space(s)[0]),
    decreases s.len(),
{
    if s.len() > 0 && is_space(s[0]) {
        let rest = lemma_leading_space(s.drop_first());
        let before = seq![s[0]] + rest;
        let left = without_leading_space(s);
        assert(s.drop_first() == rest + left);
        assert(s =~= seq![s[0]] + (rest + left));
        assert(s =~= before + left);
        assert forall|i: int| 0 <= i < before.len() implies is_space(#[trigger] before[i]) by {
            if i > 0 {
                assert(before[i] == rest[i - 1]);
            }
        }
        before
    } else {
        assert(s =~= Seq::empty() + s);
        Seq::empty()
    }
}

/// The white space at the end of a text.
proof fn lemma_trailing_space(s: Seq<char>) -> (after: Seq<char>)
    ensures
        all_space(after),
        s == without_trailing_space(s) + after,
        without_trailing_space(s).len() > 0 ==> !is_space(without_trailing_space(s).last()),
    decreases s.len(),
{
    if s.len() > 0 && is_space(s.last()) {
        let rest = lemma_trailing_space(s.drop_last());
        let after = rest.push(s.last());
        let left = without_trailing_space(s);
        assert(s.drop_last() == left + rest);
        assert(s =~= (left + rest).push(s.last()));
        assert(s =~= left + after);
        assert forall|i: int| 0 <= i < after.len() implies is_space(#[trigger] after[i]) by {
            if i < rest.len() {
                assert(after[i] == rest[i]);
            }
        }
        after
    } else {
        assert(s =~= s + Seq::empty());
        Seq::empty()
    }
}

/// No digits spell 0, and one more digit makes ten times the number and the digit.
pub proof fn lemma_digits_spell_a_number(s: Seq<char>, c: char)
    ensures
        digits_value(Seq::empty()) == 0,
        digits_value(s.push(c)) == 10 * digits_value(s) + (c as int - '0' as int),
        is_digit(c) <==> '0' as int <= c as int && c as int <= '9' as int,
        all_digits(s) <==> forall|i: int| 0 <= i < s.len() ==> is_digit(#[trigger] s[i]),
{
    assert(s.push(c).drop_last() =~= s);
}

/// The text of a whole number has a minus sign exactly where the number is negative, and
/// then its digits, which do not start with a zero unless the number is 0.
pub proof fn lemma_shape_of_an_integer_text(n: int)
    ensures
        ({
            let s = signed_decimal(n);
            let digits = if n < 0 {
                s.skip(1)
            } else {
                s
            };
            &&& s.len() > 0
            &&& s[0] == '-' <==> n < 0
            &&& digits.len() > 0
            &&& all_digits(digits)
            &&& digits[0] == '0' <==> n == 0
            &&& n == 0 ==> digits.len() == 1
            &&& digits_value(digits) == if n < 0 {
                -n
            } else {
                n
            }
        }),
{
    let a = if n < 0 {
        (-n) as nat
    } else {
        n as nat
    };
    lemma_decimal_spells_its_number(a);
    lemma_no_leading_zero(a);
    let s = signed_decimal(n);
    if n < 0 {
        assert(s.skip(1) =~= decimal(a));
    } else {
        assert(is_digit(s[0]));
    }
}

/// The digits of a number other than 0 do not start with a zero.
proof fn lemma_no_leading_zero(n: nat)
    ensures
        decimal(n).len() > 0,
        decimal(n)[0] == '0' <==> n == 0,
        n < 10 ==> decimal(n).len() == 1,
    decreases n,
{
    if n >= 10 {
        lemma_no_leading_zero(n / 10);
        assert(decimal(n)[0] == decimal(n / 10)[0]);
    }
}

/// A text is read as a whole number where it holds digits, with or without a sign, whose
/// number 64 bits hold; a minus sign makes the number negative.
pub proof fn lemma_digits_are_read(digits: Seq<char>)
    requires
        digits.len() > 0,
        forall|i: int|
            0 <= i < digits.len() ==> '0' as int <= #[trigger] digits[i] as int && digits[i] as int
                <= '9' as int,
    ensures
        ({
            let n = digits_value(digits);
            let plain = if n <= 0x7FFF_FFFF_FFFF_FFFF {
                Some(n as i64)
            } else {
                None
            };
            &&& n >= 0
            &&& parsed_i64(digits) == plain
            &&& parsed_i64(seq!['+'] + digits) == plain
            &&& parsed_i64(seq!['-'] + digits) == if n <= 0x8000_0000_0000_0000 {
                Some((-n) as i64)
            } else {
                None
            }
        }),
{
    assert(all_digits(digits));
    lemma_digits_value_is_positive(digits);
    assert(is_digit(digits[0]));
    assert((seq!['+'] + digits).drop_first() =~= digits);
    assert((seq!['-'] + digits).drop_first() =~= digits);
}

/// Digits spell no negative number.
proof fn lemma_digits_value_is_positive(digits: Seq<char>)
    requires
        all_digits(digits),
    ensures
        digits_value(digits) >= 0,
    decreases digits.len(),
{
    if digits.len() > 0 {
        let rest = digits.drop_last();
        assert forall|i: int| 0 <= i < rest.len() implies is_digit(#[trigger] rest[i]) by {
            assert(rest[i] == digits[i]);
        }
        assert(is_digit(digits[digits.len() - 1]));
        lemma_digits_value_is_positive(rest);
    }
}

/// Nothing else is read as a whole number: neither an empty text nor one with anything but
/// digits behind at most one sign.
pub proof fn lemma_only_digits_are_read(s: Seq<char>)
    requires
        parsed_i64(s) is Some,
    ensures
        s.len() > 0,
        '0' as int <= s[0] as int && s[0] as int <= '9' as int || s.len() > 1 && (s[0] == '-'
            || s[0] == '+'),
        forall|i: int|
            1 <= i < s.len() ==> '0' as int <= #[trigger] s[i] as int && s[i] as int <= '9' as int,
{
    if s[0] == '-' || s[0] == '+' {
        let digits = s.drop_first();
        assert forall|i: int| 1 <= i < s.len() implies is_digit(#[trigger] s[i]) by {
            assert(s[i] == digits[i - 1]);
        }
    } else {
        assert(is_digit(s[0]));
        lemma_digits_spell_a_number(s, s[0]);
    }
    assert forall|i: int| 1 <= i < s.len() implies '0' as int <= #[trigger] s[i] as int && s[i]
        as int <= '9' as int by {
        assert(is_digit(s[i]));
        lemma_digits_spell_a_number(s, s[i]);
    }
}

/// The bits of a double that is read are kept, except that all that are not numbers are
/// taken as one.
pub proof fn lemma_numbers_are_canonical(bits: u64)
    ensures
        bits & 0x7FFF_FFFF_FFFF_FFFF <= 0x7FF0_0000_0000_0000 ==> canonical(bits) == bits,
        bits & 0x7FFF_FFFF_FFFF_FFFF > 0x7FF0_0000_0000_0000 ==> canonical(bits)
            == 0x7FF8_0000_0000_0000,
{
    assert(bits & 0x7FFF_FFFF_FFFF_FFFF == if bits >= 0x8000_0000_0000_0000 {
        (bits - 0x8000_0000_0000_0000) as u64
    } else {
        bits
    }) by (bit_vector);
}

} // verus!
