//! Parsing of decimal numbers and `WIDTHxHEIGHT` size overrides.

use vstd::prelude::*;

verus! {

/// True of the ten ASCII digit characters.
pub open spec fn is_digit(c: char) -> bool {
    48 <= c as u32 <= 57
}

/// The numeric value of a digit character.
pub open spec fn digit_val(c: char) -> int {
    c as u32 - 48
}

/// The number the digit characters `s` denote, most significant first.
pub open spec fn spec_digits_val(s: Seq<char>) -> int
    decreases s.len(),
{
    if s.len() == 0 {
        0
    } else {
        spec_digits_val(s.take(s.len() - 1)) * 10 + digit_val(s.last())
    }
}

/// What parsing `s` as a `u32` yields: an optional leading plus sign,
/// then at least one digit, denoting a representable value; anything
/// else is rejected.
pub open spec fn spec_parse_digits(digits: Seq<char>) -> Option<u32> {
    if digits.len() == 0 {
        None
    } else if exists|k: int| 0 <= k < digits.len() && !is_digit(#[trigger] digits[k]) {
        None
    } else if spec_digits_val(digits) > u32::MAX {
        None
    } else {
        Some(spec_digits_val(digits) as u32)
    }
}

pub open spec fn spec_parse_u32(s: Seq<char>) -> Option<u32> {
    spec_parse_digits(
        if s.len() > 0 && s[0] == '+' {
            s.drop_first()
        } else {
            s
        },
    )
}

/// Digit characters denote a number that is not negative.
proof fn lemma_digits_val_nonneg(s: Seq<char>)
    requires
        forall|k: int| 0 <= k < s.len() ==> is_digit(#[trigger] s[k]),
    ensures
        spec_digits_val(s) >= 0,
    decreases s.len(),
{
    if s.len() > 0 {
        lemma_digits_val_nonneg(s.take(s.len() - 1));
    }
}

/// Reading one more digit multiplies the prefix value by ten and adds
/// the digit.
proof fn lemma_digits_val_step(s: Seq<char>, i: int)
    requires
        0 <= i < s.len(),
    ensures
        spec_digits_val(s.take(i + 1)) == spec_digits_val(s.take(i)) * 10 + digit_val(s[i]),
{
    let t = s.take(i + 1);
    assert(t.take(i) =~= s.take(i));
    assert(t.last() == s[i]);
}

/// A longer stretch of digits never denotes a smaller number.
proof fn lemma_digits_val_mono(s: Seq<char>, i: int)
    requires
        0 <= i <= s.len(),
        forall|k: int| 0 <= k < s.len() ==> is_digit(#[trigger] s[k]),
    ensures
        spec_digits_val(s) >= spec_digits_val(s.take(i)),
    decreases s.len() - i,
{
    if i == s.len() {
        assert(s.take(i) =~= s);
    } else {
        lemma_digits_val_step(s, i);
        lemma_digits_val_nonneg(s.take(i));
        lemma_digits_val_mono(s, i + 1);
    }
}

/// Parses `s` as a decimal `u32`: an optional leading plus sign, then
/// at least one digit; rejects anything else and any value too large.
pub fn parse_u32(s: &str) -> (r: Option<u32>)
    ensures
        r == spec_parse_u32(s@),
{
    let len = s.unicode_len();
    let ghost digits: Seq<char> = if s@.len() > 0 && s@[0] == '+' {
        s@.drop_first()
    } else {
        s@
    };
    let mut i: usize = 0;
    if len > 0 && s.get_char(0) == '+' {
        i = 1;
    }
    let ghost start = i as int;
    if i == len {
        return None;
    }
    let mut acc: u32 = 0;
    proof {
        assert(digits.take(0) =~= Seq::<char>::empty());
    }
    while i < len
        invariant
            len == s@.len(),
            start <= i <= len,
            start == 0 || start == 1,
            start == 1 ==> s@.len() > 0 && s@[0] == '+',
            start == 0 ==> !(s@.len() > 0 && s@[0] == '+'),
            digits == (if s@.len() > 0 && s@[0] == '+' {
                s@.drop_first()
            } else {
                s@
            }),
            digits.len() == len - start,
            forall|k: int| 0 <= k < digits.len() ==> digits[k] == s@[k + start],
            forall|k: int| 0 <= k < i - start ==> is_digit(#[trigger] digits[k]),
            acc == spec_digits_val(digits.take(i - start)),
        decreases len - i,
    {
        let c = s.get_char(i);
        let u = c as u32;
        proof {
            assert(digits[i - start] == s@[i as int]);
        }
        if u < 48 || u > 57 {
            proof {
                assert(!is_digit(digits[i - start]));
                assert(spec_parse_digits(digits) is None);
            }
            return None;
        }
        let d = u - 48;
        proof {
            assert(is_digit(digits[i - start]));
            assert(digit_val(digits[i - start]) == d);
            lemma_digits_val_step(digits, i - start);
        }
        let next = match acc.checked_mul(10) {
            Some(a) => match a.checked_add(d) {
                Some(a) => a,
                None => {
                    proof {
                        assert(spec_digits_val(digits.take(i - start + 1)) > u32::MAX);
                        overflow_means_rejected(digits, i - start);
                        assert(spec_parse_digits(digits) is None);
                    }
                    return None;
                },
            },
            None => {
                proof {
                    lemma_digits_val_nonneg(digits.take(i - start));
                    assert(spec_digits_val(digits.take(i - start + 1)) > u32::MAX);
                    overflow_means_rejected(digits, i - start);
                    assert(spec_parse_digits(digits) is None);
                }
                return None;
            },
        };
        acc = next;
        i = i + 1;
    }
    proof {
        assert(digits.take(digits.len() as int) =~= digits);
    }
    Some(acc)
}

/// Once a digit prefix already denotes more than `u32::MAX`, the whole
/// string is rejected.
proof fn overflow_means_rejected(digits: Seq<char>, i: int)
    requires
        0 <= i < digits.len(),
        forall|k: int| 0 <= k < i ==> is_digit(#[trigger] digits[k]),
        is_digit(digits[i]),
        spec_digits_val(digits.take(i + 1)) > u32::MAX,
    ensures
        (exists|k: int| 0 <= k < digits.len() && !is_digit(#[trigger] digits[k]))
            || spec_digits_val(digits) > u32::MAX,
{
    if forall|k: int| 0 <= k < digits.len() ==> is_digit(#[trigger] digits[k]) {
        lemma_digits_val_mono(digits, i + 1);
    }
}

/// What parsing one dimension yields: an empty string stands for the
/// automatic size 0, anything else must be a decimal `u32`.
pub open spec fn spec_parse_dim(s: Seq<char>) -> Option<u32> {
    if s.len() == 0 {
        Some(0u32)
    } else {
        spec_parse_u32(s)
    }
}

/// Parses one dimension of a size override; empty means automatic.
pub fn parse_dim(s: &str) -> (r: Option<u32>)
    ensures
        r == spec_parse_dim(s@),
{
    if s.unicode_len() == 0 {
        Some(0)
    } else {
        parse_u32(s)
    }
}

/// The position of the first `x` in `s` at or after `i`.
pub open spec fn first_x(s: Seq<char>, i: int) -> Option<int>
    decreases s.len() - i,
{
    if !(0 <= i < s.len()) {
        None
    } else if s[i] == 'x' {
        Some(i)
    } else {
        first_x(s, i + 1)
    }
}

/// What parsing a `WIDTHxHEIGHT` override yields: the part before the
/// first `x` and the part after it, each parsed as a dimension.
pub open spec fn spec_parse_dims(s: Seq<char>) -> Option<(u32, u32)> {
    match first_x(s, 0) {
        None => None,
        Some(i) => match (spec_parse_dim(s.take(i)), spec_parse_dim(s.skip(i + 1))) {
            (Some(w), Some(h)) => Some((w, h)),
            _ => None,
        },
    }
}

/// Parses a `WIDTHxHEIGHT` size override; either side may be empty,
/// which stands for the automatic size 0.
pub fn parse_dims(s: &str) -> (r: Option<(u32, u32)>)
    ensures
        r == spec_parse_dims(s@),
{
    let len = s.unicode_len();
    let mut i: usize = 0;
    while i < len
        invariant
            len == s@.len(),
            0 <= i <= len,
            first_x(s@, 0) == first_x(s@, i as int),
        decreases len - i,
    {
        if s.get_char(i) == 'x' {
            let w = match parse_dim(s.substring_char(0, i)) {
                Some(w) => w,
                None => {
                    return None;
                },
            };
            let h = match parse_dim(s.substring_char(i + 1, len)) {
                Some(h) => h,
                None => {
                    return None;
                },
            };
            proof {
                assert(s@.subrange(0, i as int) =~= s@.take(i as int));
                assert(s@.subrange(i as int + 1, len as int) =~= s@.skip(i as int + 1));
            }
            return Some((w, h));
        }
        i = i + 1;
    }
    None
}

} // verus!
