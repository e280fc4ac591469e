//! Times that a metadata member gives by other than an integer.
//!
//! A member is compared with the clock by its value: a number with a fraction by that
//! number, and a boolean as 0 or 1. Of such a number only the first whole second that
//! is not before it matters, and that second is found from its decimal digits.

use vstd::prelude::*;

use crate::text::{chars_of, parse_signed, same, split_all, string_of, Delim};
#[allow(unused_imports)]
use crate::text::{all_digits, is_digit, signed, split, texts};
#[allow(unused_imports)]
use vstd::string::*;

verus! {

/// A decimal number: its sign, its digits, and how many of them stand before the
/// decimal point. The point may lie before the first digit or behind the last.
pub ghost struct Decimal {
    pub negative: bool,
    pub digits: Seq<char>,
    pub point: int,
}

/// The number that a text writes: digits, perhaps with a minus sign in front, with a
/// fraction, and with an exponent.
pub open spec fn decimal_in(s: Seq<char>) -> Option<Decimal> {
    let parts = split(s, Delim::Char('e'));
    let negative = parts[0].len() > 0 && parts[0][0] == '-';
    let body = if negative {
        parts[0].skip(1)
    } else {
        parts[0]
    };
    let sides = split(body, Delim::Char('.'));
    let whole = sides[0];
    let fraction = if sides.len() > 1 {
        sides[1]
    } else {
        Seq::empty()
    };
    let exponent = if parts.len() > 1 {
        signed(parts[1])
    } else {
        Some(0)
    };
    if parts.len() <= 2 && sides.len() <= 2 && whole.len() > 0 && all_digits(whole + fraction)
        && exponent is Some {
        Some(
            Decimal { negative, digits: whole + fraction, point: whole.len() + exponent->0 },
        )
    } else {
        None
    }
}

/// The value of a digit.
pub open spec fn digit_value(c: char) -> int {
    (c as u32) - ('0' as u32)
}

/// The number that the first `n` digits write, with zeros behind the last.
pub open spec fn leading(digits: Seq<char>, n: int) -> int
    decreases n,
{
    if n <= 0 {
        0
    } else {
        10 * leading(digits, n - 1) + if n <= digits.len() {
            digit_value(digits[n - 1])
        } else {
            0
        }
    }
}

/// Whether a digit from the `n`-th on is not zero.
pub open spec fn goes_on(digits: Seq<char>, n: int) -> bool {
    exists|i: int| 0 <= i < digits.len() && n <= i && #[trigger] digits[i] != '0'
}

/// The least integer that is not below a number.
pub open spec fn ceiling(d: Decimal) -> int {
    let whole = leading(d.digits, d.point);
    if d.negative {
        -whole
    } else if goes_on(d.digits, d.point) {
        whole + 1
    } else {
        whole
    }
}

/// The first second that is not before the time that a JSON value gives. Strings,
/// arrays, objects and null give none, and no second is after a time beyond them all.
pub open spec fn second_of(json: Seq<char>) -> Option<i64> {
    if json == "true"@ {
        Some(1)
    } else if json == "false"@ {
        Some(0)
    } else {
        match decimal_in(json) {
            Some(d) => if ceiling(d) > i64::MAX {
                None
            } else if ceiling(d) < i64::MIN {
                Some(i64::MIN)
            } else {
                Some(ceiling(d) as i64)
            },
            None => None,
        }
    }
}

proof fn lemma_leading_grows(digits: Seq<char>, m: int, n: int)
    requires
        all_digits(digits),
        m <= n,
    ensures
        0 <= leading(digits, m) <= leading(digits, n),
    decreases n,
{
    if n > 0 {
        if m < n {
            lemma_leading_grows(digits, m, n - 1);
        } else {
            lemma_leading_grows(digits, m - 1, n - 1);
        }
        if n <= digits.len() {
            assert(is_digit(digits[n - 1]));
        }
    }
}

proof fn lemma_leading_zero(digits: Seq<char>, m: int, n: int)
    requires
        digits.len() <= m <= n,
        leading(digits, m) == 0,
    ensures
        leading(digits, n) == 0,
    decreases n,
{
    if m < n {
        lemma_leading_zero(digits, m, n - 1);
    }
}

/// A number larger than every second.
const BEYOND: u128 = 10_000_000_000_000_000_000;

fn first_digits(digits: &Vec<char>, n: i128) -> (r: u128)
    requires
        all_digits(digits@),
    ensures
        r == leading(digits@, n as int) || (r > BEYOND && leading(digits@, n as int) > BEYOND),
        r <= 10 * BEYOND + 9,
{
    let mut acc: u128 = 0;
    let mut k: i128 = 0;
    while k < n
        invariant
            0 <= k,
            k <= n || k == 0,
            all_digits(digits@),
            acc == leading(digits@, k as int),
            acc <= BEYOND,
        decreases n - k,
    {
        let inside = k < digits.len() as i128;
        if !inside && acc == 0 {
            proof {
                lemma_leading_zero(digits@, k as int, n as int);
            }
            return 0;
        }
        let d: u128 = if inside {
            assert(is_digit(digits@[k as int]));
            (digits[k as usize] as u32 - '0' as u32) as u128
        } else {
            0
        };
        acc = 10 * acc + d;
        k += 1;
        if acc > BEYOND {
            proof {
                lemma_leading_grows(digits@, k as int, n as int);
            }
            return acc;
        }
    }
    acc
}

fn more_digits(digits: &Vec<char>, n: i128) -> (r: bool)
    ensures
        r == goes_on(digits@, n as int),
{
    let mut i: usize = 0;
    while i < digits.len()
        invariant
            i <= digits@.len(),
            forall|k: int| 0 <= k < i && n <= k ==> #[trigger] digits@[k] == '0',
        decreases digits@.len() - i,
    {
        if i as i128 >= n && digits[i] != '0' {
            assert(digits@[i as int] != '0');
            return true;
        }
        i += 1;
    }
    false
}

fn only_digits(v: &Vec<char>) -> (r: bool)
    ensures
        r == all_digits(v@),
{
    let mut i: usize = 0;
    while i < v.len()
        invariant
            i <= v@.len(),
            forall|k: int| 0 <= k < i ==> is_digit(#[trigger] v@[k]),
        decreases v@.len() - i,
    {
        if !('0' <= v[i] && v[i] <= '9') {
            assert(!is_digit(v@[i as int]));
            return false;
        }
        i += 1;
    }
    true
}

/// The first second that is not before the time that a JSON value gives.
pub fn first_second(json: &str) -> (r: Option<i64>)
    ensures
        r == second_of(json@),
{
    if same(json, "true") {
        return Some(1);
    }
    if same(json, "false") {
        return Some(0);
    }
    let parts = split_all(json, Delim::Char('e'));
    proof {
        crate::text::lemma_split_len(json@, Delim::Char('e'));
        assert(texts(parts@)[0] == parts@[0]@);
    }
    if parts.len() > 2 {
        return None;
    }
    let exponent: i64 = if parts.len() > 1 {
        assert(texts(parts@)[1] == parts@[1]@);
        match parse_signed(parts[1].as_str()) {
            Some(e) => e,
            None => {
                return None;
            },
        }
    } else {
        0
    };
    let head = chars_of(parts[0].as_str());
    let negative = head.len() > 0 && head[0] == '-';
    let from: usize = if negative {
        1
    } else {
        0
    };
    let body = string_of(&head, from, head.len());
    proof {
        if negative {
            assert(body@ =~= head@.skip(1));
        } else {
            assert(body@ =~= head@);
        }
        crate::text::lemma_split_len(body@, Delim::Char('.'));
    }
    let sides = split_all(body.as_str(), Delim::Char('.'));
    assert(texts(sides@)[0] == sides@[0]@);
    if sides.len() > 2 {
        return None;
    }
    let mut digits = chars_of(sides[0].as_str());
    let whole: usize = digits.len();
    if whole == 0 {
        return None;
    }
    if sides.len() > 1 {
        assert(texts(sides@)[1] == sides@[1]@);
        let mut fraction = chars_of(sides[1].as_str());
        digits.append(&mut fraction);
    }
    let ghost fraction = if sides@.len() > 1 {
        sides@[1]@
    } else {
        Seq::empty()
    };
    assert(digits@ =~= sides@[0]@ + fraction);
    if !only_digits(&digits) {
        return None;
    }
    let point: i128 = whole as i128 + exponent as i128;
    let ghost d = Decimal { negative, digits: digits@, point: point as int };
    assert(decimal_in(json@) == Some(d));
    let first: u128 = first_digits(&digits, point);
    if negative {
        if first > 0x8000_0000_0000_0000 {
            Some(i64::MIN)
        } else {
            Some((-(first as i128)) as i64)
        }
    } else {
        let up: u128 = if more_digits(&digits, point) {
            first + 1
        } else {
            first
        };
        if up > 0x7FFF_FFFF_FFFF_FFFF {
            None
        } else {
            Some(up as i64)
        }
    }
}

} // verus!
