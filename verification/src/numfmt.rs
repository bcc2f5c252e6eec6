//! Verified decimal formatting: unsigned numbers and one-decimal labels for
//! the summary markers.

use vstd::prelude::*;
use crate::model::WEIGHT_MAX_MILLI;

verus! {

/// The decimal digit character for a value in 0..=9.
pub open spec fn dec_digit(n: int) -> char {
    if n == 0 {
        '0'
    } else if n == 1 {
        '1'
    } else if n == 2 {
        '2'
    } else if n == 3 {
        '3'
    } else if n == 4 {
        '4'
    } else if n == 5 {
        '5'
    } else if n == 6 {
        '6'
    } else if n == 7 {
        '7'
    } else if n == 8 {
        '8'
    } else {
        '9'
    }
}

/// The usual decimal rendering of a non-negative number: most significant
/// digit first, no leading zeros except for the number 0 itself.
pub open spec fn dec_string(n: int) -> Seq<char>
    decreases n,
{
    if n < 10 {
        seq![dec_digit(n)]
    } else {
        dec_string(n / 10).push(dec_digit(n % 10))
    }
}

fn digit_str(n: u64) -> (r: &'static str)
    requires
        n < 10,
    ensures
        r@ == seq![dec_digit(n as int)],
{
    proof {
        reveal_strlit("0");
        reveal_strlit("1");
        reveal_strlit("2");
        reveal_strlit("3");
        reveal_strlit("4");
        reveal_strlit("5");
        reveal_strlit("6");
        reveal_strlit("7");
        reveal_strlit("8");
        reveal_strlit("9");
    }
    if n == 0 {
        "0"
    } else if n == 1 {
        "1"
    } else if n == 2 {
        "2"
    } else if n == 3 {
        "3"
    } else if n == 4 {
        "4"
    } else if n == 5 {
        "5"
    } else if n == 6 {
        "6"
    } else if n == 7 {
        "7"
    } else if n == 8 {
        "8"
    } else {
        "9"
    }
}

/// Renders a number in decimal.
pub fn u64_to_string(n: u64) -> (r: String)
    ensures
        r@ == dec_string(n as int),
    decreases n,
{
    if n < 10 {
        String::from_str(digit_str(n))
    } else {
        let mut s = u64_to_string(n / 10);
        s.append(digit_str(n % 10));
        s
    }
}

/// Division truncating toward zero, as the machine divides signed numbers.
pub open spec fn tdiv(a: int, b: int) -> int {
    if a >= 0 {
        a / b
    } else {
        -((-a) / b)
    }
}

/// Truncating signed division.
pub fn div_trunc(a: i64, b: i64) -> (r: i64)
    requires
        b > 0,
        a > i64::MIN,
    ensures
        r == tdiv(a as int, b as int),
        (a >= 0 ==> 0 <= r <= a) && (a < 0 ==> a <= r <= 0),
{
    if a >= 0 {
        let q: u64 = (a as u64) / (b as u64);
        q as i64
    } else {
        let q: u64 = ((-a) as u64) / (b as u64);
        -(q as i64)
    }
}

/// The given weight (in thousandths) rounded half away from zero to tenths.
pub open spec fn tenths_round(v: int) -> int {
    if v >= 0 {
        (v + 50) / 100
    } else {
        -(((-v) + 50) / 100)
    }
}

/// The text label of a weight: the value rounded to one decimal place, with
/// the fractional part omitted when it is zero, as the renderer's default
/// number formatting would print it.
pub open spec fn milli_label(v: int) -> Seq<char> {
    let t = tenths_round(v);
    let a = if t >= 0 {
        t
    } else {
        -t
    };
    let body = if a % 10 == 0 {
        dec_string(a / 10)
    } else {
        dec_string(a / 10).push('.').push(dec_digit(a % 10))
    };
    if t < 0 {
        seq!['-'] + body
    } else {
        body
    }
}

/// Renders a weight (in thousandths of a unit) rounded to one decimal place.
pub fn milli_to_label(v: i64) -> (r: String)
    requires
        -(WEIGHT_MAX_MILLI + 5000) <= v <= WEIGHT_MAX_MILLI + 5000,
    ensures
        r@ == milli_label(v as int),
{
    let a_abs: u64 = if v >= 0 {
        v as u64
    } else {
        (-v) as u64
    };
    let t_abs: u64 = (a_abs + 50) / 100;
    proof {
        if v >= 0 {
            assert(tenths_round(v as int) == t_abs as int);
        } else {
            assert(tenths_round(v as int) == -(t_abs as int));
        }
    }
    let mut s = if v < 0 && t_abs > 0 {
        proof {
            reveal_strlit("-");
        }
        String::from_str("-")
    } else {
        String::new()
    };
    s.append(u64_to_string(t_abs / 10).as_str());
    if t_abs % 10 != 0 {
        proof {
            reveal_strlit(".");
        }
        s.append(".");
        s.append(digit_str(t_abs % 10));
    }
    proof {
        let t = tenths_round(v as int);
        let a = if t >= 0 { t } else { -t };
        assert(a == t_abs as int);
        if v < 0 && t_abs > 0 {
            assert(t < 0);
        } else {
            assert(t >= 0);
        }
        assert(s@ =~= milli_label(v as int));
    }
    s
}

} // verus!
