//! Decimal text for the report fields: plain fixed-point rendering for the
//! CSV exports, and thousands-grouped rendering for the console tables.

use vstd::prelude::*;
use vstd::string::StringExecFns;
use crate::fixed::abs_int;
use num_format::{Locale, ToFormattedString};

verus! {

pub open spec fn digit_char(d: nat) -> char {
    if d == 0 {
        '0'
    } else if d == 1 {
        '1'
    } else if d == 2 {
        '2'
    } else if d == 3 {
        '3'
    } else if d == 4 {
        '4'
    } else if d == 5 {
        '5'
    } else if d == 6 {
        '6'
    } else if d == 7 {
        '7'
    } else if d == 8 {
        '8'
    } else {
        '9'
    }
}

/// The decimal digit characters of `n`, most significant first.
pub open spec fn dec_digits(n: nat) -> Seq<char>
    decreases n,
{
    if n < 10 {
        seq![digit_char(n)]
    } else {
        dec_digits(n / 10).push(digit_char(n % 10))
    }
}

/// A digit string grouped in threes from the right by commas.
pub open spec fn grouped(digits: Seq<char>) -> Seq<char>
    decreases digits.len(),
{
    if digits.len() <= 3 {
        digits
    } else {
        grouped(digits.take(digits.len() - 3)) + seq![','] + digits.skip(digits.len() - 3)
    }
}

/// A cent amount as decimal text with two fractional digits.
pub open spec fn cents_text(c: int) -> Seq<char> {
    let m = abs_int(c) as nat;
    let sign: Seq<char> = if c < 0 {
        seq!['-']
    } else {
        Seq::empty()
    };
    sign + dec_digits(m / 100) + seq!['.', digit_char((m % 100) / 10), digit_char(m % 10)]
}

/// A cent amount as decimal text with two fractional digits, the whole
/// part grouped in threes by commas.
pub open spec fn comma_cents_text(c: int) -> Seq<char> {
    let m = abs_int(c) as nat;
    let sign: Seq<char> = if c < 0 {
        seq!['-']
    } else {
        Seq::empty()
    };
    sign + grouped(dec_digits(m / 100)) + seq![
        '.',
        digit_char((m % 100) / 10),
        digit_char(m % 10),
    ]
}

/// A deci-unit value as decimal text with one fractional digit.
pub open spec fn deci_text(v: int) -> Seq<char> {
    let m = abs_int(v) as nat;
    let sign: Seq<char> = if v < 0 {
        seq!['-']
    } else {
        Seq::empty()
    };
    sign + dec_digits(m / 10) + seq!['.', digit_char(m % 10)]
}

fn digit_str(d: u128) -> (s: &'static str)
    requires
        d < 10,
    ensures
        s@ == seq![digit_char(d as nat)],
{
    if d == 0 {
        proof {
            reveal_strlit("0");
            assert("0"@ =~= seq![digit_char(0)]);
        }
        "0"
    } else if d == 1 {
        proof {
            reveal_strlit("1");
            assert("1"@ =~= seq![digit_char(1)]);
        }
        "1"
    } else if d == 2 {
        proof {
            reveal_strlit("2");
            assert("2"@ =~= seq![digit_char(2)]);
        }
        "2"
    } else if d == 3 {
        proof {
            reveal_strlit("3");
            assert("3"@ =~= seq![digit_char(3)]);
        }
        "3"
    } else if d == 4 {
        proof {
            reveal_strlit("4");
            assert("4"@ =~= seq![digit_char(4)]);
        }
        "4"
    } else if d == 5 {
        proof {
            reveal_strlit("5");
            assert("5"@ =~= seq![digit_char(5)]);
        }
        "5"
    } else if d == 6 {
        proof {
            reveal_strlit("6");
            assert("6"@ =~= seq![digit_char(6)]);
        }
        "6"
    } else if d == 7 {
        proof {
            reveal_strlit("7");
            assert("7"@ =~= seq![digit_char(7)]);
        }
        "7"
    } else if d == 8 {
        proof {
            reveal_strlit("8");
            assert("8"@ =~= seq![digit_char(8)]);
        }
        "8"
    } else {
        proof {
            reveal_strlit("9");
            assert("9"@ =~= seq![digit_char(9)]);
        }
        "9"
    }
}

/// The decimal digits of `n`.
pub fn format_u128(n: u128) -> (s: String)
    ensures
        s@ == dec_digits(n as nat),
    decreases n,
{
    if n < 10 {
        let s = String::from_str(digit_str(n));
        proof {
            assert(s@ =~= dec_digits(n as nat));
        }
        s
    } else {
        let front = format_u128(n / 10);
        let s = front.concat(digit_str(n % 10));
        proof {
            assert(s@ =~= dec_digits(n as nat));
        }
        s
    }
}

fn abs_u128(c: i128) -> (m: u128)
    ensures
        m == abs_int(c as int),
{
    if c < 0 {
        ((-(c + 1)) as u128) + 1
    } else {
        c as u128
    }
}

/// Render cents as plain decimal text with two fractional digits
/// (`-123` gives `-1.23`).
pub fn format_cents(c: i128) -> (s: String)
    ensures
        s@ == cents_text(c as int),
{
    let m = abs_u128(c);
    let mut s = if c < 0 {
        proof {
            reveal_strlit("-");
            assert("-"@ =~= seq!['-']);
        }
        String::from_str("-")
    } else {
        String::new()
    };
    let whole = format_u128(m / 100);
    s.append(whole.as_str());
    proof {
        reveal_strlit(".");
        assert("."@ =~= seq!['.']);
    }
    s.append(".");
    s.append(digit_str((m % 100) / 10));
    s.append(digit_str(m % 10));
    proof {
        assert((m as nat) % 10 == ((m as nat) % 100) % 10);
        assert(s@ =~= cents_text(c as int));
    }
    s
}

/// Render deci-units as plain decimal text with one fractional digit
/// (`333` gives `33.3`).
pub fn format_deci(v: i128) -> (s: String)
    ensures
        s@ == deci_text(v as int),
{
    let m = abs_u128(v);
    let mut s = if v < 0 {
        proof {
            reveal_strlit("-");
            assert("-"@ =~= seq!['-']);
        }
        String::from_str("-")
    } else {
        String::new()
    };
    let whole = format_u128(m / 10);
    s.append(whole.as_str());
    proof {
        reveal_strlit(".");
        assert("."@ =~= seq!['.']);
    }
    s.append(".");
    s.append(digit_str(m % 10));
    proof {
        assert(s@ =~= deci_text(v as int));
    }
    s
}

/// Relies on num_format's `ToFormattedString` with the `en` locale: the
/// decimal digits of the number, grouped in threes from the right by
/// commas.
#[verifier::external_body]
fn group_thousands(n: u128) -> (s: String)
    ensures
        s@ == grouped(dec_digits(n as nat)),
{
    n.to_formatted_string(&Locale::en)
}

/// Render cents with the whole part grouped by thousands separators, for
/// the console tables (`-123456` gives `-1,234.56`).
pub fn format_comma_cents(c: i128) -> (s: String)
    ensures
        s@ == comma_cents_text(c as int),
{
    let m = abs_u128(c);
    let mut s = if c < 0 {
        proof {
            reveal_strlit("-");
            assert("-"@ =~= seq!['-']);
        }
        String::from_str("-")
    } else {
        String::new()
    };
    let whole = group_thousands(m / 100);
    s.append(whole.as_str());
    proof {
        reveal_strlit(".");
        assert("."@ =~= seq!['.']);
    }
    s.append(".");
    s.append(digit_str((m % 100) / 10));
    s.append(digit_str(m % 10));
    proof {
        assert((m as nat) % 10 == ((m as nat) % 100) % 10);
        assert(s@ =~= comma_cents_text(c as int));
    }
    s
}

} // verus!
