//! Text validation for raw row fields: funding years and decimal currency
//! amounts.
//!
//! Amounts are read to cent precision: an amount text is an unsigned digit
//! string, optionally followed by `.` and further digits, of which the first
//! two name tenths and hundredths of a cent unit; later fractional digits are
//! checked for digitness but do not change the value.  Whole parts above
//! [`AMOUNT_WHOLE_MAX`] are rejected so that every stored amount fits the
//! engine's arithmetic.

use vstd::prelude::*;
use vstd::string::StringSliceAdditionalSpecFns;
use crate::dates::{is_digit_byte, digit_val};

verus! {

/// Largest whole-unit part an amount text may name.
pub const AMOUNT_WHOLE_MAX: u64 = 9_999_999_999;

/// Largest amount, in cents, that an amount text can denote.
pub const AMOUNT_CENTS_MAX: i64 = 999_999_999_999;

pub open spec fn all_digits(t: Seq<u8>) -> bool {
    forall|i: int| 0 <= i < t.len() ==> is_digit_byte(#[trigger] t[i])
}

/// Value of a digit string read in base ten.
pub open spec fn digits_val(t: Seq<u8>) -> int
    decreases t.len(),
{
    if t.len() == 0 {
        0
    } else {
        10 * digits_val(t.drop_last()) + digit_val(t.last())
    }
}

pub proof fn lemma_digits_val_nonneg(t: Seq<u8>)
    requires
        all_digits(t),
    ensures
        digits_val(t) >= 0,
    decreases t.len(),
{
    if t.len() > 0 {
        assert(all_digits(t.drop_last()));
        lemma_digits_val_nonneg(t.drop_last());
    }
}

/// Extending a digit string never shrinks its value.
pub proof fn lemma_digits_val_prefix(t: Seq<u8>, i: int)
    requires
        all_digits(t),
        0 <= i <= t.len(),
    ensures
        digits_val(t.take(i)) <= digits_val(t),
    decreases t.len() - i,
{
    if i < t.len() {
        assert(t.take(i + 1).drop_last() =~= t.take(i));
        assert(all_digits(t.take(i + 1)));
        lemma_digits_val_nonneg(t.take(i));
        assert(digits_val(t.take(i + 1)) == 10 * digits_val(t.take(i)) + digit_val(
            t.take(i + 1).last(),
        ));
        lemma_digits_val_prefix(t, i + 1);
    } else {
        assert(t.take(i) =~= t);
    }
}

/// Read the digits of `b[from..to]` in base ten, up to `limit`.
/// `None` when some byte is no digit or the value exceeds `limit`.
fn scan_digits(b: &[u8], from: usize, to: usize, limit: u64) -> (r: Option<u64>)
    requires
        from <= to <= b@.len(),
        limit <= 1_000_000_000_000_000_000,
    ensures
        ({
            let t = b@.subrange(from as int, to as int);
            match r {
                Some(v) => all_digits(t) && v == digits_val(t) && v <= limit,
                None => !(all_digits(t) && digits_val(t) <= limit),
            }
        }),
{
    let ghost t = b@.subrange(from as int, to as int);
    let mut acc: u64 = 0;
    let mut i: usize = from;
    while i < to
        invariant
            from <= i <= to <= b@.len(),
            limit <= 1_000_000_000_000_000_000,
            all_digits(t.take(i - from)),
            acc == digits_val(t.take(i - from)),
            acc <= limit,
            t == b@.subrange(from as int, to as int),
        decreases to - i,
    {
        let c = b[i];
        proof {
            assert(t[i - from] == c);
        }
        if c < 48 || c > 57 {
            proof {
                assert(!is_digit_byte(t[i - from]));
                assert(!all_digits(t));
            }
            return None;
        }
        let d = (c - 48) as u64;
        proof {
            assert(t.take(i - from + 1).drop_last() =~= t.take(i - from));
            assert(t.take(i - from + 1).last() == t[i - from]);
        }
        acc = acc * 10 + d;
        i = i + 1;
        if acc > limit {
            proof {
                assert(digits_val(t.take(i - from)) > limit);
                if all_digits(t) {
                    lemma_digits_val_prefix(t, i - from);
                }
            }
            return None;
        }
    }
    proof {
        assert(t.take(to - from) =~= t);
    }
    Some(acc)
}

/// How a funding-year text reads.
pub enum YearReading {
    /// Not an integer at all: a validation error.
    Invalid,
    /// An integer, but outside 2021..=2023: the row is silently skipped.
    OutOfRange,
    /// A funding year in scope.
    InRange(i64),
}

/// Sign position of an integer text: 1 when a leading `+` or `-` is present.
pub open spec fn int_body_start(t: Seq<u8>) -> int {
    if t.len() > 0 && (t[0] == 43 || t[0] == 45) {
        1
    } else {
        0
    }
}

pub open spec fn int_text_wf(t: Seq<u8>) -> bool {
    t.len() > int_body_start(t) && all_digits(t.skip(int_body_start(t)))
}

/// Classify a funding-year text: integers are in range exactly when they
/// denote 2021, 2022 or 2023 without a minus sign.
pub open spec fn spec_year_reading(t: Seq<u8>) -> YearReading {
    if !int_text_wf(t) {
        YearReading::Invalid
    } else {
        let v = digits_val(t.skip(int_body_start(t)));
        if t.len() > 0 && t[0] == 45 {
            YearReading::OutOfRange
        } else if 2021 <= v <= 2023 {
            YearReading::InRange(v as i64)
        } else {
            YearReading::OutOfRange
        }
    }
}

/// Read a funding-year text.
pub fn parse_year(s: &str) -> (r: YearReading)
    ensures
        r == spec_year_reading(s.spec_bytes()),
{
    let b = s.as_bytes();
    let ghost t = s.spec_bytes();
    let start: usize = if b.len() > 0 && (b[0] == 43 || b[0] == 45) {
        1
    } else {
        0
    };
    proof {
        assert(start == int_body_start(t));
    }
    if b.len() == start {
        return YearReading::Invalid;
    }
    let ghost body = t.skip(start as int);
    proof {
        assert(body =~= b@.subrange(start as int, b@.len() as int));
    }
    match scan_digits(b, start, b.len(), 1_000_000_000_000_000_000) {
        None => {
            // Either a non-digit byte (invalid) or a value beyond the scan
            // limit, which is in any case far outside 2021..=2023.
            if all_digits_exec(b, start) {
                YearReading::OutOfRange
            } else {
                YearReading::Invalid
            }
        },
        Some(v) => {
            if b[0] == 45 {
                proof {
                    assert(t[0] == 45);
                }
                YearReading::OutOfRange
            } else if 2021 <= v && v <= 2023 {
                YearReading::InRange(v as i64)
            } else {
                YearReading::OutOfRange
            }
        },
    }
}

/// Digit check alone, for texts whose value exceeds the scan limit.
fn all_digits_exec(b: &[u8], from: usize) -> (r: bool)
    requires
        from <= b@.len(),
    ensures
        r == all_digits(b@.subrange(from as int, b@.len() as int)),
{
    let ghost t = b@.subrange(from as int, b@.len() as int);
    let mut i: usize = from;
    while i < b.len()
        invariant
            from <= i <= b@.len(),
            t == b@.subrange(from as int, b@.len() as int),
            forall|j: int| 0 <= j < i - from ==> is_digit_byte(#[trigger] t[j]),
        decreases b@.len() - i,
    {
        let c = b[i];
        proof {
            assert(t[i - from] == c);
        }
        if c < 48 || c > 57 {
            proof {
                assert(!is_digit_byte(t[i - from]));
            }
            return false;
        }
        i = i + 1;
    }
    true
}

/// Position of the first `.` in an amount text, or its length.
pub open spec fn dot_position(t: Seq<u8>) -> int
    decreases t.len(),
{
    if t.len() == 0 {
        0
    } else if t[0] == 46 {
        0
    } else {
        1 + dot_position(t.drop_first())
    }
}

pub proof fn lemma_dot_position(t: Seq<u8>)
    ensures
        0 <= dot_position(t) <= t.len(),
        dot_position(t) < t.len() ==> t[dot_position(t)] == 46,
        forall|i: int| 0 <= i < dot_position(t) ==> #[trigger] t[i] != 46,
    decreases t.len(),
{
    if t.len() > 0 && t[0] != 46 {
        lemma_dot_position(t.drop_first());
        assert forall|i: int| 0 <= i < dot_position(t) implies #[trigger] t[i] != 46 by {
            if i > 0 {
                assert(t.drop_first()[i - 1] == t[i]);
            }
        }
    }
}

/// An amount text: a non-empty digit string, optionally followed by `.` and
/// digits.
pub open spec fn amount_text_wf(t: Seq<u8>) -> bool {
    let dot = dot_position(t);
    &&& dot >= 1
    &&& all_digits(t.take(dot))
    &&& (dot < t.len() ==> all_digits(t.skip(dot + 1)))
}

/// The cents an amount text denotes: whole units times one hundred plus the
/// first two fractional digits.
pub open spec fn amount_cents_of(t: Seq<u8>) -> int
    recommends
        amount_text_wf(t),
{
    let dot = dot_position(t);
    let frac = t.skip(dot + 1);
    let f1: int = if dot + 1 < t.len() {
        digit_val(t[dot + 1])
    } else {
        0
    };
    let f2: int = if dot + 2 < t.len() {
        digit_val(t[dot + 2])
    } else {
        0
    };
    100 * digits_val(t.take(dot)) + 10 * f1 + f2
}

/// The amount a text denotes, in cents: `Some` exactly for a well-formed
/// amount text whose whole part is at most [`AMOUNT_WHOLE_MAX`].
pub open spec fn spec_parse_amount(t: Seq<u8>) -> Option<i64> {
    if amount_text_wf(t) && digits_val(t.take(dot_position(t))) <= AMOUNT_WHOLE_MAX {
        Some(amount_cents_of(t) as i64)
    } else {
        None
    }
}

/// Read an amount text into cents.
pub fn parse_amount(s: &str) -> (r: Option<i64>)
    ensures
        r == spec_parse_amount(s.spec_bytes()),
        r is Some ==> 0 <= r->0 <= AMOUNT_CENTS_MAX,
{
    let b = s.as_bytes();
    let ghost t = s.spec_bytes();
    let mut i: usize = 0;
    while i < b.len() && b[i] != 46
        invariant
            0 <= i <= b@.len(),
            t == b@,
            forall|j: int| 0 <= j < i ==> #[trigger] t[j] != 46,
        decreases b@.len() - i,
    {
        i = i + 1;
    }
    proof {
        lemma_dot_position(t);
        if i < t.len() {
            assert(t[i as int] == 46);
            assert(dot_position(t) == i) by {
                if dot_position(t) < i {
                    assert(t[dot_position(t)] != 46);
                }
                if dot_position(t) > i {
                    assert(t[i as int] != 46);
                }
            }
        } else {
            assert(dot_position(t) == t.len()) by {
                if dot_position(t) < t.len() {
                    assert(t[dot_position(t)] != 46);
                }
            }
        }
    }
    let dot_idx: usize = if i < b.len() {
        i
    } else {
        b.len()
    };
    proof {
        assert(dot_idx == dot_position(t));
    }
    if dot_idx == 0 {
        return None;
    }
    let whole = match scan_digits(b, 0, dot_idx, AMOUNT_WHOLE_MAX) {
        None => {
            proof {
                assert(b@.subrange(0, dot_idx as int) =~= t.take(dot_idx as int));
            }
            return None;
        },
        Some(v) => v,
    };
    proof {
        assert(b@.subrange(0, dot_idx as int) =~= t.take(dot_idx as int));
    }
    let mut f1: u64 = 0;
    let mut f2: u64 = 0;
    if dot_idx < b.len() {
        // Validate every fractional digit; only the first two carry value.
        let frac_ok = scan_digits_free(b, dot_idx + 1, b.len());
        proof {
            assert(b@.subrange(dot_idx + 1, b@.len() as int) =~= t.skip(dot_idx + 1));
        }
        if !frac_ok {
            return None;
        }
        proof {
            if dot_idx + 1 < t.len() {
                assert(t.skip(dot_idx + 1)[0] == t[dot_idx + 1]);
                assert(is_digit_byte(t[dot_idx + 1]));
            }
            if dot_idx + 2 < t.len() {
                assert(t.skip(dot_idx + 1)[1] == t[dot_idx + 2]);
                assert(is_digit_byte(t[dot_idx + 2]));
            }
        }
        if b.len() - dot_idx > 1 {
            f1 = (b[dot_idx + 1] - 48) as u64;
        }
        if b.len() - dot_idx > 2 {
            f2 = (b[dot_idx + 2] - 48) as u64;
        }
    }
    proof {
        lemma_digits_val_nonneg(t.take(dot_idx as int));
    }
    let cents: u64 = whole * 100 + f1 * 10 + f2;
    Some(cents as i64)
}

/// Digit check over `b[from..to]` with no value limit.
fn scan_digits_free(b: &[u8], from: usize, to: usize) -> (r: bool)
    requires
        from <= to <= b@.len(),
    ensures
        r == all_digits(b@.subrange(from as int, to as int)),
{
    let ghost t = b@.subrange(from as int, to as int);
    let mut i: usize = from;
    while i < to
        invariant
            from <= i <= to <= b@.len(),
            t == b@.subrange(from as int, to as int),
            forall|j: int| 0 <= j < i - from ==> is_digit_byte(#[trigger] t[j]),
        decreases to - i,
    {
        let c = b[i];
        proof {
            assert(t[i - from] == c);
        }
        if c < 48 || c > 57 {
            proof {
                assert(!is_digit_byte(t[i - from]));
            }
            return false;
        }
        i = i + 1;
    }
    true
}

} // verus!
