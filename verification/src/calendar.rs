//! The year-month bucket of a timestamp.
//!
//! Buckets are not calendar months: a year counts 365 days and a month 30,
//! so a year has a short thirteenth bucket. Certificates are grouped by the
//! bucket computed here, and only by it.

use vstd::prelude::*;
use vstd::string::*;

verus! {

/// The decimal digit for a value below 10.
pub open spec fn digit_char(d: int) -> char {
    if d == 0 {
        '0'
    } else if d == 1 {
        '1'
    } else if d == 2 {
        '2'
    } else if d == 3 {
        '3'
    } else if d == 4 {
        '4'
    } else if d == 5 {
        '5'
    } else if d == 6 {
        '6'
    } else if d == 7 {
        '7'
    } else if d == 8 {
        '8'
    } else {
        '9'
    }
}

/// The decimal digits of a number, most significant first.
pub open spec fn decimal(n: nat) -> Seq<char>
    decreases n,
{
    if n < 10 {
        seq![digit_char(n as int)]
    } else {
        decimal(n / 10).push(digit_char((n % 10) as int))
    }
}

/// The decimal digits of a number, with zeros in front up to `width`.
pub open spec fn zero_padded(n: nat, width: nat) -> Seq<char> {
    if decimal(n).len() >= width {
        decimal(n)
    } else {
        Seq::new((width - decimal(n).len()) as nat, |i: int| '0') + decimal(n)
    }
}

/// Whole days since the epoch.
pub open spec fn days_of(timestamp: u64) -> nat {
    (timestamp as nat / 1000) / 86400
}

/// The year of a bucket: 1970 and one more for every 365 days.
pub open spec fn bucket_year(timestamp: u64) -> nat {
    1970 + days_of(timestamp) / 365
}

/// The month of a bucket: one more than the 30-day spans into the year.
pub open spec fn bucket_month(timestamp: u64) -> nat {
    (days_of(timestamp) % 365) / 30 + 1
}

/// The bucket of a timestamp in milliseconds: the year in at least four
/// digits, a hyphen, the month in two digits.
pub open spec fn year_month(timestamp: u64) -> Seq<char> {
    zero_padded(bucket_year(timestamp), 4) + seq!['-'] + zero_padded(bucket_month(timestamp), 2)
}

fn digit_str(d: u64) -> (r: &'static str)
    requires
        d < 10,
    ensures
        r@ == seq![digit_char(d as int)],
{
    proof {
        reveal_strlit("0");
        reveal_strlit("1");
        reveal_strlit("2");
        reveal_strlit("3");
        reveal_strlit("4");
        reveal_strlit("5");
        reveal_strlit("6");
        reveal_strlit("7");
        reveal_strlit("8");
        reveal_strlit("9");
    }
    let r = match d {
        0 => "0",
        1 => "1",
        2 => "2",
        3 => "3",
        4 => "4",
        5 => "5",
        6 => "6",
        7 => "7",
        8 => "8",
        _ => "9",
    };
    assert(r@ =~= seq![digit_char(d as int)]);
    r
}

fn push_decimal(text: &mut String, n: u64)
    ensures
        final(text)@ == old(text)@ + decimal(n as nat),
    decreases n,
{
    if n >= 10 {
        push_decimal(text, n / 10);
    }
    let ghost before = text@;
    text.append(digit_str(n % 10));
    assert(text@ =~= old(text)@ + decimal(n as nat));
}

/// Every number has at least one digit.
proof fn lemma_decimal_nonempty(n: nat)
    ensures
        decimal(n).len() >= 1,
{
}

/// A number from 1000 on has at least four digits.
proof fn lemma_four_digits(n: nat)
    requires
        n >= 1000,
    ensures
        decimal(n).len() >= 4,
{
    lemma_decimal_nonempty(n / 1000);
    assert(decimal(n / 100) == decimal(n / 100 / 10).push(digit_char((n / 100 % 10) as int)));
    assert(decimal(n / 10) == decimal(n / 10 / 10).push(digit_char((n / 10 % 10) as int)));
    assert(n / 10 / 10 == n / 100 && n / 100 / 10 == n / 1000);
}

/// Derives the year-month bucket of a timestamp given in milliseconds.
pub fn timestamp_to_year_month(timestamp: u64) -> (bucket: String)
    ensures
        bucket@ == year_month(timestamp),
{
    proof {
        reveal_strlit("-");
    }
    let seconds: u64 = timestamp / 1000;
    let days: u64 = seconds / 86400;
    let year: u64 = 1970 + days / 365;
    let month: u64 = (days % 365) / 30 + 1;
    let mut bucket = String::new();
    push_decimal(&mut bucket, year);
    bucket.append("-");
    if month < 10 {
        bucket.append("0");
    }
    push_decimal(&mut bucket, month);
    proof {
        reveal_strlit("0");
        lemma_four_digits(year as nat);
        assert(1 <= month <= 13);
        if month >= 10 {
            assert(month as nat / 10 == 1);
            assert(decimal(1).len() == 1);
            assert(decimal(month as nat) == decimal(month as nat / 10).push(
                digit_char((month as nat % 10) as int),
            ));
        }
        assert(decimal(month as nat).len() == if month < 10 {
            1nat
        } else {
            2nat
        });
        if month < 10 {
            assert(zero_padded(month as nat, 2) =~= seq!['0'] + decimal(month as nat));
        }
        assert(bucket@ =~= year_month(timestamp));
    }
    bucket
}

} // verus!
