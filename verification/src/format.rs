//! Human-readable rendering of entry sizes and ages, as the entry list
//! displays them.

use vstd::prelude::*;
use crate::text::{decimal_digits, decimal_int, digit_char, push_char, push_decimal_u64, digit_of};

verus! {

/// Truncating division, as the machine divides: the quotient is rounded
/// toward zero.
pub open spec fn trunc_div(a: int, b: int) -> int
    recommends
        b > 0,
{
    if a >= 0 {
        a / b
    } else {
        -((-a) / b)
    }
}

/// `n * 10 / d` rounded to the nearest tenth, ties to even, as the
/// machine rounds a binary fraction to one decimal place.
pub open spec fn rounded_tenths(n: int, d: int) -> int
    recommends
        n >= 0,
        d > 0,
{
    let q = (n * 10) / d;
    let r = (n * 10) % d;
    if 2 * r > d || (2 * r == d && q % 2 == 1) {
        q + 1
    } else {
        q
    }
}

/// A byte count over a unit, rendered with one decimal place.
pub open spec fn scaled_label(bytes: int, unit: int) -> Seq<char> {
    let t = rounded_tenths(bytes, unit);
    decimal_digits(t / 10) + seq!['.', digit_char(t % 10)]
}

/// A byte count rendered as `B`, `KB`, or `MB`.
pub open spec fn size_label(bytes: int) -> Seq<char> {
    if bytes < 1024 {
        decimal_digits(bytes) + seq!['B']
    } else if bytes < 1048576 {
        scaled_label(bytes, 1024) + seq!['K', 'B']
    } else {
        scaled_label(bytes, 1048576) + seq!['M', 'B']
    }
}

/// An age in milliseconds rendered as seconds, minutes, hours, or days
/// ago; an entry from the future ages in whole negative days.
pub open spec fn relative_label(now: int, timestamp: int) -> Seq<char> {
    let diff = trunc_div(now - timestamp, 1000);
    if 0 <= diff <= 59 {
        decimal_digits(diff) + seq!['s', ' ', 'a', 'g', 'o']
    } else if 60 <= diff <= 3599 {
        decimal_digits(diff / 60) + seq!['m', ' ', 'a', 'g', 'o']
    } else if 3600 <= diff <= 86399 {
        decimal_digits(diff / 3600) + seq!['h', ' ', 'a', 'g', 'o']
    } else {
        decimal_int(trunc_div(diff, 86400)) + seq!['d', ' ', 'a', 'g', 'o']
    }
}

/// Renders `bytes / unit` with one decimal place appended to `out`.
fn push_scaled(out: &mut String, bytes: usize, unit: u128)
    requires
        unit == 1024 || unit == 1048576,
    ensures
        final(out)@ == old(out)@ + scaled_label(bytes as int, unit as int),
{
    let n10: u128 = (bytes as u128) * 10;
    let q: u128 = n10 / unit;
    let r: u128 = n10 % unit;
    let t: u128 = if 2 * r > unit || (2 * r == unit && q % 2 == 1) {
        q + 1
    } else {
        q
    };
    proof {
        assert(t == rounded_tenths(bytes as int, unit as int));
        assert(n10 < 0x10000000000000000000u128);
        assert(q <= n10 / 1024) by (nonlinear_arith)
            requires
                unit == 1024 || unit == 1048576,
                q == n10 / unit,
        ;
        assert(t / 10 < 0x10000000000000000u128);
    }
    push_decimal_u64(out, (t / 10) as u64);
    push_char(out, '.');
    push_char(out, digit_of((t % 10) as u64));
    proof {
        assert(final(out)@ =~= old(out)@ + scaled_label(bytes as int, unit as int));
    }
}

/// Renders a byte count as `B`, `KB`, or `MB`, with one decimal place
/// above a kilobyte.
pub fn format_size(bytes: usize) -> (s: String)
    ensures
        s@ == size_label(bytes as int),
{
    let mut s = String::new();
    if bytes < 1024 {
        push_decimal_u64(&mut s, bytes as u64);
        push_char(&mut s, 'B');
        proof {
            assert(s@ =~= size_label(bytes as int));
        }
    } else if bytes < 1048576 {
        push_scaled(&mut s, bytes, 1024);
        push_char(&mut s, 'K');
        push_char(&mut s, 'B');
        proof {
            assert(s@ =~= size_label(bytes as int));
        }
    } else {
        push_scaled(&mut s, bytes, 1048576);
        push_char(&mut s, 'M');
        push_char(&mut s, 'B');
        proof {
            assert(s@ =~= size_label(bytes as int));
        }
    }
    s
}

fn push_suffix(out: &mut String, mark: char)
    ensures
        final(out)@ == old(out)@ + seq![mark, ' ', 'a', 'g', 'o'],
{
    push_char(out, mark);
    push_char(out, ' ');
    push_char(out, 'a');
    push_char(out, 'g');
    push_char(out, 'o');
    proof {
        assert(final(out)@ =~= old(out)@ + seq![mark, ' ', 'a', 'g', 'o']);
    }
}

/// Renders the age of a timestamp against the given current time.
pub fn relative_time_string(now_ms: i64, timestamp: i64) -> (s: String)
    ensures
        s@ == relative_label(now_ms as int, timestamp as int),
{
    let mut s = String::new();
    if now_ms >= timestamp {
        let dms: u128 = ((now_ms as i128) - (timestamp as i128)) as u128;
        let ds: u128 = dms / 1000;
        proof {
            assert(ds == trunc_div(now_ms as int - timestamp as int, 1000));
            assert(dms < 0x100000000000000000u128);
            assert(ds < 0x10000000000000000u128);
        }
        if ds <= 59 {
            push_decimal_u64(&mut s, ds as u64);
            push_suffix(&mut s, 's');
        } else if ds <= 3599 {
            push_decimal_u64(&mut s, (ds / 60) as u64);
            push_suffix(&mut s, 'm');
        } else if ds <= 86399 {
            push_decimal_u64(&mut s, (ds / 3600) as u64);
            push_suffix(&mut s, 'h');
        } else {
            push_decimal_u64(&mut s, (ds / 86400) as u64);
            push_suffix(&mut s, 'd');
            proof {
                assert(ds / 86400 == trunc_div(ds as int, 86400));
                assert(decimal_int(ds as int / 86400) == decimal_digits(ds as int / 86400));
            }
        }
    } else {
        // A timestamp from the future: the difference in seconds is
        // negative, so only the whole-days form applies.
        let dms: u128 = ((timestamp as i128) - (now_ms as i128)) as u128;
        let ds: u128 = dms / 1000;
        proof {
            assert(-(ds as int) == trunc_div(now_ms as int - timestamp as int, 1000));
            assert(dms < 0x100000000000000000u128);
            assert(ds < 0x10000000000000000u128);
        }
        if ds == 0 {
            push_decimal_u64(&mut s, 0);
            push_suffix(&mut s, 's');
        } else {
            let days: u128 = ds / 86400;
            proof {
                assert(-(days as int) == trunc_div(-(ds as int), 86400));
            }
            if days == 0 {
                push_decimal_u64(&mut s, 0);
                push_suffix(&mut s, 'd');
                proof {
                    assert(decimal_int(0) == decimal_digits(0));
                }
            } else {
                push_char(&mut s, '-');
                push_decimal_u64(&mut s, days as u64);
                push_suffix(&mut s, 'd');
                proof {
                    assert(decimal_int(-(days as int)) =~= seq!['-'] + decimal_digits(
                        days as int,
                    ));
                    assert(s@ =~= relative_label(now_ms as int, timestamp as int));
                }
            }
        }
    }
    s
}

/// Renders how long ago a timestamp lies, against the clock now.
pub fn format_relative_time(timestamp: i64) -> (s: String)
    ensures
        exists|now: int| s@ == #[trigger] relative_label(now, timestamp as int),
{
    let now_ms = crate::clock::now_millis();
    let s = relative_time_string(now_ms, timestamp);
    proof {
        assert(s@ == relative_label(now_ms as int, timestamp as int));
    }
    s
}

} // verus!
