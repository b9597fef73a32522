//! Character and string helpers: decimal rendering and parsing of entry
//! ids, hex rendering of digests, preview sanitization, and string
//! comparison, each with an exact specification.

use vstd::prelude::*;

verus! {

/// Relies on std's `String::push`: appends the given character to the end
/// of the string.
#[verifier::external_body]
pub(crate) fn push_char(s: &mut String, c: char)
    ensures
        final(s)@ == old(s)@.push(c),
{
    s.push(c);
}

/// The character for one decimal digit value.
pub open spec fn digit_char(d: int) -> char {
    if d == 0 {
        '0'
    } else if d == 1 {
        '1'
    } else if d == 2 {
        '2'
    } else if d == 3 {
        '3'
    } else if d == 4 {
        '4'
    } else if d == 5 {
        '5'
    } else if d == 6 {
        '6'
    } else if d == 7 {
        '7'
    } else if d == 8 {
        '8'
    } else {
        '9'
    }
}

/// Decimal digits of a non-negative integer, most significant first.
pub open spec fn decimal_digits(n: int) -> Seq<char>
    recommends
        n >= 0,
    decreases n,
{
    if n < 10 {
        seq![digit_char(n)]
    } else {
        decimal_digits(n / 10).push(digit_char(n % 10))
    }
}

/// Decimal rendering of a signed integer, as `i64::to_string` renders it.
pub open spec fn decimal_int(n: int) -> Seq<char> {
    if n < 0 {
        seq!['-'] + decimal_digits(-n)
    } else {
        decimal_digits(n)
    }
}

pub(crate) fn digit_of(d: u64) -> (c: char)
    requires
        d < 10,
    ensures
        c == digit_char(d as int),
{
    if d == 0 {
        '0'
    } else if d == 1 {
        '1'
    } else if d == 2 {
        '2'
    } else if d == 3 {
        '3'
    } else if d == 4 {
        '4'
    } else if d == 5 {
        '5'
    } else if d == 6 {
        '6'
    } else if d == 7 {
        '7'
    } else if d == 8 {
        '8'
    } else {
        '9'
    }
}

/// Renders a non-negative value as decimal digits appended to `out`.
pub(crate) fn push_decimal_u64(out: &mut String, n: u64)
    ensures
        final(out)@ == old(out)@ + decimal_digits(n as int),
    decreases n,
{
    if n < 10 {
        push_char(out, digit_of(n));
        assert(final(out)@ =~= old(out)@ + decimal_digits(n as int));
    } else {
        push_decimal_u64(out, n / 10);
        push_char(out, digit_of(n % 10));
        assert(final(out)@ =~= old(out)@ + decimal_digits(n as int));
    }
}

/// Whether a character is an ASCII decimal digit.
pub open spec fn is_dec_digit(c: char) -> bool {
    48 <= c as u32 && c as u32 <= 57
}

/// The numeric value of an ASCII decimal digit.
pub open spec fn digit_value(c: char) -> int {
    c as u32 - 48
}

/// Whether every character of the sequence is an ASCII decimal digit.
pub open spec fn all_dec_digits(s: Seq<char>) -> bool {
    forall|i: int| 0 <= i < s.len() ==> is_dec_digit(#[trigger] s[i])
}

/// The value of a sequence of decimal digits, most significant first.
pub open spec fn digits_value(s: Seq<char>) -> int
    decreases s.len(),
{
    if s.len() == 0 {
        0
    } else {
        digits_value(s.drop_last()) * 10 + digit_value(s.last())
    }
}

/// The result of `str::parse::<i64>`: an optional sign followed by at
/// least one decimal digit and nothing else, rejected on overflow.
pub open spec fn parse_i64(s: Seq<char>) -> Option<int> {
    let sign: int = if s.len() > 0 && s[0] == '-' {
        -1
    } else {
        1
    };
    let t = if s.len() > 0 && (s[0] == '-' || s[0] == '+') {
        s.skip(1)
    } else {
        s
    };
    if t.len() == 0 || !all_dec_digits(t) {
        None
    } else {
        let v = sign * digits_value(t);
        if i64::MIN <= v <= i64::MAX {
            Some(v)
        } else {
            None
        }
    }
}

/// `str::parse::<i64>` with a default of zero, as used for entry ids.
pub open spec fn parse_i64_or_zero(s: Seq<char>) -> int {
    match parse_i64(s) {
        Some(v) => v,
        None => 0,
    }
}

proof fn lemma_digits_value_nonneg(s: Seq<char>)
    requires
        all_dec_digits(s),
    ensures
        digits_value(s) >= 0,
    decreases s.len(),
{
    if s.len() > 0 {
        assert(all_dec_digits(s.drop_last()));
        lemma_digits_value_nonneg(s.drop_last());
    }
}

proof fn lemma_digits_value_take_monotone(s: Seq<char>, k: int)
    requires
        all_dec_digits(s),
        0 <= k <= s.len(),
    ensures
        digits_value(s.take(k)) <= digits_value(s),
    decreases s.len() - k,
{
    if k < s.len() {
        lemma_digits_value_take_monotone(s, k + 1);
        let t = s.take(k + 1);
        assert(t.drop_last() =~= s.take(k));
        assert(all_dec_digits(s.take(k)));
        lemma_digits_value_nonneg(s.take(k));
        assert(digits_value(t) == digits_value(s.take(k)) * 10 + digit_value(t.last()));
        assert(digits_value(s.take(k)) * 10 >= digits_value(s.take(k)));
    } else {
        assert(s.take(k) =~= s);
    }
}

/// Parses a string as `str::parse::<i64>().unwrap_or(0)` does.
pub fn parse_i64_or_default(s: &str) -> (r: i64)
    ensures
        r as int == parse_i64_or_zero(s@),
{
    let n = s.unicode_len();
    if n == 0 {
        return 0;
    }
    let first = s.get_char(0);
    let negative = first == '-';
    let start: usize = if first == '-' || first == '+' {
        1
    } else {
        0
    };
    let ghost t = if start == 1 {
        s@.skip(1)
    } else {
        s@
    };
    if n == start {
        assert(t.len() == 0);
        return 0;
    }
    // Magnitudes up to this bound still fit an i64 once signed.
    let bound: u128 = if negative {
        9223372036854775808u128
    } else {
        9223372036854775807u128
    };
    let mut mag: u128 = 0;
    let mut i: usize = start;
    while i < n
        invariant
            start <= i <= n,
            n == s@.len(),
            start == 0 || start == 1,
            start == 1 ==> (s@[0] == '-' || s@[0] == '+'),
            start == 0 ==> !(s@[0] == '-' || s@[0] == '+'),
            negative <==> s@[0] == '-',
            t == (if start == 1 { s@.skip(1) } else { s@ }),
            n - start == t.len(),
            all_dec_digits(t.take(i - start)),
            mag == digits_value(t.take(i - start)),
            mag <= bound,
            bound == (if negative { 9223372036854775808u128 } else { 9223372036854775807u128 }),
        decreases n - i,
    {
        let c = s.get_char(i);
        assert(c == t[i - start]);
        let cv = c as u32;
        if cv < 48 || cv > 57 {
            // A non-digit character: the parse fails.
            assert(!is_dec_digit(t[i - start]));
            assert(parse_i64(s@) is None);
            return 0;
        }
        assert(is_dec_digit(t[i - start]));
        let d: u128 = (cv - 48) as u128;
        let next = mag * 10 + d;
        assert(t.take(i + 1 - start).drop_last() =~= t.take(i - start));
        assert(next == digits_value(t.take(i + 1 - start)));
        assert(all_dec_digits(t.take(i + 1 - start)));
        if next > bound {
            // The value can only grow with further digits, so the parse
            // overflows whether or not the rest are digits.
            proof {
                if all_dec_digits(t) {
                    lemma_digits_value_take_monotone(t, i + 1 - start);
                    assert(digits_value(t.take(i + 1 - start)) <= digits_value(t));
                    assert(digits_value(t) > bound);
                    if negative {
                        let dv = digits_value(t);
                        assert(dv > 9223372036854775808int);
                        assert(-1 * dv < -9223372036854775808int) by (nonlinear_arith)
                            requires
                                dv > 9223372036854775808int,
                        ;
                        assert(-1 * digits_value(t) < i64::MIN);
                    } else {
                        assert(digits_value(t) > 9223372036854775807int);
                        assert(1 * digits_value(t) > i64::MAX);
                    }
                    assert(parse_i64(s@) is None);
                } else {
                    assert(parse_i64(s@) is None);
                }
            }
            return 0;
        }
        mag = next;
        i = i + 1;
    }
    assert(t.take(i - start) =~= t);
    if negative {
        assert(parse_i64(s@) == Some(-1 * digits_value(t)));
        if mag == 9223372036854775808u128 {
            i64::MIN
        } else {
            -(mag as i64)
        }
    } else {
        assert(parse_i64(s@) == Some(1 * digits_value(t)));
        mag as i64
    }
}

/// Renders a signed integer in decimal, as `i64::to_string` does.
pub fn i64_to_string(n: i64) -> (s: String)
    ensures
        s@ == decimal_int(n as int),
{
    let mut s = String::new();
    if n < 0 {
        push_char(&mut s, '-');
        let mag: u64 = ((-(n + 1)) as u64) + 1;
        assert(mag == -(n as int));
        push_decimal_u64(&mut s, mag);
        assert(s@ =~= decimal_int(n as int));
    } else {
        push_decimal_u64(&mut s, n as u64);
    }
    s
}

/// The character for one lowercase hexadecimal digit value.
pub open spec fn hex_digit_char(d: int) -> char {
    if d < 10 {
        digit_char(d)
    } else if d == 10 {
        'a'
    } else if d == 11 {
        'b'
    } else if d == 12 {
        'c'
    } else if d == 13 {
        'd'
    } else if d == 14 {
        'e'
    } else {
        'f'
    }
}

/// Lowercase hexadecimal rendering of a byte sequence, two digits per byte.
pub open spec fn hex_of(bytes: Seq<u8>) -> Seq<char>
    decreases bytes.len(),
{
    if bytes.len() == 0 {
        Seq::empty()
    } else {
        hex_of(bytes.drop_last()).push(hex_digit_char(bytes.last() as int / 16)).push(
            hex_digit_char(bytes.last() as int % 16),
        )
    }
}

fn hex_digit_of(d: u8) -> (c: char)
    requires
        d < 16,
    ensures
        c == hex_digit_char(d as int),
{
    if d < 10 {
        digit_of(d as u64)
    } else if d == 10 {
        'a'
    } else if d == 11 {
        'b'
    } else if d == 12 {
        'c'
    } else if d == 13 {
        'd'
    } else if d == 14 {
        'e'
    } else {
        'f'
    }
}

/// Renders a byte sequence as lowercase hexadecimal.
pub fn bytes_to_hex(bytes: &Vec<u8>) -> (s: String)
    ensures
        s@ == hex_of(bytes@),
{
    let mut s = String::new();
    let mut i: usize = 0;
    while i < bytes.len()
        invariant
            i <= bytes@.len(),
            s@ == hex_of(bytes@.take(i as int)),
        decreases bytes@.len() - i,
    {
        let b = bytes[i];
        push_char(&mut s, hex_digit_of(b / 16));
        push_char(&mut s, hex_digit_of(b % 16));
        proof {
            let t = bytes@.take(i + 1);
            assert(t.drop_last() =~= bytes@.take(i as int));
            assert(t.last() == b);
        }
        i = i + 1;
    }
    assert(bytes@.take(bytes@.len() as int) =~= bytes@);
    s
}

/// Whether a character is in the Unicode control-code category, as
/// `char::is_control` reports it.
pub open spec fn is_control_char(c: char) -> bool {
    (c as u32) < 32 || (127 <= c as u32 && c as u32 <= 159)
}

/// A control character is replaced by a space; all others are kept.
pub open spec fn sanitize_char(c: char) -> char {
    if is_control_char(c) {
        ' '
    } else {
        c
    }
}

/// The preview of a payload: its first `MAX_PREVIEW_LEN` Unicode scalar
/// values, with control characters replaced by spaces.
pub open spec fn preview_of(s: Seq<char>) -> Seq<char> {
    let cut = if s.len() < crate::MAX_PREVIEW_LEN as int {
        s.len() as int
    } else {
        crate::MAX_PREVIEW_LEN as int
    };
    s.take(cut).map_values(|c: char| sanitize_char(c))
}

/// Builds the sanitized preview of a payload.
pub fn make_preview(content: &str) -> (p: String)
    ensures
        p@ == preview_of(content@),
        p@.len() <= 100,
{
    let n = content.unicode_len();
    let cut: usize = if n < crate::MAX_PREVIEW_LEN {
        n
    } else {
        crate::MAX_PREVIEW_LEN
    };
    let mut p = String::new();
    let mut i: usize = 0;
    while i < cut
        invariant
            i <= cut,
            cut <= n,
            n == content@.len(),
            cut == (if n < 100 { n as int } else { 100 }),
            p@ == content@.take(cut as int).map_values(|c: char| sanitize_char(c)).take(i as int),
        decreases cut - i,
    {
        let c = content.get_char(i);
        let cv = c as u32;
        let out = if cv < 32 || (127 <= cv && cv <= 159) {
            ' '
        } else {
            c
        };
        assert(out == sanitize_char(content@[i as int]));
        push_char(&mut p, out);
        proof {
            let mapped = content@.take(cut as int).map_values(|c: char| sanitize_char(c));
            assert(mapped.take(i + 1) =~= mapped.take(i as int).push(mapped[i as int]));
        }
        i = i + 1;
    }
    proof {
        let mapped = content@.take(cut as int).map_values(|c: char| sanitize_char(c));
        assert(mapped.take(cut as int) =~= mapped);
    }
    p
}

/// Compares two string slices character by character.
pub fn str_eq(a: &str, b: &str) -> (r: bool)
    ensures
        r == (a@ == b@),
{
    let na = a.unicode_len();
    let nb = b.unicode_len();
    if na != nb {
        return false;
    }
    let mut i: usize = 0;
    while i < na
        invariant
            i <= na,
            na == a@.len(),
            na == b@.len(),
            forall|j: int| 0 <= j < i ==> a@[j] == b@[j],
        decreases na - i,
    {
        if a.get_char(i) != b.get_char(i) {
            return false;
        }
        i = i + 1;
    }
    proof {
        assert(a@ =~= b@);
    }
    true
}

} // verus!
