use vstd::prelude::*;

verus! {

/// Seconds since the start of the service day for a GTFS `HH:MM:SS` time.
pub open spec fn spec_hms_to_secs(t: (u32, u32, u32)) -> int {
    t.0 * 3600 + t.1 * 60 + t.2
}

/// Converts an `(hours, minutes, seconds)` GTFS time to seconds. Hours may
/// exceed 23 (trips that run past midnight are written as 24:xx, 25:xx, ...).
pub fn hms_to_secs(t: (u32, u32, u32)) -> (r: u32)
    requires
        spec_hms_to_secs(t) <= u32::MAX,
    ensures
        r == spec_hms_to_secs(t),
{
    proof {
        assert(t.0 * 3600 <= spec_hms_to_secs(t)) by (nonlinear_arith)
            requires t.1 >= 0, t.2 >= 0, spec_hms_to_secs(t) == t.0 * 3600 + t.1 * 60 + t.2;
        assert(t.1 * 60 <= spec_hms_to_secs(t)) by (nonlinear_arith)
            requires t.0 >= 0, t.2 >= 0, spec_hms_to_secs(t) == t.0 * 3600 + t.1 * 60 + t.2;
    }
    t.0 * 3600 + t.1 * 60 + t.2
}

/// The character of a decimal digit.
pub open spec fn digit_char(d: nat) -> char {
    if d == 0 {
        '0'
    } else if d == 1 {
        '1'
    } else if d == 2 {
        '2'
    } else if d == 3 {
        '3'
    } else if d == 4 {
        '4'
    } else if d == 5 {
        '5'
    } else if d == 6 {
        '6'
    } else if d == 7 {
        '7'
    } else if d == 8 {
        '8'
    } else {
        '9'
    }
}

/// Decimal notation of a natural number, without leading zeros.
pub open spec fn decimal(n: nat) -> Seq<char>
    decreases n,
{
    if n < 10 {
        seq![digit_char(n)]
    } else {
        decimal(n / 10).push(digit_char(n % 10))
    }
}

/// Decimal notation padded with a leading zero to at least two digits (`{:02}`).
pub open spec fn two_digits(n: nat) -> Seq<char> {
    if n < 10 {
        seq!['0', digit_char(n)]
    } else {
        decimal(n)
    }
}

/// `HH:MM:SS` for a number of seconds; hours are not wrapped at 24.
pub open spec fn spec_format_hms(total_secs: u32) -> Seq<char> {
    two_digits((total_secs / 3600) as nat) + seq![':'] + two_digits(((total_secs % 3600) / 60) as nat)
        + seq![':'] + two_digits((total_secs % 60) as nat)
}

/// `String::push`: appends one character.
#[verifier::external_body]
pub(crate) fn push_char(s: &mut String, c: char)
    ensures
        final(s)@ == old(s)@.push(c),
{
    s.push(c);
}

fn digit(d: u64) -> (c: char)
    requires
        d < 10,
    ensures
        c == digit_char(d as nat),
{
    match d {
        0 => '0',
        1 => '1',
        2 => '2',
        3 => '3',
        4 => '4',
        5 => '5',
        6 => '6',
        7 => '7',
        8 => '8',
        _ => '9',
    }
}

/// Appends the decimal notation of `n`.
pub fn push_decimal(s: &mut String, n: u64)
    ensures
        final(s)@ == old(s)@ + decimal(n as nat),
    decreases n,
{
    if n >= 10 {
        push_decimal(s, n / 10);
        push_char(s, digit(n % 10));
        assert(decimal(n as nat) == decimal((n / 10) as nat).push(digit_char((n % 10) as nat)));
        assert(final(s)@ =~= old(s)@ + decimal(n as nat));
    } else {
        push_char(s, digit(n));
        assert(final(s)@ =~= old(s)@ + decimal(n as nat));
    }
}

/// Appends `n` padded to two digits.
pub fn push_two_digits(s: &mut String, n: u64)
    ensures
        final(s)@ == old(s)@ + two_digits(n as nat),
{
    if n < 10 {
        push_char(s, '0');
        push_char(s, digit(n));
        assert(final(s)@ =~= old(s)@ + two_digits(n as nat));
    } else {
        push_decimal(s, n);
    }
}

/// Formats a number of seconds as `HH:MM:SS` (e.g. 3661 → "01:01:01",
/// 86400 → "24:00:00").
pub fn format_hms(total_secs: u32) -> (r: String)
    ensures
        r@ == spec_format_hms(total_secs),
{
    let h = total_secs / 3600;
    let m = (total_secs % 3600) / 60;
    let sec = total_secs % 60;
    let mut r = String::new();
    push_two_digits(&mut r, h as u64);
    push_char(&mut r, ':');
    push_two_digits(&mut r, m as u64);
    push_char(&mut r, ':');
    push_two_digits(&mut r, sec as u64);
    assert(r@ =~= spec_format_hms(total_secs));
    r
}

/// Formatting a time built from hours, minutes and seconds gives back those
/// three fields, each padded to two digits, whenever minutes and seconds are
/// below 60.
pub proof fn law_format_hms_of_hms(h: u32, m: u32, s: u32)
    requires
        m < 60,
        s < 60,
        spec_hms_to_secs((h, m, s)) <= u32::MAX,
    ensures
        spec_format_hms(spec_hms_to_secs((h, m, s)) as u32) == two_digits(h as nat) + seq![':']
            + two_digits(m as nat) + seq![':'] + two_digits(s as nat),
{
    let t = spec_hms_to_secs((h, m, s));
    assert(t / 3600 == h && t % 3600 == m * 60 + s) by (nonlinear_arith)
        requires t == h * 3600 + m * 60 + s, m < 60, s < 60, h >= 0, m >= 0, s >= 0;
    assert((m * 60 + s) / 60 == m && t % 60 == s) by (nonlinear_arith)
        requires t == h * 3600 + m * 60 + s, m < 60, s < 60, h >= 0, m >= 0, s >= 0;
}

} // verus!
