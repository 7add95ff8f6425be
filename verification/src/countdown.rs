//! The countdown screen: days, hours and minutes left until a moment.

use vstd::prelude::*;
use vstd::string::StringExecFns;

verus! {

/// `String::push` appends one character.
pub assume_specification[ String::push ](string: &mut String, ch: char)
    ensures
        final(string)@ == old(string)@.push(ch),
;

/// The character of the decimal digit `d`.
pub open spec fn digit_char(d: nat) -> char {
    (48 + d) as char
}

/// The decimal digits of `n`, most significant first, without leading
/// zeros (`0` is written `0`).
pub open spec fn decimal(n: nat) -> Seq<char>
    decreases n,
{
    if n < 10 {
        seq![digit_char(n)]
    } else {
        decimal(n / 10).push(digit_char(n % 10))
    }
}

/// Appends the decimal digits of `n` to `s`.
pub fn push_decimal(s: &mut String, n: u64)
    ensures
        final(s)@ == old(s)@ + decimal(n as nat),
    decreases n,
{
    if n >= 10 {
        push_decimal(s, n / 10);
    }
    let d: u8 = (n % 10) as u8;
    let c = (48u8 + d) as char;
    assert(c == digit_char((n % 10) as nat));
    s.push(c);
    assert(decimal(n as nat) == if n < 10 { seq![digit_char(n as nat)] } else { decimal((n / 10) as nat).push(digit_char((n % 10) as nat)) });
    if n < 10 {
        assert(old(s)@ + decimal(n as nat) =~= old(s)@.push(c));
    }
}

/// The text shown while `secs` seconds remain (`secs > 0`): whole days,
/// hours and minutes, one per line, in German; the days line only when at
/// least one whole day remains.
pub open spec fn countdown_text(secs: int) -> Seq<char> {
    let days = secs / 86400;
    let hours = secs / 3600;
    let minutes = secs / 60;
    if days > 0 {
        decimal(days as nat) + " Tage\n"@ + decimal((hours - days * 24) as nat) + " Stunden\n"@
            + decimal((minutes - hours * 60) as nat) + " Minuten"@
    } else {
        decimal(hours as nat) + " Stunden\n"@ + decimal((minutes - hours * 60) as nat) + " Minuten"@
    }
}

/// The number that a string of decimal digits stands for.
pub open spec fn digits_value(s: Seq<char>) -> int
    decreases s.len(),
{
    if s.len() == 0 {
        0
    } else {
        digits_value(s.drop_last()) * 10 + (s.last() as int - 48)
    }
}

/// The decimal digits of `n` are digits, without a leading zero, and they
/// read back as `n`.
pub proof fn lemma_decimal_reads_back(n: nat)
    ensures
        digits_value(decimal(n)) == n,
        decimal(n).len() > 0,
        forall|i: int| 0 <= i < decimal(n).len() ==> 48 <= #[trigger] (decimal(n)[i] as int) <= 57,
        decimal(n).len() > 1 ==> decimal(n)[0] != '0',
    decreases n,
{
    if n < 10 {
        assert(decimal(n) =~= seq![digit_char(n)]);
        assert(decimal(n).drop_last() =~= Seq::<char>::empty());
        assert(digit_char(n) as int == 48 + n);
        assert(digits_value(decimal(n)) == digits_value(decimal(n).drop_last()) * 10 + (decimal(n).last() as int - 48));
    } else {
        lemma_decimal_reads_back(n / 10);
        let d = decimal(n / 10);
        assert(decimal(n) == d.push(digit_char(n % 10)));
        assert(decimal(n).drop_last() =~= d);
        assert(digit_char(n % 10) as int == 48 + n % 10);
        assert(digits_value(decimal(n)) == digits_value(d) * 10 + (decimal(n).last() as int - 48));
        assert((n / 10) * 10 + n % 10 == n);
        assert forall|i: int| 0 <= i < decimal(n).len() implies 48 <= #[trigger] (decimal(n)[i] as int) <= 57 by {
            if i < d.len() {
                assert(decimal(n)[i] == d[i]);
            }
        }
        assert(decimal(n)[0] == d[0]);
        if d.len() == 1 {
            assert(digits_value(d) == digits_value(d.drop_last()) * 10 + (d.last() as int - 48));
            assert(d.drop_last() =~= Seq::<char>::empty());
            assert(d[0] != '0');
        }
    }
}

/// The countdown text for `secs > 0` seconds: with at least a whole day
/// left, the whole days, then the hours within the day and the minutes
/// within the hour; with less than a day left, the whole hours and the
/// minutes within the hour.
pub proof fn lemma_countdown_text_lines(secs: int)
    requires
        secs > 0,
    ensures
        secs >= 86400 ==> countdown_text(secs) == decimal((secs / 86400) as nat) + " Tage\n"@ + decimal(
            ((secs % 86400) / 3600) as nat,
        ) + " Stunden\n"@ + decimal(((secs % 3600) / 60) as nat) + " Minuten"@,
        secs < 86400 ==> countdown_text(secs) == decimal((secs / 3600) as nat) + " Stunden\n"@ + decimal(
            ((secs % 3600) / 60) as nat,
        ) + " Minuten"@,
{
    let days = secs / 86400;
    let r = secs % 86400;
    vstd::arithmetic::div_mod::lemma_fundamental_div_mod(secs, 86400);
    assert(0 <= r < 86400);
    let h = r / 3600;
    let rr = r % 3600;
    vstd::arithmetic::div_mod::lemma_fundamental_div_mod(r, 3600);
    assert(secs == 3600 * (24 * days + h) + rr);
    vstd::arithmetic::div_mod::lemma_fundamental_div_mod_converse(secs, 3600, 24 * days + h, rr);
    let hours = secs / 3600;
    assert(hours == 24 * days + h);
    assert(secs % 3600 == rr);
    let m = rr / 60;
    vstd::arithmetic::div_mod::lemma_fundamental_div_mod(rr, 60);
    assert(secs == 60 * (60 * hours + m) + rr % 60);
    vstd::arithmetic::div_mod::lemma_fundamental_div_mod_converse(secs, 60, 60 * hours + m, rr % 60);
    assert(secs / 60 - hours * 60 == m);
    assert(hours - days * 24 == h);
    if secs < 86400 {
        assert(days == 0);
    } else {
        assert(days > 0);
    }
}

/// What the countdown screen shows.
pub enum CountdownScreen {
    /// The time left, as text.
    Remaining(String),
    /// The moment has come: show the picture instead.
    Over,
}

/// The screen for `remaining_seconds` left (whole seconds, rounded toward
/// zero): the time left while it is positive, the picture after.
pub fn countdown_screen(remaining_seconds: i64) -> (screen: CountdownScreen)
    ensures
        remaining_seconds > 0 ==> (screen matches CountdownScreen::Remaining(t) && t@ == countdown_text(
            remaining_seconds as int,
        )),
        remaining_seconds <= 0 ==> screen is Over,
{
    if remaining_seconds <= 0 {
        return CountdownScreen::Over;
    }
    let secs = remaining_seconds as u64;
    let days = secs / 86400;
    let hours = secs / 3600;
    let minutes = secs / 60;
    let mut text = String::new();
    if days > 0 {
        push_decimal(&mut text, days);
        text.append(" Tage\n");
        push_decimal(&mut text, hours - days * 24);
        text.append(" Stunden\n");
    } else {
        push_decimal(&mut text, hours);
        text.append(" Stunden\n");
    }
    push_decimal(&mut text, minutes - hours * 60);
    text.append(" Minuten");
    proof {
        assert(text@ =~= countdown_text(remaining_seconds as int));
    }
    CountdownScreen::Remaining(text)
}


/// The instant that `chrono::DateTime::parse_from_rfc3339` reads from
/// `text`, as seconds since the Unix epoch and nanoseconds within the second
/// (1_000_000_000 or more during a leap second), or `None` where it refuses
/// the text.
pub uninterp spec fn rfc3339_instant(text: Seq<char>) -> Option<(i64, u32)>;

/// Parses `text` with `chrono::DateTime::parse_from_rfc3339` and reads the
/// instant's `timestamp` and `timestamp_subsec_nanos`. The contract names
/// the result as a function of the text; what a text parses to is not
/// stated.
#[verifier::external_body]
fn parse_rfc3339(text: &str) -> (t: Option<(i64, u32)>)
    ensures
        t == rfc3339_instant(text@),
{
    match chrono::DateTime::parse_from_rfc3339(text) {
        Ok(t) => Some((t.timestamp(), t.timestamp_subsec_nanos())),
        Err(_) => None,
    }
}

/// Reads the moment a countdown runs to from RFC 3339 text.
pub fn parse_target(text: &str) -> (t: Option<(i64, u32)>)
    ensures
        t == rfc3339_instant(text@),
{
    parse_rfc3339(text)
}

/// Whole seconds from `now` to `target` (each given as seconds since the
/// epoch and nanoseconds), rounded toward zero, as `chrono` gives them by
/// subtracting the two instants (`signed_duration_since`) and taking
/// `TimeDelta::num_seconds`; a leap second (nanoseconds of 1_000_000_000 or
/// more) counts as in `chrono`.
pub open spec fn seconds_between(target: (i64, u32), now: (i64, u32)) -> int {
    let tod_target = target.0 % 86400;
    let tod_now = now.0 % 86400;
    let leap: int = if tod_target > tod_now && now.1 >= 1_000_000_000 {
        1
    } else if tod_target < tod_now && target.1 >= 1_000_000_000 {
        -1
    } else {
        0
    };
    let frac = target.1 - now.1;
    let secs = target.0 - now.0 + leap + frac / 1_000_000_000;
    let nanos = frac % 1_000_000_000;
    if secs < 0 && nanos > 0 {
        secs + 1
    } else {
        secs
    }
}

/// Whether `target` and `now` are instants as `chrono` holds them
/// (nanoseconds below 2_000_000_000) whose distance in whole seconds fits
/// an `i64`.
pub open spec fn instants_in_range(target: (i64, u32), now: (i64, u32)) -> bool {
    &&& target.1 < 2_000_000_000
    &&& now.1 < 2_000_000_000
    &&& i64::MIN <= seconds_between(target, now) <= i64::MAX
}

/// Floor division and the non-negative remainder of `x` by `d`.
fn floor_div_mod(x: i128, d: i128) -> (qr: (i128, i128))
    requires
        0 < d <= 1_000_000_000,
        -0x1_0000_0000_0000_0000 < x < 0x1_0000_0000_0000_0000,
    ensures
        qr.0 == x / d,
        qr.1 == x % d,
{
    let c: i128 = 0x1_0000_0000_0000_0000;
    assert(d * c <= 1_000_000_000 * 0x1_0000_0000_0000_0000) by (nonlinear_arith)
        requires 0 < d <= 1_000_000_000, c == 0x1_0000_0000_0000_0000;
    assert(d * c >= c) by (nonlinear_arith)
        requires 0 < d, c > 0;
    let y = x + d * c;
    let q = y / d;
    let r = y % d;
    proof {
        vstd::arithmetic::div_mod::lemma_fundamental_div_mod(y as int, d as int);
        assert(x == d * (q - c) + r) by (nonlinear_arith)
            requires y == x + d * c, y == d * q + r;
        assert(x == (q - c) * d + r) by (nonlinear_arith)
            requires x == d * (q - c) + r;
        vstd::arithmetic::div_mod::lemma_fundamental_div_mod_converse(x as int, d as int, (q - c) as int, r as int);
        assert(q <= y) by (nonlinear_arith)
            requires y >= 0, d >= 1, y == d * q + r, 0 <= r;
    }
    (q - c, r)
}

/// `seconds_between` computed in 128 bits.
fn seconds_between_wide(target: (i64, u32), now: (i64, u32)) -> (secs: i128)
    requires
        target.1 < 2_000_000_000,
        now.1 < 2_000_000_000,
    ensures
        secs == seconds_between(target, now),
{
    let tod_target = floor_div_mod(target.0 as i128, 86400).1;
    let tod_now = floor_div_mod(now.0 as i128, 86400).1;
    let leap: i128 = if tod_target > tod_now && now.1 >= 1_000_000_000 {
        1
    } else if tod_target < tod_now && target.1 >= 1_000_000_000 {
        -1
    } else {
        0
    };
    let frac = target.1 as i128 - now.1 as i128;
    let (carry, nanos) = floor_div_mod(frac, 1_000_000_000);
    let secs = target.0 as i128 - now.0 as i128 + leap + carry;
    if secs < 0 && nanos > 0 {
        secs + 1
    } else {
        secs
    }
}

/// Whole seconds from `now` to `target`, rounded toward zero.
pub fn remaining_seconds(target: (i64, u32), now: (i64, u32)) -> (secs: i64)
    requires
        instants_in_range(target, now),
    ensures
        secs == seconds_between(target, now),
{
    seconds_between_wide(target, now) as i64
}

/// The countdown screen at `now` for a countdown to `target`: the time left
/// while it is positive, the picture after; `None` for inputs that are no
/// instants `chrono` holds, or whose distance does not fit an `i64`.
pub fn countdown_screen_at(target: (i64, u32), now: (i64, u32)) -> (screen: Option<CountdownScreen>)
    ensures
        screen is None <==> !instants_in_range(target, now),
        instants_in_range(target, now) && seconds_between(target, now) > 0 ==> (screen matches Some(
            CountdownScreen::Remaining(t),
        ) && t@ == countdown_text(seconds_between(target, now))),
        instants_in_range(target, now) && seconds_between(target, now) <= 0 ==> (screen matches Some(
            CountdownScreen::Over,
        )),
{
    if target.1 >= 2_000_000_000 || now.1 >= 2_000_000_000 {
        return None;
    }
    let whole = seconds_between_wide(target, now);
    if whole < i64::MIN as i128 || whole > i64::MAX as i128 {
        return None;
    }
    Some(countdown_screen(remaining_seconds(target, now)))
}

} // verus!
