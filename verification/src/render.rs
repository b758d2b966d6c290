use vstd::prelude::*;
use vstd::std_specs::iter::IteratorSpec;
use vstd::string::StringExecFns;
use crate::activity::{Activity, ActivityView};
use crate::day::Date;
use crate::time_of_day::{TimeOfDay, NANOS_PER_DAY};

verus! {

/// The two decimal digits of a value below one hundred.
pub open spec fn two_digits(x: int) -> Seq<char>
    recommends
        0 <= x < 100,
{
    seq![((48 + x / 10) as u8) as char, ((48 + x % 10) as u8) as char]
}

/// A time of day rendered as HH:MM:SS.
pub open spec fn hms_text(nanos: int) -> Seq<char> {
    two_digits(nanos / 3_600_000_000_000) + seq![':']
        + two_digits((nanos / 60_000_000_000) % 60) + seq![':']
        + two_digits((nanos / 1_000_000_000) % 60)
}

/// How an activity is shown: start, end (or a marker while still open),
/// and its name (or a marker when unnamed).
pub open spec fn display_of(a: ActivityView) -> Seq<char> {
    hms_text(a.time.start.nanos as int) + " - "@ + (match a.time.end {
        Some(e) => hms_text(e.nanos as int),
        None => "<OPEN>"@,
    }) + ": "@ + (match a.name {
        Some(n) => n,
        None => "<NO DESCRIPTION>"@,
    })
}

/// Append a value below one hundred as two decimal digits.
fn push_two_digits(out: &mut String, x: u64)
    requires
        x < 100,
    ensures
        final(out)@ == old(out)@ + two_digits(x as int),
{
    let tens: u8 = (x / 10) as u8;
    let ones: u8 = (x % 10) as u8;
    out.push((48 + tens) as char);
    out.push((48 + ones) as char);
    proof {
        assert(out@ =~= old(out)@ + two_digits(x as int));
    }
}

/// Render a time of day as HH:MM:SS.
pub fn format_time_of_day(t: TimeOfDay) -> (r: String)
    requires
        t.is_valid(),
    ensures
        r@ == hms_text(t.nanos as int),
{
    let mut out = String::new();
    let h: u64 = t.nanos / 3_600_000_000_000;
    let m: u64 = (t.nanos / 60_000_000_000) % 60;
    let s: u64 = (t.nanos / 1_000_000_000) % 60;
    proof {
        assert(t.nanos < NANOS_PER_DAY);
        assert(h < 24);
    }
    push_two_digits(&mut out, h);
    out.push(':');
    push_two_digits(&mut out, m);
    out.push(':');
    push_two_digits(&mut out, s);
    proof {
        assert(out@ =~= hms_text(t.nanos as int));
    }
    out
}

impl Activity {
    /// The activity as one line of text: start, end and name.
    pub fn display_string(&self) -> (r: String)
        requires
            self.time.has_valid_times(),
        ensures
            r@ == display_of(self@),
    {
        let mut out = format_time_of_day(self.time.start);
        out.append(" - ");
        match self.time.end {
            Option::Some(e) => {
                let e_text = format_time_of_day(e);
                out.append(e_text.as_str());
            },
            Option::None => {
                out.append("<OPEN>");
            },
        }
        out.append(": ");
        match &self.name {
            Option::Some(n) => {
                out.append(n.as_str());
            },
            Option::None => {
                out.append("<NO DESCRIPTION>");
            },
        }
        proof {
            assert(out@ =~= display_of(self@));
        }
        out
    }
}

/// The decimal digits of a non-negative value.
pub open spec fn dec_str(n: int) -> Seq<char>
    recommends
        n >= 0,
    decreases n,
{
    if n < 10 {
        seq![((48 + n) as u8) as char]
    } else {
        dec_str(n / 10) + seq![((48 + n % 10) as u8) as char]
    }
}

/// Render a value in decimal.
pub fn format_u64(n: u64) -> (r: String)
    ensures
        r@ == dec_str(n as int),
    decreases n,
{
    if n < 10 {
        let mut s = String::new();
        s.push((48 + n as u8) as char);
        proof {
            assert(s@ =~= dec_str(n as int));
        }
        s
    } else {
        let mut s = format_u64(n / 10);
        s.push((48 + (n % 10) as u8) as char);
        proof {
            assert(s@ =~= dec_str(n as int));
        }
        s
    }
}

/// A signed duration in nanoseconds rendered the way the status report
/// shows totals: hours, minutes and seconds, each part left out while it
/// and everything before it is zero, the seconds only on request.
pub open spec fn pretty_duration(nanos: int, show_seconds: bool) -> Seq<char> {
    let a = if nanos < 0 { -nanos } else { nanos };
    let hours = a / 3_600_000_000_000;
    let minutes = (a / 60_000_000_000) % 60;
    let seconds = (a / 1_000_000_000) % 60;
    let sign: Seq<char> = if nanos < 0 { "-"@ } else { Seq::empty() };
    let htxt: Seq<char> = if hours > 0 { dec_str(hours) + "h "@ } else { Seq::empty() };
    let mtxt: Seq<char> = if minutes > 0 || htxt.len() > 0 { dec_str(minutes) + "m "@ }
        else { Seq::empty() };
    let stxt: Seq<char> = if show_seconds && (seconds > 0 || mtxt.len() > 0
            || htxt.len() > 0) { dec_str(seconds) + "s"@ } else { Seq::empty() };
    sign + htxt + mtxt + stxt
}

/// Render a signed duration in nanoseconds for the status report.
pub fn format_duration_pretty(nanos: i64, show_seconds: bool) -> (r: String)
    ensures
        r@ == pretty_duration(nanos as int, show_seconds),
{
    let a: u64 = if nanos < 0 {
        (-(nanos as i128)) as u64
    } else {
        nanos as u64
    };
    proof {
        assert(a == if nanos < 0 { -(nanos as int) } else { nanos as int });
    }
    let hours: u64 = a / 3_600_000_000_000;
    let minutes: u64 = (a / 60_000_000_000) % 60;
    let seconds: u64 = (a / 1_000_000_000) % 60;
    let mut out = String::new();
    if nanos < 0 {
        out.append("-");
    }
    let mut have_part = false;
    if hours > 0 {
        let htxt = format_u64(hours);
        out.append(htxt.as_str());
        out.append("h ");
        have_part = true;
    }
    if minutes > 0 || have_part {
        let mtxt = format_u64(minutes);
        out.append(mtxt.as_str());
        out.append("m ");
        have_part = true;
    }
    if show_seconds && (seconds > 0 || have_part) {
        let stxt = format_u64(seconds);
        out.append(stxt.as_str());
        out.append("s");
    }
    proof {
        assert(out@ =~= pretty_duration(nanos as int, show_seconds));
    }
    out
}

broadcast use vstd::string::axiom_spec_iter, vstd::string::next_postcondition;

/// The value of a decimal digit, or nothing for any other character.
pub open spec fn digit_value(c: char) -> Option<int> {
    if 48 <= c as u32 <= 57 {
        Some(c as u32 - 48)
    } else {
        None
    }
}

/// What parsing HH:MM:SS text yields: a whole-second time of day when the
/// text has exactly that shape and its fields are in range.
pub open spec fn spec_parse_hms(s: Seq<char>) -> Option<TimeOfDay> {
    if s.len() != 8 || s[2] != ':' || s[5] != ':' {
        None
    } else {
        match (digit_value(s[0]), digit_value(s[1]), digit_value(s[3]), digit_value(s[4]),
            digit_value(s[6]), digit_value(s[7])) {
            (Some(h1), Some(h2), Some(m1), Some(m2), Some(s1), Some(s2)) => {
                let h = h1 * 10 + h2;
                let m = m1 * 10 + m2;
                let sec = s1 * 10 + s2;
                if h < 24 && m < 60 && sec < 60 {
                    Some(TimeOfDay {
                        nanos: (((h * 3600 + m * 60 + sec) * 1_000_000_000) as u64),
                    })
                } else {
                    None
                }
            },
            _ => None,
        }
    }
}

/// The decimal value of a digit character, or nothing.
fn digit_of(c: char) -> (r: Option<u8>)
    ensures
        match (r, digit_value(c)) {
            (Some(d), Some(v)) => d == v,
            (None, None) => true,
            _ => false,
        },
{
    let u = c as u32;
    if 48 <= u && u <= 57 {
        Some((u - 48) as u8)
    } else {
        None
    }
}

/// Parse a time of day written as HH:MM:SS.
pub fn parse_time_of_day(s: &str) -> (r: Option<TimeOfDay>)
    ensures
        r == spec_parse_hms(s@),
        match r {
            Some(t) => t.is_valid(),
            None => true,
        },
{
    let mut chars: Vec<char> = Vec::new();
    let mut it = s.chars();
    proof {
        assert(chars@ + it.remaining() =~= s@);
    }
    loop
        invariant
            chars@ + it.remaining() == s@,
            it.obeys_prophetic_iter_laws(),
            it.decrease() is Some,
        ensures
            chars@ == s@,
        decreases it.decrease()->Some_0,
    {
        match it.next() {
            Option::Some(ch) => {
                proof {
                    assert(chars@.push(ch) + it.remaining() =~= s@);
                }
                chars.push(ch);
            },
            Option::None => {
                proof {
                    assert(it.remaining().len() == 0);
                    assert(chars@ =~= s@);
                }
                break;
            },
        }
    }
    if chars.len() != 8 {
        return None;
    }
    if chars[2] != ':' || chars[5] != ':' {
        return None;
    }
    let h1 = digit_of(chars[0]);
    let h2 = digit_of(chars[1]);
    let m1 = digit_of(chars[3]);
    let m2 = digit_of(chars[4]);
    let s1 = digit_of(chars[6]);
    let s2 = digit_of(chars[7]);
    match (h1, h2, m1, m2, s1, s2) {
        (Option::Some(a), Option::Some(b), Option::Some(c), Option::Some(d),
            Option::Some(e), Option::Some(f)) => {
            let h: u64 = (a as u64) * 10 + (b as u64);
            let m: u64 = (c as u64) * 10 + (d as u64);
            let sec: u64 = (e as u64) * 10 + (f as u64);
            if h < 24 && m < 60 && sec < 60 {
                Some(TimeOfDay { nanos: (h * 3600 + m * 60 + sec) * 1_000_000_000 })
            } else {
                None
            }
        },
        _ => None,
    }
}

/// Rendering a whole-second time of day and parsing the text gives the
/// time back.
pub proof fn lemma_time_text_round_trip(t: TimeOfDay)
    requires
        t.is_valid(),
        t.nanos % 1_000_000_000 == 0,
    ensures
        spec_parse_hms(hms_text(t.nanos as int)) == Some(t),
{
    let n = t.nanos as int;
    let h = n / 3_600_000_000_000;
    let m = (n / 60_000_000_000) % 60;
    let sec = (n / 1_000_000_000) % 60;
    let text = hms_text(n);
    assert(0 <= h < 24 && 0 <= m < 60 && 0 <= sec < 60);
    assert(text.len() == 8);
    assert(text[2] == ':' && text[5] == ':');
    assert(digit_value(text[0]) == Some(h / 10)) by {
        assert(text[0] == ((48 + h / 10) as u8) as char);
    }
    assert(digit_value(text[1]) == Some(h % 10));
    assert(digit_value(text[3]) == Some(m / 10));
    assert(digit_value(text[4]) == Some(m % 10));
    assert(digit_value(text[6]) == Some(sec / 10));
    assert(digit_value(text[7]) == Some(sec % 10));
    assert((h * 3600 + m * 60 + sec) * 1_000_000_000 == n) by {
        assert(n == 1_000_000_000 * (n / 1_000_000_000));
        assert(n / 1_000_000_000 < 86_400);
        assert(n / 1_000_000_000
            == h * 3600 + (n / 1_000_000_000) % 3600) by {
            assert(h == (n / 1_000_000_000) / 3600) by {
                vstd::arithmetic::div_mod::lemma_div_denominator(n, 1_000_000_000, 3600);
            }
        }
        assert(m == ((n / 1_000_000_000) % 3600) / 60) by {
            vstd::arithmetic::div_mod::lemma_div_denominator(n, 1_000_000_000, 60);
        }
    }
}

/// A value in decimal, padded to at least two digits.
pub open spec fn padded2(n: int) -> Seq<char>
    recommends
        n >= 0,
{
    if n < 10 {
        seq!['0'] + dec_str(n)
    } else {
        dec_str(n)
    }
}

/// A non-negative duration as stored on disk: zero-padded hours, minutes
/// and seconds. A negative duration has no stored form.
pub open spec fn duration_hms_text(nanos: int) -> Option<Seq<char>> {
    if nanos < 0 {
        None
    } else {
        let hours = nanos / 3_600_000_000_000;
        let minutes = (nanos / 60_000_000_000) % 60;
        let seconds = (nanos / 1_000_000_000) % 60;
        Some(padded2(hours) + "h "@ + padded2(minutes) + "m "@ + padded2(seconds) + "s"@)
    }
}

/// Append a value in decimal, padded to at least two digits.
fn push_padded2(out: &mut String, x: u64)
    ensures
        final(out)@ == old(out)@ + padded2(x as int),
{
    if x < 10 {
        out.push('0');
    }
    let digits = format_u64(x);
    out.append(digits.as_str());
    proof {
        assert(out@ =~= old(out)@ + padded2(x as int));
    }
}

/// Render a duration the way it is stored on disk; a negative duration
/// cannot be stored.
pub fn format_duration_hms(nanos: i64) -> (r: Option<String>)
    ensures
        match (r, duration_hms_text(nanos as int)) {
            (Some(text), Some(spec_text)) => text@ == spec_text,
            (None, None) => true,
            _ => false,
        },
{
    if nanos < 0 {
        return None;
    }
    let a = nanos as u64;
    let hours: u64 = a / 3_600_000_000_000;
    let minutes: u64 = (a / 60_000_000_000) % 60;
    let seconds: u64 = (a / 1_000_000_000) % 60;
    let mut out = String::new();
    push_padded2(&mut out, hours);
    out.append("h ");
    push_padded2(&mut out, minutes);
    out.append("m ");
    push_padded2(&mut out, seconds);
    out.append("s");
    proof {
        assert(out@ =~= duration_hms_text(nanos as int)->Some_0);
    }
    Some(out)
}

/// A value in decimal, padded to at least four digits.
pub open spec fn padded4(n: int) -> Seq<char>
    recommends
        n >= 0,
{
    if n < 10 {
        seq!['0', '0', '0'] + dec_str(n)
    } else if n < 100 {
        seq!['0', '0'] + dec_str(n)
    } else if n < 1000 {
        seq!['0'] + dec_str(n)
    } else {
        dec_str(n)
    }
}

/// A date rendered as year-month-day, the year zero-padded to four digits
/// and signed when negative, month and day to two.
pub open spec fn date_text(d: Date) -> Seq<char> {
    let y: Seq<char> = if d.year < 0 { seq!['-'] + padded4(-(d.year as int)) } else {
        padded4(d.year as int)
    };
    y + seq!['-'] + padded2(d.month as int) + seq!['-'] + padded2(d.day as int)
}

/// Append a value in decimal, padded to at least four digits.
fn push_padded4(out: &mut String, x: u64)
    ensures
        final(out)@ == old(out)@ + padded4(x as int),
{
    if x < 10 {
        out.push('0');
        out.push('0');
        out.push('0');
    } else if x < 100 {
        out.push('0');
        out.push('0');
    } else if x < 1000 {
        out.push('0');
    }
    let digits = format_u64(x);
    out.append(digits.as_str());
    proof {
        assert(out@ =~= old(out)@ + padded4(x as int));
    }
}

/// Render a date as year-month-day.
pub fn format_date(d: Date) -> (r: String)
    ensures
        r@ == date_text(d),
{
    let mut out = String::new();
    if d.year < 0 {
        out.push('-');
        push_padded4(&mut out, (-(d.year as i64)) as u64);
    } else {
        push_padded4(&mut out, d.year as u64);
    }
    out.push('-');
    push_padded2(&mut out, d.month as u64);
    out.push('-');
    push_padded2(&mut out, d.day as u64);
    proof {
        assert(out@ =~= date_text(d));
    }
    out
}

} // verus!
