//! Time handling: reading RFC 3339 instants, rendering durations, and the
//! events the background clock posts to the interactive loop.
use vstd::prelude::*;

use crate::text::{fmt_u64, push_str_chars, spec_fmt_u64, str_to_chars};

verus! {

/// What `chrono` reads out of an RFC 3339 timestamp: the epoch seconds,
/// a function of the text alone.
pub uninterp spec fn rfc3339_secs_of(s: Seq<char>) -> Option<i64>;

/// Relies on chrono's `DateTime::parse_from_rfc3339` and `timestamp`: the
/// instant an RFC 3339 text denotes, in epoch seconds, depends on the text
/// alone.
#[verifier::external_body]
pub fn parse_rfc3339_secs(s: &[char]) -> (r: Option<i64>)
    ensures
        r == rfc3339_secs_of(s@),
{
    let text: String = s.iter().collect();
    match chrono::DateTime::parse_from_rfc3339(&text) {
        Ok(d) => Some(d.timestamp()),
        Err(_) => None,
    }
}

/// What the background clock posts to the interactive loop.
pub enum TimerEvent {
    Tick(i64),
    TwoMinuteWarning,
    TimeExpired,
}

/// `h`, `m`, `s` parts of a non-negative duration.
pub open spec fn spec_hms(secs: int) -> (int, int, int) {
    (secs / 3600, (secs % 3600) / 60, secs % 60)
}

/// The text `format_duration` produces.
pub open spec fn spec_format_duration(secs: int) -> Seq<char> {
    if secs <= 0 {
        "0h 0m 0s"@
    } else {
        let (h, m, s) = spec_hms(secs);
        spec_fmt_u64(h) + "h "@ + spec_fmt_u64(m) + "m "@ + spec_fmt_u64(s) + "s"@
    }
}

/// Renders a remaining time as `Hh Mm Ss`.
pub fn format_duration(total_secs: i64) -> (r: Vec<char>)
    ensures
        r@ == spec_format_duration(total_secs as int),
{
    if total_secs <= 0 {
        return str_to_chars("0h 0m 0s");
    }
    let t = total_secs as u64;
    let hours = t / 3600;
    let minutes = (t % 3600) / 60;
    let seconds = t % 60;
    let mut out = fmt_u64(hours);
    push_str_chars(&mut out, "h ");
    let m = fmt_u64(minutes);
    push_chars_local(&mut out, m);
    push_str_chars(&mut out, "m ");
    let s = fmt_u64(seconds);
    push_chars_local(&mut out, s);
    push_str_chars(&mut out, "s");
    out
}

fn push_chars_local(out: &mut Vec<char>, s: Vec<char>)
    ensures
        final(out)@ == old(out)@ + s@,
{
    crate::text::push_chars(out, s.as_slice());
}

/// The text `format_wait_duration` produces: hours, minutes and seconds are
/// shown only from the leading non-zero unit on, with two-digit padding of
/// the lower units.
pub open spec fn spec_pad2(n: int) -> Seq<char> {
    if n < 10 {
        seq![crate::text::digit_char(0)] + spec_fmt_u64(n)
    } else {
        spec_fmt_u64(n)
    }
}

pub open spec fn spec_format_wait(secs: int) -> Seq<char> {
    if secs <= 0 {
        "now"@
    } else {
        let (h, m, s) = spec_hms(secs);
        if h > 0 {
            spec_fmt_u64(h) + "h "@ + spec_pad2(m) + "m "@ + spec_pad2(s) + "s"@
        } else if m > 0 {
            spec_fmt_u64(m) + "m "@ + spec_pad2(s) + "s"@
        } else {
            spec_fmt_u64(s) + "s"@
        }
    }
}

fn push_pad2(out: &mut Vec<char>, n: u64)
    requires
        n < 100,
    ensures
        final(out)@ == old(out)@ + spec_pad2(n as int),
{
    if n < 10 {
        out.push('0');
        proof {
            assert(seq!['0'] =~= seq![crate::text::digit_char(0)]);
            assert(old(out)@.push('0') =~= old(out)@ + seq![crate::text::digit_char(0)]);
        }
    }
    let d = fmt_u64(n);
    push_chars_local(out, d);
}

/// Renders a wait before the window opens, as `now`, `Ss`, `Mm SSs` or
/// `Hh MMm SSs`.
pub fn format_wait_duration(total_secs: i64) -> (r: Vec<char>)
    ensures
        r@ == spec_format_wait(total_secs as int),
{
    if total_secs <= 0 {
        return str_to_chars("now");
    }
    let t = total_secs as u64;
    let hours = t / 3600;
    let minutes = (t % 3600) / 60;
    let seconds = t % 60;
    let mut out: Vec<char> = Vec::new();
    if hours > 0 {
        let h = fmt_u64(hours);
        push_chars_local(&mut out, h);
        push_str_chars(&mut out, "h ");
        push_pad2(&mut out, minutes);
        push_str_chars(&mut out, "m ");
        push_pad2(&mut out, seconds);
        push_str_chars(&mut out, "s");
    } else if minutes > 0 {
        let m = fmt_u64(minutes);
        push_chars_local(&mut out, m);
        push_str_chars(&mut out, "m ");
        push_pad2(&mut out, seconds);
        push_str_chars(&mut out, "s");
    } else {
        let s = fmt_u64(seconds);
        push_chars_local(&mut out, s);
        push_str_chars(&mut out, "s");
    }
    out
}

/// One tick of the background clock: given the seconds remaining and whether
/// the two-minute warning was already posted, the events to post now and the
/// new warned flag. The clock itself never touches the session.
pub fn timer_step(secs: i64, warned: bool) -> (r: (Vec<TimerEvent>, bool))
    ensures
        secs <= 0 ==> r.0@ =~= seq![TimerEvent::TimeExpired] && r.1 == warned,
        secs > 0 && secs <= 120 && !warned ==> r.0@ =~= seq![
            TimerEvent::TwoMinuteWarning,
            TimerEvent::Tick(secs),
        ] && r.1,
        secs > 120 || (secs > 0 && warned) ==> r.0@ =~= seq![TimerEvent::Tick(secs)] && r.1
            == warned,
{
    let mut events: Vec<TimerEvent> = Vec::new();
    if secs <= 0 {
        events.push(TimerEvent::TimeExpired);
        (events, warned)
    } else if secs <= 120 && !warned {
        events.push(TimerEvent::TwoMinuteWarning);
        events.push(TimerEvent::Tick(secs));
        (events, true)
    } else {
        events.push(TimerEvent::Tick(secs));
        (events, warned)
    }
}

} // verus!
