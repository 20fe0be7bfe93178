//! Wall-clock time stamps of the form `HH:MM` (UTC).

use vstd::prelude::*;
use crate::text::push_char;

verus! {

/// `std::time::SystemTime`, carried through opaquely.
#[verifier::external_type_specification]
#[verifier::external_body]
pub struct ExSystemTime(std::time::SystemTime);

/// The decimal digit `d`.
pub open spec fn digit(d: nat) -> char {
    ((48 + d) as u32) as char
}

/// `n` written with two decimal digits.
pub open spec fn two_digits(n: nat) -> Seq<char> {
    seq![digit(n / 10), digit(n % 10)]
}

/// The time stamp for a number of seconds since the Unix epoch: hours of
/// the day and minutes of the hour, in UTC.
pub open spec fn clock_text(secs: nat) -> Seq<char> {
    two_digits((secs / 3600) % 24) + seq![':'] + two_digits((secs / 60) % 60)
}

/// `t` is a time stamp, `HH:MM` with `HH < 24` and `MM < 60`.
pub open spec fn is_clock_text(t: Seq<char>) -> bool {
    exists|h: nat, m: nat|
        h < 24 && m < 60 && t == #[trigger] two_digits(h) + seq![':'] + #[trigger] two_digits(m)
}

/// Calls `SystemTime::now`. What the clock reads is not stated.
#[verifier::external_body]
fn system_now() -> std::time::SystemTime {
    std::time::SystemTime::now()
}

/// Calls `SystemTime::duration_since` with the Unix epoch and gives the whole
/// seconds; `None` when the time is earlier than the epoch. Nothing is
/// stated of the value.
#[verifier::external_body]
fn secs_since_epoch(t: &std::time::SystemTime) -> Option<u64> {
    match t.duration_since(std::time::UNIX_EPOCH) {
        Ok(d) => Some(d.as_secs()),
        Err(_) => None,
    }
}

fn digit_char(d: u64) -> (c: char)
    requires
        d < 10,
    ensures
        c == digit(d as nat),
{
    let b: u8 = 48u8 + (d as u8);
    b as char
}

fn push_two_digits(s: &mut String, n: u64)
    requires
        n < 100,
    ensures
        final(s)@ == old(s)@ + two_digits(n as nat),
{
    push_char(s, digit_char(n / 10));
    push_char(s, digit_char(n % 10));
}

/// The `HH:MM` stamp of a time given in seconds since the Unix epoch.
pub fn clock_stamp(secs: u64) -> (t: String)
    ensures
        t@ == clock_text(secs as nat),
        is_clock_text(t@),
{
    let h = (secs / 3600) % 24;
    let m = (secs / 60) % 60;
    let mut t = String::new();
    push_two_digits(&mut t, h);
    push_char(&mut t, ':');
    push_two_digits(&mut t, m);
    proof {
        assert(t@ == two_digits(h as nat) + seq![':'] + two_digits(m as nat));
    }
    t
}

/// The time stamp of the present moment; a clock set before the Unix epoch
/// reads as the epoch.
pub fn timestamp() -> (t: String)
    ensures
        is_clock_text(t@),
{
    let now = system_now();
    let secs = match secs_since_epoch(&now) {
        Some(s) => s,
        None => 0,
    };
    clock_stamp(secs)
}

} // verus!
