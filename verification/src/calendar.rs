//! Points in time: reading a date expression and naming a timestamp.
//!
//! Timestamps are whole seconds since 1970-01-01T00:00:00Z. Reading English
//! date expressions and writing a timestamp as a calendar date are left to the
//! `chrono` and `chrono-english` crates; this module decides which texts are
//! handed to them. A text is held back only where the date parser might not
//! return: where it is not ASCII, where it holds a number of more than six
//! digits, and where no digit follows the full stop behind the seconds of a
//! time.

use chrono::DateTime;
use chrono::Utc;
use chrono_english::Dialect;
use vstd::prelude::*;
use vstd::string::*;
use vstd::utf8::*;

verus! {

/// A point in time: seconds since the epoch and nanoseconds into that second.
#[derive(Debug, Clone, Copy, PartialEq, Eq, Structural)]
pub struct Instant {
    pub secs: i64,
    pub nanos: u32,
}

/// 0001-01-01T00:00:00Z, the earliest "now" a date expression is read against.
pub const EARLIEST_NOW: i64 = -62_135_596_800;

/// 9999-12-31T23:59:59Z, the latest "now" a date expression is read against.
pub const LATEST_NOW: i64 = 253_402_300_799;

/// The most digits of a number in a supported date expression.
pub const MAX_DIGITS: usize = 6;

/// The most bytes of a supported date expression.
pub const MAX_LENGTH: usize = 0xffff_fffe;

pub open spec fn is_digit(b: u8) -> bool {
    0x30 <= b <= 0x39
}

/// White space, as the date parser sees it: a space, a tab, a line feed, a
/// vertical tab, a form feed or a carriage return.
pub open spec fn is_space(b: u8) -> bool {
    b == 0x20 || 0x09 <= b <= 0x0d
}

/// A letter or an underscore: what a word of the date parser starts with.
pub open spec fn is_word_start(b: u8) -> bool {
    0x41 <= b <= 0x5a || 0x61 <= b <= 0x7a || b == 0x5f
}

/// The `n` bytes from index `from` on are all decimal digits.
pub open spec fn digit_run(e: Seq<u8>, from: int, n: int) -> bool {
    forall|j: int| from <= j < from + n ==> is_digit(#[trigger] e[j])
}

/// Where the white space begins that ends before index `k`.
pub open spec fn before_space(e: Seq<u8>, k: int) -> int
    decreases k,
{
    if k > 0 && is_space(e[k - 1]) {
        before_space(e, k - 1)
    } else {
        k
    }
}

/// Where the digits begin that end before index `k`.
pub open spec fn before_digits(e: Seq<u8>, k: int) -> int
    decreases k,
{
    if k > 0 && is_digit(e[k - 1]) {
        before_digits(e, k - 1)
    } else {
        k
    }
}

/// Where the number begins that stands before index `k`, white space apart.
pub open spec fn number_before(e: Seq<u8>, k: int) -> Option<int> {
    let end = before_space(e, k);
    let begin = before_digits(e, end);
    if begin < end {
        Some(begin)
    } else {
        None
    }
}

/// Where the colon is that stands before index `k`, white space apart.
pub open spec fn colon_before(e: Seq<u8>, k: int) -> Option<int> {
    let end = before_space(e, k);
    if end > 0 && e[end - 1] == 0x3a {
        Some(end - 1)
    } else {
        None
    }
}

/// The byte at index `k` stands where the fraction of a second begins: behind
/// three numbers with a colon between each two, as in `10:30:00`.
pub open spec fn after_seconds(e: Seq<u8>, k: int) -> bool {
    match number_before(e, k) {
        None => false,
        Some(seconds) => match colon_before(e, seconds) {
            None => false,
            Some(second_colon) => match number_before(e, second_colon) {
                None => false,
                Some(minutes) => match colon_before(e, minutes) {
                    None => false,
                    Some(first_colon) => number_before(e, first_colon) is Some,
                },
            },
        },
    }
}

/// A full stop where the fraction of a second begins is directly followed by
/// a digit.
pub open spec fn fraction_has_digit(e: Seq<u8>, k: int) -> bool {
    e[k] == 0x2e && after_seconds(e, k) ==> k + 1 < e.len() && is_digit(e[k + 1])
}

/// The letter at index `k` may open the time of day: a `T` that no letter and
/// no underscore stands before.
pub open spec fn opens_time(e: Seq<u8>, k: int) -> bool {
    e[k] == 0x54 && (k == 0 || !is_word_start(e[k - 1]))
}

/// A number begins at index `s`: a digit that no digit stands before.
pub open spec fn number_begins(e: Seq<u8>, s: int) -> bool {
    0 <= s < e.len() && is_digit(e[s]) && (s == 0 || !is_digit(e[s - 1]))
}

/// The digits from index `s` on may be of any number: they are the fraction
/// of a second, or they stand inside a word.
pub open spec fn unlimited(e: Seq<u8>, s: int) -> bool {
    s > 0 && ((e[s - 1] == 0x2e && after_seconds(e, s - 1)) || (is_word_start(e[s - 1])
        && !opens_time(e, s - 1)))
}

/// A number of more than [`MAX_DIGITS`] digits begins at index `s`.
pub open spec fn long_number(e: Seq<u8>, s: int) -> bool {
    number_begins(e, s) && s + MAX_DIGITS + 1 <= e.len() && digit_run(e, s, MAX_DIGITS + 1)
}

/// The date expressions that are handed to the date parser: ASCII of at most
/// [`MAX_LENGTH`] bytes, in which no number has more than [`MAX_DIGITS`]
/// digits, unless it is the fraction of a second or stands inside a word, and
/// in which a digit follows the full stop behind the seconds. On anything else
/// the date parser may fail to return; it counts as unreadable.
pub open spec fn supported_expression(e: Seq<u8>) -> bool {
    &&& e.len() <= MAX_LENGTH
    &&& forall|j: int| 0 <= j < e.len() ==> (#[trigger] e[j]) <= 0x7f
    &&& forall|j: int| 0 <= j < e.len() ==> #[trigger] fraction_has_digit(e, j)
    &&& forall|s: int| #[trigger] long_number(e, s) ==> unlimited(e, s)
}

fn space_begin(e: &[u8], k: usize) -> (begin: usize)
    requires
        k <= e@.len(),
    ensures
        begin == before_space(e@, k as int),
        begin <= k,
{
    let mut begin: usize = k;
    while begin > 0 && (e[begin - 1] == 0x20 || (0x09 <= e[begin - 1] && e[begin - 1] <= 0x0d))
        invariant
            begin <= k <= e@.len(),
            before_space(e@, k as int) == before_space(e@, begin as int),
        decreases begin,
    {
        begin = begin - 1;
    }
    begin
}

fn digits_begin(e: &[u8], k: usize) -> (begin: usize)
    requires
        k <= e@.len(),
    ensures
        begin == before_digits(e@, k as int),
        begin <= k,
{
    let mut begin: usize = k;
    while begin > 0 && 0x30 <= e[begin - 1] && e[begin - 1] <= 0x39
        invariant
            begin <= k <= e@.len(),
            before_digits(e@, k as int) == before_digits(e@, begin as int),
        decreases begin,
    {
        begin = begin - 1;
    }
    begin
}

fn find_number_before(e: &[u8], k: usize) -> (begin: Option<usize>)
    requires
        k <= e@.len(),
    ensures
        begin is Some <==> number_before(e@, k as int) is Some,
        begin matches Some(b) ==> number_before(e@, k as int) == Some(b as int) && b < k,
{
    let end: usize = space_begin(e, k);
    let begin: usize = digits_begin(e, end);
    if begin < end {
        Some(begin)
    } else {
        None
    }
}

fn find_colon_before(e: &[u8], k: usize) -> (at: Option<usize>)
    requires
        k <= e@.len(),
    ensures
        at is Some <==> colon_before(e@, k as int) is Some,
        at matches Some(c) ==> colon_before(e@, k as int) == Some(c as int) && c < k,
{
    let end: usize = space_begin(e, k);
    if end > 0 && e[end - 1] == 0x3a {
        Some(end - 1)
    } else {
        None
    }
}

/// Whether the byte at index `k` stands where the fraction of a second begins.
pub fn is_after_seconds(e: &[u8], k: usize) -> (b: bool)
    requires
        k <= e@.len(),
    ensures
        b == after_seconds(e@, k as int),
{
    let seconds: usize = match find_number_before(e, k) {
        Some(at) => at,
        None => {
            return false;
        },
    };
    let second_colon: usize = match find_colon_before(e, seconds) {
        Some(at) => at,
        None => {
            return false;
        },
    };
    let minutes: usize = match find_number_before(e, second_colon) {
        Some(at) => at,
        None => {
            return false;
        },
    };
    let first_colon: usize = match find_colon_before(e, minutes) {
        Some(at) => at,
        None => {
            return false;
        },
    };
    find_number_before(e, first_colon).is_some()
}

/// Whether the digits that begin at index `s` may be of any number.
fn is_unlimited(e: &[u8], s: usize) -> (b: bool)
    requires
        s < e@.len(),
    ensures
        b == unlimited(e@, s as int),
{
    if s == 0 {
        return false;
    }
    let before: u8 = e[s - 1];
    if before == 0x2e {
        return is_after_seconds(e, s - 1);
    }
    let word: bool = (0x41 <= before && before <= 0x5a) || (0x61 <= before && before <= 0x7a)
        || before == 0x5f;
    if !word {
        return false;
    }
    if before != 0x54 {
        return true;
    }
    if s == 1 {
        return false;
    }
    let earlier: u8 = e[s - 2];
    (0x41 <= earlier && earlier <= 0x5a) || (0x61 <= earlier && earlier <= 0x7a) || earlier == 0x5f
}

/// Whether a date expression is among those that are handed to the date
/// parser.
pub fn expression_supported(e: &[u8]) -> (ok: bool)
    ensures
        ok == supported_expression(e@),
{
    if e.len() > MAX_LENGTH {
        return false;
    }
    let mut i: usize = 0;
    let mut run: usize = 0;
    let mut free: bool = false;
    while i < e.len()
        invariant
            i <= e@.len() <= MAX_LENGTH,
            run <= i,
            digit_run(e@, i - run, run as int),
            run > 0 ==> number_begins(e@, i - run),
            run == 0 ==> i == 0 || !is_digit(e@[i - 1]),
            run > 0 ==> free == unlimited(e@, i - run),
            run > MAX_DIGITS ==> free,
            forall|j: int| 0 <= j < i ==> (#[trigger] e@[j]) <= 0x7f,
            forall|j: int| 0 <= j < i ==> #[trigger] fraction_has_digit(e@, j),
            forall|s: int| #[trigger] long_number(e@, s) && s + MAX_DIGITS + 1 <= i ==> unlimited(e@, s),
        decreases e@.len() - i,
    {
        let b: u8 = e[i];
        if b > 0x7f {
            return false;
        }
        if b == 0x2e && is_after_seconds(e, i) {
            if i + 1 >= e.len() || e[i + 1] < 0x30 || e[i + 1] > 0x39 {
                assert(!fraction_has_digit(e@, i as int));
                return false;
            }
        }
        if 0x30 <= b && b <= 0x39 {
            if run == 0 {
                free = is_unlimited(e, i);
            }
            if run == MAX_DIGITS && !free {
                assert(long_number(e@, i - MAX_DIGITS));
                return false;
            }
            run = run + 1;
        } else {
            run = 0;
        }
        i = i + 1;
        proof {
            assert forall|s: int| #[trigger]
                long_number(e@, s) && s + MAX_DIGITS + 1 <= i implies unlimited(e@, s) by {
                if s + MAX_DIGITS + 1 == i {
                    assert(is_digit(e@[i - 1]));
                    let begin = i - run;
                    if s < begin {
                        assert(is_digit(e@[begin - 1]));
                    } else if s > begin {
                        assert(is_digit(e@[s - 1]));
                    }
                }
            }
        }
    }
    true
}

/// The instant that `chrono_english::parse_date_string` reads from a date
/// expression in the US dialect, relative to the instant `now` in UTC: seconds
/// since the epoch and nanoseconds into the second, or `None` where it reports
/// an error.
pub uninterp spec fn date_expression_instant(text: Seq<char>, now: i64) -> Option<(i64, u32)>;

/// Calls `chrono_english::parse_date_string` with the US dialect and `now` as
/// a UTC date-time, and hands back the timestamp of what it read. Only
/// supported expressions and a `now` between the years 1 and 9999 are
/// admitted: on those the parser neither overflows, nor cuts a word inside a
/// character, nor reads a fraction that is none, nor leaves the range of dates
/// that `chrono` represents. The result is a function of the two arguments
/// alone. On some texts the parser also writes a line to standard error.
#[verifier::external_body]
fn parse_date_expression(text: &str, now: i64) -> (r: Option<(i64, u32)>)
    requires
        supported_expression(text.spec_bytes()),
        EARLIEST_NOW <= now <= LATEST_NOW,
    ensures
        r == date_expression_instant(text@, now),
{
    let base = DateTime::<Utc>::from_timestamp(now, 0)?;
    match chrono_english::parse_date_string(text, base, Dialect::Us) {
        Ok(t) => Some((t.timestamp(), t.timestamp_subsec_nanos())),
        Err(_) => None,
    }
}

/// What a date expression, given as bytes, resolves to at the instant `now`:
/// nothing unless the expression is supported, `now` lies between
/// [`EARLIEST_NOW`] and [`LATEST_NOW`], and the date parser accepts the text.
pub open spec fn resolved_instant(e: Seq<u8>, now: i64) -> Option<Instant> {
    if supported_expression(e) && EARLIEST_NOW <= now <= LATEST_NOW {
        instant_of(date_expression_instant(decode_utf8(e), now))
    } else {
        None
    }
}

/// A timestamp pair as an [`Instant`].
pub open spec fn instant_of(read: Option<(i64, u32)>) -> Option<Instant> {
    match read {
        Some((secs, nanos)) => Some(Instant { secs, nanos }),
        None => None,
    }
}

/// Turns the seconds and nanoseconds that the date parser read into an
/// [`Instant`].
pub fn to_instant(read: Option<(i64, u32)>) -> (r: Option<Instant>)
    ensures
        r == instant_of(read),
{
    match read {
        Some((secs, nanos)) => Some(Instant { secs, nanos }),
        None => None,
    }
}

/// Resolves a free-text date expression against the instant `now`.
///
/// Any text that the date parser rejects resolves to nothing. So do the texts
/// that are not handed to it, and so does everything where `now` lies outside
/// the years 1 to 9999.
pub fn resolve_date(text: &str, now: i64) -> (r: Option<Instant>)
    ensures
        r == resolved_instant(text.spec_bytes(), now),
{
    if now < EARLIEST_NOW || now > LATEST_NOW {
        return None;
    }
    if !expression_supported(text.as_bytes()) {
        return None;
    }
    proof {
        encode_utf8_decode_utf8(text@);
    }
    to_instant(parse_date_expression(text, now))
}

/// How `chrono` writes the UTC date-time of a timestamp (`2015-05-15 00:00:00
/// UTC` for 1431648000), or `None` where the timestamp lies outside the dates
/// it represents.
pub uninterp spec fn utc_label(secs: i64) -> Option<Seq<char>>;

/// Calls `chrono::DateTime::from_timestamp` and writes the date-time with its
/// `Display` impl. The text is a function of the timestamp alone.
#[verifier::external_body]
fn format_utc(secs: i64) -> (r: Option<String>)
    ensures
        r is Some <==> utc_label(secs) is Some,
        r matches Some(s) ==> utc_label(secs) == Some(s@),
{
    match DateTime::<Utc>::from_timestamp(secs, 0) {
        Some(t) => Some(t.to_string()),
        None => None,
    }
}

/// Whether a calendar date stands for the timestamp.
pub fn has_calendar_date(secs: i64) -> (dated: bool)
    ensures
        dated == (utc_label(secs) is Some),
{
    format_utc(secs).is_some()
}

/// The name of a timestamp: its UTC date and time followed by `suffix`.
pub open spec fn labelled(secs: i64, suffix: Seq<char>) -> Option<Seq<char>> {
    match utc_label(secs) {
        Some(label) => Some(label + suffix),
        None => None,
    }
}

/// Writes a timestamp as a UTC date and time and appends `suffix`; `None` for
/// a timestamp that no calendar date stands for.
pub fn label_with(secs: i64, suffix: &str) -> (r: Option<String>)
    ensures
        r is Some <==> labelled(secs, suffix@) is Some,
        r matches Some(s) ==> labelled(secs, suffix@) == Some(s@),
{
    match format_utc(secs) {
        Some(label) => Some(label.concat(suffix)),
        None => None,
    }
}

} // verus!
