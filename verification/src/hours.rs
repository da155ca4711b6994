//! Times of day and business hours.
use crate::text::{decimal, decimal_text, is_digit, same};
use chrono::Timelike;
use vstd::prelude::*;

verus! {

/// A time of day, to the minute.
#[derive(Debug, Clone, Copy, PartialEq, Eq, Structural)]
pub struct ClockTime {
    pub hour: u32,
    pub minute: u32,
}

impl ClockTime {
    /// There is such a time on a clock.
    pub open spec fn valid(self) -> bool {
        self.hour < 24 && self.minute < 60
    }

    /// The minutes since midnight.
    pub open spec fn minutes(self) -> int {
        self.hour * 60 + self.minute
    }

    /// The minutes since midnight.
    pub fn minutes_of(self) -> (r: u64)
        ensures
            r == self.minutes(),
    {
        self.hour as u64 * 60 + self.minute as u64
    }
}

/// The text is made of two digits for an hour of the day, a colon, and two
/// digits for a minute of the hour.
pub open spec fn is_hhmm(s: Seq<char>) -> bool {
    &&& s.len() == 5
    &&& is_digit(s[0])
    &&& is_digit(s[1])
    &&& s[2] == ':'
    &&& is_digit(s[3])
    &&& is_digit(s[4])
    &&& two_digits(s, 0) < 24
    &&& two_digits(s, 3) < 60
}

/// The number that the two digits at `i` stand for.
pub open spec fn two_digits(s: Seq<char>, i: int) -> int {
    (s[i] as int - '0' as int) * 10 + (s[i + 1] as int - '0' as int)
}

/// The hour and the minute of the time that `chrono::NaiveTime::parse_from_str`
/// reads from a text in a format; nothing where it reads none.
pub uninterp spec fn chrono_time(text: Seq<char>, format: Seq<char>) -> Option<(u32, u32)>;

/// Calls `chrono::NaiveTime::parse_from_str`, and `hour` and `minute` on the
/// time it gives. The result depends on the text and the format alone, its hour
/// is below 24 and its minute below 60, and with the format `%H:%M` two digits,
/// a colon and two digits are read as just the hour and the minute they name.
/// What else is read is left to the name.
#[verifier::external_body]
pub(crate) fn read_time(text: &str, format: &str) -> (r: Option<(u32, u32)>)
    ensures
        chrono_time(text@, format@) == r,
        r is Some ==> (r->0).0 < 24 && (r->0).1 < 60,
        format@ == "%H:%M"@ && is_hhmm(text@) ==> r is Some && (r->0).0 == two_digits(text@, 0) && (
        r->0).1 == two_digits(text@, 3),
{
    let t = chrono::NaiveTime::parse_from_str(text, format).ok()?;
    Some((t.hour(), t.minute()))
}

/// The time that a text names.
pub open spec fn time_named(s: Seq<char>) -> Option<ClockTime> {
    match chrono_time(s, "%H:%M"@) {
        Some((hour, minute)) => Some((ClockTime { hour, minute })),
        None => None,
    }
}

/// The time that the text names, an hour and a minute with a colon between them.
pub fn parse_hm(s: &str) -> (r: Option<ClockTime>)
    ensures
        r == time_named(s@),
        r is Some ==> (r->0).valid(),
        is_hhmm(s@) ==> r is Some && (r->0).hour == two_digits(s@, 0) && (r->0).minute == two_digits(
            s@,
            3,
        ),
{
    match read_time(s, "%H:%M") {
        Some((hour, minute)) => Some(ClockTime { hour, minute }),
        None => None,
    }
}

/// The days that a customer can be reached on.
#[derive(Debug, Clone, Copy, PartialEq, Eq, Structural)]
pub enum PrefDays {
    Weekday,
    Weekend,
    Any,
}

/// When calls are made.
#[derive(Debug, Clone, PartialEq, Eq)]
pub struct BusinessHoursConfig {
    /// `mon-fri` or `everyday`.
    pub days: String,
    pub start: String,
    pub end: String,
    pub timezone: String,
}

impl Default for BusinessHoursConfig {
    fn default() -> (r: BusinessHoursConfig)
        ensures
            r.days@ == "mon-fri"@,
            r.start@ == "10:00"@,
            r.end@ == "18:00"@,
            r.timezone@ == "Asia/Tokyo"@,
    {
        BusinessHoursConfig {
            days: "mon-fri".to_owned(),
            start: "10:00".to_owned(),
            end: "18:00".to_owned(),
            timezone: "Asia/Tokyo".to_owned(),
        }
    }
}

/// Calls are made on some of the days.
pub open spec fn days_meet(configured: Seq<char>, days: PrefDays) -> bool {
    if configured == "everyday"@ {
        true
    } else if configured == "mon-fri"@ {
        days != PrefDays::Weekend
    } else {
        false
    }
}

/// Some of the time between `start` and `end` lies between `open` and `close`. A
/// bound that is not given does not bound.
pub open spec fn overlaps_given(
    start: Option<ClockTime>,
    end: Option<ClockTime>,
    open: ClockTime,
    close: ClockTime,
) -> bool {
    &&& start is Some ==> (start->0).minutes() < close.minutes()
    &&& end is Some ==> (end->0).minutes() > open.minutes()
}

/// Some of the time between `start` and `end` lies in the business hours.
pub open spec fn overlaps(
    cfg: BusinessHoursConfig,
    days: PrefDays,
    start: Option<ClockTime>,
    end: Option<ClockTime>,
) -> bool {
    match (time_named(cfg.start@), time_named(cfg.end@)) {
        (Some(open), Some(close)) => days_meet(cfg.days@, days) && overlaps_given(
            start,
            end,
            open,
            close,
        ),
        _ => false,
    }
}

/// Whether calls are made on some of the days.
pub fn days_overlap(configured: &str, days: PrefDays) -> (r: bool)
    ensures
        r == days_meet(configured@, days),
{
    if same(configured, "everyday") {
        true
    } else if same(configured, "mon-fri") {
        days != PrefDays::Weekend
    } else {
        false
    }
}

/// Whether some of the time between `start` and `end` lies between `open` and
/// `close`.
pub fn times_overlap(
    start: Option<ClockTime>,
    end: Option<ClockTime>,
    open: ClockTime,
    close: ClockTime,
) -> (r: bool)
    ensures
        r == overlaps_given(start, end, open, close),
{
    let start_ok = match start {
        Some(t) => t.minutes_of() < close.minutes_of(),
        None => true,
    };
    let end_ok = match end {
        Some(t) => t.minutes_of() > open.minutes_of(),
        None => true,
    };
    start_ok && end_ok
}

/// Whether some of the time between `start` and `end` lies in the business hours.
pub fn overlaps_business_hours(
    cfg: &BusinessHoursConfig,
    days: PrefDays,
    start: Option<ClockTime>,
    end: Option<ClockTime>,
) -> (r: bool)
    ensures
        r == overlaps(*cfg, days, start, end),
{
    match (parse_hm(cfg.start.as_str()), parse_hm(cfg.end.as_str())) {
        (Some(open), Some(close)) => days_overlap(cfg.days.as_str(), days) && times_overlap(
            start,
            end,
            open,
            close,
        ),
        _ => false,
    }
}

/// The business days in words.
pub open spec fn days_label(configured: Seq<char>) -> Seq<char> {
    if configured == "everyday"@ {
        "毎日"@
    } else {
        "平日"@
    }
}

/// The business hours in words.
pub open spec fn hours_label(cfg: BusinessHoursConfig) -> Seq<char> {
    days_label(cfg.days@) + cfg.start@ + "〜"@ + cfg.end@
}

/// The business hours in words.
pub fn business_hours_label(cfg: &BusinessHoursConfig) -> (r: String)
    ensures
        r@ == hours_label(*cfg),
{
    let mut r = if same(cfg.days.as_str(), "everyday") {
        "毎日".to_owned()
    } else {
        "平日".to_owned()
    };
    r.append(cfg.start.as_str());
    r.append("〜");
    r.append(cfg.end.as_str());
    r
}

/// A number below 100 in two digits.
pub open spec fn padded(n: nat) -> Seq<char> {
    if n < 10 {
        "0"@ + decimal(n)
    } else {
        decimal(n)
    }
}

/// The time in two digits each for the hour and the minute.
pub open spec fn clock_text(t: ClockTime) -> Seq<char> {
    padded(t.hour as nat) + ":"@ + padded(t.minute as nat)
}

fn padded_text(n: u32) -> (r: String)
    ensures
        r@ == padded(n as nat),
{
    if n < 10 {
        let mut r = "0".to_owned();
        r.append(decimal_text(n as u64).as_str());
        r
    } else {
        decimal_text(n as u64)
    }
}

/// The time in two digits each for the hour and the minute.
pub fn clock_string(t: ClockTime) -> (r: String)
    ensures
        r@ == clock_text(t),
{
    let mut r = padded_text(t.hour);
    r.append(":");
    r.append(padded_text(t.minute).as_str());
    r
}

/// A time in words is two digits, a colon and two digits, and names that time.
pub proof fn clock_texts_read_as_their_time(t: ClockTime)
    requires
        t.valid(),
    ensures
        clock_text(t).len() == 5,
        is_hhmm(clock_text(t)),
        two_digits(clock_text(t), 0) == t.hour,
        two_digits(clock_text(t), 3) == t.minute,
{
    two_digits_each(t.hour as nat);
    two_digits_each(t.minute as nat);
    reveal_strlit(":");
    let s = clock_text(t);
    let h = padded(t.hour as nat);
    let m = padded(t.minute as nat);
    assert(s[0] == h[0] && s[1] == h[1] && s[2] == ':' && s[3] == m[0] && s[4] == m[1]);
}

proof fn two_digits_each(n: nat)
    requires
        n < 100,
    ensures
        padded(n).len() == 2,
        is_digit(padded(n)[0]),
        is_digit(padded(n)[1]),
        two_digits(padded(n), 0) == n,
{
    reveal_strlit("0");
    reveal_with_fuel(decimal, 3);
    if n >= 10 {
        assert(n / 10 < 10);
        assert(n % 10 < 10);
    }
}

/// The minute lies in the stretch of time, its end left out.
pub open spec fn in_stretch(m: int, start: ClockTime, end: ClockTime) -> bool {
    start.minutes() <= m < end.minutes()
}

/// Two stretches of time overlap just where some minute lies in both: here the
/// business hours and what a customer named.
pub proof fn overlapping_times_share_a_minute(
    start: ClockTime,
    end: ClockTime,
    open: ClockTime,
    close: ClockTime,
)
    requires
        start.minutes() < end.minutes(),
        open.minutes() < close.minutes(),
    ensures
        overlaps_given(Some(start), Some(end), open, close) <==> exists|m: int| #[trigger]
            in_stretch(m, start, end) && in_stretch(m, open, close),
{
    if overlaps_given(Some(start), Some(end), open, close) {
        let m = if start.minutes() < open.minutes() {
            open.minutes()
        } else {
            start.minutes()
        };
        assert(in_stretch(m, start, end) && in_stretch(m, open, close));
    }
}

/// A bound that is not given never keeps a stretch from overlapping.
pub proof fn open_ends_do_not_bound(
    start: Option<ClockTime>,
    end: Option<ClockTime>,
    open: ClockTime,
    close: ClockTime,
)
    ensures
        overlaps_given(None, None, open, close),
        overlaps_given(start, end, open, close) == (overlaps_given(start, None, open, close)
            && overlaps_given(None, end, open, close)),
        start is Some ==> overlaps_given(start, None, open, close) == ((start->0).minutes()
            < close.minutes()),
        end is Some ==> overlaps_given(None, end, open, close) == (open.minutes() < (
        end->0).minutes()),
{
}

/// Calls are made on any day where they are made on some; on weekdays and weekends
/// where they are made every day, on weekdays alone from Monday to Friday, and
/// never on days that are set to anything else.
pub proof fn days_meet_as_configured(configured: Seq<char>)
    ensures
        days_meet(configured, PrefDays::Any) == (days_meet(configured, PrefDays::Weekday)
            || days_meet(configured, PrefDays::Weekend)),
        days_meet("everyday"@, PrefDays::Weekday),
        days_meet("everyday"@, PrefDays::Weekend),
        days_meet("mon-fri"@, PrefDays::Weekday),
        !days_meet("mon-fri"@, PrefDays::Weekend),
        configured != "everyday"@ && configured != "mon-fri"@ ==> !days_meet(
            configured,
            PrefDays::Any,
        ),
{
    reveal_strlit("everyday");
    reveal_strlit("mon-fri");
    assert("everyday"@.len() == 8);
    assert("mon-fri"@.len() == 7);
}

/// A window overlaps the business hours just where its days do and its times do,
/// and never where the hours name no time.
pub proof fn overlap_needs_days_and_times(
    cfg: BusinessHoursConfig,
    days: PrefDays,
    start: Option<ClockTime>,
    end: Option<ClockTime>,
)
    ensures
        overlaps(cfg, days, start, end) ==> days_meet(cfg.days@, days) && time_named(
            cfg.start@,
        ) is Some && time_named(cfg.end@) is Some && overlaps_given(
            start,
            end,
            time_named(cfg.start@)->0,
            time_named(cfg.end@)->0,
        ),
        days_meet(cfg.days@, days) && time_named(cfg.start@) is Some && time_named(cfg.end@) is Some
            && overlaps_given(
            start,
            end,
            time_named(cfg.start@)->0,
            time_named(cfg.end@)->0,
        ) ==> overlaps(cfg, days, start, end),
{
}

/// The business hours in words are a word of two characters for the days, the
/// start, a wave dash and the end; only hours on every day are called daily.
pub proof fn hours_are_told_as_configured(cfg: BusinessHoursConfig)
    ensures
        ({
            let t = hours_label(cfg);
            let n = cfg.start@.len() as int;
            &&& t.len() == 3 + n + cfg.end@.len()
            &&& t.subrange(2, 2 + n) == cfg.start@
            &&& t[2 + n] == '〜'
            &&& t.skip(3 + n) == cfg.end@
            &&& t[0] == '毎' <==> cfg.days@ == "everyday"@
            &&& t[0] == '平' <==> cfg.days@ != "everyday"@
            &&& t[1] == '日'
        }),
{
    reveal_strlit("平日");
    reveal_strlit("毎日");
    reveal_strlit("〜");
    let t = hours_label(cfg);
    let n = cfg.start@.len() as int;
    assert(t.subrange(2, 2 + n) =~= cfg.start@);
    assert(t.skip(3 + n) =~= cfg.end@);
    assert("平日"@[0] == '平' && "平日"@[1] == '日');
    assert("毎日"@[0] == '毎' && "毎日"@[1] == '日');
    assert(t[0] == days_label(cfg.days@)[0]);
    assert(t[1] == days_label(cfg.days@)[1]);
}

} // verus!
