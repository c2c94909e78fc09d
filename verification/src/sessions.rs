//! Activities, time stamps, the local calendar and the records of a day.
use crate::text::{chars_contains, chars_of, contains_seq, opt_clone, opt_view, owned, str_eq};
use vstd::prelude::*;

pub use crate::report::report;



verus! {

/// Milliseconds in one civil day.
pub const DAY_MS: u64 = 86_400_000;

/// Smallest UTC instant, in milliseconds, that the calendar library represents.
pub const CALENDAR_MIN_UTC: i64 = -8_334_601_228_800_000;

/// Largest UTC instant, in milliseconds, that the calendar library represents.
pub const CALENDAR_MAX_UTC: i64 = 8_210_266_876_799_999;

/// What was in focus during a period.
#[derive(Debug, PartialEq, Eq)]
pub struct Activity {
    pub source: String,
    pub hostname: Option<String>,
    pub app_name: Option<String>,
    pub reason: String,
}

/// The mathematical value of an [`Activity`].
pub struct ActivityView {
    pub source: Seq<char>,
    pub hostname: Option<Seq<char>>,
    pub app_name: Option<Seq<char>>,
    pub reason: Seq<char>,
}

impl View for Activity {
    type V = ActivityView;

    open spec fn view(&self) -> ActivityView {
        ActivityView {
            source: self.source@,
            hostname: opt_view(self.hostname),
            app_name: opt_view(self.app_name),
            reason: self.reason@,
        }
    }
}

impl Clone for Activity {
    fn clone(&self) -> (r: Self)
        ensures
            r@ == self@,
    {
        Activity {
            source: self.source.clone(),
            hostname: opt_clone(&self.hostname),
            app_name: opt_clone(&self.app_name),
            reason: self.reason.clone(),
        }
    }
}

/// The context that a change of focus is counted between: the source itself for
/// the VDI and the system, the hostname for the browser, the application for a
/// local application, and none otherwise.
pub open spec fn context_of(a: ActivityView) -> Option<Seq<char>> {
    if a.source == "vdi"@ || a.source == "system"@ {
        Some(a.source)
    } else if a.source == "browser"@ {
        a.hostname
    } else if a.source == "app"@ {
        a.app_name
    } else {
        None
    }
}

impl Activity {
    /// An activity of the given source and reason, with no hostname nor application.
    pub fn new(source: &str, reason: &str) -> (r: Self)
        ensures
            r@ == (ActivityView { source: source@, hostname: None, app_name: None, reason: reason@ }),
    {
        Activity { source: owned(source), hostname: None, app_name: None, reason: owned(reason) }
    }

    /// A focused browser tab on `hostname`, in Google Chrome.
    pub fn browser(hostname: String) -> (r: Self)
        ensures
            r@ == (ActivityView {
                source: "browser"@,
                hostname: Some(hostname@),
                app_name: Some("Google Chrome"@),
                reason: Seq::empty(),
            }),
    {
        Activity {
            source: owned("browser"),
            hostname: Some(hostname),
            app_name: Some(owned("Google Chrome")),
            reason: String::new(),
        }
    }

    /// A local application in the foreground.
    pub fn app(name: String, reason: &str) -> (r: Self)
        ensures
            r@ == (ActivityView {
                source: "app"@,
                hostname: None,
                app_name: Some(name@),
                reason: reason@,
            }),
    {
        Activity { source: owned("app"), hostname: None, app_name: Some(name), reason: owned(reason) }
    }

    /// See [`context_of`].
    pub fn context(&self) -> (r: Option<String>)
        ensures
            opt_view(r) == context_of(self@),
    {
        let s = self.source.as_str();
        if str_eq(s, "vdi") || str_eq(s, "system") {
            Some(self.source.clone())
        } else if str_eq(s, "browser") {
            opt_clone(&self.hostname)
        } else if str_eq(s, "app") {
            opt_clone(&self.app_name)
        } else {
            None
        }
    }
}

/// An instant: civil time in UTC milliseconds, a monotonic reading in
/// milliseconds, and the local offset from UTC in seconds.
#[derive(Clone, Copy, Debug)]
pub struct Stamp {
    pub utc: i64,
    pub mono: u64,
    pub offset: i32,
}

/// The offset the calendar library accepts: offsets of a day or more fall back to UTC.
pub open spec fn effective_offset(offset: i32) -> int {
    if -86_400 < offset < 86_400 {
        offset as int
    } else {
        0
    }
}

/// The calendar library represents this UTC instant.
pub open spec fn calendar_utc(utc: int) -> bool {
    CALENDAR_MIN_UTC <= utc <= CALENDAR_MAX_UTC
}

/// Milliseconds since the start of the local day.
pub open spec fn local_ms_of_day(utc: int, offset: i32) -> int {
    (utc + effective_offset(offset) * 1000) % (DAY_MS as int)
}

/// Milliseconds from `utc` up to the next local midnight.
pub open spec fn ms_until_midnight(utc: int, offset: i32) -> int {
    DAY_MS - local_ms_of_day(utc, offset)
}

/// The local date `YYYY-MM-DD` that the calendar library writes for an instant
/// it represents, under an offset it accepts.
pub uninterp spec fn chrono_local_date(utc: i64, offset: i32) -> Seq<char>;

/// A decimal digit.
pub open spec fn digit_char(d: int) -> char {
    (d + 48) as char
}

/// A number below one hundred in two decimal digits.
pub open spec fn two_digits(n: int) -> Seq<char> {
    seq![digit_char(n / 10), digit_char(n % 10)]
}

/// An offset in seconds as `±hh:mm`, rounded to the nearest minute, as chrono's
/// `%:z` writes it.
pub open spec fn offset_text(offset: int) -> Seq<char> {
    let a = if offset < 0 { -offset } else { offset };
    let minutes = (a + 30) / 60;
    seq![if offset < 0 { '-' } else { '+' }] + two_digits(minutes / 60) + seq![':'] + two_digits(minutes % 60)
}

/// The hour label `HHh ±hh:mm` of an instant under an offset: the local hour in
/// two digits, `h`, a space and the offset.
pub open spec fn hour_label_text(utc: int, offset: int) -> Seq<char> {
    two_digits(((utc + offset * 1000) / 3_600_000) % 24) + seq!['h', ' '] + offset_text(offset)
}

/// Whether the calendar library reads the text as a date in `%Y-%m-%d`.
pub uninterp spec fn chrono_parses_date(day: Seq<char>) -> bool;

/// The local date of a stamp: instants outside the calendar's range read as the
/// epoch, offsets it refuses as UTC.
pub open spec fn stamp_date(utc: i64, offset: i32) -> Seq<char> {
    chrono_local_date(
        if calendar_utc(utc as int) { utc } else { 0 },
        if -86_400 < offset < 86_400 { offset } else { 0 },
    )
}

/// Formats the local date with chrono: `DateTime::<Utc>::from_timestamp_millis`,
/// `with_timezone(FixedOffset::east_opt)`, `format("%Y-%m-%d")`. The text is
/// named, not stated.
#[verifier::external_body]
fn format_local_date(utc: i64, offset: i32) -> (s: String)
    requires
        calendar_utc(utc as int),
        -86_400 < offset < 86_400,
    ensures
        s@ == chrono_local_date(utc, offset),
{
    let zone = chrono::FixedOffset::east_opt(offset).unwrap();
    chrono::DateTime::from_timestamp_millis(utc).unwrap().with_timezone(&zone).format("%Y-%m-%d").to_string()
}

/// Formats the local hour with chrono: `DateTime::<Utc>::from_timestamp_millis`,
/// `with_timezone(FixedOffset::east_opt)`, `format("%Hh %:z")`. The contract
/// claims that chrono writes the local hour of the instant in two digits, then
/// `h` and a space, then the offset's sign and its hours and minutes, rounded to
/// the nearest minute, in two digits each around a colon.
#[verifier::external_body]
pub(crate) fn format_hour_label(utc: i64, offset: i32) -> (s: String)
    requires
        calendar_utc(utc as int),
        -86_400 < offset < 86_400,
    ensures
        s@ == hour_label_text(utc as int, offset as int),
{
    let zone = chrono::FixedOffset::east_opt(offset).unwrap();
    chrono::DateTime::from_timestamp_millis(utc).unwrap().with_timezone(&zone).format("%Hh %:z").to_string()
}

/// Parses a day with chrono's `NaiveDate::parse_from_str(day, "%Y-%m-%d")`; the
/// answer is named, not stated.
#[verifier::external_body]
fn chrono_parse_date(day: &str) -> (ok: bool)
    ensures
        ok == chrono_parses_date(day@),
{
    chrono::NaiveDate::parse_from_str(day, "%Y-%m-%d").is_ok()
}

/// Reads the local clock with chrono's `Local::now()`: UTC milliseconds and the
/// local offset in seconds. Of the reading only what chrono's types keep is
/// stated: the instant lies in the calendar's range and the offset, a
/// `FixedOffset`, is less than a day either way.
#[verifier::external_body]
fn local_clock() -> (r: (i64, i32))
    ensures
        calendar_utc(r.0 as int),
        -86_400 < r.1 < 86_400,
{
    let now = chrono::Local::now();
    (now.timestamp_millis(), now.offset().local_minus_utc())
}

/// The offset that the calendar library accepts.
pub fn accepted_offset(offset: i32) -> (r: i32)
    ensures
        r as int == effective_offset(offset),
{
    if -86_400 < offset && offset < 86_400 {
        offset
    } else {
        0
    }
}

impl Stamp {
    /// The current civil time and offset, with the given monotonic reading.
    pub fn now(mono: u64) -> (r: Self)
        ensures
            r.mono == mono,
            calendar_utc(r.utc as int),
            -86_400 < r.offset < 86_400,
    {
        let (utc, offset) = local_clock();
        Stamp { utc, mono, offset }
    }

    /// The local date of the stamp, `YYYY-MM-DD`.
    pub fn date(&self) -> (r: String)
        ensures
            r@ == stamp_date(self.utc, self.offset),
    {
        let utc = if CALENDAR_MIN_UTC <= self.utc && self.utc <= CALENDAR_MAX_UTC {
            self.utc
        } else {
            0
        };
        format_local_date(utc, accepted_offset(self.offset))
    }

    /// The stamp `ms` milliseconds later, on both clocks, under the same offset.
    pub fn advance(&self, ms: u64) -> (r: Self)
        requires
            ms <= i64::MAX,
            self.utc + ms <= i64::MAX,
            self.mono + ms <= u64::MAX,
        ensures
            r.utc == self.utc + ms,
            r.mono == self.mono + ms,
            r.offset == self.offset,
    {
        Stamp { utc: self.utc + ms as i64, mono: self.mono + ms, offset: self.offset }
    }
}

/// The instant is at least two days inside the range of `i64`, so that the next
/// local midnight and the day after it can be written there.
pub open spec fn midnight_defined(utc: int) -> bool {
    i64::MIN + 2 * DAY_MS <= utc <= i64::MAX - 2 * DAY_MS
}

/// Milliseconds from `at` to the next local midnight under the stamp's offset
/// (an offset change starts a new anchor).
pub fn until_midnight(at: &Stamp) -> (r: u64)
    ensures
        r as int == ms_until_midnight(at.utc as int, at.offset),
        1 <= r <= DAY_MS,
{
    let offset = accepted_offset(at.offset) as i128;
    let local: i128 = at.utc as i128 + offset * 1000;
    let day: i128 = DAY_MS as i128;
    let m: i128 = local % day;
    let within: i128 = if m < 0 { m + day } else { m };
    proof {
        assert(within as int == (local as int) % (DAY_MS as int));
    }
    (day - within) as u64
}

/// `day` is a `YYYY-MM-DD` date: ten bytes that chrono parses as a date.
pub open spec fn spec_valid_day(day: &str) -> bool {
    day.len() == 10 && chrono_parses_date(day@)
}

/// See [`spec_valid_day`].
pub fn valid_day(day: &str) -> (r: bool)
    ensures
        r == spec_valid_day(day),
{
    day.len() == 10 && chrono_parse_date(day)
}

/// A character that may stand in a hostname: a lowercase letter, a digit, or one
/// of `.-:[]`.
pub open spec fn hostname_char(c: char) -> bool {
    ('a' <= c <= 'z') || ('0' <= c <= '9') || c == '.' || c == '-' || c == ':' || c == '['
        || c == ']'
}

/// A hostname as the extension may report it: 1 to 253 allowed characters, not
/// ending in a dot and without two dots in a row. Paths, queries and uppercase
/// letters are refused.
pub open spec fn spec_valid_hostname(h: Seq<char>) -> bool {
    &&& 0 < h.len() <= 253
    &&& h.last() != '.'
    &&& forall|i: int| 0 <= i < h.len() ==> hostname_char(#[trigger] h[i])
    &&& !contains_seq(h, seq!['.', '.'])
}

/// See [`spec_valid_hostname`].
pub fn valid_hostname(host: &str) -> (r: bool)
    ensures
        r == spec_valid_hostname(host@),
{
    let v = chars_of(host);
    let n = v.len();
    if n == 0 || n > 253 {
        return false;
    }
    if v[n - 1] == '.' {
        return false;
    }
    let mut i: usize = 0;
    while i < n
        invariant
            n == v@.len(),
            v@ == host@,
            i <= n,
            forall|j: int| 0 <= j < i ==> hostname_char(#[trigger] v@[j]),
        decreases n - i,
    {
        let c = v[i];
        if !(('a' <= c && c <= 'z') || ('0' <= c && c <= '9') || c == '.' || c == '-' || c == ':'
            || c == '[' || c == ']') {
            proof {
                assert(!hostname_char(host@[i as int]));
            }
            return false;
        }
        i = i + 1;
    }
    let mut dots: Vec<char> = Vec::new();
    dots.push('.');
    dots.push('.');
    proof {
        assert(dots@ =~= seq!['.', '.']);
    }
    !chars_contains(&v, &dots)
}

/// One period of one activity, as recorded.
#[derive(Debug)]
pub struct Segment {
    pub id: i64,
    pub run_id: String,
    pub start_utc: i64,
    pub end_utc: i64,
    pub duration_ms: u64,
    pub local_date: String,
    pub offset_seconds: i32,
    pub activity: Activity,
    pub is_open: bool,
}

/// The mathematical value of a [`Segment`].
pub struct SegmentView {
    pub id: i64,
    pub run_id: Seq<char>,
    pub start_utc: i64,
    pub end_utc: i64,
    pub duration_ms: u64,
    pub local_date: Seq<char>,
    pub offset_seconds: i32,
    pub activity: ActivityView,
    pub is_open: bool,
}

impl View for Segment {
    type V = SegmentView;

    open spec fn view(&self) -> SegmentView {
        SegmentView {
            id: self.id,
            run_id: self.run_id@,
            start_utc: self.start_utc,
            end_utc: self.end_utc,
            duration_ms: self.duration_ms,
            local_date: self.local_date@,
            offset_seconds: self.offset_seconds,
            activity: self.activity@,
            is_open: self.is_open,
        }
    }
}

impl Clone for Segment {
    fn clone(&self) -> (r: Self)
        ensures
            r@ == self@,
    {
        Segment {
            id: self.id,
            run_id: self.run_id.clone(),
            start_utc: self.start_utc,
            end_utc: self.end_utc,
            duration_ms: self.duration_ms,
            local_date: self.local_date.clone(),
            offset_seconds: self.offset_seconds,
            activity: self.activity.clone(),
            is_open: self.is_open,
        }
    }
}

/// A new, open, empty segment of `activity` starting at `at`.
pub open spec fn new_segment(run: Seq<char>, at: Stamp, activity: ActivityView) -> SegmentView {
    SegmentView {
        id: 0,
        run_id: run,
        start_utc: at.utc,
        end_utc: at.utc,
        duration_ms: 0,
        local_date: stamp_date(at.utc, at.offset),
        offset_seconds: at.offset,
        activity: activity,
        is_open: true,
    }
}

impl Segment {
    /// See [`new_segment`].
    pub fn new(run: &str, at: &Stamp, activity: Activity) -> (r: Self)
        ensures
            r@ == new_segment(run@, *at, activity@),
    {
        Segment {
            id: 0,
            run_id: owned(run),
            start_utc: at.utc,
            end_utc: at.utc,
            duration_ms: 0,
            local_date: at.date(),
            offset_seconds: at.offset,
            activity,
            is_open: true,
        }
    }
}

/// A category that sites and applications can be given.
#[derive(Debug)]
pub struct Category {
    pub id: String,
    pub name: String,
    pub distraction: bool,
}

/// The mathematical value of a [`Category`].
pub struct CategoryView {
    pub id: Seq<char>,
    pub name: Seq<char>,
    pub distraction: bool,
}

impl View for Category {
    type V = CategoryView;

    open spec fn view(&self) -> CategoryView {
        CategoryView { id: self.id@, name: self.name@, distraction: self.distraction }
    }
}

impl Clone for Category {
    fn clone(&self) -> (r: Self)
        ensures
            r@ == self@,
    {
        Category { id: self.id.clone(), name: self.name.clone(), distraction: self.distraction }
    }
}

/// An entry into a focused tab of a domain.
#[derive(Debug)]
pub struct Access {
    pub at_utc: i64,
    pub hostname: String,
    pub tab_key: String,
}

/// The mathematical value of an [`Access`].
pub struct AccessView {
    pub at_utc: i64,
    pub hostname: Seq<char>,
    pub tab_key: Seq<char>,
}

impl View for Access {
    type V = AccessView;

    open spec fn view(&self) -> AccessView {
        AccessView { at_utc: self.at_utc, hostname: self.hostname@, tab_key: self.tab_key@ }
    }
}

impl Clone for Access {
    fn clone(&self) -> (r: Self)
        ensures
            r@ == self@,
    {
        Access { at_utc: self.at_utc, hostname: self.hostname.clone(), tab_key: self.tab_key.clone() }
    }
}

/// Time and accesses of one domain in a day.
#[derive(Clone, Debug)]
pub struct DomainTotal {
    pub hostname: String,
    pub category: String,
    pub duration_ms: u64,
    pub accesses: u64,
}

/// Time of one local application in a day.
#[derive(Clone, Debug)]
pub struct AppTotal {
    pub label: String,
    pub category: String,
    pub duration_ms: u64,
}

/// A labelled total.
#[derive(Clone, Debug)]
pub struct Bucket {
    pub label: String,
    pub duration_ms: u64,
}

/// Everything shown and exported for one day.
#[derive(Debug)]
pub struct DayReport {
    pub schema_version: u32,
    pub date: String,
    pub sessions: Vec<Segment>,
    pub accesses: Vec<Access>,
    pub categories: Vec<Category>,
    pub domains: Vec<DomainTotal>,
    pub app_totals: Vec<AppTotal>,
    pub category_totals: Vec<Bucket>,
    pub hourly: Vec<Bucket>,
    pub vdi_ms: u64,
    pub idle_ms: u64,
    pub unknown_ms: u64,
    pub unclassified_ms: u64,
    pub unidentified_ms: u64,
    pub coverage_ms: u64,
    pub distraction_ms: Option<u64>,
    pub largest_distraction: Option<String>,
    pub longest_focus_ms: u64,
    pub context_switches: u64,
}

} // verus!
