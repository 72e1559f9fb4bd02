//! Moments in UTC, as a count of seconds and nanoseconds.

use vstd::prelude::*;

verus! {

/// Nanoseconds in a second.
pub const SECOND: i64 = 1_000_000_000;

/// The first and the last second that the calendar reaches.
pub const FIRST_SECOND: i64 = -8_334_601_228_800;

pub const LAST_SECOND: i64 = 8_210_266_876_799;

/// Whether the calendar has a moment `nanos` nanoseconds after the second
/// `secs`. A leap second counts on past the end of the last second of a minute.
pub open spec fn is_moment(secs: int, nanos: int) -> bool {
    &&& FIRST_SECOND <= secs <= LAST_SECOND
    &&& 0 <= nanos < 2 * SECOND
    &&& nanos >= SECOND ==> secs % 60 == 59
}

/// The text of a moment in UTC, such as `2015-05-15 00:00:00 UTC`.
pub uninterp spec fn utc_text(secs: int, nanos: int) -> Seq<char>;

/// The moment as year, month, day, hour, minute and second, with nothing between
/// them, such as `20150515000000`.
pub uninterp spec fn utc_stamp(secs: int, nanos: int) -> Seq<char>;

/// The nanoseconds from `b` to `a`, each a second and its nanoseconds. A leap
/// second between the two counts, going by the times of day alone.
pub open spec fn nanos_between(a: (int, int), b: (int, int)) -> int {
    let leap = if a.0 % 86400 > b.0 % 86400 && b.1 >= SECOND {
        1int
    } else if a.0 % 86400 < b.0 % 86400 && a.1 >= SECOND {
        -1
    } else {
        0
    };
    (a.0 - b.0 + leap) * SECOND + (a.1 - b.1)
}

/// The whole milliseconds from `b` to `a`; a fraction is cut off towards zero.
pub open spec fn millis_between(a: (int, int), b: (int, int)) -> int {
    let n = nanos_between(a, b);
    if n >= 0 {
        n / 1_000_000
    } else {
        -((-n) / 1_000_000)
    }
}

/// `chrono::DateTime<Utc>` as text through its `Display`; the text depends on
/// the moment alone and goes by the name `utc_text`.
#[verifier::external_body]
fn chrono_text(secs: i64, nanos: u32) -> (r: String)
    requires
        is_moment(secs as int, nanos as int),
    ensures
        r@ == utc_text(secs as int, nanos as int),
{
    chrono::DateTime::from_timestamp(secs, nanos).unwrap().to_string()
}

/// `chrono::DateTime<Utc>::format` with the pattern `%Y%m%d%H%M%S`; the text
/// depends on the moment alone and goes by the name `utc_stamp`.
#[verifier::external_body]
fn chrono_stamp(secs: i64, nanos: u32) -> (r: String)
    requires
        is_moment(secs as int, nanos as int),
    ensures
        r@ == utc_stamp(secs as int, nanos as int),
{
    chrono::DateTime::from_timestamp(secs, nanos).unwrap().format("%Y%m%d%H%M%S").to_string()
}

/// `chrono::DateTime::signed_duration_since` and `TimeDelta::num_milliseconds`:
/// the milliseconds from the second moment to the first, fraction cut off.
#[verifier::external_body]
fn chrono_millis(a: (i64, u32), b: (i64, u32)) -> (r: i64)
    requires
        is_moment(a.0 as int, a.1 as int),
        is_moment(b.0 as int, b.1 as int),
    ensures
        r == millis_between((a.0 as int, a.1 as int), (b.0 as int, b.1 as int)),
{
    let later = chrono::DateTime::from_timestamp(a.0, a.1).unwrap();
    let earlier = chrono::DateTime::from_timestamp(b.0, b.1).unwrap();
    later.signed_duration_since(earlier).num_milliseconds()
}

/// `chrono::Utc::now`: a moment of the calendar as the clock has it, never
/// before 1970 and never inside a leap second. Which one is not said: that is
/// up to the clock, and a later call may give an earlier moment. It needs a
/// clock that is set to 1970 or later.
#[verifier::external_body]
fn chrono_now() -> (r: (i64, u32))
    ensures
        is_moment(r.0 as int, r.1 as int),
        r.0 >= 0,
        r.1 < SECOND,
{
    let now = chrono::Utc::now();
    (now.timestamp(), now.timestamp_subsec_nanos())
}

/// Whether `s` is a time of day: two digits each for hour, minute and second,
/// with colons between.
pub open spec fn is_clock_text(s: Seq<char>) -> bool {
    &&& s.len() == 8
    &&& forall|i: int|
        0 <= i < 8 ==> if i == 2 || i == 5 {
            #[trigger] s[i] == ':'
        } else {
            '0' <= s[i] <= '9'
        }
}

/// `chrono::Local::now` formatted with `%H:%M:%S`: the time of day where the
/// program runs. Which one is not said, only its form.
#[verifier::external_body]
pub(crate) fn local_clock() -> (r: String)
    ensures
        is_clock_text(r@),
{
    chrono::Local::now().format("%H:%M:%S").to_string()
}

/// Whether `s` is a date and a time of day in digits: four for the year, and two
/// each for month, day, hour, minute and second. A year that is not between 0
/// and 9999 has a sign and may have more digits.
pub open spec fn is_stamp(s: Seq<char>) -> bool {
    let signed = s.len() > 0 && (s[0] == '+' || s[0] == '-');
    let digits = if signed {
        s.skip(1)
    } else {
        s
    };
    &&& if signed {
        digits.len() >= 14
    } else {
        digits.len() == 14
    }
    &&& forall|i: int| 0 <= i < digits.len() ==> '0' <= #[trigger] digits[i] <= '9'
}

/// `chrono::Local::now` formatted with `%Y%m%d%H%M%S`: the date and time where
/// the program runs. Which one is not said, only its form.
#[verifier::external_body]
pub(crate) fn local_stamp() -> (r: String)
    ensures
        is_stamp(r@),
{
    chrono::Local::now().format("%Y%m%d%H%M%S").to_string()
}

/// A moment in UTC.
#[derive(Debug, Clone, Copy, PartialEq, Eq, Structural)]
pub struct Timestamp {
    secs: i64,
    nanos: u32,
}

impl View for Timestamp {
    type V = (int, int);

    closed spec fn view(&self) -> (int, int) {
        (self.secs as int, self.nanos as int)
    }
}

impl Timestamp {
    #[verifier::type_invariant]
    spec fn in_calendar(self) -> bool {
        is_moment(self.secs as int, self.nanos as int)
    }

    /// The moment `nanos` nanoseconds after the second `secs`, counted from
    /// the beginning of 1970; none where the calendar has no such moment.
    pub fn new(secs: i64, nanos: u32) -> (r: Option<Timestamp>)
        ensures
            match r {
                Some(t) => is_moment(secs as int, nanos as int) && t@ == (
                    secs as int,
                    nanos as int,
                ),
                None => !is_moment(secs as int, nanos as int),
            },
    {
        if FIRST_SECOND <= secs && secs <= LAST_SECOND && (nanos as i64) < 2 * SECOND && ((
        nanos as i64) < SECOND || ends_minute(secs)) {
            Some(Timestamp { secs, nanos })
        } else {
            None
        }
    }

    /// The moment that the clock shows, in 1970 or later. The clock counts no
    /// leap seconds, so the nanoseconds stay below a second.
    pub fn now() -> (r: Timestamp)
        ensures
            is_moment(r@.0, r@.1),
            r@.0 >= 0,
            r@.1 < SECOND,
    {
        let (secs, nanos) = chrono_now();
        Timestamp { secs, nanos }
    }

    /// The second.
    pub fn secs(&self) -> (r: i64)
        ensures
            r == self@.0,
            is_moment(self@.0, self@.1),
    {
        proof {
            use_type_invariant(self);
        }
        self.secs
    }

    /// The nanoseconds after the second.
    pub fn nanos(&self) -> (r: u32)
        ensures
            r == self@.1,
            is_moment(self@.0, self@.1),
    {
        proof {
            use_type_invariant(self);
        }
        self.nanos
    }

    /// Whether this moment comes after the other.
    pub fn is_after(&self, other: &Timestamp) -> (r: bool)
        ensures
            r == after(self@, other@),
    {
        self.secs > other.secs || (self.secs == other.secs && self.nanos > other.nanos)
    }

    /// The moment as text.
    pub fn text(&self) -> (r: String)
        ensures
            r@ == utc_text(self@.0, self@.1),
    {
        proof {
            use_type_invariant(self);
        }
        chrono_text(self.secs, self.nanos)
    }

    /// The moment as one run of digits.
    pub fn stamp(&self) -> (r: String)
        ensures
            r@ == utc_stamp(self@.0, self@.1),
    {
        proof {
            use_type_invariant(self);
        }
        chrono_stamp(self.secs, self.nanos)
    }

    /// The whole milliseconds that have gone by since `earlier`; negative
    /// where that moment is the later one.
    pub fn millis_since(&self, earlier: &Timestamp) -> (r: i64)
        ensures
            r == millis_between(self@, earlier@),
    {
        proof {
            use_type_invariant(self);
            use_type_invariant(earlier);
        }
        chrono_millis((self.secs, self.nanos), (earlier.secs, earlier.nanos))
    }
}

/// Whether moment `a` comes after moment `b`.
pub open spec fn after(a: (int, int), b: (int, int)) -> bool {
    a.0 > b.0 || (a.0 == b.0 && a.1 > b.1)
}

/// Whether `secs` is the last second of a minute.
fn ends_minute(secs: i64) -> (r: bool)
    requires
        FIRST_SECOND <= secs <= LAST_SECOND,
    ensures
        r == (secs as int % 60 == 59),
{
    let shifted: u64 = (secs + 8_334_601_228_800) as u64;
    shifted % 60 == 59
}

/// Time runs one way: of two moments, if the first is after the second then
/// the second is not after the first; and a moment is not after itself.
pub proof fn law_after_is_an_order(a: (int, int), b: (int, int), c: (int, int))
    ensures
        !after(a, a),
        after(a, b) ==> !after(b, a),
        after(a, b) && after(b, c) ==> after(a, c),
        a != b ==> after(a, b) || after(b, a),
{
}

/// Between moments that are no leap seconds, the way there is as long as the
/// way back.
pub proof fn law_millis_are_antisymmetric(a: (int, int), b: (int, int))
    requires
        is_moment(a.0, a.1),
        is_moment(b.0, b.1),
        a.1 < SECOND,
        b.1 < SECOND,
    ensures
        millis_between(a, b) == -millis_between(b, a),
{
}

/// Between moments that are no leap seconds, the milliseconds are those of the
/// clock: a whole number of seconds and thousandths apart is told as it is, a
/// later moment counts forward, and less than a thousandth counts for nothing.
pub proof fn law_millis_count_the_time(b: (int, int), secs: int, millis: int, rest: int)
    requires
        0 <= b.1,
        0 <= millis < 1000,
        0 <= rest < 1_000_000,
        b.1 + millis * 1_000_000 + rest < SECOND,
        secs >= 0,
    ensures
        millis_between((b.0 + secs, b.1 + millis * 1_000_000 + rest), b) == secs * 1000 + millis,
        secs > 0 || millis > 0 || rest > 0 ==> after(
            (b.0 + secs, b.1 + millis * 1_000_000 + rest),
            b,
        ),
{
    let a = (b.0 + secs, b.1 + millis * 1_000_000 + rest);
    let n = nanos_between(a, b);
    assert(n == secs * 1_000_000_000 + millis * 1_000_000 + rest);
    assert(n == (secs * 1000 + millis) * 1_000_000 + rest);
}

} // verus!
