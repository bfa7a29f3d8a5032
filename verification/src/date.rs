//! The `date` response header, e.g. `date: Thu, 01 Jan 1970 00:00:00 GMT\r\n`.

use crate::calendar::{
    civil_from_days, days_before_month, days_before_year, days_from_civil, is_valid_date,
    lemma_civil_from_days, lemma_leap_after_period, lemma_march_first, lemma_year_length,
    lemma_years_ordered, march_offset, weekday_of, is_leap_year,
};
use crate::buffer::bytes_of;
use bytes::BytesMut;
use vstd::arithmetic::div_mod::lemma_fundamental_div_mod;
use vstd::prelude::*;

verus! {

/// First second that the four-digit year of the header cannot show
/// (year 10000).
pub const MAX_SECONDS: u64 = 253402300800;

pub open spec fn digit(n: int) -> u8 {
    (48 + n) as u8
}

/// Three-letter English name of the day of the week (0 = Monday).
pub open spec fn weekday_name(w: int) -> Seq<u8> {
    if w == 0 {
        seq![77u8, 111u8, 110u8]
    } else if w == 1 {
        seq![84u8, 117u8, 101u8]
    } else if w == 2 {
        seq![87u8, 101u8, 100u8]
    } else if w == 3 {
        seq![84u8, 104u8, 117u8]
    } else if w == 4 {
        seq![70u8, 114u8, 105u8]
    } else if w == 5 {
        seq![83u8, 97u8, 116u8]
    } else {
        seq![83u8, 117u8, 110u8]
    }
}

/// Three-letter English name of month `m` (1 = January).
pub open spec fn month_name(m: int) -> Seq<u8> {
    if m == 1 {
        seq![74u8, 97u8, 110u8]
    } else if m == 2 {
        seq![70u8, 101u8, 98u8]
    } else if m == 3 {
        seq![77u8, 97u8, 114u8]
    } else if m == 4 {
        seq![65u8, 112u8, 114u8]
    } else if m == 5 {
        seq![77u8, 97u8, 121u8]
    } else if m == 6 {
        seq![74u8, 117u8, 110u8]
    } else if m == 7 {
        seq![74u8, 117u8, 108u8]
    } else if m == 8 {
        seq![65u8, 117u8, 103u8]
    } else if m == 9 {
        seq![83u8, 101u8, 112u8]
    } else if m == 10 {
        seq![79u8, 99u8, 116u8]
    } else if m == 11 {
        seq![78u8, 111u8, 118u8]
    } else {
        seq![68u8, 101u8, 99u8]
    }
}

/// The header line for the instant `secs` seconds after 1970-01-01 00:00:00 UTC:
/// `date: Www, DD Mmm YYYY hh:mm:ss GMT\r\n`.
pub open spec fn date_header_bytes(secs: int) -> Seq<u8> {
    let days = secs / 86400;
    let sod = secs % 86400;
    let (y, m, d) = civil_from_days(days);
    let w = weekday_name(weekday_of(days));
    let mn = month_name(m);
    let hh = sod / 3600;
    let mi = sod % 3600 / 60;
    let ss = sod % 60;
    seq![
        100u8, 97u8, 116u8, 101u8, 58u8, 32u8, w[0], w[1], w[2], 44u8, 32u8,
        digit(d / 10), digit(d % 10), 32u8, mn[0], mn[1], mn[2], 32u8,
        digit(y / 1000), digit(y / 100 % 10), digit(y / 10 % 10), digit(y % 10), 32u8,
        digit(hh / 10), digit(hh % 10), 58u8, digit(mi / 10), digit(mi % 10), 58u8,
        digit(ss / 10), digit(ss % 10), 32u8, 71u8, 77u8, 84u8, 13u8, 10u8,
    ]
}

/// Splits day number `days` into the March-based year it falls in and the
/// day offset from March 1st of that year.
fn split_periods(days: u64) -> (res: (u64, u64))
    requires
        days < 2932897,
    ensures
        days == days_from_civil(res.0 as int, 3, 1) + res.1,
        res.1 <= 365,
        res.1 == 365 ==> is_leap_year(res.0 + 1),
        days_before_year(res.0 + 1) == days_from_civil(res.0 as int, 3, 1) + 306,
        1600 <= res.0 <= 10000,
{
    // Count from 2000-03-01 (right after a 400-year cycle's leap day),
    // shifted by one 400-year cycle so that every count is non-negative.
    let shifted: u64 = days + 135080;
    let qc_cycles: u64 = shifted / 146097;
    let mut remdays: u64 = shifted % 146097;
    proof {
        lemma_fundamental_div_mod(shifted as int, 146097);
    }
    let c_raw: u64 = remdays / 36524;
    proof {
        lemma_fundamental_div_mod(remdays as int, 36524);
    }
    let mut c_cycles: u64 = c_raw;
    if c_cycles == 4 {
        c_cycles = 3;
    }
    remdays = remdays - c_cycles * 36524;
    let q_raw: u64 = remdays / 1461;
    proof {
        lemma_fundamental_div_mod(remdays as int, 1461);
    }
    let mut q_cycles: u64 = q_raw;
    if q_cycles == 25 {
        q_cycles = 24;
    }
    remdays = remdays - q_cycles * 1461;
    let rem2: u64 = remdays;
    let y_raw: u64 = remdays / 365;
    proof {
        lemma_fundamental_div_mod(remdays as int, 365);
    }
    let mut remyears: u64 = y_raw;
    if remyears == 4 {
        remyears = 3;
    }
    remdays = remdays - remyears * 365;
    proof {
        lemma_march_first(qc_cycles as int, c_cycles as int, q_cycles as int, remyears as int);
        if remdays == 365 {
            assert(rem2 == 1460);
            assert(q_cycles < 24 || c_cycles == 3);
            lemma_leap_after_period(qc_cycles as int, c_cycles as int, q_cycles as int);
        }
    }
    let year: u64 = 1600 + remyears + 4 * q_cycles + 100 * c_cycles + 400 * qc_cycles;
    (year, remdays)
}

/// The calendar date of day number `days`.
fn civil_parts(days: u64) -> (res: (u64, u64, u64))
    requires
        days < 2932897,
    ensures
        is_valid_date(res.0 as int, res.1 as int, res.2 as int),
        days_from_civil(res.0 as int, res.1 as int, res.2 as int) == days,
        civil_from_days(days as int) == (res.0 as int, res.1 as int, res.2 as int),
        1970 <= res.0 <= 9999,
{
    let (mut year, r) = split_periods(days);
    let ghost march_year = year as int;
    let months: [u64; 12] = [31, 30, 31, 30, 31, 31, 30, 31, 30, 31, 31, 29];
    let mut remdays: u64 = r;
    let mut mon: usize = 0;
    while remdays >= months[mon]
        invariant
            mon < 12,
            r == march_offset(mon as int) + remdays,
            r <= 365,
            months@ == seq![31u64, 30, 31, 30, 31, 31, 30, 31, 30, 31, 31, 29],
        decreases 12 - mon,
    {
        remdays = remdays - months[mon];
        mon = mon + 1;
    }
    let mday: u64 = remdays + 1;
    let month: u64 = if mon + 3 > 12 {
        year = year + 1;
        (mon - 9) as u64
    } else {
        (mon + 3) as u64
    };
    proof {
        let y = year as int;
        let m = month as int;
        let d = mday as int;
        if m >= 3 {
            assert(days_before_month(y, m) == days_before_month(y, 3) + march_offset(m - 3));
        }
        assert(days_from_civil(y, m, d) == days);
        assert(is_valid_date(y, m, d));
        lemma_civil_from_days(days as int, y, m, d);
        if y >= 10000 {
            lemma_years_ordered(9999, y);
            assert(days_before_year(10000) == 2932897);
            if y > 10000 {
                lemma_years_ordered(10000, y);
            }
        }
        if y < 1970 {
            lemma_years_ordered(y, 1970);
        }
    }
    (year, month, mday)
}

fn weekday_bytes(w: u64) -> (name: [u8; 3])
    requires
        w < 7,
    ensures
        name@ == weekday_name(w as int),
{
    let name: [u8; 3] = if w == 0 {
        [77u8, 111u8, 110u8]
    } else if w == 1 {
        [84u8, 117u8, 101u8]
    } else if w == 2 {
        [87u8, 101u8, 100u8]
    } else if w == 3 {
        [84u8, 104u8, 117u8]
    } else if w == 4 {
        [70u8, 114u8, 105u8]
    } else if w == 5 {
        [83u8, 97u8, 116u8]
    } else {
        [83u8, 117u8, 110u8]
    };
    assert(name@ =~= weekday_name(w as int));
    name
}

fn month_bytes(m: u64) -> (name: [u8; 3])
    requires
        1 <= m <= 12,
    ensures
        name@ == month_name(m as int),
{
    let name: [u8; 3] = if m == 1 {
        [74u8, 97u8, 110u8]
    } else if m == 2 {
        [70u8, 101u8, 98u8]
    } else if m == 3 {
        [77u8, 97u8, 114u8]
    } else if m == 4 {
        [65u8, 112u8, 114u8]
    } else if m == 5 {
        [77u8, 97u8, 121u8]
    } else if m == 6 {
        [74u8, 117u8, 110u8]
    } else if m == 7 {
        [74u8, 117u8, 108u8]
    } else if m == 8 {
        [65u8, 117u8, 103u8]
    } else if m == 9 {
        [83u8, 101u8, 112u8]
    } else if m == 10 {
        [79u8, 99u8, 116u8]
    } else if m == 11 {
        [78u8, 111u8, 118u8]
    } else {
        [68u8, 101u8, 99u8]
    };
    assert(name@ =~= month_name(m as int));
    name
}

/// Computes the header line for `secs_since_epoch` seconds after the epoch.
pub fn generate_date_header(secs_since_epoch: u64) -> (header: [u8; 37])
    requires
        secs_since_epoch < MAX_SECONDS,
    ensures
        header@ == date_header_bytes(secs_since_epoch as int),
        ({
            let (y, m, d) = civil_from_days(secs_since_epoch as int / 86400);
            &&& is_valid_date(y, m, d)
            &&& days_from_civil(y, m, d) == secs_since_epoch as int / 86400
            &&& 1970 <= y <= 9999
        }),
{
    let secs = secs_since_epoch;
    let days: u64 = secs / 86400;
    let secs_of_day: u64 = secs % 86400;
    let (year, month, mday) = civil_parts(days);
    let wday = weekday_bytes((days + 3) % 7);
    let mon = month_bytes(month);

    let sec: u8 = (secs_of_day % 60) as u8;
    let min: u8 = ((secs_of_day % 3600) / 60) as u8;
    let hour: u8 = (secs_of_day / 3600) as u8;
    let day: u8 = mday as u8;
    let year: u16 = year as u16;

    // "date:    , 00     0000 00:00:00 GMT\r\n"
    let mut buf: [u8; 37] = [
        100u8, 97u8, 116u8, 101u8, 58u8, 32u8, 32u8, 32u8, 32u8, 44u8, 32u8, 48u8, 48u8, 32u8,
        32u8, 32u8, 32u8, 32u8, 48u8, 48u8, 48u8, 48u8, 32u8, 48u8, 48u8, 58u8, 48u8, 48u8, 58u8,
        48u8, 48u8, 32u8, 71u8, 77u8, 84u8, 13u8, 10u8,
    ];
    buf[6] = wday[0];
    buf[7] = wday[1];
    buf[8] = wday[2];
    buf[11] = 48u8 + day / 10;
    buf[12] = 48u8 + day % 10;
    buf[14] = mon[0];
    buf[15] = mon[1];
    buf[16] = mon[2];
    buf[18] = 48u8 + (year / 1000) as u8;
    buf[19] = 48u8 + (year / 100 % 10) as u8;
    buf[20] = 48u8 + (year / 10 % 10) as u8;
    buf[21] = 48u8 + (year % 10) as u8;
    buf[23] = 48u8 + hour / 10;
    buf[24] = 48u8 + hour % 10;
    buf[26] = 48u8 + min / 10;
    buf[27] = 48u8 + min % 10;
    buf[29] = 48u8 + sec / 10;
    buf[30] = 48u8 + sec % 10;
    assert(buf@ =~= date_header_bytes(secs_since_epoch as int));
    buf
}

/// Nanoseconds since the epoch of the instant `secs` s + `nanos` ns.
pub open spec fn instant_nanos(secs: int, nanos: int) -> int {
    secs * 1_000_000_000 + nanos
}

/// The cached header line and the instant it was made for.
pub struct Time {
    bytes: [u8; 37],
    secs: u64,
    nanos: u32,
}

impl Time {
    #[verifier::type_invariant]
    spec fn inv(self) -> bool {
        &&& self.secs < MAX_SECONDS
        &&& self.nanos < 1_000_000_000
        &&& self.bytes@ == date_header_bytes(self.secs as int)
    }

    /// Seconds part of the instant the cached header was made for.
    pub closed spec fn seconds(self) -> int {
        self.secs as int
    }

    /// Nanoseconds part of the instant the cached header was made for.
    pub closed spec fn subsec_nanos(self) -> int {
        self.nanos as int
    }

    /// The cached header line.
    pub closed spec fn header(self) -> Seq<u8> {
        self.bytes@
    }

    /// A cache made at the instant `now_secs` s + `now_nanos` ns after the epoch.
    pub fn new(now_secs: u64, now_nanos: u32) -> (t: Time)
        requires
            now_secs < MAX_SECONDS,
            now_nanos < 1_000_000_000,
        ensures
            t.seconds() == now_secs,
            t.subsec_nanos() == now_nanos,
            t.header() == date_header_bytes(now_secs as int),
    {
        Time { bytes: generate_date_header(now_secs), secs: now_secs, nanos: now_nanos }
    }
}

/// Whether a cache made at `then` is a whole second or more older than `now`
/// (never when `now` lies before `then`).
pub open spec fn is_stale(then_secs: int, then_nanos: int, now_secs: int, now_nanos: int) -> bool {
    instant_nanos(now_secs, now_nanos) - instant_nanos(then_secs, then_nanos) >= 1_000_000_000
}

/// Whether the instant `now` lies before the instant `then` (the clock went
/// back).
pub open spec fn is_before(now_secs: int, now_nanos: int, then_secs: int, then_nanos: int) -> bool {
    instant_nanos(now_secs, now_nanos) < instant_nanos(then_secs, then_nanos)
}

impl Time {
    /// Whether the cache is a whole second or more older than `now`.
    pub fn is_stale_at(&self, now_secs: u64, now_nanos: u32) -> (b: bool)
        requires
            now_nanos < 1_000_000_000,
        ensures
            b == is_stale(self.seconds(), self.subsec_nanos(), now_secs as int, now_nanos as int),
    {
        proof {
            use_type_invariant(self);
        }
        if now_secs > self.secs {
            now_secs - self.secs >= 2 || now_nanos >= self.nanos
        } else {
            false
        }
    }
}

/// Appends the `date` header line to `buf`, first renewing the cache when it
/// is one second or more older than `now`.  Returns whether `now` lies before
/// the instant of the cache (the clock went back); the cache is kept then.
/// Unless the clock went back, the line appended is that of an instant less
/// than a second before `now`, or `now` itself.
pub fn set_date_header(cache: &mut Time, now_secs: u64, now_nanos: u32, buf: &mut BytesMut) -> (went_back: bool)
    requires
        is_stale(old(cache).seconds(), old(cache).subsec_nanos(), now_secs as int, now_nanos as int)
            ==> now_secs < MAX_SECONDS,
        now_nanos < 1_000_000_000,
        bytes_of(*old(buf)).len() + 37 <= isize::MAX,
    ensures
        ({
            let stale = is_stale(
                old(cache).seconds(),
                old(cache).subsec_nanos(),
                now_secs as int,
                now_nanos as int,
            );
            &&& stale ==> final(cache).seconds() == now_secs && final(cache).subsec_nanos()
                == now_nanos
            &&& !stale ==> *final(cache) == *old(cache)
        }),
        went_back == is_before(
            now_secs as int,
            now_nanos as int,
            old(cache).seconds(),
            old(cache).subsec_nanos(),
        ),
        !went_back ==> instant_nanos(now_secs as int, now_nanos as int) - 1_000_000_000
            < instant_nanos(final(cache).seconds(), final(cache).subsec_nanos())
            <= instant_nanos(now_secs as int, now_nanos as int),
        final(cache).header() == date_header_bytes(final(cache).seconds()),
        bytes_of(*final(buf)) == bytes_of(*old(buf)) + final(cache).header(),
{
    proof {
        use_type_invariant(&*cache);
    }
    let went_back = now_secs < cache.secs || (now_secs == cache.secs && now_nanos < cache.nanos);
    if cache.is_stale_at(now_secs, now_nanos) {
        *cache = Time::new(now_secs, now_nanos);
    }
    proof {
        use_type_invariant(&*cache);
    }
    let bytes: &[u8] = cache.bytes.as_slice();
    buf.extend_from_slice(bytes);
    went_back
}

/// The character of a digit (0 ..= 9) is an ASCII digit that stands for it.
proof fn lemma_digit(n: int)
    requires
        0 <= n <= 9,
    ensures
        48 <= digit(n) <= 57,
        digit(n) - 48 == n,
{
}

/// Two digits (0 ..= 9) with the same character are the same digit.
proof fn lemma_digit_injective(a: int, b: int)
    requires
        0 <= a <= 9,
        0 <= b <= 9,
        digit(a) == digit(b),
    ensures
        a == b,
{
}

/// The month names are distinct.
proof fn lemma_month_name_injective(m1: int, m2: int)
    requires
        1 <= m1 <= 12,
        1 <= m2 <= 12,
        month_name(m1)[0] == month_name(m2)[0],
        month_name(m1)[1] == month_name(m2)[1],
        month_name(m1)[2] == month_name(m2)[2],
    ensures
        m1 == m2,
{
}

/// A number below 10000 is given by its four decimal digits.
proof fn lemma_four_digits(y1: int, y2: int)
    requires
        0 <= y1 < 10000,
        0 <= y2 < 10000,
        y1 / 1000 == y2 / 1000,
        y1 / 100 % 10 == y2 / 100 % 10,
        y1 / 10 % 10 == y2 / 10 % 10,
        y1 % 10 == y2 % 10,
    ensures
        y1 == y2,
{
    assert(y1 / 100 == 10 * (y1 / 1000) + y1 / 100 % 10);
    assert(y2 / 100 == 10 * (y2 / 1000) + y2 / 100 % 10);
    assert(y1 / 10 == 10 * (y1 / 100) + y1 / 10 % 10);
    assert(y2 / 10 == 10 * (y2 / 100) + y2 / 10 % 10);
}

/// The header line tells the second: distinct instants before year 10000
/// give distinct `date` header lines.
pub proof fn lemma_date_header_injective(s1: int, s2: int)
    requires
        0 <= s1 < MAX_SECONDS,
        0 <= s2 < MAX_SECONDS,
        s1 != s2,
    ensures
        date_header_bytes(s1) != date_header_bytes(s2),
{
    if date_header_bytes(s1) == date_header_bytes(s2) {
        let h1 = date_header_bytes(s1);
        let h2 = date_header_bytes(s2);
        let days1 = s1 / 86400;
        let days2 = s2 / 86400;
        let sod1 = s1 % 86400;
        let sod2 = s2 % 86400;
        assert(days_before_year(10000) == 2932897);
        crate::calendar::lemma_civil_exists(days1);
        crate::calendar::lemma_civil_exists(days2);
        let (y1, m1, d1) = civil_from_days(days1);
        let (y2, m2, d2) = civil_from_days(days2);
        // the day of the month
        assert(h1[11] == h2[11] && h1[12] == h2[12]);
        lemma_digit_injective(d1 / 10, d2 / 10);
        lemma_digit_injective(d1 % 10, d2 % 10);
        assert(d1 == d2);
        // the month
        assert(h1[14] == h2[14] && h1[15] == h2[15] && h1[16] == h2[16]);
        lemma_month_name_injective(m1, m2);
        // the year
        assert(h1[18] == h2[18] && h1[19] == h2[19] && h1[20] == h2[20] && h1[21] == h2[21]);
        lemma_digit_injective(y1 / 1000, y2 / 1000);
        lemma_digit_injective(y1 / 100 % 10, y2 / 100 % 10);
        lemma_digit_injective(y1 / 10 % 10, y2 / 10 % 10);
        lemma_digit_injective(y1 % 10, y2 % 10);
        lemma_four_digits(y1, y2);
        // hence the day
        assert(days1 == days2);
        // the time of day
        assert(h1[23] == h2[23] && h1[24] == h2[24]);
        assert(h1[26] == h2[26] && h1[27] == h2[27]);
        assert(h1[29] == h2[29] && h1[30] == h2[30]);
        lemma_digit_injective(sod1 / 3600 / 10, sod2 / 3600 / 10);
        lemma_digit_injective(sod1 / 3600 % 10, sod2 / 3600 % 10);
        lemma_digit_injective(sod1 % 3600 / 60 / 10, sod2 % 3600 / 60 / 10);
        lemma_digit_injective(sod1 % 3600 / 60 % 10, sod2 % 3600 / 60 % 10);
        lemma_digit_injective(sod1 % 60 / 10, sod2 % 60 / 10);
        lemma_digit_injective(sod1 % 60 % 10, sod2 % 60 % 10);
        assert(sod1 / 3600 == sod2 / 3600);
        assert(sod1 % 3600 / 60 == sod2 % 3600 / 60);
        assert(sod1 % 60 == sod2 % 60);
        assert(sod1 % 3600 == 60 * (sod1 % 3600 / 60) + sod1 % 60);
        assert(sod2 % 3600 == 60 * (sod2 % 3600 / 60) + sod2 % 60);
        assert(sod1 == sod2);
        assert(false);
    }
}

/// The number written by the two decimal digits at `h[i]` and `h[i + 1]`.
pub open spec fn two_digit_number(h: Seq<u8>, i: int) -> int {
    (h[i] - 48) * 10 + (h[i + 1] - 48)
}

/// Whether the bytes `h[i..j]` are all ASCII decimal digits.
pub open spec fn digits_between(h: Seq<u8>, i: int, j: int) -> bool {
    forall|k: int| i <= k < j ==> 48 <= #[trigger] h[k] <= 57
}

/// The words of the header line: `date: `, the day of the week (1970-01-01
/// was a Thursday), the month, ` GMT` CR LF and the separators.
#[verifier::spinoff_prover]
pub proof fn lemma_date_header_words(secs: int)
    requires
        0 <= secs < MAX_SECONDS,
    ensures
        ({
            let h = date_header_bytes(secs);
            let days = secs / 86400;
            let m = civil_from_days(days).1;
            let wd = h.subrange(6, 9);
            let mn = h.subrange(14, 17);
            &&& h.len() == 37
            &&& h.subrange(0, 6) == seq![100u8, 97u8, 116u8, 101u8, 58u8, 32u8]
            &&& (days % 7 == 0 ==> wd == seq![84u8, 104u8, 117u8])
            &&& (days % 7 == 1 ==> wd == seq![70u8, 114u8, 105u8])
            &&& (days % 7 == 2 ==> wd == seq![83u8, 97u8, 116u8])
            &&& (days % 7 == 3 ==> wd == seq![83u8, 117u8, 110u8])
            &&& (days % 7 == 4 ==> wd == seq![77u8, 111u8, 110u8])
            &&& (days % 7 == 5 ==> wd == seq![84u8, 117u8, 101u8])
            &&& (days % 7 == 6 ==> wd == seq![87u8, 101u8, 100u8])
            &&& h[9] == 44u8 && h[10] == 32u8 && h[13] == 32u8 && h[17] == 32u8 && h[22] == 32u8
            &&& h[25] == 58u8 && h[28] == 58u8
            &&& (m == 1 ==> mn == seq![74u8, 97u8, 110u8])
            &&& (m == 2 ==> mn == seq![70u8, 101u8, 98u8])
            &&& (m == 3 ==> mn == seq![77u8, 97u8, 114u8])
            &&& (m == 4 ==> mn == seq![65u8, 112u8, 114u8])
            &&& (m == 5 ==> mn == seq![77u8, 97u8, 121u8])
            &&& (m == 6 ==> mn == seq![74u8, 117u8, 110u8])
            &&& (m == 7 ==> mn == seq![74u8, 117u8, 108u8])
            &&& (m == 8 ==> mn == seq![65u8, 117u8, 103u8])
            &&& (m == 9 ==> mn == seq![83u8, 101u8, 112u8])
            &&& (m == 10 ==> mn == seq![79u8, 99u8, 116u8])
            &&& (m == 11 ==> mn == seq![78u8, 111u8, 118u8])
            &&& (m == 12 ==> mn == seq![68u8, 101u8, 99u8])
            &&& h.subrange(31, 37) == seq![32u8, 71u8, 77u8, 84u8, 13u8, 10u8]
        }),
{
    let h = date_header_bytes(secs);
    let days = secs / 86400;
    assert(h.subrange(0, 6) =~= seq![100u8, 97u8, 116u8, 101u8, 58u8, 32u8]);
    assert(h.subrange(31, 37) =~= seq![32u8, 71u8, 77u8, 84u8, 13u8, 10u8]);
    assert(h.subrange(6, 9) =~= weekday_name(weekday_of(days)));
    assert(h.subrange(14, 17) =~= month_name(civil_from_days(days).1));
}

/// A number below 100 in two decimal digits.
proof fn lemma_two_digits(n: int)
    requires
        0 <= n < 100,
    ensures
        48 <= digit(n / 10) <= 57,
        48 <= digit(n % 10) <= 57,
        (digit(n / 10) - 48) * 10 + (digit(n % 10) - 48) == n,
{
    assert(n == 10 * (n / 10) + n % 10);
}

/// A year below 10000 in its four decimal digits, taken two by two.
proof fn lemma_year_digits(y: int)
    requires
        0 <= y < 10000,
    ensures
        48 <= digit(y / 1000) <= 57,
        48 <= digit(y / 100 % 10) <= 57,
        48 <= digit(y / 10 % 10) <= 57,
        48 <= digit(y % 10) <= 57,
        (digit(y / 1000) - 48) * 10 + (digit(y / 100 % 10) - 48) == y / 100,
        (digit(y / 10 % 10) - 48) * 10 + (digit(y % 10) - 48) == y % 100,
        y / 100 * 100 + y % 100 == y,
{
    assert(y / 1000 == (y / 100) / 10 && y / 100 % 10 == (y / 100) % 10);
    assert(y / 10 % 10 == (y % 100) / 10 && y % 10 == (y % 100) % 10);
    lemma_two_digits(y / 100);
    lemma_two_digits(y % 100);
}

/// A second of the day as hour, minute and second in two decimal digits each.
proof fn lemma_time_digits(sod: int)
    requires
        0 <= sod < 86400,
    ensures
        ({
            let hh = sod / 3600;
            let mi = sod % 3600 / 60;
            let ss = sod % 60;
            &&& hh < 24 && mi < 60 && ss < 60
            &&& hh * 3600 + mi * 60 + ss == sod
            &&& 48 <= digit(hh / 10) <= 57 && 48 <= digit(hh % 10) <= 57
            &&& 48 <= digit(mi / 10) <= 57 && 48 <= digit(mi % 10) <= 57
            &&& 48 <= digit(ss / 10) <= 57 && 48 <= digit(ss % 10) <= 57
            &&& (digit(hh / 10) - 48) * 10 + (digit(hh % 10) - 48) == hh
            &&& (digit(mi / 10) - 48) * 10 + (digit(mi % 10) - 48) == mi
            &&& (digit(ss / 10) - 48) * 10 + (digit(ss % 10) - 48) == ss
        }),
{
    let hh = sod / 3600;
    let mi = sod % 3600 / 60;
    let ss = sod % 60;
    assert(sod % 3600 == 60 * mi + ss);
    lemma_two_digits(hh);
    lemma_two_digits(mi);
    lemma_two_digits(ss);
}

/// The bytes of the header line that hold digits, and the digits they hold.
proof fn lemma_date_header_digit_bytes(secs: int)
    requires
        0 <= secs,
    ensures
        ({
            let h = date_header_bytes(secs);
            let (y, m, d) = civil_from_days(secs / 86400);
            let sod = secs % 86400;
            &&& h[11] == digit(d / 10) && h[12] == digit(d % 10)
            &&& h[18] == digit(y / 1000) && h[19] == digit(y / 100 % 10)
            &&& h[20] == digit(y / 10 % 10) && h[21] == digit(y % 10)
            &&& h[23] == digit(sod / 3600 / 10) && h[24] == digit(sod / 3600 % 10)
            &&& h[26] == digit(sod % 3600 / 60 / 10) && h[27] == digit(sod % 3600 / 60 % 10)
            &&& h[29] == digit(sod % 60 / 10) && h[30] == digit(sod % 60 % 10)
        }),
{
}

/// The numbers of the header line: day of the month, year, hour, minute and
/// second, in decimal digits.
pub proof fn lemma_date_header_numbers(secs: int)
    requires
        0 <= secs < MAX_SECONDS,
    ensures
        ({
            let h = date_header_bytes(secs);
            let days = secs / 86400;
            let (y, m, d) = civil_from_days(days);
            &&& is_valid_date(y, m, d) && days_from_civil(y, m, d) == days && 1970 <= y <= 9999
            &&& digits_between(h, 11, 13) && digits_between(h, 18, 22) && digits_between(h, 23, 25)
            &&& digits_between(h, 26, 28) && digits_between(h, 29, 31)
            &&& two_digit_number(h, 11) == d
            &&& two_digit_number(h, 18) * 100 + two_digit_number(h, 20) == y
            &&& two_digit_number(h, 23) * 3600 + two_digit_number(h, 26) * 60 + two_digit_number(
                h,
                29,
            ) == secs % 86400
            &&& two_digit_number(h, 23) < 24 && two_digit_number(h, 26) < 60 && two_digit_number(
                h,
                29,
            ) < 60
        }),
{
    let h = date_header_bytes(secs);
    let days = secs / 86400;
    let sod = secs % 86400;
    assert(days_before_year(10000) == 2932897);
    crate::calendar::lemma_civil_exists(days);
    let (y, m, d) = civil_from_days(days);
    lemma_date_header_digit_bytes(secs);
    lemma_two_digits(d);
    lemma_year_digits(y);
    lemma_time_digits(sod);
    assert(two_digit_number(h, 11) == d);
    assert(two_digit_number(h, 18) == y / 100);
    assert(two_digit_number(h, 20) == y % 100);
    assert(two_digit_number(h, 23) == sod / 3600);
    assert(two_digit_number(h, 26) == sod % 3600 / 60);
    assert(two_digit_number(h, 29) == sod % 60);
}

/// Comparing instants given as whole seconds and nanoseconds (below one
/// second): one lies before another when its second is earlier, or the same
/// with fewer nanoseconds; a cache is stale when the clock has moved on by
/// two seconds or more, or by one second with at least as many nanoseconds.
pub proof fn lemma_instants(then_secs: int, then_nanos: int, now_secs: int, now_nanos: int)
    requires
        0 <= then_nanos < 1_000_000_000,
        0 <= now_nanos < 1_000_000_000,
    ensures
        is_before(now_secs, now_nanos, then_secs, then_nanos) <==> (now_secs < then_secs || (
        now_secs == then_secs && now_nanos < then_nanos)),
        is_stale(then_secs, then_nanos, now_secs, now_nanos) <==> (now_secs - then_secs >= 2 || (
        now_secs - then_secs == 1 && now_nanos >= then_nanos)),
{
    if now_secs - then_secs >= 2 {
        assert((now_secs - then_secs) * 1_000_000_000 >= 2_000_000_000) by (nonlinear_arith)
            requires
                now_secs - then_secs >= 2,
        ;
    } else if now_secs - then_secs <= -1 {
        assert((now_secs - then_secs) * 1_000_000_000 <= -1_000_000_000) by (nonlinear_arith)
            requires
                now_secs - then_secs <= -1,
        ;
    }
}

} // verus!
