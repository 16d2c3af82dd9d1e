//! Instants in UTC and the session boundary computed from them.
use vstd::prelude::*;
use crate::cluster::GroupKey;
use crate::error::ScanError;

verus! {

/// Seconds in a day.
pub const SECS_PER_DAY: i64 = 86400;

/// An instant: whole seconds since 1970-01-01T00:00:00 UTC and the
/// nanoseconds past that second.
#[derive(Clone, Copy, Debug, PartialEq, Eq, Structural, Hash)]
pub struct Timestamp {
    pub secs: i64,
    pub nanos: u32,
}

impl Timestamp {
    /// `self` is the instant `b` or a later one.
    pub open spec fn at_or_after_spec(self, b: Timestamp) -> bool {
        self.secs > b.secs || (self.secs == b.secs && self.nanos >= b.nanos)
    }

    pub fn is_at_or_after(&self, b: &Timestamp) -> (r: bool)
        ensures
            r == self.at_or_after_spec(*b),
    {
        self.secs > b.secs || (self.secs == b.secs && self.nanos >= b.nanos)
    }
}

impl GroupKey for Timestamp {
    /// The seconds, shifted to be non-negative, above 32 bits of nanoseconds.
    open spec fn code_spec(&self) -> u128 {
        ((self.secs as int + 0x8000_0000_0000_0000) * 0x1_0000_0000 + self.nanos as int) as u128
    }

    fn code(&self) -> (r: u128) {
        let shifted = (self.secs as i128 + 0x8000_0000_0000_0000) as u128;
        assert(shifted * 0x1_0000_0000 <= 0xffff_ffff_ffff_ffff_0000_0000) by (nonlinear_arith)
            requires
                shifted <= 0xffff_ffff_ffff_ffff,
        ;
        shifted * 0x1_0000_0000 + self.nanos as u128
    }

    proof fn lemma_code_injective(a: Timestamp, b: Timestamp) {
        let sa = a.secs as int + 0x8000_0000_0000_0000;
        let sb = b.secs as int + 0x8000_0000_0000_0000;
        assert(0 <= sa * 0x1_0000_0000 + a.nanos as int <= u128::MAX) by (nonlinear_arith)
            requires
                0 <= sa <= 0xffff_ffff_ffff_ffff,
                a.nanos <= 0xffff_ffff,
        ;
        assert(0 <= sb * 0x1_0000_0000 + b.nanos as int <= u128::MAX) by (nonlinear_arith)
            requires
                0 <= sb <= 0xffff_ffff_ffff_ffff,
                b.nanos <= 0xffff_ffff,
        ;
        if a.code_spec() == b.code_spec() {
            vstd::arithmetic::div_mod::lemma_fundamental_div_mod_converse(
                sa * 0x1_0000_0000 + a.nanos as int,
                0x1_0000_0000,
                sa,
                a.nanos as int,
            );
            vstd::arithmetic::div_mod::lemma_fundamental_div_mod_converse(
                sb * 0x1_0000_0000 + b.nanos as int,
                0x1_0000_0000,
                sb,
                b.nanos as int,
            );
        }
    }
}

/// The day number of an instant: whole days since 1970-01-01, rounded down.
pub open spec fn day_of(t: Timestamp) -> int {
    t.secs as int / SECS_PER_DAY as int
}

/// The weekday of a day number, counted from Sunday as `0`; 1970-01-01 was a
/// Thursday.
pub open spec fn weekday_of_day(day: int) -> int {
    (day + 4) % 7
}

/// The weekday of an instant, counted from Sunday as `0`.
pub open spec fn weekday_of(t: Timestamp) -> int {
    weekday_of_day(day_of(t))
}

/// How many days back from `now` the weekday `w` last fell; `0` when it is
/// today.
pub open spec fn days_back(now: Timestamp, w: int) -> int {
    (weekday_of(now) - w + 7) % 7
}

/// The second at which the most recent day on or before `now` that falls on
/// the weekday `w` begins (midnight UTC).
pub open spec fn last_weekday_secs(now: Timestamp, w: int) -> int {
    (day_of(now) - days_back(now, w)) * SECS_PER_DAY
}

/// That midnight as an instant.
pub open spec fn last_weekday_spec(now: Timestamp, w: int) -> Timestamp {
    Timestamp { secs: last_weekday_secs(now, w) as i64, nanos: 0 }
}

/// The earliest reading from which every such midnight fits an `i64`.
pub const LAST_WEEKDAY_MIN_SECS: i64 = -9_223_372_036_854_775_808 + 7 * 86400;

/// The earliest second that a clock reading can carry (see `utc_now`).
pub const CLOCK_MIN_SECS: i64 = -200_000_000_000_000;

/// The latest second that a clock reading can carry (see `utc_now`).
pub const CLOCK_MAX_SECS: i64 = 200_000_000_000_000;

/// Relies on chrono's `From<SystemTime> for DateTime<Utc>`, applied to the
/// system clock's reading: a reading before 1970 becomes negative seconds
/// with the nanoseconds counted forward, so the nanoseconds are below one
/// second. The conversion unwraps `Utc.timestamp_opt`, which holds every
/// instant within chrono's range of about 262,000 years either side of year
/// 0; its seconds lie between the two clock bounds. A clock outside that range
/// makes it panic.
#[verifier::external_body]
fn utc_now() -> (r: Timestamp)
    ensures
        r.nanos < 1_000_000_000,
        CLOCK_MIN_SECS <= r.secs <= CLOCK_MAX_SECS,
{
    let now = chrono::DateTime::<chrono::Utc>::from(std::time::SystemTime::now());
    Timestamp { secs: now.timestamp(), nanos: now.timestamp_subsec_nanos() }
}

/// The boundary for "the last weekday `w`" is a midnight on weekday `w`, at
/// most `now` and less than seven days before it; it is today's midnight
/// exactly when today is weekday `w`.
pub proof fn lemma_last_weekday_is_recent(now: Timestamp, w: int)
    requires
        0 <= w < 7,
    ensures
        ({
            let t = last_weekday_secs(now, w);
            &&& weekday_of_day(t / SECS_PER_DAY as int) == w
            &&& t <= now.secs
            &&& t > now.secs - 7 * SECS_PER_DAY
            &&& t % SECS_PER_DAY as int == 0
            &&& (weekday_of(now) == w <==> t / SECS_PER_DAY as int == day_of(now))
            &&& now.secs >= LAST_WEEKDAY_MIN_SECS ==> i64::MIN <= t
        }),
{
    let t = last_weekday_secs(now, w);
    let s = now.secs as int;
    let d = day_of(now);
    let wd = weekday_of(now);
    let back = days_back(now, w);
    let q = (d + 4) / 7;
    let rem = s % 86400;
    assert(s == d * 86400 + rem && 0 <= rem < 86400) by {
        vstd::arithmetic::div_mod::lemma_fundamental_div_mod(s, 86400);
    }
    assert(d + 4 == 7 * q + wd && 0 <= wd < 7) by {
        vstd::arithmetic::div_mod::lemma_fundamental_div_mod(d + 4, 7);
    }
    assert(back == if wd >= w { wd - w } else { wd - w + 7 }) by {
        if wd >= w {
            vstd::arithmetic::div_mod::lemma_mod_add_multiples_vanish(wd - w, 7);
            vstd::arithmetic::div_mod::lemma_small_mod((wd - w) as nat, 7);
        } else {
            vstd::arithmetic::div_mod::lemma_small_mod((wd - w + 7) as nat, 7);
        }
    }
    let nd = d - back;
    assert(t == nd * 86400);
    assert(t / 86400 == nd) by {
        vstd::arithmetic::div_mod::lemma_div_multiples_vanish(nd, 86400);
    }
    assert(t % 86400 == 0) by {
        vstd::arithmetic::div_mod::lemma_mod_multiples_basic(nd, 86400);
    }
    let nq = if wd >= w { q } else { q - 1 };
    assert(nd + 4 == 7 * nq + w);
    assert((nd + 4) % 7 == w) by {
        vstd::arithmetic::div_mod::lemma_mod_multiples_vanish(nq, w, 7);
        vstd::arithmetic::div_mod::lemma_small_mod(w as nat, 7);
    }
    assert(s - t == back * 86400 + rem) by (nonlinear_arith)
        requires
            s == d * 86400 + rem,
            t == (d - back) * 86400,
    ;
    assert(back * 86400 <= 6 * 86400) by (nonlinear_arith)
        requires
            back <= 6,
    ;
}

/// The session boundary for "the last weekday `weekday`" (Sunday is `0`):
/// midnight UTC of the most recent day on or before `now` with that weekday,
/// which is today when today has it.
pub fn last_weekday(now: Timestamp, weekday: u32) -> (r: Result<Timestamp, ScanError>)
    requires
        now.secs >= LAST_WEEKDAY_MIN_SECS,
    ensures
        weekday >= 7 ==> r == Err::<Timestamp, ScanError>(ScanError::BadBoundarySpec(weekday)),
        weekday < 7 ==> r == Ok::<Timestamp, ScanError>(last_weekday_spec(now, weekday as int)),
{
    if weekday >= 7 {
        return Err(ScanError::BadBoundarySpec(weekday));
    }
    proof {
        lemma_last_weekday_is_recent(now, weekday as int);
    }
    let day = now.secs.checked_div_euclid(SECS_PER_DAY).unwrap();
    let wd = (day + 4).checked_rem_euclid(7).unwrap();
    let w = weekday as i64;
    let back: i64 = if wd >= w {
        wd - w
    } else {
        wd + 7 - w
    };
    assert(back as int == days_back(now, weekday as int)) by {
        if wd >= w {
            vstd::arithmetic::div_mod::lemma_small_mod((wd - w) as nat, 7);
        } else {
            vstd::arithmetic::div_mod::lemma_small_mod((wd - w + 7) as nat, 7);
        }
    }
    Ok(Timestamp { secs: (day - back) * SECS_PER_DAY, nanos: 0 })
}

/// The session boundary for "the last Tuesday", as of the system clock.
pub fn get_last_tuesday() -> (r: Timestamp)
    ensures
        weekday_of(r) == 2,
        r.nanos == 0,
        r.secs as int % SECS_PER_DAY as int == 0,
{
    let now = utc_now();
    proof {
        lemma_last_weekday_is_recent(now, 2);
    }
    match last_weekday(now, 2) {
        Ok(t) => t,
        // a weekday below seven is never refused
        Err(_) => now,
    }
}

/// The name a new session is known by: the flag, or `_one` when the flag is
/// empty.
pub fn session_name(flag: &str) -> (r: String)
    ensures
        r@ == (if flag@.len() == 0 {
            "_one"@
        } else {
            flag@
        }),
{
    if flag.is_empty() {
        "_one".to_owned()
    } else {
        flag.to_owned()
    }
}

/// Opens a session named after `flag`, starting now; nothing is kept once the
/// call returns, so it always succeeds.
pub fn start_session(flag: &str) -> (r: Result<(), ScanError>)
    ensures
        r is Ok,
{
    let _name = session_name(flag);
    let _started = utc_now();
    Ok(())
}

/// The character is an ASCII decimal digit.
pub open spec fn is_digit(c: char) -> bool {
    '0' <= c && c <= '9'
}

/// The string is a non-empty run of decimal digits.
pub open spec fn is_decimal(s: Seq<char>) -> bool {
    s.len() > 0 && forall|i: int| 0 <= i < s.len() ==> is_digit(#[trigger] s[i])
}

/// The number that a run of decimal digits writes.
pub open spec fn decimal_value(s: Seq<char>) -> int
    decreases s.len(),
{
    if s.len() == 0 {
        0
    } else {
        decimal_value(s.drop_last()) * 10 + (s.last() as int - '0' as int)
    }
}

proof fn lemma_decimal_value_grows(s: Seq<char>, k: int)
    requires
        0 <= k <= s.len(),
        forall|i: int| 0 <= i < s.len() ==> is_digit(#[trigger] s[i]),
    ensures
        decimal_value(s) >= decimal_value(s.take(k)) >= 0,
    decreases s.len(),
{
    if s.len() > 0 {
        let d = s.drop_last();
        if k == s.len() {
            assert(s.take(k) =~= s);
            lemma_decimal_value_grows(d, d.len() as int);
            assert(d.take(d.len() as int) =~= d);
        } else {
            lemma_decimal_value_grows(d, k);
            assert(d.take(k) =~= s.take(k));
        }
    }
}

/// The largest count of minutes whose seconds still fit 64 bits unsigned.
const MAX_MINUTES: u64 = 307_445_734_561_825_860;

/// The session boundary for "the last `time` minutes": `time` minutes before
/// `now`. `time` must be a run of decimal digits, and the boundary must fit
/// an `i64` of seconds; otherwise the result is `BadDuration`.
pub fn minutes_before(now: Timestamp, time: &str) -> (r: Result<Timestamp, ScanError>)
    ensures
        (r is Ok) <==> is_decimal(time@) && now.secs - 60 * decimal_value(time@) >= i64::MIN,
        (r is Ok) ==> r->Ok_0 == (Timestamp {
            secs: (now.secs - 60 * decimal_value(time@)) as i64,
            nanos: now.nanos,
        }),
        (r is Err) ==> (r->Err_0 is BadDuration) && r->Err_0->BadDuration_0@ == time@,
{
    let len = time.unicode_len();
    if len == 0 {
        return Err(ScanError::BadDuration(time.to_owned()));
    }
    let mut v: u64 = 0;
    let mut i: usize = 0;
    while i < len
        invariant
            len == time@.len(),
            i <= len,
            forall|k: int| 0 <= k < i ==> is_digit(#[trigger] time@[k]),
            v as int == decimal_value(time@.take(i as int)),
            v <= MAX_MINUTES,
        decreases len - i,
    {
        let c = time.get_char(i);
        if !('0' <= c && c <= '9') {
            return Err(ScanError::BadDuration(time.to_owned()));
        }
        let d = (c as u32 - '0' as u32) as u64;
        assert(time@.take(i as int + 1).drop_last() =~= time@.take(i as int));
        let next = v * 10 + d;
        if next > MAX_MINUTES {
            proof {
                if is_decimal(time@) {
                    lemma_decimal_value_grows(time@, i as int + 1);
                }
            }
            return Err(ScanError::BadDuration(time.to_owned()));
        }
        v = next;
        i = i + 1;
    }
    assert(time@.take(len as int) =~= time@);
    let secs = now.secs as i128 - 60 * (v as i128);
    if secs < i64::MIN as i128 {
        return Err(ScanError::BadDuration(time.to_owned()));
    }
    Ok(Timestamp { secs: secs as i64, nanos: now.nanos })
}

/// The session boundary for "the last `time` minutes", as of the system
/// clock. A `time` that is not a run of decimal digits is `BadDuration`; one
/// of at most a hundred million million minutes always gives a boundary.
pub fn session_boundary(time: &str) -> (r: Result<Timestamp, ScanError>)
    ensures
        !is_decimal(time@) ==> (r is Err) && (r->Err_0 is BadDuration) && r->Err_0->BadDuration_0@
            == time@,
        is_decimal(time@) && decimal_value(time@) <= 100_000_000_000_000 ==> (r is Ok),
{
    let now = utc_now();
    minutes_before(now, time)
}

} // verus!
