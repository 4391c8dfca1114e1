//! Scaffolding a new, valid FSBerlin project: the directories, the config
//! text, the `why.md` stub, and the `created` date (the UTC calendar date of
//! the current time).

use vstd::prelude::*;

use std::time::{Duration, SystemTime, SystemTimeError, UNIX_EPOCH};

use crate::text::{decimal, padded_decimal, push_padded_decimal};
use crate::{Error, Result};

verus! {

/// Whether `y` is a leap year of the proleptic Gregorian calendar.
pub open spec fn is_leap(y: int) -> bool {
    (y % 4 == 0 && y % 100 != 0) || y % 400 == 0
}

/// The number of days of month `m` (1–12) of year `y`.
pub open spec fn days_in_month(y: int, m: int) -> int {
    if m == 2 {
        if is_leap(y) { 29 } else { 28 }
    } else if m == 4 || m == 6 || m == 9 || m == 11 {
        30
    } else {
        31
    }
}

/// Whether `(y, m, d)` is a calendar date.
pub open spec fn valid_date(y: int, m: int, d: int) -> bool {
    1 <= m <= 12 && 1 <= d <= days_in_month(y, m)
}

/// The number of leap years among years `1..=n` (negated count for `n < 0`).
pub open spec fn leaps_through(n: int) -> int {
    n / 4 - n / 100 + n / 400
}

/// Days from 1970-01-01 to January 1st of year `y`.
pub open spec fn days_before_year(y: int) -> int {
    365 * (y - 1970) + leaps_through(y - 1) - leaps_through(1969)
}

/// Days from January 1st of year `y` to the first day of month `m`.
pub open spec fn days_before_month(y: int, m: int) -> int {
    let base: int = if m == 1 { 0 }
    else if m == 2 { 31 }
    else if m == 3 { 59 }
    else if m == 4 { 90 }
    else if m == 5 { 120 }
    else if m == 6 { 151 }
    else if m == 7 { 181 }
    else if m == 8 { 212 }
    else if m == 9 { 243 }
    else if m == 10 { 273 }
    else if m == 11 { 304 }
    else { 334 };
    base + if m > 2 && is_leap(y) { 1int } else { 0int }
}

/// The day number (days since 1970-01-01) of the date `(y, m, d)`.
pub open spec fn days_from_civil(y: int, m: int, d: int) -> int {
    days_before_year(y) + days_before_month(y, m) + d - 1
}

/// Start (in days) of year `y` of a 400-year era that begins on March 1st.
spec fn era_year_start(y: int) -> int {
    365 * y + y / 4 - y / 100 + y / 400
}

/// Start (in days) of month `mp` of a year that begins on March 1st.
spec fn era_month_start(mp: int) -> int {
    (153 * mp + 2) / 5
}

#[verifier::spinoff_prover]
#[verifier::rlimit(100)]
proof fn lemma_year_of_era(doe: int)
    requires
        0 <= doe < 146097,
    ensures
        ({
            let yoe = (doe - doe / 1460 + doe / 36524 - doe / 146096) / 365;
            0 <= yoe < 400 && era_year_start(yoe) <= doe < era_year_start(yoe + 1)
        }),
{
}

proof fn lemma_month_of_year(doy: int)
    requires
        0 <= doy < 366,
    ensures
        ({
            let mp = (5 * doy + 2) / 153;
            0 <= mp < 12 && era_month_start(mp) <= doy < era_month_start(mp + 1)
        }),
{
}

proof fn lemma_era_year_length(yoe: int)
    requires
        0 <= yoe < 400,
    ensures
        era_year_start(yoe + 1) - era_year_start(yoe) == if is_leap(yoe + 1) { 366int } else { 365int },
{
}

proof fn lemma_shift_era(yoe: int, era: int)
    requires
        0 <= yoe < 400,
        0 <= era,
    ensures
        era_year_start(yoe + 400 * era) == era_year_start(yoe) + 146097 * era,
        is_leap(yoe + 400 * era + 1) == is_leap(yoe + 1),
{
    assert((yoe + 400 * era) / 4 == yoe / 4 + 100 * era);
    assert((yoe + 400 * era) / 100 == yoe / 100 + 4 * era);
    assert((yoe + 400 * era) / 400 == yoe / 400 + era);
    assert((yoe + 400 * era + 1) % 4 == (yoe + 1) % 4);
    assert((yoe + 400 * era + 1) % 100 == (yoe + 1) % 100);
    assert((yoe + 400 * era + 1) % 400 == (yoe + 1) % 400);
}

proof fn lemma_leaps_step(n: int)
    ensures
        leaps_through(n) == leaps_through(n - 1) + if is_leap(n) { 1int } else { 0int },
{
}

/// The date that a day of the March-based era calendar stands for.
#[verifier::spinoff_prover]
#[verifier::rlimit(50)]
proof fn lemma_civil_date(days: int, era: int, doe: int, yoe: int, doy: int, mp: int)
    requires
        days >= 0,
        era >= 0,
        0 <= doe < 146097,
        days + 719468 == 146097 * era + doe,
        0 <= yoe < 400,
        era_year_start(yoe) <= doe < era_year_start(yoe + 1),
        doy == doe - era_year_start(yoe),
        0 <= mp < 12,
        era_month_start(mp) <= doy < era_month_start(mp + 1),
    ensures
        ({
            let d = doy - era_month_start(mp) + 1;
            let m = if mp < 10 { mp + 3 } else { mp - 9 };
            let y = if m <= 2 { yoe + 400 * era + 1 } else { yoe + 400 * era };
            valid_date(y, m, d) && days_from_civil(y, m, d) == days
        }),
{
    lemma_era_year_length(yoe);
    lemma_shift_era(yoe, era);
    let big_y = yoe + 400 * era;
    lemma_leaps_step(big_y);
    lemma_leaps_step(big_y + 1);
    assert(era_year_start(big_y) == 365 * big_y + leaps_through(big_y));
    assert(leaps_through(1969) == 477);
    let d = doy - era_month_start(mp) + 1;
    let m = if mp < 10 { mp + 3 } else { mp - 9 };
    if mp < 10 {
        assert(days_before_month(big_y, m) == era_month_start(mp) + 59 + if is_leap(big_y) {
            1int
        } else {
            0int
        });
        assert(days_from_civil(big_y, m, d) == days);
    } else {
        assert(days_before_month(big_y + 1, m) == era_month_start(mp) - 306);
        assert(days_from_civil(big_y + 1, m, d) == days);
    }
}

/// The calendar date of day number `days` (days since 1970-01-01), as
/// `(year, month, day)`.
pub fn civil_from_days(days: u64) -> (ymd: (u64, u64, u64))
    requires
        days <= u64::MAX / 86400,
    ensures
        valid_date(ymd.0 as int, ymd.1 as int, ymd.2 as int),
        days_from_civil(ymd.0 as int, ymd.1 as int, ymd.2 as int) == days,
{
    let z: u64 = days + 719468;
    let era: u64 = z / 146097;
    let doe: u64 = z % 146097;
    proof {
        assert(z == 146097 * era + doe) by (nonlinear_arith)
            requires
                era == z / 146097,
                doe == z % 146097,
        ;
        assert(era <= 2000000000);
        lemma_year_of_era(doe as int);
    }
    let yoe: u64 = (doe - doe / 1460 + doe / 36524 - doe / 146096) / 365;
    let doy: u64 = doe - (365 * yoe + yoe / 4 - yoe / 100);
    proof {
        assert(yoe / 400 == 0);
        lemma_era_year_length(yoe as int);
        lemma_month_of_year(doy as int);
    }
    let mp: u64 = (5 * doy + 2) / 153;
    let d: u64 = doy - (153 * mp + 2) / 5 + 1;
    let m: u64 = if mp < 10 { mp + 3 } else { mp - 9 };
    let shifted_year: u64 = yoe + era * 400;
    let y: u64 = if m <= 2 { shifted_year + 1 } else { shifted_year };
    proof {
        lemma_civil_date(days as int, era as int, doe as int, yoe as int, doy as int, mp as int);
    }
    (y, m, d)
}

} // verus!

verus! {

proof fn lemma_leaps_monotone(a: int, b: int)
    requires
        a <= b,
    ensures
        leaps_through(a) <= leaps_through(b),
    decreases b - a,
{
    if a < b {
        lemma_leaps_step(b);
        lemma_leaps_monotone(a, b - 1);
    }
}

/// A valid date's day number lies within its year.
proof fn lemma_day_in_year(y: int, m: int, d: int)
    requires
        valid_date(y, m, d),
    ensures
        days_before_year(y) <= days_from_civil(y, m, d) < days_before_year(y + 1),
{
    lemma_leaps_step(y);
}

/// Later years start later.
proof fn lemma_days_before_year_monotone(a: int, b: int)
    requires
        a < b,
    ensures
        days_before_year(a + 1) <= days_before_year(b),
{
    lemma_leaps_monotone(a, b - 1);
}

/// Each day number belongs to exactly one calendar date: two valid dates
/// with the same day number are the same date.
pub proof fn lemma_civil_unique(y1: int, m1: int, d1: int, y2: int, m2: int, d2: int)
    requires
        valid_date(y1, m1, d1),
        valid_date(y2, m2, d2),
        days_from_civil(y1, m1, d1) == days_from_civil(y2, m2, d2),
    ensures
        y1 == y2 && m1 == m2 && d1 == d2,
{
    lemma_day_in_year(y1, m1, d1);
    lemma_day_in_year(y2, m2, d2);
    if y1 < y2 {
        lemma_days_before_year_monotone(y1, y2);
    } else if y2 < y1 {
        lemma_days_before_year_monotone(y2, y1);
    }
    assert(y1 == y2);
}

/// The calendar date of day number `n`.
pub open spec fn date_of_day(n: int) -> (int, int, int) {
    choose|t: (int, int, int)| valid_date(t.0, t.1, t.2) && days_from_civil(t.0, t.1, t.2) == n
}

/// The `YYYY-MM-DD` spelling of a date (the year padded to at least four digits).
pub open spec fn date_text(y: int, m: int, d: int) -> Seq<char> {
    padded_decimal(y as nat, 4) + "-"@ + padded_decimal(m as nat, 2) + "-"@ + padded_decimal(
        d as nat,
        2,
    )
}

/// The UTC calendar date, as text, of `secs` seconds after the Unix epoch.
pub open spec fn iso_date_text(secs: u64) -> Seq<char> {
    let t = date_of_day((secs / 86400) as int);
    date_text(t.0, t.1, t.2)
}

/// The UTC calendar date of `secs` seconds after the Unix epoch, as
/// `YYYY-MM-DD`.
pub fn iso_date(secs: u64) -> (r: String)
    ensures
        r@ == iso_date_text(secs),
{
    let days = secs / 86400;
    let (y, m, d) = civil_from_days(days);
    proof {
        let t = date_of_day(days as int);
        assert(valid_date(y as int, m as int, d as int) && days_from_civil(y as int, m as int, d as int)
            == days as int);
        lemma_civil_unique(t.0, t.1, t.2, y as int, m as int, d as int);
    }
    let mut r = String::new();
    push_padded_decimal(&mut r, y, 4);
    r.append("-");
    push_padded_decimal(&mut r, m, 2);
    r.append("-");
    push_padded_decimal(&mut r, d, 2);
    r
}

} // verus!

verus! {

/// A point in time (`std::time::SystemTime`), carried through untouched.
#[verifier::external_type_specification]
#[verifier::external_body]
pub struct ExSystemTime(SystemTime);

/// The error of a clock read before the Unix epoch (`std::time::SystemTimeError`).
#[verifier::external_type_specification]
#[verifier::external_body]
pub struct ExSystemTimeError(SystemTimeError);

/// The current time (`SystemTime::now`). Nothing is stated of it: it is
/// whatever the system clock reads.
#[verifier::external_body]
fn system_time_now() -> SystemTime {
    SystemTime::now()
}

/// The time elapsed from the Unix epoch to `t` (`SystemTime::duration_since`
/// with `UNIX_EPOCH`), an error when `t` is earlier. Nothing is stated of the
/// value: it depends on the clock reading it is given.
#[verifier::external_body]
fn since_unix_epoch(t: &SystemTime) -> std::result::Result<Duration, SystemTimeError> {
    t.duration_since(UNIX_EPOCH)
}

/// The whole seconds of `d` (`Duration::as_secs`). Nothing is stated of the
/// value beyond its type: a `Duration` is opaque here.
#[verifier::external_body]
fn duration_secs(d: &Duration) -> u64 {
    d.as_secs()
}

/// The epoch is day 0, and it is spelled `1970-01-01`.
pub proof fn lemma_epoch_date_text()
    ensures
        iso_date_text(0) == "1970-01-01"@,
{
    let w: (int, int, int) = (1970, 1, 1);
    assert(valid_date(w.0, w.1, w.2) && days_from_civil(w.0, w.1, w.2) == 0);
    assert(exists|t: (int, int, int)| valid_date(t.0, t.1, t.2) && days_from_civil(t.0, t.1, t.2) == 0);
    let t = date_of_day(0);
    lemma_civil_unique(t.0, t.1, t.2, 1970, 1, 1);
    assert(decimal(1) == seq!['1']);
    assert(decimal(19) == seq!['1', '9']);
    assert(decimal(197) == seq!['1', '9', '7']);
    assert(decimal(1970) == seq!['1', '9', '7', '0']);
    assert(padded_decimal(1970, 4) == seq!['1', '9', '7', '0']);
    assert(padded_decimal(1, 2) =~= seq!['0', '1']);
    reveal_strlit("-");
    reveal_strlit("1970-01-01");
    assert(date_text(1970, 1, 1) =~= "1970-01-01"@);
}

/// The date, as `YYYY-MM-DD`, of a clock reading given as its whole seconds
/// since the Unix epoch, or as `None` for a clock that reads before the
/// epoch, which is dated at the epoch itself.
pub fn date_of_clock(secs: Option<u64>) -> (r: String)
    ensures
        r@ == iso_date_text(
            match secs {
                Some(s) => s,
                None => 0,
            },
        ),
        secs is None ==> r@ == "1970-01-01"@,
{
    proof {
        lemma_epoch_date_text();
    }
    match secs {
        Some(s) => iso_date(s),
        None => iso_date(0),
    }
}

/// Today's date as `YYYY-MM-DD` (UTC): the date of the clock's seconds since
/// the Unix epoch, or of the epoch itself if the clock reads earlier (see
/// [`date_of_clock`]).
pub fn today_iso() -> (r: String)
    ensures
        exists|secs: u64| r@ == iso_date_text(secs),
{
    let secs = match since_unix_epoch(&system_time_now()) {
        Ok(d) => Some(duration_secs(&d)),
        Err(_) => None,
    };
    date_of_clock(secs)
}

/// The directories a new project is created with, relative to its root.
pub open spec fn scaffold_dirs_spec() -> Seq<Seq<char>> {
    seq![
        "cards"@,
        "agents"@,
        "waypoints"@,
        "findings/spymaster"@,
        "findings/sentinel"@,
        ".fsberlin"@,
    ]
}

/// The directories a new project is created with, relative to its root.
pub fn scaffold_dirs() -> (dirs: Vec<&'static str>)
    ensures
        dirs@.map_values(|s: &'static str| s@) == scaffold_dirs_spec(),
{
    let dirs = vec!["cards", "agents", "waypoints", "findings/spymaster", "findings/sentinel", ".fsberlin"];
    assert(dirs@.map_values(|s: &'static str| s@) =~= scaffold_dirs_spec());
    dirs
}

/// Why a project may not be created at a target, if it may not: an existing
/// file, or an existing directory that is not empty.
pub open spec fn init_refusal(display: Seq<char>, exists: bool, is_file: bool, is_empty: bool) -> Option<Seq<char>> {
    if exists && is_file {
        Some(display + " is a file"@)
    } else if exists && !is_empty {
        Some(display + " is not empty (refusing to clobber)"@)
    } else {
        None
    }
}

/// Check that a project may be created at a target described by whether it
/// exists, is a file, and (as a directory) is empty.
pub fn check_init_target(display: &str, exists: bool, is_file: bool, is_empty: bool) -> (r: Result<()>)
    ensures
        match init_refusal(display@, exists, is_file, is_empty) {
            None => r is Ok,
            Some(m) => r matches Err(Error::Init(s)) && s@ == m,
        },
        (r is Ok) <==> ((!is_file && is_empty) || !exists),
        exists && is_file ==> (r matches Err(Error::Init(s)) && s@ == display@ + " is a file"@),
        exists && !is_file && !is_empty ==> (r matches Err(Error::Init(s)) && s@ == display@
            + " is not empty (refusing to clobber)"@),
{
    if exists {
        if is_file {
            let mut m = String::new();
            m.append(display);
            m.append(" is a file");
            return Err(Error::Init(m));
        }
        if !is_empty {
            let mut m = String::new();
            m.append(display);
            m.append(" is not empty (refusing to clobber)");
            return Err(Error::Init(m));
        }
    }
    Ok(())
}

/// The project name: the target's final path component, or `project`.
pub fn project_name(file_name: Option<String>) -> (name: String)
    ensures
        name@ == match file_name {
            Some(n) => n@,
            None => "project"@,
        },
{
    match file_name {
        Some(n) => n,
        None => {
            let mut n = String::new();
            n.append("project");
            n
        },
    }
}

/// The text of a new project's `.fsberlin/config.yaml`.
pub open spec fn config_text_spec(project_id: Seq<char>, name: Seq<char>, created: Seq<char>) -> Seq<char> {
    "project_id: "@ + project_id + "\nname: "@ + name + "\ncreated: "@ + created
        + "\nschema_version: \"0.1\"\n"@
}

/// The text of a new project's `.fsberlin/config.yaml`.
pub fn config_text(project_id: &str, name: &str, created: &str) -> (t: String)
    ensures
        t@ == config_text_spec(project_id@, name@, created@),
{
    let mut t = String::new();
    t.append("project_id: ");
    t.append(project_id);
    t.append("\nname: ");
    t.append(name);
    t.append("\ncreated: ");
    t.append(created);
    t.append("\nschema_version: \"0.1\"\n");
    t
}

/// Whether `c` is a character of the Crockford base-32 alphabet in which a
/// ULID is spelled (digits and upper-case letters but `I`, `L`, `O`, `U`).
pub open spec fn crockford_char(c: char) -> bool {
    ('0' <= c && c <= '9') || ('A' <= c && c <= 'Z' && c != 'I' && c != 'L' && c != 'O' && c != 'U')
}

/// Whether `id` is the text of a ULID: 26 Crockford base-32 characters.
pub open spec fn ulid_text(id: Seq<char>) -> bool {
    id.len() == 26 && forall|i: int| 0 <= i < id.len() ==> crockford_char(#[trigger] id[i])
}

/// A fresh ULID as text (`ulid::Ulid::new`, then `Ulid::to_string`). The
/// value rests on the clock and on random bits, so only its shape is
/// stated: the crate encodes the 128 bits as 26 characters of its Crockford
/// alphabet `0123456789ABCDEFGHJKMNPQRSTVWXYZ`.
#[verifier::external_body]
fn new_ulid_text() -> (s: String)
    ensures
        ulid_text(s@),
{
    ulid::Ulid::new().to_string()
}

/// The text of a new project's `.fsberlin/config.yaml`, with a freshly
/// generated project ULID and today's date as `created`.
pub fn new_config_text(name: &str) -> (t: String)
    ensures
        exists|id: Seq<char>, secs: u64|
            #![trigger config_text_spec(id, name@, iso_date_text(secs))]
            ulid_text(id) && t@ == config_text_spec(id, name@, iso_date_text(secs)),
{
    let id = new_ulid_text();
    let created = today_iso();
    let t = config_text(id.as_str(), name, created.as_str());
    proof {
        let secs = choose|secs: u64| created@ == iso_date_text(secs);
        assert(ulid_text(id@) && t@ == config_text_spec(id@, name@, iso_date_text(secs)));
    }
    t
}

/// The text of a new project's `why.md` stub.
pub open spec fn why_text_spec(name: Seq<char>) -> Seq<char> {
    "# Why "@ + name + "\n\n(Describe why this project exists, in plain language.)\n"@
}

/// The text of a new project's `why.md` stub.
pub fn why_text(name: &str) -> (t: String)
    ensures
        t@ == why_text_spec(name@),
{
    let mut t = String::new();
    t.append("# Why ");
    t.append(name);
    t.append("\n\n(Describe why this project exists, in plain language.)\n");
    t
}

} // verus!

verus! {

proof fn lemma_decimal_small(n: nat)
    ensures
        n < 10 ==> decimal(n).len() == 1,
        10 <= n < 100 ==> decimal(n).len() == 2,
        100 <= n < 1000 ==> decimal(n).len() == 3,
        1000 <= n < 10000 ==> decimal(n).len() == 4,
        forall|i: int| 0 <= i < decimal(n).len() ==> #[trigger] decimal(n)[i] != '-',
    decreases n,
{
    if n >= 10 {
        lemma_decimal_small(n / 10);
        assert forall|i: int| 0 <= i < decimal(n).len() implies #[trigger] decimal(n)[i] != '-' by {
            if i < decimal(n / 10).len() {
                assert(decimal(n)[i] == decimal(n / 10)[i]);
            }
        }
    }
}

/// A date with a four-digit year is spelled in ten characters,
/// `YYYY-MM-DD`, with dashes exactly at positions 4 and 7.
pub proof fn lemma_date_text_shape(y: int, m: int, d: int)
    requires
        valid_date(y, m, d),
        1000 <= y <= 9999,
    ensures
        date_text(y, m, d).len() == 10,
        forall|i: int| 0 <= i < 10 ==> (#[trigger] date_text(y, m, d)[i] == '-' <==> (i == 4 || i == 7)),
{
    reveal_strlit("-");
    lemma_decimal_small(y as nat);
    lemma_decimal_small(m as nat);
    lemma_decimal_small(d as nat);
    let ys = padded_decimal(y as nat, 4);
    let ms = padded_decimal(m as nat, 2);
    let ds = padded_decimal(d as nat, 2);
    assert(ys == decimal(y as nat));
    assert(forall|i: int| 0 <= i < ms.len() ==> #[trigger] ms[i] != '-');
    assert(forall|i: int| 0 <= i < ds.len() ==> #[trigger] ds[i] != '-');
    let t = date_text(y, m, d);
    assert(t == ys + "-"@ + ms + "-"@ + ds);
    assert forall|i: int| 0 <= i < 10 implies (#[trigger] t[i] == '-' <==> (i == 4 || i == 7)) by {
        if i < 4 {
            assert(t[i] == ys[i]);
        } else if i == 4 {
        } else if i < 7 {
            assert(t[i] == ms[i - 5]);
        } else if i == 7 {
        } else {
            assert(t[i] == ds[i - 8]);
        }
    }
}

} // verus!
