use vstd::prelude::*;
use vstd::utf8::encode_utf8;

use chrono::{Datelike, TimeZone, Timelike};

use crate::civil::{fields_ok, CivilDateTime, MAX_YEAR};
use crate::error::SalesError;
use crate::order::{compare_bytes, lemma_bytes_cmp_facts};

verus! {

/// How a zone reads a wall-clock time.
#[derive(Clone, Copy, Debug, PartialEq, Eq, Structural)]
pub enum LocalResolution {
    /// The zone name is not known.
    UnknownZone,
    /// The time denotes exactly one instant, given as UTC wall-clock time.
    Unique(CivilDateTime),
    /// The time occurs twice (clocks turned back).
    Ambiguous,
    /// The time is skipped (clocks turned forward).
    Nonexistent,
}

/// The zone database's reading of wall-clock time `local` in zone `zone`.
pub uninterp spec fn resolution_of(zone: Seq<char>, local: CivilDateTime) -> LocalResolution;

/// The wall-clock time in zone `zone` of the instant whose UTC time is `utc`,
/// or none if the zone is not known.
pub uninterp spec fn local_in_zone(zone: Seq<char>, utc: CivilDateTime) -> Option<CivilDateTime>;

#[verifier::external_type_specification]
#[verifier::external_body]
pub struct ExNaiveDateTime(chrono::NaiveDateTime);

/// Relies on chrono's `Datelike` and `Timelike` accessors of `NaiveDateTime`
/// to read its fields; nothing is claimed of the result.
#[verifier::external_body]
fn civil_of(n: chrono::NaiveDateTime) -> (r: CivilDateTime) {
    CivilDateTime {
        year: n.year() as u64,
        month: n.month() as u8,
        day: n.day() as u8,
        hour: n.hour() as u8,
        minute: n.minute() as u8,
        second: n.second() as u8,
    }
}

/// Relies on chrono-tz's `Tz::from_str` and chrono's `TimeZone::from_local_datetime`
/// to read a wall-clock time in a named zone. Times that chrono returns always
/// have calendar fields in range, and a zone offset is less than a day.
#[verifier::external_body]
fn resolve_local(zone: &str, local: CivilDateTime) -> (r: LocalResolution)
    requires
        local.wf(),
        2 <= local.year,
    ensures
        r == resolution_of(zone@, local),
        r matches LocalResolution::Unique(u) ==> fields_ok(u) && local.year - 1 <= u.year <= local.year + 1,
{
    let tz: chrono_tz::Tz = match zone.parse() {
        Ok(tz) => tz,
        Err(_) => return LocalResolution::UnknownZone,
    };
    let d = chrono::NaiveDate::from_ymd_opt(local.year as i32, local.month as u32, local.day as u32);
    let n = d.unwrap().and_hms_opt(local.hour as u32, local.minute as u32, local.second as u32).unwrap();
    match tz.from_local_datetime(&n) {
        chrono::LocalResult::Single(t) => LocalResolution::Unique(civil_of(t.naive_utc())),
        chrono::LocalResult::Ambiguous(..) => LocalResolution::Ambiguous,
        chrono::LocalResult::None => LocalResolution::Nonexistent,
    }
}

/// Relies on chrono-tz's `Tz::from_str` and chrono's `TimeZone::from_utc_datetime`
/// to give the wall-clock time of a UTC instant in a named zone. The zone
/// named `UTC` has a single span with offset zero, so it keeps the time.
#[verifier::external_body]
fn utc_to_local(zone: &str, utc: CivilDateTime) -> (r: Option<CivilDateTime>)
    requires
        fields_ok(utc),
        1 <= utc.year <= MAX_YEAR + 1,
    ensures
        r == local_in_zone(zone@, utc),
        r matches Some(l) ==> fields_ok(l),
        zone@ == "UTC"@ ==> r == Some(utc),
{
    let tz: chrono_tz::Tz = zone.parse().ok()?;
    let d = chrono::NaiveDate::from_ymd_opt(utc.year as i32, utc.month as u32, utc.day as u32);
    let n = d.unwrap().and_hms_opt(utc.hour as u32, utc.minute as u32, utc.second as u32).unwrap();
    Some(civil_of(tz.from_utc_datetime(&n).naive_local()))
}

/// A wall-clock time, either naive or tied to a named zone. A zoned value
/// also carries the UTC time of the instant it denotes.
#[derive(Clone, Debug)]
pub struct TimestampTz {
    pub local: CivilDateTime,
    pub zone: Option<String>,
    pub utc: CivilDateTime,
}

impl TimestampTz {
    /// A naive value carries its own time as `utc`; a zoned one carries a UTC
    /// time with fields in range.
    pub open spec fn wf(&self) -> bool {
        &&& self.local.wf()
        &&& match self.zone {
            None => self.utc == self.local,
            Some(_) => fields_ok(self.utc) && 1 <= self.utc.year <= MAX_YEAR + 1,
        }
    }
}

/// A naive timestamp.
pub fn naive(local: CivilDateTime) -> (r: TimestampTz)
    ensures
        r.local == local,
        r.zone is None,
        r.utc == local,
{
    TimestampTz { local, zone: None, utc: local }
}

/// Ties a naive wall-clock time to a named zone. Times that the zone skips or
/// repeats are refused rather than guessed; years before 2 are refused because
/// their UTC time may fall before year 0.
pub fn attach_zone(local: CivilDateTime, zone: &str) -> (r: Result<TimestampTz, SalesError>)
    requires
        local.wf(),
    ensures
        local.year < 2 ==> r == Err::<TimestampTz, SalesError>(SalesError::YearOutOfRange),
        2 <= local.year ==> match resolution_of(zone@, local) {
            LocalResolution::UnknownZone => r == Err::<TimestampTz, SalesError>(SalesError::UnknownZone),
            LocalResolution::Ambiguous => r == Err::<TimestampTz, SalesError>(SalesError::AmbiguousLocalTime),
            LocalResolution::Nonexistent => r == Err::<TimestampTz, SalesError>(SalesError::AmbiguousLocalTime),
            LocalResolution::Unique(u) => r is Ok && r->Ok_0.local == local && r->Ok_0.zone is Some
                && r->Ok_0.zone->0@ == zone@ && r->Ok_0.utc == u && r->Ok_0.wf(),
        },
{
    if local.year < 2 {
        return Err(SalesError::YearOutOfRange);
    }
    match resolve_local(zone, local) {
        LocalResolution::UnknownZone => Err(SalesError::UnknownZone),
        LocalResolution::Ambiguous => Err(SalesError::AmbiguousLocalTime),
        LocalResolution::Nonexistent => Err(SalesError::AmbiguousLocalTime),
        LocalResolution::Unique(u) => Ok(TimestampTz { local, zone: Some(zone.to_owned()), utc: u }),
    }
}

/// Expresses a zoned timestamp in another zone, keeping the instant. Converting
/// into the zone the value already has returns it unchanged.
pub fn convert_zone(t: &TimestampTz, target: &str) -> (r: Result<TimestampTz, SalesError>)
    requires
        t.wf(),
    ensures
        match t.zone {
            None => r == Err::<TimestampTz, SalesError>(SalesError::NotZoned),
            Some(z) => if encode_utf8(z@) == encode_utf8(target@) {
                r is Ok && r->Ok_0.local == t.local && r->Ok_0.utc == t.utc && r->Ok_0.zone is Some
                    && r->Ok_0.zone->0@ == z@
            } else {
                match local_in_zone(target@, t.utc) {
                    None => r == Err::<TimestampTz, SalesError>(SalesError::UnknownZone),
                    Some(l) => r is Ok && r->Ok_0.local == l && r->Ok_0.utc == t.utc && r->Ok_0.zone is Some
                        && r->Ok_0.zone->0@ == target@,
                }
            },
        },
{
    match &t.zone {
        None => Err(SalesError::NotZoned),
        Some(z) => {
            proof {
                lemma_bytes_cmp_facts(encode_utf8(z@), encode_utf8(target@));
            }
            if compare_bytes(z.as_str().as_bytes(), target.as_bytes()) == 0 {
                Ok(TimestampTz { local: t.local, zone: Some(z.clone()), utc: t.utc })
            } else {
                match utc_to_local(target, t.utc) {
                    None => Err(SalesError::UnknownZone),
                    Some(l) => Ok(TimestampTz { local: l, zone: Some(target.to_owned()), utc: t.utc }),
                }
            }
        },
    }
}

} // verus!
