use chrono::{DateTime, Datelike, NaiveDateTime, Timelike, Utc};
use vstd::prelude::*;

verus! {

#[verifier::external_type_specification]
#[verifier::external_body]
pub struct ExNaiveDateTime(NaiveDateTime);

/// Why a request could not be turned into a vector.
#[derive(Debug, PartialEq, Eq)]
pub enum VectorizeError {
    /// The text is not an RFC 3339 timestamp.
    InvalidTimestamp(String),
}

/// An instant read from an RFC 3339 timestamp, in UTC.
pub struct UtcTimestamp {
    instant: NaiveDateTime,
    unix_seconds: i64,
    subsec_nanos: u32,
    hour: u32,
    weekday_from_monday: u32,
}

/// What an instant is: its Unix time in whole seconds, the nanoseconds past
/// that second, its hour of the day and its day of the week counted from
/// Monday, all in UTC.
pub struct InstantModel {
    pub unix_seconds: int,
    pub subsec_nanos: int,
    pub hour: int,
    pub weekday_from_monday: int,
}

impl View for UtcTimestamp {
    type V = InstantModel;

    closed spec fn view(&self) -> InstantModel {
        InstantModel {
            unix_seconds: self.unix_seconds as int,
            subsec_nanos: self.subsec_nanos as int,
            hour: self.hour as int,
            weekday_from_monday: self.weekday_from_monday as int,
        }
    }
}

/// The instant that chrono reads from an RFC 3339 text, as Unix seconds,
/// sub-second nanoseconds, hour and weekday in UTC; `None` when chrono
/// rejects the text.
pub uninterp spec fn rfc3339_instant(text: Seq<char>) -> Option<(int, int, int, int)>;

/// The whole seconds from the instant `earlier` to the instant `later`, each
/// given as Unix seconds and nanoseconds past that second (nanoseconds from
/// 10⁹ on mark a leap second), as chrono's `signed_duration_since` and
/// `num_seconds` count them: the whole-second difference, plus one second
/// when only `earlier` is a leap second and falls earlier in its day than
/// `later` in its own, minus one when only `later` is and falls earlier in
/// its day; then the nanosecond difference, split into whole seconds and a
/// remainder in `0..10⁹`; a negative total with a remainder is rounded up.
pub open spec fn spec_chrono_seconds_since(
    later_seconds: int,
    later_nanos: int,
    earlier_seconds: int,
    earlier_nanos: int,
) -> int {
    let later_of_day = later_seconds % 86400;
    let earlier_of_day = earlier_seconds % 86400;
    let leap = if later_of_day > earlier_of_day && earlier_nanos >= 1_000_000_000 {
        1
    } else if later_of_day < earlier_of_day && later_nanos >= 1_000_000_000 {
        -1
    } else {
        0int
    };
    let nanos = later_nanos - earlier_nanos;
    let whole = (later_seconds - earlier_seconds) + leap + nanos / 1_000_000_000;
    if whole < 0 && nanos % 1_000_000_000 > 0 {
        whole + 1
    } else {
        whole
    }
}

/// What chrono's UTC fields satisfy: sub-second nanoseconds below
/// 2·10⁹ (above 10⁹ only inside a leap second), the hour is that of the
/// Unix time within its day, and the weekday counts days since the Unix
/// epoch, a Thursday (Monday being 0).
pub open spec fn spec_fields_consistent(fields: (int, int, int, int)) -> bool {
    &&& 0 <= fields.1 < 2_000_000_000
    &&& fields.2 == (fields.0 % 86400) / 3600
    &&& fields.3 == (fields.0 / 86400 + 3) % 7
}

/// The whole seconds, truncated toward zero, from `earlier` to `later`,
/// each given as Unix seconds and nanoseconds.
pub open spec fn spec_truncated_seconds(
    later_seconds: int,
    later_nanos: int,
    earlier_seconds: int,
    earlier_nanos: int,
) -> int {
    let total = (later_seconds - earlier_seconds) * 1_000_000_000 + (later_nanos - earlier_nanos);
    if total >= 0 {
        total / 1_000_000_000
    } else {
        -((-total) / 1_000_000_000)
    }
}

/// The model's fields as the tuple that `rfc3339_instant` gives.
pub open spec fn spec_instant_fields(m: InstantModel) -> (int, int, int, int) {
    (m.unix_seconds, m.subsec_nanos, m.hour, m.weekday_from_monday)
}

/// Calls chrono's `DateTime::parse_from_rfc3339` and converts the result to
/// UTC with `with_timezone(&Utc)`; the fields are read with `timestamp`,
/// `timestamp_subsec_nanos`, `hour` and `weekday().num_days_from_monday`,
/// and the instant is kept as `naive_utc`.
/// The contract claims that the result is the value named
/// `rfc3339_instant` of the text, a function of the text alone, and that
/// chrono derives hour and weekday from the Unix time as
/// `spec_fields_consistent` says (its `timestamp` counts days since the
/// epoch times 86400 plus the seconds since midnight).
#[verifier::external_body]
fn parse_rfc3339_utc(text: &str) -> (parsed: Option<UtcTimestamp>)
    ensures
        match parsed {
            Some(t) => rfc3339_instant(text@) == Some(spec_instant_fields(t@))
                && spec_fields_consistent(spec_instant_fields(t@)),
            None => rfc3339_instant(text@) is None,
        },
{
    match DateTime::parse_from_rfc3339(text) {
        Ok(parsed) => {
            let instant = parsed.with_timezone(&Utc);
            Some(UtcTimestamp {
                unix_seconds: instant.timestamp(),
                subsec_nanos: instant.timestamp_subsec_nanos(),
                hour: instant.hour(),
                weekday_from_monday: instant.weekday().num_days_from_monday(),
                instant: instant.naive_utc(),
            })
        },
        Err(_) => None,
    }
}

/// Calls chrono's `NaiveDateTime::signed_duration_since` on the two UTC
/// instants (what `DateTime<Utc> - DateTime<Utc>` computes) and
/// `TimeDelta::num_seconds`. The contract claims that the result is what
/// `spec_chrono_seconds_since` says of the two instants' Unix seconds and
/// nanoseconds: chrono adds the days between the dates times 86400 to the
/// difference of the times of day, which together are the difference of
/// the Unix seconds, with its leap-second correction on the times of day.
#[verifier::external_body]
fn elapsed_whole_seconds(later: &UtcTimestamp, earlier: &UtcTimestamp) -> (seconds: i64)
    ensures
        seconds == spec_chrono_seconds_since(
            later@.unix_seconds,
            later@.subsec_nanos,
            earlier@.unix_seconds,
            earlier@.subsec_nanos,
        ),
{
    later.instant.signed_duration_since(earlier.instant).num_seconds()
}


/// The time-derived parts of a request's vector.
#[derive(Debug, Clone, Copy, PartialEq, Eq, Structural)]
pub struct TimeFeatures {
    /// Hour of the request in UTC, `0..=23`.
    pub hour: u32,
    /// Day of the week of the request in UTC, Monday being `0`.
    pub weekday_from_monday: u32,
    /// Whole seconds from the previous transaction to the request, when the
    /// request names a previous transaction.
    pub seconds_since_last: Option<i64>,
}

/// What `time_features` gives: the time-derived parts of the vector, or the
/// text of the first timestamp that does not parse (the request's own
/// timestamp is read first).
pub open spec fn spec_time_features(requested_at: Seq<char>, last_timestamp: Option<Seq<char>>) -> Result<
    (int, int, Option<int>),
    Seq<char>,
> {
    match rfc3339_instant(requested_at) {
        None => Err(requested_at),
        Some(now) => match last_timestamp {
            None => Ok((now.2, now.3, None)),
            Some(last_text) => match rfc3339_instant(last_text) {
                None => Err(last_text),
                Some(last) => Ok(
                    (now.2, now.3, Some(spec_chrono_seconds_since(now.0, now.1, last.0, last.1))),
                ),
            },
        },
    }
}

/// The model of a `time_features` result.
pub open spec fn spec_time_features_result(result: Result<TimeFeatures, VectorizeError>) -> Result<
    (int, int, Option<int>),
    Seq<char>,
> {
    match result {
        Ok(f) => Ok(
            (
                f.hour as int,
                f.weekday_from_monday as int,
                match f.seconds_since_last {
                    Some(s) => Some(s as int),
                    None => None,
                },
            ),
        ),
        Err(VectorizeError::InvalidTimestamp(text)) => Err(text@),
    }
}

/// Reads a timestamp, failing with the offending text.
pub fn parse_utc(input: &str) -> (result: Result<UtcTimestamp, VectorizeError>)
    ensures
        match result {
            Ok(t) => rfc3339_instant(input@) == Some(spec_instant_fields(t@))
                && spec_fields_consistent(spec_instant_fields(t@)),
            Err(VectorizeError::InvalidTimestamp(text)) => rfc3339_instant(input@) is None
                && text@ == input@,
        },
{
    match parse_rfc3339_utc(input) {
        Some(timestamp) => Ok(timestamp),
        None => Err(VectorizeError::InvalidTimestamp(input.to_owned())),
    }
}

/// Outside leap seconds, chrono's whole seconds between two instants are
/// the time between them truncated toward zero.
pub proof fn lemma_seconds_since_truncates(
    later_seconds: int,
    later_nanos: int,
    earlier_seconds: int,
    earlier_nanos: int,
)
    requires
        0 <= later_nanos < 1_000_000_000,
        0 <= earlier_nanos < 1_000_000_000,
    ensures
        spec_chrono_seconds_since(later_seconds, later_nanos, earlier_seconds, earlier_nanos)
            == spec_truncated_seconds(later_seconds, later_nanos, earlier_seconds, earlier_nanos),
{
    let d = later_seconds - earlier_seconds;
    let nanos = later_nanos - earlier_nanos;
    let total = d * 1_000_000_000 + nanos;
    if nanos >= 0 {
        assert(nanos / 1_000_000_000 == 0);
        assert(nanos % 1_000_000_000 == nanos);
        if d >= 0 {
            assert(total / 1_000_000_000 == d) by (nonlinear_arith)
                requires
                    total == d * 1_000_000_000 + nanos,
                    0 <= nanos < 1_000_000_000,
            ;
        } else {
            assert((-total) / 1_000_000_000 == -d - 1 || nanos == 0) by (nonlinear_arith)
                requires
                    total == d * 1_000_000_000 + nanos,
                    0 <= nanos < 1_000_000_000,
                    d < 0,
            ;
            assert(nanos == 0 ==> (-total) / 1_000_000_000 == -d) by (nonlinear_arith)
                requires
                    total == d * 1_000_000_000 + nanos,
                    d < 0,
            ;
        }
    } else {
        assert(nanos / 1_000_000_000 == -1);
        assert(nanos % 1_000_000_000 == nanos + 1_000_000_000);
        if d >= 1 {
            assert(total / 1_000_000_000 == d - 1) by (nonlinear_arith)
                requires
                    total == d * 1_000_000_000 + nanos,
                    -1_000_000_000 < nanos < 0,
            ;
        } else {
            assert((-total) / 1_000_000_000 == -d) by (nonlinear_arith)
                requires
                    total == d * 1_000_000_000 + nanos,
                    -1_000_000_000 < nanos < 0,
                    d <= 0,
            ;
        }
    }
}

/// The time features of a request made at the instant `now`, whose previous
/// transaction, if any, was made at `last`.
pub fn time_features_of(now: &UtcTimestamp, last: Option<&UtcTimestamp>) -> (features: TimeFeatures)
    ensures
        features.hour == now@.hour,
        features.weekday_from_monday == now@.weekday_from_monday,
        match last {
            Some(previous) => (features.seconds_since_last matches Some(seconds) && seconds
                == spec_chrono_seconds_since(
                now@.unix_seconds,
                now@.subsec_nanos,
                previous@.unix_seconds,
                previous@.subsec_nanos,
            )),
            None => features.seconds_since_last is None,
        },
{
    let seconds_since_last = match last {
        Some(previous) => Some(elapsed_whole_seconds(now, previous)),
        None => None,
    };
    TimeFeatures { hour: now.hour, weekday_from_monday: now.weekday_from_monday, seconds_since_last }
}

/// Both texts parse outside a leap second, and the previous transaction's
/// elapsed seconds are the time from it truncated toward zero.
pub open spec fn spec_elapsed_truncates(
    requested_at: Seq<char>,
    last_timestamp: Seq<char>,
    seconds_since_last: Option<i64>,
) -> bool {
    match (rfc3339_instant(requested_at), rfc3339_instant(last_timestamp)) {
        (Some((now_seconds, now_nanos, _, _)), Some((last_seconds, last_nanos, _, _))) => now_nanos
            < 1_000_000_000 && last_nanos < 1_000_000_000 ==> (seconds_since_last matches Some(
            seconds,
        ) && seconds == spec_truncated_seconds(now_seconds, now_nanos, last_seconds, last_nanos)),
        _ => true,
    }
}

/// The hour, weekday and time since the previous transaction of a request
/// made at `requested_at`, whose previous transaction, if any, was made at
/// `last_timestamp`.
pub fn time_features(requested_at: &str, last_timestamp: Option<&str>) -> (result: Result<
    TimeFeatures,
    VectorizeError,
>)
    ensures
        spec_time_features_result(result) == spec_time_features(
            requested_at@,
            match last_timestamp {
                Some(t) => Some(t@),
                None => None,
            },
        ),
        result is Ok ==> spec_parses_consistently(requested_at@),
        result is Ok && last_timestamp is Some ==> spec_parses_consistently(last_timestamp->0@),
        match (result, rfc3339_instant(requested_at@)) {
            (Ok(features), Some((seconds, _, hour, weekday))) => {
                &&& features.hour == hour
                &&& features.weekday_from_monday == weekday
                &&& features.hour == (seconds % 86400) / 3600
                &&& features.weekday_from_monday == (seconds / 86400 + 3) % 7
                &&& (features.seconds_since_last is Some <==> last_timestamp is Some)
            },
            (Ok(_), None) => false,
            (Err(_), _) => true,
        },
        result is Err <==> rfc3339_instant(requested_at@) is None || (last_timestamp matches Some(
            last,
        ) && rfc3339_instant(last@) is None),
        match (result, last_timestamp) {
            (Ok(features), Some(last)) => spec_elapsed_truncates(
                requested_at@,
                last@,
                features.seconds_since_last,
            ),
            _ => true,
        },
{
    let now = match parse_utc(requested_at) {
        Ok(now) => now,
        Err(error) => return Err(error),
    };
    match last_timestamp {
        Some(text) => {
            let last = match parse_utc(text) {
                Ok(last) => last,
                Err(error) => return Err(error),
            };
            let features = time_features_of(&now, Some(&last));
            proof {
                if now@.subsec_nanos < 1_000_000_000 && last@.subsec_nanos < 1_000_000_000 {
                    lemma_seconds_since_truncates(
                        now@.unix_seconds,
                        now@.subsec_nanos,
                        last@.unix_seconds,
                        last@.subsec_nanos,
                    );
                }
            }
            Ok(features)
        },
        None => Ok(time_features_of(&now, None)),
    }
}

/// What the time features of a request are: its UTC hour and its weekday
/// counted from Monday, both read from the instant of `requested_at` (the
/// hour of the Unix time within its day, and the days since the Unix epoch,
/// a Thursday, modulo 7), with elapsed seconds exactly when a previous
/// transaction is given; the request's own timestamp is reported first when
/// it does not parse, then the previous one.
pub proof fn lemma_time_features_fields(requested_at: Seq<char>, last_timestamp: Option<Seq<char>>)
    ensures
        match (spec_time_features(requested_at, last_timestamp), rfc3339_instant(requested_at)) {
            (Ok((hour, weekday, elapsed)), Some((seconds, nanos, utc_hour, utc_weekday))) => {
                &&& hour == utc_hour
                &&& weekday == utc_weekday
                &&& (spec_fields_consistent((seconds, nanos, utc_hour, utc_weekday)) ==> hour == (
                seconds % 86400) / 3600 && weekday == (seconds / 86400 + 3) % 7)
                &&& (elapsed is Some <==> last_timestamp is Some)
            },
            (Ok(_), None) => false,
            (Err(text), _) => if rfc3339_instant(requested_at) is None {
                text == requested_at
            } else {
                last_timestamp matches Some(last) && text == last && rfc3339_instant(last) is None
            },
        },
{
}

/// Both texts parse and denote the same instant: equal Unix seconds and
/// equal nanoseconds past that second.
pub open spec fn spec_same_instant(a: Seq<char>, b: Seq<char>) -> bool {
    match (rfc3339_instant(a), rfc3339_instant(b)) {
        (Some((seconds_a, nanos_a, _, _)), Some((seconds_b, nanos_b, _, _))) => seconds_a
            == seconds_b && nanos_a == nanos_b,
        _ => false,
    }
}

/// The text parses and its UTC fields agree with its Unix time.
pub open spec fn spec_parses_consistently(text: Seq<char>) -> bool {
    match rfc3339_instant(text) {
        Some(fields) => spec_fields_consistent(fields),
        None => false,
    }
}

/// Two requests whose timestamps denote the same instants, whatever UTC
/// offsets they are written with, get the same time features.
pub proof fn lemma_time_features_by_instant(
    requested_1: Seq<char>,
    requested_2: Seq<char>,
    last_1: Option<Seq<char>>,
    last_2: Option<Seq<char>>,
)
    requires
        spec_same_instant(requested_1, requested_2),
        spec_parses_consistently(requested_1),
        spec_parses_consistently(requested_2),
        last_1 is Some <==> last_2 is Some,
        last_1 is Some ==> spec_same_instant(last_1->0, last_2->0),
    ensures
        spec_time_features(requested_1, last_1) == spec_time_features(requested_2, last_2),
{
}

/// The merchant is not among those the customer already bought from.
pub fn is_unknown_merchant(known_merchants: &[String], merchant_id: &String) -> (unknown: bool)
    ensures
        unknown == !(exists|i: int|
            0 <= i < known_merchants@.len() && (#[trigger] known_merchants@[i])@ == merchant_id@),
{
    let mut i: usize = 0;
    while i < known_merchants.len()
        invariant
            0 <= i <= known_merchants@.len(),
            forall|k: int| 0 <= k < i ==> (#[trigger] known_merchants@[k])@ != merchant_id@,
        decreases known_merchants@.len() - i,
    {
        if known_merchants[i] == *merchant_id {
            return false;
        }
        i = i + 1;
    }
    true
}

} // verus!
