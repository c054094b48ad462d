//! Points in time as milliseconds since the Unix epoch, read from text.

use vstd::prelude::*;

verus! {

/// The first and the last millisecond of the calendar: from the start of the year -262143 to the
/// end of the year 262142.
pub open spec fn in_calendar(ms: int) -> bool {
    -8_334_601_228_800_000 <= ms <= 8_210_266_876_799_999
}

/// The time of day and date in `text`, written as `format` says, in milliseconds as if it were
/// UTC; `None` where the text is not so written.
pub uninterp spec fn naive_time(text: Seq<char>, format: Seq<char>) -> Option<i64>;

/// The point in time that `text` gives in the format of RFC 3339.
pub uninterp spec fn rfc3339_time(text: Seq<char>) -> Option<i64>;

/// `text` is a date, written as `format` says.
pub uninterp spec fn is_date(text: Seq<char>, format: Seq<char>) -> bool;

/// `chrono::NaiveDateTime::parse_from_str`: what it reads is a function of the text and the
/// format.
#[verifier::external_body]
pub(crate) fn parse_naive_time(text: &str, format: &str) -> (r: Option<i64>)
    ensures
        r == naive_time(text@, format@),
{
    let naive = chrono::NaiveDateTime::parse_from_str(text, format).ok()?;
    Some(naive.and_utc().timestamp_millis())
}

/// `chrono::DateTime::parse_from_rfc3339`: what it reads is a function of the text.
#[verifier::external_body]
pub(crate) fn parse_rfc3339_time(text: &str) -> (r: Option<i64>)
    ensures
        r == rfc3339_time(text@),
{
    let time = chrono::DateTime::parse_from_rfc3339(text).ok()?;
    Some(time.timestamp_millis())
}

/// `chrono::NaiveDate::parse_from_str`: whether it reads a date is a function of the text and
/// the format.
#[verifier::external_body]
pub(crate) fn parse_date(text: &str, format: &str) -> (r: bool)
    ensures
        r == is_date(text@, format@),
{
    chrono::NaiveDate::parse_from_str(text, format).is_ok()
}

/// The point in time at which clocks that are `offset` seconds ahead of UTC show `naive`.
pub open spec fn time_at_offset(naive: i64, offset: i32) -> Option<i64> {
    if -86_400 < offset < 86_400 && in_calendar(naive as int) && in_calendar(
        naive - offset * 1000,
    ) {
        Some((naive - offset * 1000) as i64)
    } else {
        None
    }
}

/// `chrono::TimeZone::from_local_datetime` on a `chrono::FixedOffset`: the offset must be less
/// than a day, and the time goes back by the offset where that stays in the calendar.
#[verifier::external_body]
pub(crate) fn at_offset(naive: i64, offset: i32) -> (r: Option<i64>)
    ensures
        r == time_at_offset(naive, offset),
{
    let zone = chrono::FixedOffset::east_opt(offset)?;
    let local = chrono::DateTime::from_timestamp_millis(naive)?.naive_utc();
    let time = chrono::TimeZone::from_local_datetime(&zone, &local).single()?;
    Some(time.timestamp_millis())
}

/// `chrono::TimeZone::from_local_datetime` on `chrono::Local`, with the earlier of two possible
/// times: the time that `text` gives on this machine's clocks. The machine's time zone decides
/// on the offset, which is less than a day, and whether there is such a time at all; nothing
/// more is stated of it.
#[verifier::external_body]
pub(crate) fn parse_local_time(text: &str, format: &str) -> (r: Option<i64>)
    ensures
        r matches Some(ms) ==> naive_time(text@, format@) is Some && -86_400_000 < ms - naive_time(
            text@,
            format@,
        )->0 < 86_400_000,
{
    let naive = chrono::NaiveDateTime::parse_from_str(text, format).ok()?;
    let time = chrono::TimeZone::from_local_datetime(&chrono::Local, &naive).earliest()?;
    Some(time.timestamp_millis())
}

/// Clocks that are ahead of UTC show a time before UTC does: what they show less the offset is the
/// point in time, for offsets of less than a day and within the calendar.
pub proof fn law_offset_is_taken_off(naive: i64, offset: i32)
    ensures
        time_at_offset(naive, offset) matches Some(at) ==> at + offset * 1000 == naive,
        time_at_offset(naive, offset) is Some <==> -86_400 < offset < 86_400
            && -8_334_601_228_800_000 <= naive <= 8_210_266_876_799_999 && -8_334_601_228_800_000
            <= naive - offset * 1000 <= 8_210_266_876_799_999,
{
}

} // verus!
