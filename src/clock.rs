use chrono::Datelike;
use vstd::prelude::*;

use crate::birthday::{is_calendar_date, Date};

verus! {

/// Relies on chrono's `Local::now`, `DateTime::naive_local`, `NaiveDateTime::date`
/// and the `Datelike` accessors: today's local date, whose month lies in 1..=12
/// and whose day lies in 1..=31.
#[verifier::external_body]
pub(crate) fn local_today() -> (r: Date)
    ensures
        is_calendar_date(r),
{
    let d = chrono::Local::now().naive_local().date();
    Date { year: d.year(), month: d.month() as u8, day: d.day() as u8 }
}

} // verus!
