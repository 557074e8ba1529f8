use vstd::prelude::*;

use crate::date::{format_month_year, month_year_text, YearMonth, MAX_CALENDAR_YEAR, MIN_CALENDAR_YEAR};
use crate::db::Db;

verus! {

/// What the status of month `today` shows: a header with the month and
/// year, then the name of every job other than the inflow job, by rank.
pub fn status_report(db: &Db, today: YearMonth) -> (r: (String, Vec<String>))
    requires
        db.wf(),
        MIN_CALENDAR_YEAR <= today.year <= MAX_CALENDAR_YEAR,
        today.month < 12,
    ensures
        r.0@ == month_year_text(today.year as int, today.month as int),
        r.1@.len() == db.jobs()@.len(),
        forall|i: int| 0 <= i < r.1@.len() ==> (#[trigger] r.1@[i])@ == db.jobs()@[i].name,
{
    let header = format_month_year(today);
    let jobs = db.select_outflow_jobs();
    let n = jobs.len();
    let mut names: Vec<String> = Vec::new();
    let mut i: usize = 0;
    while i < n
        invariant
            n == jobs@.len(),
            n == db.jobs()@.len(),
            forall|k: int| 0 <= k < n ==> (#[trigger] jobs@[k])@ == db.jobs()@[k],
            0 <= i <= n,
            names@.len() == i,
            forall|k: int| 0 <= k < i ==> (#[trigger] names@[k])@ == db.jobs()@[k].name,
        decreases n - i,
    {
        names.push(jobs[i].name().clone());
        i = i + 1;
    }
    (header, names)
}

} // verus!
