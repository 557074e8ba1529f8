use vstd::prelude::*;

use crate::date::YearMonth;
use crate::error::DbError;

verus! {

/// One job's figures for one month.
#[derive(PartialEq, Eq, Structural, Clone, Copy, Debug)]
pub struct JobBalance {
    pub year_month: YearMonth,
    pub job_id: i64,
    /// Running balance in cents including transactions made in previous months.
    pub balance: i64,
    /// Cents assigned to this job during the current month only.
    pub assigned: i64,
    /// Cents of activity during the current month only.
    /// Spending X cents results in negative X activity.
    pub activity: i64,
}

/// The month of a row, as an ordinal.
pub open spec fn ord(r: JobBalance) -> int {
    r.year_month.ordinal()
}

pub open spec fn fits_i64(x: int) -> bool {
    i64::MIN <= x <= i64::MAX
}

/// Months in range, and at most one row for each job and month.
pub open spec fn rows_wf(rows: Seq<JobBalance>) -> bool {
    &&& forall|i: int| 0 <= i < rows.len() ==> (#[trigger] rows[i]).year_month.wf()
    &&& forall|i: int, j: int|
        0 <= i < rows.len() && 0 <= j < rows.len() && i != j && (#[trigger] rows[i]).job_id
            == (#[trigger] rows[j]).job_id ==> ord(rows[i]) != ord(rows[j])
}

/// Row `i` belongs to `job` and lies at or before month `m`.
pub open spec fn at_or_before(rows: Seq<JobBalance>, job: i64, m: int, i: int) -> bool {
    0 <= i < rows.len() && rows[i].job_id == job && ord(rows[i]) <= m
}

/// Row `i` is the latest row of `job` at or before month `m`.
pub open spec fn is_closest(rows: Seq<JobBalance>, job: i64, m: int, i: int) -> bool {
    &&& at_or_before(rows, job, m, i)
    &&& forall|j: int| #[trigger] at_or_before(rows, job, m, j) ==> ord(rows[j]) <= ord(rows[i])
}

/// Whether `job` has a row at or before month `m`.
pub open spec fn has_prior(rows: Seq<JobBalance>, job: i64, m: int) -> bool {
    exists|i: int| #[trigger] at_or_before(rows, job, m, i)
}

/// Whether `job` has a row at exactly month `m`.
pub open spec fn present(rows: Seq<JobBalance>, job: i64, m: int) -> bool {
    exists|i: int| 0 <= i < rows.len() && (#[trigger] rows[i]).job_id == job && ord(rows[i]) == m
}

/// The latest row of `job` at or before month `m`, where there is one.
pub open spec fn closest(rows: Seq<JobBalance>, job: i64, m: int) -> int {
    choose|i: int| is_closest(rows, job, m, i)
}

/// A month with nothing recorded and nothing carried over.
pub open spec fn zero_balance(year_month: YearMonth, job_id: i64) -> JobBalance {
    JobBalance { year_month, job_id, balance: 0, assigned: 0, activity: 0 }
}

/// A row seen from `year_month`: the row itself for its own month; for a
/// later month, its balance carried over with nothing assigned or spent.
pub open spec fn carried(r: JobBalance, year_month: YearMonth) -> JobBalance {
    if r.year_month == year_month {
        r
    } else {
        JobBalance { year_month, job_id: r.job_id, balance: r.balance, assigned: 0, activity: 0 }
    }
}

/// The figures of `job` in `year_month`: those of the latest row at or
/// before it, carried over; zero where there is none.
pub open spec fn resolved(rows: Seq<JobBalance>, job: i64, year_month: YearMonth) -> JobBalance {
    if has_prior(rows, job, year_month.ordinal()) {
        carried(rows[closest(rows, job, year_month.ordinal())], year_month)
    } else {
        zero_balance(year_month, job)
    }
}

/// A row after a delta of `a` assigned and `c` activity in month `m` of `job`:
/// the balance of that month and of every later one moves by `a + c`, and
/// the month's own figures take the deltas.
pub open spec fn bumped(r: JobBalance, job: i64, m: int, a: i64, c: i64) -> JobBalance {
    if r.job_id == job && ord(r) == m {
        JobBalance {
            balance: (r.balance + a + c) as i64,
            assigned: (r.assigned + a) as i64,
            activity: (r.activity + c) as i64,
            ..r
        }
    } else if r.job_id == job && ord(r) > m {
        JobBalance { balance: (r.balance + a + c) as i64, ..r }
    } else {
        r
    }
}

/// Every figure that a delta changes still fits in an `i64`.
pub open spec fn delta_fits(
    rows: Seq<JobBalance>,
    job: i64,
    year_month: YearMonth,
    a: i64,
    c: i64,
) -> bool {
    &&& forall|i: int|
        0 <= i < rows.len() && (#[trigger] rows[i]).job_id == job && ord(rows[i])
            >= year_month.ordinal() ==> fits_i64(rows[i].balance + a + c)
    &&& forall|i: int|
        0 <= i < rows.len() && (#[trigger] rows[i]).job_id == job && ord(rows[i])
            == year_month.ordinal() ==> fits_i64(rows[i].assigned + a) && fits_i64(
            rows[i].activity + c,
        )
    &&& !present(rows, job, year_month.ordinal()) ==> fits_i64(
        resolved(rows, job, year_month).balance + a + c,
    )
}

/// `new` is `old` after a delta in `year_month` of `job`: every row bumped,
/// and a row for that month added at the end where there was none.
pub open spec fn applied(
    old: Seq<JobBalance>,
    new: Seq<JobBalance>,
    job: i64,
    year_month: YearMonth,
    a: i64,
    c: i64,
) -> bool {
    let m = year_month.ordinal();
    &&& new.len() == old.len() + if present(old, job, m) {
        0int
    } else {
        1int
    }
    &&& forall|i: int| 0 <= i < old.len() ==> new[i] == bumped(#[trigger] old[i], job, m, a, c)
    &&& !present(old, job, m) ==> new[old.len() as int] == JobBalance {
        year_month,
        job_id: job,
        balance: (resolved(old, job, year_month).balance + a + c) as i64,
        assigned: a,
        activity: c,
    }
}

impl JobBalance {
    pub fn new(year_month: YearMonth, job_id: i64) -> (r: JobBalance)
        ensures
            r == zero_balance(year_month, job_id),
    {
        JobBalance { year_month, job_id, balance: 0, assigned: 0, activity: 0 }
    }

    /// When carrying a balance over to a new month, the balance stays the same,
    /// but the assigned and activity amounts for the month get reset to 0.
    pub fn with_year_month(self, year_month: YearMonth) -> (r: JobBalance)
        ensures
            r == carried(self, year_month),
    {
        if year_month == self.year_month {
            self
        } else {
            JobBalance {
                year_month,
                job_id: self.job_id,
                balance: self.balance,
                assigned: 0,
                activity: 0,
            }
        }
    }
}

/// Every row ever recorded, at most one per job and month.
pub struct Ledger {
    rows: Vec<JobBalance>,
}

impl View for Ledger {
    type V = Seq<JobBalance>;

    closed spec fn view(&self) -> Seq<JobBalance> {
        self.rows@
    }
}

impl Ledger {
    pub open spec fn wf(&self) -> bool {
        rows_wf(self@)
    }

    pub fn new() -> (r: Ledger)
        ensures
            r.wf(),
            r@ == Seq::<JobBalance>::empty(),
    {
        Ledger { rows: Vec::new() }
    }

    /// The recorded rows, in the order in which they were first written.
    pub fn rows(&self) -> (r: &Vec<JobBalance>)
        ensures
            r@ == self@,
    {
        &self.rows
    }

    /// Adds a row read back from storage. It is taken only where its month is
    /// in range and the job has no row for that month yet.
    pub fn restore(&mut self, row: JobBalance) -> (r: Result<(), DbError>)
        requires
            old(self).wf(),
        ensures
            final(self).wf(),
            r is Ok <==> row.year_month.wf() && !present(old(self)@, row.job_id, ord(row)),
            r is Ok ==> final(self)@ == old(self)@.push(row),
            r is Err ==> r == Err::<(), DbError>(DbError::CorruptRecord) && final(self)@ == old(
                self,
            )@,
    {
        if row.year_month.month >= 12 {
            return Err(DbError::CorruptRecord);
        }
        let wide: i128 = row.year_month.year as i128 * 12 + row.year_month.month as i128;
        if wide < i64::MIN as i128 || wide > i64::MAX as i128 {
            return Err(DbError::CorruptRecord);
        }
        let m = row.year_month.to_int();
        let n = self.rows.len();
        let mut i: usize = 0;
        while i < n
            invariant
                n == self@.len(),
                m == ord(row),
                self.wf(),
                *self == *old(self),
                0 <= i <= n,
                forall|k: int|
                    0 <= k < i ==> !((#[trigger] self@[k]).job_id == row.job_id && ord(self@[k])
                        == m),
            decreases n - i,
        {
            let other = self.rows[i];
            if other.job_id == row.job_id && other.year_month.to_int() == m {
                assert(old(self)@[i as int].job_id == row.job_id && ord(old(self)@[i as int]) == m);
                return Err(DbError::CorruptRecord);
            }
            i = i + 1;
        }
        self.rows.push(row);
        Ok(())
    }
}

/// Two latest rows of one job at or before one month are the same row.
pub proof fn lemma_closest_unique(rows: Seq<JobBalance>, job: i64, m: int, i: int, j: int)
    requires
        rows_wf(rows),
        is_closest(rows, job, m, i),
        is_closest(rows, job, m, j),
    ensures
        i == j,
{
    assert(at_or_before(rows, job, m, i));
    assert(at_or_before(rows, job, m, j));
    if i != j {
        assert(rows[i].job_id == rows[j].job_id);
    }
}

fn fits_wide(x: i128) -> (r: bool)
    ensures
        r == fits_i64(x as int),
{
    i64::MIN as i128 <= x && x <= i64::MAX as i128
}

/// The index of the latest row of `job_id` at or before `year_month`.
fn closest_index(ledger: &Ledger, year_month: YearMonth, job_id: i64) -> (r: Option<usize>)
    requires
        ledger.wf(),
        year_month.wf(),
    ensures
        r is None <==> !has_prior(ledger@, job_id, year_month.ordinal()),
        r matches Some(b) ==> is_closest(ledger@, job_id, year_month.ordinal(), b as int),
{
    let m = year_month.to_int();
    let n = ledger.rows.len();
    let mut best: Option<usize> = None;
    let mut best_ord: i64 = 0;
    let mut i: usize = 0;
    while i < n
        invariant
            ledger.wf(),
            n == ledger@.len(),
            m == year_month.ordinal(),
            0 <= i <= n,
            best is None ==> forall|k: int| 0 <= k < i ==> !#[trigger] at_or_before(ledger@, job_id, m as int, k),
            best matches Some(b) ==> {
                &&& b < i
                &&& at_or_before(ledger@, job_id, m as int, b as int)
                &&& best_ord == ord(ledger@[b as int])
                &&& forall|k: int|
                    0 <= k < i && #[trigger] at_or_before(ledger@, job_id, m as int, k) ==> ord(ledger@[k])
                        <= best_ord
            },
        decreases n - i,
    {
        let row = ledger.rows[i];
        assert(row == ledger@[i as int]);
        if row.job_id == job_id {
            let o = row.year_month.to_int();
            if o <= m {
                match best {
                    None => {
                        best = Some(i);
                        best_ord = o;
                    },
                    Some(_) => {
                        if o > best_ord {
                            best = Some(i);
                            best_ord = o;
                        }
                    },
                }
            }
        }
        i = i + 1;
    }
    match best {
        None => {},
        Some(b) => {
            assert(at_or_before(ledger@, job_id, m as int, b as int));
        },
    }
    best
}

/// The latest row of `job_id` at or before `year_month`, as it was stored.
pub fn select_closest(ledger: &Ledger, year_month: YearMonth, job_id: i64) -> (r: Option<
    JobBalance,
>)
    requires
        ledger.wf(),
        year_month.wf(),
    ensures
        r is None <==> !has_prior(ledger@, job_id, year_month.ordinal()),
        r matches Some(x) ==> x == ledger@[closest(ledger@, job_id, year_month.ordinal())],
{
    match closest_index(ledger, year_month, job_id) {
        None => None,
        Some(b) => {
            proof {
                let c = closest(ledger@, job_id, year_month.ordinal());
                assert(is_closest(ledger@, job_id, year_month.ordinal(), c));
                lemma_closest_unique(ledger@, job_id, year_month.ordinal(), b as int, c);
            }
            Some(ledger.rows[b])
        },
    }
}

/// The figures of `job_id` in `year_month`. A month without a row of its own
/// carries over the balance of the latest earlier row, with nothing assigned
/// or spent; a job without any such row has a zero balance.
pub fn select(ledger: &Ledger, year_month: YearMonth, job_id: i64) -> (r: JobBalance)
    requires
        ledger.wf(),
        year_month.wf(),
    ensures
        r == resolved(ledger@, job_id, year_month),
{
    match select_closest(ledger, year_month, job_id) {
        Some(balance) => balance.with_year_month(year_month),
        None => JobBalance::new(year_month, job_id),
    }
}

/// Checks that a delta keeps every figure in range, and finds the row of the
/// month itself, where there is one.
fn check_delta(
    ledger: &Ledger,
    year_month: YearMonth,
    job_id: i64,
    a: i64,
    c: i64,
    current: JobBalance,
) -> (r: Result<Option<usize>, DbError>)
    requires
        ledger.wf(),
        year_month.wf(),
        current == resolved(ledger@, job_id, year_month),
    ensures
        r is Ok <==> delta_fits(ledger@, job_id, year_month, a, c),
        r is Err ==> r == Err::<Option<usize>, DbError>(DbError::AmountOverflow),
        r matches Ok(None) ==> !present(ledger@, job_id, year_month.ordinal()),
        r matches Ok(Some(f)) ==> f < ledger@.len() && ledger@[f as int].job_id == job_id && ord(
            ledger@[f as int],
        ) == year_month.ordinal(),
{
    let m = year_month.to_int();
    let d: i128 = a as i128 + c as i128;
    let n = ledger.rows.len();
    let mut found: Option<usize> = None;
    let mut i: usize = 0;
    while i < n
        invariant
            ledger.wf(),
            n == ledger@.len(),
            m == year_month.ordinal(),
            d == a + c,
            0 <= i <= n,
            forall|k: int|
                0 <= k < i && (#[trigger] ledger@[k]).job_id == job_id && ord(ledger@[k]) >= m
                    ==> fits_i64(ledger@[k].balance + a + c),
            forall|k: int|
                0 <= k < i && (#[trigger] ledger@[k]).job_id == job_id && ord(ledger@[k]) == m
                    ==> fits_i64(ledger@[k].assigned + a) && fits_i64(ledger@[k].activity + c),
            found is None ==> forall|k: int|
                0 <= k < i ==> !((#[trigger] ledger@[k]).job_id == job_id && ord(ledger@[k]) == m),
            found matches Some(f) ==> f < i && ledger@[f as int].job_id == job_id && ord(
                ledger@[f as int],
            ) == m,
        decreases n - i,
    {
        let row = ledger.rows[i];
        assert(row == ledger@[i as int]);
        if row.job_id == job_id {
            let o = row.year_month.to_int();
            if o >= m {
                if !fits_wide(row.balance as i128 + d) {
                    assert(ledger@[i as int].job_id == job_id && ord(ledger@[i as int]) >= m);
                    return Err(DbError::AmountOverflow);
                }
            }
            if o == m {
                if !fits_wide(row.assigned as i128 + a as i128) || !fits_wide(
                    row.activity as i128 + c as i128,
                ) {
                    assert(ledger@[i as int].job_id == job_id && ord(ledger@[i as int]) == m);
                    return Err(DbError::AmountOverflow);
                }
                found = Some(i);
            }
        }
        i = i + 1;
    }
    proof {
        match found {
            Some(f) => {
                assert(present(ledger@, job_id, m as int));
            },
            None => {},
        }
    }
    if found.is_none() {
        if !fits_wide(current.balance as i128 + d) {
            return Err(DbError::AmountOverflow);
        }
    }
    Ok(found)
}

/// Records `assigned_delta` and `activity_delta` for `job_id` in `year_month`.
/// The month's row takes both deltas (it is created from the carried-over
/// balance where it did not exist), and the balance of every later row of the
/// job moves by their sum. Where a figure would leave the range of `i64`,
/// nothing changes and `AmountOverflow` is returned.
pub fn update_balance(
    ledger: &mut Ledger,
    year_month: YearMonth,
    job_id: i64,
    assigned_delta: i64,
    activity_delta: i64,
) -> (r: Result<(), DbError>)
    requires
        old(ledger).wf(),
        year_month.wf(),
    ensures
        final(ledger).wf(),
        r is Ok <==> delta_fits(old(ledger)@, job_id, year_month, assigned_delta, activity_delta),
        r is Err ==> r == Err::<(), DbError>(DbError::AmountOverflow) && final(ledger)@ == old(
            ledger,
        )@,
        r is Ok ==> applied(
            old(ledger)@,
            final(ledger)@,
            job_id,
            year_month,
            assigned_delta,
            activity_delta,
        ),
{
    let a = assigned_delta;
    let c = activity_delta;
    let current = select(ledger, year_month, job_id);
    let found = match check_delta(ledger, year_month, job_id, a, c, current) {
        Err(e) => {
            return Err(e);
        },
        Ok(f) => f,
    };
    let m = year_month.to_int();
    let d: i128 = a as i128 + c as i128;
    let n = ledger.rows.len();
    let ghost before = ledger@;
    let mut i: usize = 0;
    while i < n
        invariant
            n == before.len(),
            rows_wf(before),
            ledger@.len() == n,
            m == year_month.ordinal(),
            d == a + c,
            0 <= i <= n,
            forall|k: int|
                0 <= k < n && (#[trigger] before[k]).job_id == job_id && ord(before[k]) >= m
                    ==> fits_i64(before[k].balance + a + c),
            forall|k: int|
                0 <= k < n && (#[trigger] before[k]).job_id == job_id && ord(before[k]) == m
                    ==> fits_i64(before[k].assigned + a) && fits_i64(before[k].activity + c),
            forall|k: int|
                0 <= k < i ==> #[trigger] ledger@[k] == bumped(before[k], job_id, m as int, a, c),
            forall|k: int| i <= k < n ==> #[trigger] ledger@[k] == before[k],
        decreases n - i,
    {
        let row = ledger.rows[i];
        assert(row == before[i as int]);
        if row.job_id == job_id {
            let o = row.year_month.to_int();
            if o >= m {
                ledger.rows[i].balance = (row.balance as i128 + d) as i64;
            }
            if o == m {
                ledger.rows[i].assigned = row.assigned + a;
                ledger.rows[i].activity = row.activity + c;
            }
        }
        i = i + 1;
    }
    let ghost bumped_rows = ledger@;
    if found.is_none() {
        ledger.rows.push(
            JobBalance {
                year_month,
                job_id,
                balance: (current.balance as i128 + d) as i64,
                assigned: a,
                activity: c,
            },
        );
    }
    proof {
        assert forall|k: int| 0 <= k < n implies #[trigger] ledger@[k] == bumped(
            before[k],
            job_id,
            m as int,
            a,
            c,
        ) by {
            assert(ledger@[k] == bumped_rows[k]);
        }
        assert forall|x: int, y: int|
            0 <= x < ledger@.len() && 0 <= y < ledger@.len() && x != y && (#[trigger] ledger@[x]).job_id
                == (#[trigger] ledger@[y]).job_id implies ord(ledger@[x]) != ord(ledger@[y]) by {
            if x < n && y < n {
                assert(ledger@[x] == bumped(before[x], job_id, m as int, a, c));
                assert(ledger@[y] == bumped(before[y], job_id, m as int, a, c));
            } else if x < n {
                assert(ledger@[x] == bumped(before[x], job_id, m as int, a, c));
            } else {
                assert(ledger@[y] == bumped(before[y], job_id, m as int, a, c));
            }
        }
        assert forall|k: int| 0 <= k < ledger@.len() implies (#[trigger] ledger@[k]).year_month.wf() by {
            if k < n {
                assert(ledger@[k] == bumped(before[k], job_id, m as int, a, c));
            }
        }
    }
    Ok(())
}

/// Row `i` is the earliest recorded month of its job.
pub open spec fn is_first(rows: Seq<JobBalance>, i: int) -> bool {
    &&& 0 <= i < rows.len()
    &&& forall|k: int|
        0 <= k < rows.len() && (#[trigger] rows[k]).job_id == rows[i].job_id ==> ord(rows[i])
            <= ord(rows[k])
}

/// Rows `i` and `j` are consecutive recorded months of one job.
pub open spec fn consecutive(rows: Seq<JobBalance>, i: int, j: int) -> bool {
    &&& 0 <= i < rows.len()
    &&& 0 <= j < rows.len()
    &&& rows[i].job_id == rows[j].job_id
    &&& ord(rows[i]) < ord(rows[j])
    &&& forall|k: int|
        0 <= k < rows.len() && (#[trigger] rows[k]).job_id == rows[i].job_id ==> !(ord(rows[i])
            < ord(rows[k]) && ord(rows[k]) < ord(rows[j]))
}

/// Every running balance of `job` agrees with the figures recorded: its
/// earliest row holds its own assigned and activity, and each later row holds
/// the previous recorded balance plus its own assigned and activity.
pub open spec fn consistent(rows: Seq<JobBalance>, job: i64) -> bool {
    &&& forall|i: int| #[trigger] is_first(rows, i) && rows[i].job_id == job ==> rows[i].balance
        == rows[i].assigned + rows[i].activity
    &&& forall|i: int, j: int| #[trigger] consecutive(rows, i, j) && rows[i].job_id == job
        ==> rows[j].balance == rows[i].balance + rows[j].assigned + rows[j].activity
}

/// Where `job` has a row at or before `m`, one of them is the latest.
pub proof fn lemma_closest_exists(rows: Seq<JobBalance>, job: i64, m: int)
    requires
        has_prior(rows, job, m),
    ensures
        is_closest(rows, job, m, closest(rows, job, m)),
    decreases rows.len(),
{
    let w = choose|i: int| at_or_before(rows, job, m, i);
    let n = rows.len() - 1;
    let prefix = rows.drop_last();
    assert forall|k: int| 0 <= k < n implies #[trigger] at_or_before(prefix, job, m, k)
        == at_or_before(rows, job, m, k) by {
        assert(prefix[k] == rows[k]);
    }
    if has_prior(prefix, job, m) {
        lemma_closest_exists(prefix, job, m);
        let c = closest(prefix, job, m);
        assert(at_or_before(rows, job, m, c));
        if at_or_before(rows, job, m, n) && ord(rows[n]) > ord(rows[c]) {
            assert forall|j: int| #[trigger] at_or_before(rows, job, m, j) implies ord(rows[j])
                <= ord(rows[n]) by {
                if j < n {
                    assert(at_or_before(prefix, job, m, j));
                }
            }
            assert(is_closest(rows, job, m, n));
        } else {
            assert forall|j: int| #[trigger] at_or_before(rows, job, m, j) implies ord(rows[j])
                <= ord(rows[c]) by {
                if j < n {
                    assert(at_or_before(prefix, job, m, j));
                }
            }
            assert(is_closest(rows, job, m, c));
        }
    } else {
        assert(w == n) by {
            if w < n {
                assert(at_or_before(prefix, job, m, w));
            }
        }
        assert forall|j: int| #[trigger] at_or_before(rows, job, m, j) implies ord(rows[j]) <= ord(
            rows[n],
        ) by {
            if j < n {
                assert(at_or_before(prefix, job, m, j));
            }
        }
        assert(is_closest(rows, job, m, n));
    }
}

/// A month without a row of its own inherits the balance of the nearest
/// earlier recorded month of the job (zero where there is none), with
/// nothing assigned and no activity.
pub proof fn lemma_gap_inherits(rows: Seq<JobBalance>, job: i64, year_month: YearMonth)
    requires
        rows_wf(rows),
        year_month.wf(),
        !present(rows, job, year_month.ordinal()),
    ensures
        resolved(rows, job, year_month).year_month == year_month,
        resolved(rows, job, year_month).job_id == job,
        resolved(rows, job, year_month).assigned == 0,
        resolved(rows, job, year_month).activity == 0,
        !has_prior(rows, job, year_month.ordinal()) ==> resolved(rows, job, year_month).balance
            == 0,
        has_prior(rows, job, year_month.ordinal()) ==> {
            let c = closest(rows, job, year_month.ordinal());
            &&& rows[c].job_id == job
            &&& ord(rows[c]) < year_month.ordinal()
            &&& resolved(rows, job, year_month).balance == rows[c].balance
            &&& forall|k: int|
                0 <= k < rows.len() && (#[trigger] rows[k]).job_id == job && ord(rows[k])
                    < year_month.ordinal() ==> ord(rows[k]) <= ord(rows[c])
        },
{
    let m = year_month.ordinal();
    if has_prior(rows, job, m) {
        lemma_closest_exists(rows, job, m);
        let c = closest(rows, job, m);
        assert(ord(rows[c]) != m);
        assert(rows[c].year_month != year_month);
        assert forall|k: int|
            0 <= k < rows.len() && (#[trigger] rows[k]).job_id == job && ord(rows[k]) < m implies ord(
            rows[k],
        ) <= ord(rows[c]) by {
            assert(at_or_before(rows, job, m, k));
        }
    }
}

/// A delta in month `m` of a job moves the balance of that month and of
/// every later recorded month of the job by the sum of the deltas, and
/// leaves the assigned and activity figures of the later months as they were.
pub proof fn lemma_retroactive(
    old: Seq<JobBalance>,
    new: Seq<JobBalance>,
    job: i64,
    year_month: YearMonth,
    a: i64,
    c: i64,
    i: int,
)
    requires
        delta_fits(old, job, year_month, a, c),
        applied(old, new, job, year_month, a, c),
        0 <= i < old.len(),
        old[i].job_id == job,
        ord(old[i]) >= year_month.ordinal(),
    ensures
        new[i].balance == old[i].balance + a + c,
        new[i].year_month == old[i].year_month,
        new[i].job_id == job,
        ord(old[i]) > year_month.ordinal() ==> new[i].assigned == old[i].assigned
            && new[i].activity == old[i].activity,
        ord(old[i]) == year_month.ordinal() ==> new[i].assigned == old[i].assigned + a
            && new[i].activity == old[i].activity + c,
{
    assert(new[i] == bumped(old[i], job, year_month.ordinal(), a, c));
}

/// Rows of other jobs, and rows of the job before the month, are untouched.
pub proof fn lemma_untouched(
    old: Seq<JobBalance>,
    new: Seq<JobBalance>,
    job: i64,
    year_month: YearMonth,
    a: i64,
    c: i64,
    i: int,
)
    requires
        applied(old, new, job, year_month, a, c),
        0 <= i < old.len(),
        old[i].job_id != job || ord(old[i]) < year_month.ordinal(),
    ensures
        new[i] == old[i],
{
    assert(new[i] == bumped(old[i], job, year_month.ordinal(), a, c));
}

/// In a ledger with no rows every job is consistent.
pub proof fn lemma_empty_consistent(job: i64)
    ensures
        consistent(Seq::<JobBalance>::empty(), job),
{
}

/// A delta, to `k` or to any other job, keeps job `k` consistent; so every
/// job of a ledger built by deltas from an empty one is consistent.
pub proof fn lemma_apply_keeps_consistency(
    old: Seq<JobBalance>,
    new: Seq<JobBalance>,
    job: i64,
    year_month: YearMonth,
    a: i64,
    c: i64,
    k: i64,
)
    requires
        rows_wf(old),
        year_month.wf(),
        consistent(old, k),
        delta_fits(old, job, year_month, a, c),
        applied(old, new, job, year_month, a, c),
    ensures
        consistent(new, k),
{
    let m = year_month.ordinal();
    let n = old.len() as int;
    let p = present(old, job, m);
    assert forall|i: int| 0 <= i < n implies #[trigger] new[i].job_id == old[i].job_id && ord(new[i])
        == ord(old[i]) by {
        assert(new[i] == bumped(old[i], job, m, a, c));
    }
    let rb = resolved(old, job, year_month).balance;
    if !p {
        assert(new[n].job_id == job && ord(new[n]) == m);
    }
    if has_prior(old, job, m) {
        lemma_closest_exists(old, job, m);
    }
    // Earliest rows.
    assert forall|i: int| #[trigger] is_first(new, i) && new[i].job_id == k implies new[i].balance
        == new[i].assigned + new[i].activity by {
        if i < n {
            assert(new[i] == bumped(old[i], job, m, a, c));
            if old[i].job_id == job && ord(old[i]) > m {
                if p {
                    let q = choose|q: int|
                        0 <= q < old.len() && (#[trigger] old[q]).job_id == job && ord(old[q]) == m;
                    assert(new[q].job_id == job);
                } else {
                    assert(new[n].job_id == new[i].job_id);
                }
            } else {
                assert forall|k: int|
                    0 <= k < old.len() && (#[trigger] old[k]).job_id == old[i].job_id implies ord(
                    old[i],
                ) <= ord(old[k]) by {
                    assert(new[k].job_id == new[i].job_id);
                }
                assert(is_first(old, i));
            }
        } else {
            assert(!has_prior(old, job, m)) by {
                if has_prior(old, job, m) {
                    let w = choose|w: int| at_or_before(old, job, m, w);
                    assert(new[w].job_id == new[n].job_id);
                }
            }
        }
    }
    // Consecutive rows.
    assert forall|i: int, j: int| #[trigger] consecutive(new, i, j) && new[i].job_id == k implies new[j].balance
        == new[i].balance + new[j].assigned + new[j].activity by {
        if i < n && j < n {
            assert(new[i] == bumped(old[i], job, m, a, c));
            assert(new[j] == bumped(old[j], job, m, a, c));
            assert forall|k: int|
                0 <= k < old.len() && (#[trigger] old[k]).job_id == old[i].job_id implies !(ord(
                old[i],
            ) < ord(old[k]) && ord(old[k]) < ord(old[j])) by {
                assert(new[k].job_id == new[i].job_id);
            }
            assert(consecutive(old, i, j));
            if old[i].job_id == job && ord(old[i]) < m && ord(old[j]) > m {
                if p {
                    let q = choose|q: int|
                        0 <= q < old.len() && (#[trigger] old[q]).job_id == job && ord(old[q]) == m;
                    assert(new[q].job_id == job);
                } else {
                    assert(new[n].job_id == new[i].job_id);
                }
            }
        } else if i < n {
            // The new row of month `m` follows row `i`.
            assert(j == n);
            assert(new[i] == bumped(old[i], job, m, a, c));
            assert(at_or_before(old, job, m, i));
            assert forall|k: int| #[trigger] at_or_before(old, job, m, k) implies ord(old[k]) <= ord(
                old[i],
            ) by {
                assert(new[k].job_id == new[i].job_id);
            }
            assert(is_closest(old, job, m, i));
            lemma_closest_unique(old, job, m, i, closest(old, job, m));
        } else {
            // Row `j` follows the new row of month `m`.
            assert(i == n);
            assert(new[j] == bumped(old[j], job, m, a, c));
            if has_prior(old, job, m) {
                let q = closest(old, job, m);
                assert(ord(old[q]) != m);
                assert forall|k: int|
                    0 <= k < old.len() && (#[trigger] old[k]).job_id == old[q].job_id implies !(ord(
                    old[q],
                ) < ord(old[k]) && ord(old[k]) < ord(old[j])) by {
                    assert(new[k].job_id == new[n].job_id);
                    if ord(old[k]) <= m {
                        assert(at_or_before(old, job, m, k));
                    }
                }
                assert(consecutive(old, q, j));
            } else {
                assert forall|k: int|
                    0 <= k < old.len() && (#[trigger] old[k]).job_id == old[j].job_id implies ord(
                    old[j],
                ) <= ord(old[k]) by {
                    assert(new[k].job_id == new[n].job_id);
                    if ord(old[k]) <= m {
                        assert(at_or_before(old, job, m, k));
                    }
                }
                assert(is_first(old, j));
            }
        }
    }
}

} // verus!
