use vstd::prelude::*;

use crate::date::YearMonth;
use crate::error::DbError;
use crate::ledger::{
    applied, delta_fits, present, resolved, select, update_balance, JobBalance, Ledger,
};
use crate::rank::{has_id, has_name, lemma_rank_is_position, MemberView, Roster};

verus! {

/// The reserved job that stands for income. It never appears among the
/// ranked jobs, whose identifiers start at 1.
pub const INFLOW_JOB_ID: i64 = 0;

/// A spending category.
pub struct Job {
    pub name: String,
    pub rank: i64,
    id: i64,
}

impl View for Job {
    type V = MemberView;

    closed spec fn view(&self) -> MemberView {
        MemberView { id: self.id, name: self.name@, rank: self.rank }
    }
}

impl Job {
    pub fn id(&self) -> (r: i64)
        ensures
            r == self@.id,
    {
        self.id
    }

    pub fn name(&self) -> (r: &String)
        ensures
            r@ == self@.name,
    {
        &self.name
    }

    pub fn rank(&self) -> (r: i64)
        ensures
            r == self@.rank,
    {
        self.rank
    }
}

/// A place where money is held.
pub struct Account {
    pub name: String,
    pub rank: i64,
    id: i64,
}

impl View for Account {
    type V = MemberView;

    closed spec fn view(&self) -> MemberView {
        MemberView { id: self.id, name: self.name@, rank: self.rank }
    }
}

impl Account {
    pub fn id(&self) -> (r: i64)
        ensures
            r == self@.id,
    {
        self.id
    }

    pub fn name(&self) -> (r: &String)
        ensures
            r@ == self@.name,
    {
        &self.name
    }

    pub fn rank(&self) -> (r: i64)
        ensures
            r == self@.rank,
    {
        self.rank
    }
}

/// Jobs, accounts and job balances.
pub struct Db {
    jobs: Roster,
    accounts: Roster,
    balances: Ledger,
}

impl Db {
    pub closed spec fn wf(&self) -> bool {
        self.jobs.wf() && self.accounts.wf() && self.balances.wf()
    }

    /// The jobs other than the inflow job, in rank order.
    pub closed spec fn jobs(&self) -> Roster {
        self.jobs
    }

    /// The accounts, in rank order.
    pub closed spec fn accounts(&self) -> Roster {
        self.accounts
    }

    /// Every job balance row.
    pub closed spec fn balances(&self) -> Seq<JobBalance> {
        self.balances@
    }

    /// The inflow job is never among the ranked jobs, so no insert moves or
    /// lists it.
    pub proof fn lemma_inflow_reserved(&self, i: int)
        requires
            self.wf(),
            0 <= i < self.jobs()@.len(),
        ensures
            self.jobs()@[i].id != INFLOW_JOB_ID,
    {
        lemma_rank_is_position(&self.jobs, i);
    }

    /// An empty store: no jobs but the inflow job, no accounts, no balances.
    pub fn create_in_memory() -> (r: Db)
        ensures
            r.wf(),
            r.jobs()@ == Seq::<MemberView>::empty(),
            r.accounts()@ == Seq::<MemberView>::empty(),
            r.jobs().spec_next_id() == 1,
            r.accounts().spec_next_id() == 1,
            r.balances() == Seq::<JobBalance>::empty(),
    {
        Db { jobs: Roster::new(), accounts: Roster::new(), balances: Ledger::new() }
    }

    /// Adds a job named `name` after the others. Fails with `DuplicateName`,
    /// changing nothing, where the name matches a job's, ignoring ASCII case.
    pub fn insert_job(&mut self, name: String) -> (r: Result<(), DbError>)
        requires
            old(self).wf(),
        ensures
            final(self).wf(),
            final(self).accounts() == old(self).accounts(),
            final(self).balances() == old(self).balances(),
            has_name(old(self).jobs()@, name@) ==> r == Err::<(), DbError>(DbError::DuplicateName),
            !has_name(old(self).jobs()@, name@) && old(self).jobs().full() ==> r == Err::<
                (),
                DbError,
            >(DbError::IdsExhausted),
            r is Err ==> final(self).jobs() == old(self).jobs(),
            !has_name(old(self).jobs()@, name@) && !old(self).jobs().full() ==> {
                &&& r is Ok
                &&& final(self).jobs()@ == old(self).jobs()@.push(
                    MemberView {
                        id: old(self).jobs().spec_next_id(),
                        name: name@,
                        rank: old(self).jobs()@.len() as i64,
                    },
                )
            },
    {
        match self.jobs.insert(name) {
            Ok(_) => Ok(()),
            Err(e) => Err(e),
        }
    }

    /// Adds an account named `name` after the others. Fails with
    /// `DuplicateName`, changing nothing, where the name matches an account's,
    /// ignoring ASCII case.
    pub fn insert_account(&mut self, name: String) -> (r: Result<(), DbError>)
        requires
            old(self).wf(),
        ensures
            final(self).wf(),
            final(self).jobs() == old(self).jobs(),
            final(self).balances() == old(self).balances(),
            has_name(old(self).accounts()@, name@) ==> r == Err::<(), DbError>(
                DbError::DuplicateName,
            ),
            !has_name(old(self).accounts()@, name@) && old(self).accounts().full() ==> r == Err::<
                (),
                DbError,
            >(DbError::IdsExhausted),
            r is Err ==> final(self).accounts() == old(self).accounts(),
            !has_name(old(self).accounts()@, name@) && !old(self).accounts().full() ==> {
                &&& r is Ok
                &&& final(self).accounts()@ == old(self).accounts()@.push(
                    MemberView {
                        id: old(self).accounts().spec_next_id(),
                        name: name@,
                        rank: old(self).accounts()@.len() as i64,
                    },
                )
            },
    {
        match self.accounts.insert(name) {
            Ok(_) => Ok(()),
            Err(e) => Err(e),
        }
    }

    /// The jobs other than the inflow job, by ascending rank.
    pub fn select_outflow_jobs(&self) -> (r: Vec<Job>)
        requires
            self.wf(),
        ensures
            r@.len() == self.jobs()@.len(),
            forall|i: int| 0 <= i < r@.len() ==> (#[trigger] r@[i])@ == self.jobs()@[i],
            forall|i: int| 0 <= i < r@.len() ==> (#[trigger] r@[i])@.rank == i,
    {
        let n = self.jobs.len();
        let mut out: Vec<Job> = Vec::new();
        let mut i: usize = 0;
        while i < n
            invariant
                self.wf(),
                n == self.jobs@.len(),
                0 <= i <= n,
                out@.len() == i,
                forall|k: int| 0 <= k < i ==> (#[trigger] out@[k])@ == self.jobs@[k],
                forall|k: int| 0 <= k < i ==> (#[trigger] out@[k]).rank == k,
            decreases n - i,
        {
            let m = self.jobs.get(i);
            proof {
                lemma_rank_is_position(&self.jobs, i as int);
            }
            out.push(Job { name: m.name.clone(), rank: m.rank, id: m.id });
            i = i + 1;
        }
        out
    }

    /// The accounts, by ascending rank.
    pub fn select_accounts(&self) -> (r: Vec<Account>)
        requires
            self.wf(),
        ensures
            r@.len() == self.accounts()@.len(),
            forall|i: int| 0 <= i < r@.len() ==> (#[trigger] r@[i])@ == self.accounts()@[i],
            forall|i: int| 0 <= i < r@.len() ==> (#[trigger] r@[i])@.rank == i,
    {
        let n = self.accounts.len();
        let mut out: Vec<Account> = Vec::new();
        let mut i: usize = 0;
        while i < n
            invariant
                self.wf(),
                n == self.accounts@.len(),
                0 <= i <= n,
                out@.len() == i,
                forall|k: int| 0 <= k < i ==> (#[trigger] out@[k])@ == self.accounts@[k],
                forall|k: int| 0 <= k < i ==> (#[trigger] out@[k]).rank == k,
            decreases n - i,
        {
            let m = self.accounts.get(i);
            proof {
                lemma_rank_is_position(&self.accounts, i as int);
            }
            out.push(Account { name: m.name.clone(), rank: m.rank, id: m.id });
            i = i + 1;
        }
        out
    }

    /// The figures of `job_id` in `year_month`, carried over from the latest
    /// earlier month where that month has no row.
    pub fn select_balance(&self, year_month: YearMonth, job_id: i64) -> (r: JobBalance)
        requires
            self.wf(),
            year_month.wf(),
        ensures
            r == resolved(self.balances(), job_id, year_month),
    {
        select(&self.balances, year_month, job_id)
    }

    /// Records a delta of assigned and activity cents for `job_id` in
    /// `year_month`, moving the balance of every later month of the job.
    pub fn update_balance(
        &mut self,
        year_month: YearMonth,
        job_id: i64,
        assigned_delta: i64,
        activity_delta: i64,
    ) -> (r: Result<(), DbError>)
        requires
            old(self).wf(),
            year_month.wf(),
        ensures
            final(self).wf(),
            final(self).jobs() == old(self).jobs(),
            final(self).accounts() == old(self).accounts(),
            r is Ok <==> delta_fits(
                old(self).balances(),
                job_id,
                year_month,
                assigned_delta,
                activity_delta,
            ),
            r is Err ==> r == Err::<(), DbError>(DbError::AmountOverflow) && final(self).balances()
                == old(self).balances(),
            r is Ok ==> applied(
                old(self).balances(),
                final(self).balances(),
                job_id,
                year_month,
                assigned_delta,
                activity_delta,
            ),
    {
        update_balance(&mut self.balances, year_month, job_id, assigned_delta, activity_delta)
    }

    /// A copy of every job balance row.
    pub fn job_balances(&self) -> (r: Vec<JobBalance>)
        ensures
            r@ == self.balances(),
    {
        self.balances.rows().clone()
    }

    /// Adds a job read back from storage; see `Roster::restore`.
    pub fn restore_job(&mut self, id: i64, name: String, rank: i64) -> (r: Result<(), DbError>)
        requires
            old(self).wf(),
        ensures
            final(self).wf(),
            final(self).accounts() == old(self).accounts(),
            final(self).balances() == old(self).balances(),
            r is Ok <==> {
                &&& rank == old(self).jobs()@.len()
                &&& 1 <= id < i64::MAX
                &&& old(self).jobs()@.len() < i64::MAX - 1
                &&& !has_id(old(self).jobs()@, id)
                &&& !has_name(old(self).jobs()@, name@)
            },
            r is Err ==> r == Err::<(), DbError>(DbError::CorruptRecord),
            r is Ok ==> final(self).jobs()@ == old(self).jobs()@.push(
                MemberView { id, name: name@, rank },
            ),
            r is Err ==> final(self).jobs() == old(self).jobs(),
    {
        self.jobs.restore(id, name, rank)
    }

    /// Adds an account read back from storage; see `Roster::restore`.
    pub fn restore_account(&mut self, id: i64, name: String, rank: i64) -> (r: Result<(), DbError>)
        requires
            old(self).wf(),
        ensures
            final(self).wf(),
            final(self).jobs() == old(self).jobs(),
            final(self).balances() == old(self).balances(),
            r is Ok <==> {
                &&& rank == old(self).accounts()@.len()
                &&& 1 <= id < i64::MAX
                &&& old(self).accounts()@.len() < i64::MAX - 1
                &&& !has_id(old(self).accounts()@, id)
                &&& !has_name(old(self).accounts()@, name@)
            },
            r is Err ==> r == Err::<(), DbError>(DbError::CorruptRecord),
            r is Ok ==> final(self).accounts()@ == old(self).accounts()@.push(
                MemberView { id, name: name@, rank },
            ),
            r is Err ==> final(self).accounts() == old(self).accounts(),
    {
        self.accounts.restore(id, name, rank)
    }

    /// Adds a job balance row read back from storage; see `Ledger::restore`.
    pub fn restore_job_balance(&mut self, row: JobBalance) -> (r: Result<(), DbError>)
        requires
            old(self).wf(),
        ensures
            final(self).wf(),
            final(self).jobs() == old(self).jobs(),
            final(self).accounts() == old(self).accounts(),
            r is Ok <==> row.year_month.wf() && !present(old(self).balances(), row.job_id, row.year_month.ordinal()),
            r is Err ==> r == Err::<(), DbError>(DbError::CorruptRecord),
            r is Ok ==> final(self).balances() == old(self).balances().push(row),
            r is Err ==> final(self).balances() == old(self).balances(),
    {
        self.balances.restore(row)
    }
}

} // verus!
