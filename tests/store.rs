use tbb::db::Db;
use tbb::error::DbError;
use tbb::rank::{pre_insert, select_max_rank, verify_unique, Roster};
use tbb::status::status_report;
use tbb::date::YearMonth;

fn names(db: &Db) -> Vec<String> {
    db.select_outflow_jobs().iter().map(|j| j.name().clone()).collect()
}

#[test]
fn inserted_jobs_have_dense_ranks() {
    let mut db = Db::create_in_memory();
    for name in ["Groceries", "Rent", "Fun", "Travel"] {
        db.insert_job(name.to_string()).unwrap();
    }
    let jobs = db.select_outflow_jobs();
    let ranks: Vec<i64> = jobs.iter().map(|j| j.rank).collect();
    assert_eq!(ranks, vec![0, 1, 2, 3]);
    assert_eq!(names(&db), vec!["Groceries", "Rent", "Fun", "Travel"]);
    let ids: Vec<i64> = jobs.iter().map(|j| j.id()).collect();
    assert_eq!(ids, vec![1, 2, 3, 4]);
}

#[test]
fn first_job_gets_rank_zero() {
    let mut db = Db::create_in_memory();
    db.insert_job("Groceries".to_string()).unwrap();
    let jobs = db.select_outflow_jobs();
    assert_eq!(jobs.len(), 1);
    assert_eq!(jobs[0].rank, 0);
    assert_eq!(jobs[0].name, "Groceries");
}

#[test]
fn duplicate_job_name_is_refused_ignoring_case() {
    let mut db = Db::create_in_memory();
    db.insert_job("Groceries".to_string()).unwrap();
    db.insert_job("Rent".to_string()).unwrap();
    assert_eq!(db.insert_job("gROCERIES".to_string()), Err(DbError::DuplicateName));
    assert_eq!(db.insert_job("Rent".to_string()), Err(DbError::DuplicateName));
    let jobs = db.select_outflow_jobs();
    assert_eq!(jobs.len(), 2);
    assert_eq!(jobs.iter().map(|j| j.rank).collect::<Vec<_>>(), vec![0, 1]);
}

#[test]
fn case_folding_covers_ascii_only() {
    let mut db = Db::create_in_memory();
    db.insert_job("Ärger".to_string()).unwrap();
    assert_eq!(db.insert_job("ärger".to_string()), Ok(()));
    assert_eq!(db.insert_job("äRGER".to_string()), Err(DbError::DuplicateName));
}

#[test]
fn accounts_are_ranked_apart_from_jobs() {
    let mut db = Db::create_in_memory();
    db.insert_job("Cash".to_string()).unwrap();
    db.insert_account("Cash".to_string()).unwrap();
    db.insert_account("Checking".to_string()).unwrap();
    assert_eq!(db.insert_account("CASH".to_string()), Err(DbError::DuplicateName));
    let accounts = db.select_accounts();
    assert_eq!(accounts.len(), 2);
    assert_eq!(accounts[0].name, "Cash");
    assert_eq!(accounts[0].rank, 0);
    assert_eq!(accounts[1].name, "Checking");
    assert_eq!(accounts[1].rank, 1);
    assert_eq!(db.select_outflow_jobs().len(), 1);
}

#[test]
fn insert_at_shifts_later_members() {
    let mut roster = Roster::new();
    assert_eq!(roster.insert("a".to_string()), Ok(1));
    assert_eq!(roster.insert("b".to_string()), Ok(2));
    assert_eq!(roster.insert_at("c".to_string(), 0), Ok(3));
    assert_eq!(roster.insert_at("d".to_string(), 2), Ok(4));
    let got: Vec<(String, i64, i64)> = (0..roster.len())
        .map(|i| {
            let m = roster.get(i);
            (m.name.clone(), m.rank, m.id)
        })
        .collect();
    assert_eq!(
        got,
        vec![
            ("c".to_string(), 0, 3),
            ("a".to_string(), 1, 1),
            ("d".to_string(), 2, 4),
            ("b".to_string(), 3, 2),
        ]
    );
}

#[test]
fn pre_insert_frees_one_rank() {
    let mut roster = Roster::new();
    for name in ["a", "b", "c"] {
        roster.insert(name.to_string()).unwrap();
    }
    pre_insert(&mut roster, 1);
    let ranks: Vec<i64> = (0..roster.len()).map(|i| roster.get(i).rank).collect();
    assert_eq!(ranks, vec![0, 2, 3]);
}

#[test]
fn max_and_next_rank() {
    let mut roster = Roster::new();
    assert_eq!(select_max_rank(&roster), None);
    assert_eq!(roster.next_rank(), 0);
    roster.insert("a".to_string()).unwrap();
    roster.insert("b".to_string()).unwrap();
    assert_eq!(select_max_rank(&roster), Some(1));
    assert_eq!(roster.next_rank(), 2);
}

#[test]
fn verify_unique_reports_duplicates() {
    let mut roster = Roster::new();
    roster.insert("Rent".to_string()).unwrap();
    assert_eq!(verify_unique(&roster, "rent"), Err(DbError::DuplicateName));
    assert_eq!(verify_unique(&roster, "Rental"), Ok(()));
}

#[test]
fn restore_checks_records() {
    let mut db = Db::create_in_memory();
    assert_eq!(db.restore_job(5, "Rent".to_string(), 0), Ok(()));
    assert_eq!(db.restore_job(2, "Fun".to_string(), 2), Err(DbError::CorruptRecord));
    assert_eq!(db.restore_job(5, "Fun".to_string(), 1), Err(DbError::CorruptRecord));
    assert_eq!(db.restore_job(0, "Fun".to_string(), 1), Err(DbError::CorruptRecord));
    assert_eq!(db.restore_job(3, "RENT".to_string(), 1), Err(DbError::CorruptRecord));
    assert_eq!(db.restore_job(3, "Fun".to_string(), 1), Ok(()));
    db.insert_job("Travel".to_string()).unwrap();
    let jobs = db.select_outflow_jobs();
    assert_eq!(jobs.iter().map(|j| j.id()).collect::<Vec<_>>(), vec![5, 3, 6]);
    assert_eq!(db.restore_account(1, "Cash".to_string(), 0), Ok(()));
    assert_eq!(db.select_accounts()[0].id(), 1);
}

#[test]
fn status_lists_jobs_under_month_header() {
    let mut db = Db::create_in_memory();
    db.insert_job("Groceries".to_string()).unwrap();
    db.insert_job("Rent".to_string()).unwrap();
    let (header, jobs) = status_report(&db, YearMonth { year: 2024, month: 2 });
    assert_eq!(header, "Mar 2024");
    assert_eq!(jobs, vec!["Groceries".to_string(), "Rent".to_string()]);
}
