use tbb::date::YearMonth;
use tbb::db::Db;
use tbb::error::DbError;
use tbb::ledger::{select, select_closest, update_balance, JobBalance, Ledger};

fn ym(year: i64, month: u8) -> YearMonth {
    YearMonth { year, month }
}

fn figures(b: &JobBalance) -> (i64, i64, i64) {
    (b.balance, b.assigned, b.activity)
}

#[test]
fn groceries_scenario() {
    let mut db = Db::create_in_memory();
    db.insert_job("Groceries".to_string()).unwrap();
    let jobs = db.select_outflow_jobs();
    assert_eq!(jobs[0].rank, 0);
    let id = jobs[0].id();
    db.update_balance(ym(2024, 0), id, 50000, 0).unwrap();
    assert_eq!(figures(&db.select_balance(ym(2024, 0), id)), (50000, 50000, 0));
    db.update_balance(ym(2024, 0), id, 0, -12000).unwrap();
    assert_eq!(figures(&db.select_balance(ym(2024, 0), id)), (38000, 50000, -12000));
    let feb = db.select_balance(ym(2024, 1), id);
    assert_eq!(figures(&feb), (38000, 0, 0));
    assert_eq!(feb.year_month, ym(2024, 1));
    assert_eq!(feb.job_id, id);
}

#[test]
fn retroactive_delta_moves_later_balances() {
    let mut ledger = Ledger::new();
    update_balance(&mut ledger, ym(2024, 1), 1, 100, 0).unwrap();
    update_balance(&mut ledger, ym(2024, 2), 1, 20, -5).unwrap();
    update_balance(&mut ledger, ym(2024, 3), 1, 0, -30).unwrap();
    assert_eq!(figures(&select(&ledger, ym(2024, 1), 1)), (100, 100, 0));
    assert_eq!(figures(&select(&ledger, ym(2024, 2), 1)), (115, 20, -5));
    assert_eq!(figures(&select(&ledger, ym(2024, 3), 1)), (85, 0, -30));
    update_balance(&mut ledger, ym(2024, 1), 1, 7, 3).unwrap();
    assert_eq!(figures(&select(&ledger, ym(2024, 1), 1)), (110, 107, 3));
    assert_eq!(figures(&select(&ledger, ym(2024, 2), 1)), (125, 20, -5));
    assert_eq!(figures(&select(&ledger, ym(2024, 3), 1)), (95, 0, -30));
    assert_eq!(ledger.rows().len(), 3);
}

#[test]
fn delta_in_a_gap_creates_a_row() {
    let mut ledger = Ledger::new();
    update_balance(&mut ledger, ym(2024, 0), 1, 100, 0).unwrap();
    update_balance(&mut ledger, ym(2024, 4), 1, 10, 0).unwrap();
    update_balance(&mut ledger, ym(2024, 2), 1, 0, -40).unwrap();
    assert_eq!(ledger.rows().len(), 3);
    assert_eq!(figures(&select(&ledger, ym(2024, 2), 1)), (60, 0, -40));
    assert_eq!(figures(&select(&ledger, ym(2024, 4), 1)), (70, 10, 0));
    assert_eq!(figures(&select(&ledger, ym(2024, 0), 1)), (100, 100, 0));
}

#[test]
fn consecutive_rows_stay_consistent() {
    let mut ledger = Ledger::new();
    let deltas = [(5u8, 10i64, 0i64), (1, 50, -20), (9, 0, -7), (3, 12, 12), (1, -5, 0), (7, 1, 1)];
    for (month, a, c) in deltas {
        update_balance(&mut ledger, ym(2023, month), 4, a, c).unwrap();
    }
    let mut rows: Vec<JobBalance> = ledger.rows().clone();
    rows.sort_by_key(|r| r.year_month.to_int());
    assert_eq!(rows[0].balance, rows[0].assigned + rows[0].activity);
    for w in rows.windows(2) {
        assert_eq!(w[1].balance, w[0].balance + w[1].assigned + w[1].activity);
    }
}

#[test]
fn gap_inherits_nearest_earlier_balance() {
    let mut ledger = Ledger::new();
    assert_eq!(figures(&select(&ledger, ym(2024, 5), 2)), (0, 0, 0));
    update_balance(&mut ledger, ym(2023, 11), 2, 300, -100).unwrap();
    update_balance(&mut ledger, ym(2024, 8), 2, 5, 0).unwrap();
    let june = select(&ledger, ym(2024, 5), 2);
    assert_eq!(figures(&june), (200, 0, 0));
    assert_eq!(june.year_month, ym(2024, 5));
    assert_eq!(figures(&select(&ledger, ym(2023, 10), 2)), (0, 0, 0));
    assert_eq!(figures(&select(&ledger, ym(2030, 0), 2)), (205, 0, 0));
}

#[test]
fn jobs_do_not_share_balances() {
    let mut ledger = Ledger::new();
    update_balance(&mut ledger, ym(2024, 0), 1, 100, 0).unwrap();
    update_balance(&mut ledger, ym(2024, 0), 2, 7, 0).unwrap();
    update_balance(&mut ledger, ym(2023, 0), 2, 1, 0).unwrap();
    assert_eq!(figures(&select(&ledger, ym(2024, 0), 1)), (100, 100, 0));
    assert_eq!(figures(&select(&ledger, ym(2024, 0), 2)), (8, 7, 0));
}

#[test]
fn select_closest_returns_stored_row() {
    let mut ledger = Ledger::new();
    assert_eq!(select_closest(&ledger, ym(2024, 0), 1), None);
    update_balance(&mut ledger, ym(2023, 6), 1, 40, 0).unwrap();
    let row = select_closest(&ledger, ym(2024, 0), 1).unwrap();
    assert_eq!(row.year_month, ym(2023, 6));
    assert_eq!(figures(&row), (40, 40, 0));
}

#[test]
fn overflow_is_refused_without_change() {
    let mut ledger = Ledger::new();
    update_balance(&mut ledger, ym(2024, 0), 1, i64::MAX, 0).unwrap();
    update_balance(&mut ledger, ym(2024, 3), 1, 0, -10).unwrap();
    let before = ledger.rows().clone();
    assert_eq!(update_balance(&mut ledger, ym(2023, 0), 1, 20, 0), Err(DbError::AmountOverflow));
    assert_eq!(ledger.rows(), &before);
    assert_eq!(update_balance(&mut ledger, ym(2024, 2), 1, 0, -5), Ok(()));
}

#[test]
fn restore_refuses_second_row_for_a_month() {
    let mut ledger = Ledger::new();
    let row = JobBalance { year_month: ym(2024, 0), job_id: 1, balance: 5, assigned: 5, activity: 0 };
    assert_eq!(ledger.restore(row), Ok(()));
    assert_eq!(ledger.restore(row), Err(DbError::CorruptRecord));
    let bad = JobBalance { year_month: ym(2024, 12), ..row };
    assert_eq!(ledger.restore(bad), Err(DbError::CorruptRecord));
}

#[test]
fn with_year_month_resets_monthly_figures() {
    let row = JobBalance { year_month: ym(2024, 0), job_id: 1, balance: 5, assigned: 3, activity: 2 };
    assert_eq!(row.with_year_month(ym(2024, 0)), row);
    assert_eq!(figures(&row.with_year_month(ym(2024, 1))), (5, 0, 0));
    assert_eq!(figures(&JobBalance::new(ym(2024, 1), 3)), (0, 0, 0));
}
