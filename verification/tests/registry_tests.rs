use ledgers::calendar::{Instant, Weekday};
use ledgers::error::LedgerError;
use ledgers::ledger::{Entry, Ledger, Rule};
use ledgers::names::name_is_le;
use ledgers::query::{Direction, PagingArgs};
use ledgers::registry::Registry;
use ledgers::schedule::{CronSchedule, CronSpec};
use ledgers::scheduler::SweepOutcome;

fn hour(year: i32, month: u32, day: u32, hour: u32) -> Instant {
    let secs = chrono::NaiveDate::from_ymd_opt(year, month, day)
        .unwrap()
        .and_hms_opt(hour, 0, 0)
        .unwrap()
        .and_utc()
        .timestamp();
    Instant::from_unix_seconds(secs).unwrap()
}

fn monday_rule(amount: i32) -> CronSpec {
    CronSpec {
        schedule: CronSchedule::Weekly(Weekday::Mon),
        amount,
        description: "monday".to_string(),
    }
}

#[test]
fn a_new_registry_lists_nothing() {
    let registry = Registry::new();
    assert!(registry.list_ledgers().is_empty());
    assert_eq!(registry.get_read("any").err(), Some(LedgerError::NotFound));
}

#[test]
fn names_are_listed_in_order() {
    let mut registry = Registry::new();
    for name in ["savings", "checking", "travel", "Zoo", "check", ""] {
        assert_eq!(registry.init(name.to_string()), Ok(()));
    }
    assert_eq!(
        registry.list_ledgers(),
        vec!["", "Zoo", "check", "checking", "savings", "travel"]
    );
}

#[test]
fn names_are_ordered_by_their_bytes() {
    assert!(name_is_le("", ""));
    assert!(name_is_le("", "a"));
    assert!(!name_is_le("a", ""));
    assert!(name_is_le("a", "a"));
    assert!(name_is_le("a", "b"));
    assert!(!name_is_le("b", "a"));
    assert!(name_is_le("ab", "abc"));
    assert!(!name_is_le("abc", "ab"));
    assert!(name_is_le("Z", "a"));
    assert!(name_is_le("z", "\u{e9}"));
    assert!(name_is_le("\u{e9}", "\u{4e2d}"));
    assert!(!name_is_le("\u{1f600}", "\u{4e2d}"));
    let mut names = vec!["b", "", "\u{e9}t\u{e9}", "a", "B", "ab", "\u{1f600}", "z"];
    let mut registry = Registry::new();
    for name in &names {
        registry.init(name.to_string()).unwrap();
    }
    names.sort_unstable();
    assert_eq!(registry.list_ledgers(), names);
}

#[test]
fn registering_a_name_again_changes_nothing() {
    let mut registry = Registry::new();
    registry.init("home".to_string()).unwrap();
    registry.credit("home", 100, "paycheck", &hour(2024, 1, 1, 9)).unwrap();
    registry.create_cron("home", monday_rule(5)).unwrap();
    assert_eq!(registry.init("home".to_string()), Err(LedgerError::AlreadyExists));
    assert_eq!(registry.list_ledgers(), vec!["home"]);
    let ledger = registry.get_read("home").unwrap();
    assert_eq!(ledger.entries().len(), 1);
    assert_eq!(ledger.entries()[0].amount, 100);
    assert_eq!(ledger.entries()[0].description, "paycheck");
    assert_eq!(ledger.get_balance(), 100);
    assert_eq!(ledger.rules().len(), 1);
}

#[test]
fn adopting_a_stored_ledger_keeps_its_entries() {
    let stored = vec![Entry {
        rowid: 4,
        amount: 9,
        balance: 9,
        description: "kept".to_string(),
        time: 3,
    }];
    let ledger = Ledger::from_parts(stored, vec![], None).unwrap();
    let mut registry = Registry::new();
    assert_eq!(registry.adopt("old".to_string(), ledger), Ok(()));
    assert_eq!(registry.get_read("old").unwrap().get_balance(), 9);
    assert_eq!(registry.adopt("old".to_string(), Ledger::new()), Err(LedgerError::AlreadyExists));
    assert_eq!(registry.get_read("old").unwrap().get_balance(), 9);
    assert_eq!(registry.init("old".to_string()), Err(LedgerError::AlreadyExists));
    assert_eq!(registry.get_read("old").unwrap().entries()[0].rowid, 4);
}

#[test]
fn every_operation_on_an_unknown_ledger_is_not_found() {
    let mut registry = Registry::new();
    registry.init("known".to_string()).unwrap();
    let now = hour(2024, 1, 1, 9);
    assert_eq!(registry.credit("other", 1, "x", &now).err(), Some(LedgerError::NotFound));
    assert_eq!(registry.debit("other", 1, "x", &now).err(), Some(LedgerError::NotFound));
    assert_eq!(registry.edit_trans("other", 1, 1, "x"), Err(LedgerError::NotFound));
    assert_eq!(registry.create_cron("other", monday_rule(1)), Err(LedgerError::NotFound));
    assert_eq!(registry.get_crons("other").err(), Some(LedgerError::NotFound));
    assert_eq!(registry.delete_cron("other", 1), Err(LedgerError::NotFound));
    assert_eq!(registry.get_ledger("other").err(), Some(LedgerError::NotFound));
    let paging = PagingArgs { page: Some(0), per_page: Some(1) };
    assert_eq!(registry.get_ledger_paged("other", paging).err(), Some(LedgerError::NotFound));
    assert_eq!(
        registry.list_entries("other", Direction::Debits, 0, 1).err(),
        Some(LedgerError::NotFound)
    );
    assert_eq!(registry.get_read("other").err(), Some(LedgerError::NotFound));
    assert_eq!(registry.get_read("Known").err(), Some(LedgerError::NotFound));
    assert!(registry.get_read("known").unwrap().entries().is_empty());
}

#[test]
fn operations_reach_the_named_ledger_only() {
    let mut registry = Registry::new();
    registry.init("b".to_string()).unwrap();
    registry.init("a".to_string()).unwrap();
    registry.init("c".to_string()).unwrap();
    let now = hour(2024, 1, 2, 9);
    let first = registry.credit("b", 100, "paycheck", &now).unwrap();
    assert_eq!((first.rowid, first.balance), (1, 100));
    let second = registry.debit("b", 30, "groceries", &now).unwrap();
    assert_eq!((second.rowid, second.amount, second.balance), (2, -30, 70));
    assert_eq!(registry.edit_trans("b", 1, 80, "paycheck"), Ok(()));
    assert_eq!(registry.edit_trans("b", 5, 80, "paycheck"), Err(LedgerError::NotFound));
    registry.credit("c", 1, "coin", &now).unwrap();

    let debits = registry.list_entries("b", Direction::Debits, 0, 1).unwrap();
    assert_eq!(debits.entries.len(), 1);
    assert_eq!(debits.entries[0].rowid, 2);
    assert_eq!(debits.balance, 50);
    let list = registry.get_ledger("b").unwrap();
    assert_eq!(list.balance, 50);
    assert_eq!(list.credits.len(), 1);
    assert_eq!(list.credits[0].balance, 80);
    assert_eq!(list.debits.len(), 1);
    assert_eq!(list.debits[0].balance, 50);
    assert_eq!(registry.get_ledger("a").unwrap().balance, 0);
    assert_eq!(registry.get_ledger("c").unwrap().balance, 1);
    let paged = registry
        .get_ledger_paged("b", PagingArgs { page: Some(1), per_page: Some(1) })
        .unwrap();
    assert!(paged.credits.is_empty());
    assert!(paged.debits.is_empty());
    assert_eq!(paged.balance, 50);
}

#[test]
fn rules_are_kept_for_each_ledger() {
    let mut registry = Registry::new();
    registry.init("a".to_string()).unwrap();
    registry.init("b".to_string()).unwrap();
    assert_eq!(registry.create_cron("a", monday_rule(1)), Ok(1));
    assert_eq!(registry.create_cron("a", monday_rule(2)), Ok(2));
    assert_eq!(registry.create_cron("b", monday_rule(3)), Ok(1));
    assert_eq!(registry.delete_cron("a", 1), Ok(()));
    assert_eq!(registry.delete_cron("a", 1), Err(LedgerError::NotFound));
    let a: Vec<Rule> = registry.get_crons("a").unwrap();
    assert_eq!(a.len(), 1);
    assert_eq!((a[0].rowid, a[0].spec.amount), (2, 2));
    let b = registry.get_crons("b").unwrap();
    assert_eq!((b[0].rowid, b[0].spec.amount), (1, 3));
}

#[test]
fn a_failed_ledger_does_not_stop_the_sweep_of_the_others() {
    let sunday = hour(2023, 12, 31, 20);
    let full = vec![Entry {
        rowid: 1,
        amount: i32::MAX,
        balance: i32::MAX,
        description: "full".to_string(),
        time: 0,
    }];
    let rule = |rowid: i32| Rule { rowid, spec: monday_rule(10) };
    let mut registry = Registry::new();
    registry
        .adopt("b-full".to_string(), Ledger::from_parts(full, vec![rule(1)], Some(sunday)).unwrap())
        .unwrap();
    registry
        .adopt("c-due".to_string(), Ledger::from_parts(vec![], vec![rule(1)], Some(sunday)).unwrap())
        .unwrap();
    registry
        .adopt("a-fresh".to_string(), Ledger::from_parts(vec![], vec![rule(1)], None).unwrap())
        .unwrap();
    registry
        .adopt("d-idle".to_string(), Ledger::from_parts(vec![], vec![], Some(sunday)).unwrap())
        .unwrap();

    let monday = hour(2024, 1, 1, 2);
    let outcomes = registry.sweep_all(&monday);
    assert_eq!(
        outcomes,
        vec![
            SweepOutcome::Skipped,
            SweepOutcome::Failed(LedgerError::StorageError),
            SweepOutcome::Applied(1),
            SweepOutcome::Applied(0),
        ]
    );
    let fresh = registry.get_read("a-fresh").unwrap();
    assert!(fresh.last_run().is_none());
    assert!(fresh.entries().is_empty());
    let full = registry.get_read("b-full").unwrap();
    assert_eq!(full.last_run().unwrap().unix_seconds(), sunday.unix_seconds());
    assert_eq!(full.entries().len(), 1);
    let due = registry.get_read("c-due").unwrap();
    assert_eq!(due.last_run().unwrap().unix_seconds(), monday.unix_seconds());
    assert_eq!(due.get_balance(), 10);
    let idle = registry.get_read("d-idle").unwrap();
    assert_eq!(idle.last_run().unwrap().unix_seconds(), monday.unix_seconds());

    let again = registry.sweep_all(&hour(2024, 1, 1, 8));
    assert_eq!(
        again,
        vec![
            SweepOutcome::Skipped,
            SweepOutcome::Failed(LedgerError::StorageError),
            SweepOutcome::Applied(0),
            SweepOutcome::Applied(0),
        ]
    );
    assert_eq!(registry.get_read("c-due").unwrap().get_balance(), 10);
    assert_eq!(registry.list_ledgers(), vec!["a-fresh", "b-full", "c-due", "d-idle"]);
}

#[test]
fn a_sweep_of_an_empty_registry_does_nothing() {
    let mut registry = Registry::new();
    assert!(registry.sweep_all(&hour(2024, 1, 1, 2)).is_empty());
    assert!(registry.list_ledgers().is_empty());
}
