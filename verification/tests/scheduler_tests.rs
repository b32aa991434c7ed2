use ledgers::calendar::{Instant, Weekday};
use ledgers::error::LedgerError;
use ledgers::ledger::{Entry, Ledger, Rule};
use ledgers::schedule::{CronSchedule, CronSpec};
use ledgers::scheduler::SweepOutcome;

const SIX_HOURS: i64 = 6 * 60 * 60;

fn clock(year: i32, month: u32, day: u32, hour: u32) -> Instant {
    let secs = chrono::NaiveDate::from_ymd_opt(year, month, day)
        .unwrap()
        .and_hms_opt(hour, 0, 0)
        .unwrap()
        .and_utc()
        .timestamp();
    Instant::from_unix_seconds(secs).unwrap()
}

fn cron(rowid: i32, schedule: CronSchedule, amount: i32, description: &str) -> Rule {
    Rule { rowid, spec: CronSpec { schedule, amount, description: description.to_string() } }
}

fn ledger_with(rules: Vec<Rule>, last_run: Option<Instant>) -> Ledger {
    Ledger::from_parts(vec![], rules, last_run).unwrap()
}

#[test]
fn a_ledger_without_a_run_on_record_is_passed_over() {
    let rules = vec![cron(1, CronSchedule::Weekly(Weekday::Mon), 5, "weekly")];
    let mut ledger = ledger_with(rules, None);
    assert_eq!(ledger.sweep(&clock(2024, 1, 1, 9)), SweepOutcome::Skipped);
    assert!(ledger.entries().is_empty());
    assert!(ledger.last_run().is_none());
    assert_eq!(ledger.sweep(&clock(2024, 1, 8, 9)), SweepOutcome::Skipped);
    assert!(ledger.last_run().is_none());
}

#[test]
fn a_rule_fires_when_its_day_has_come() {
    let rules = vec![cron(1, CronSchedule::Weekly(Weekday::Mon), 5, "weekly")];
    let mut ledger = ledger_with(rules, Some(clock(2023, 12, 31, 21)));
    let now = clock(2024, 1, 1, 3);
    assert_eq!(ledger.sweep(&now), SweepOutcome::Applied(1));
    let entries = ledger.entries();
    assert_eq!(entries.len(), 1);
    assert_eq!(entries[0].rowid, 1);
    assert_eq!(entries[0].amount, 5);
    assert_eq!(entries[0].balance, 5);
    assert_eq!(entries[0].description, "weekly");
    assert_eq!(entries[0].time, now.unix_seconds());
    assert_eq!(ledger.last_run().unwrap().unix_seconds(), now.unix_seconds());
}

#[test]
fn a_sweep_on_another_day_only_records_the_run() {
    let rules = vec![cron(1, CronSchedule::Weekly(Weekday::Mon), 5, "weekly")];
    let mut ledger = ledger_with(rules, Some(clock(2024, 1, 2, 9)));
    let now = clock(2024, 1, 3, 9);
    assert_eq!(ledger.sweep(&now), SweepOutcome::Applied(0));
    assert!(ledger.entries().is_empty());
    assert_eq!(ledger.last_run().unwrap().unix_seconds(), now.unix_seconds());
}

#[test]
fn a_sunday_rule_does_not_fire_again_on_a_second_sweep_that_sunday() {
    let rules = vec![cron(1, CronSchedule::Weekly(Weekday::Sun), -7, "sunday")];
    let mut ledger = ledger_with(rules, Some(clock(2024, 1, 7, 6)));
    assert_eq!(ledger.sweep(&clock(2024, 1, 7, 12)), SweepOutcome::Applied(0));
    assert!(ledger.entries().is_empty());
    assert_eq!(ledger.last_run().unwrap().unix_seconds(), clock(2024, 1, 7, 12).unix_seconds());
}

#[test]
fn a_sunday_rule_does_not_fire_when_the_last_run_was_the_sunday_before() {
    let rules = vec![cron(1, CronSchedule::Weekly(Weekday::Sun), -7, "sunday")];
    let mut ledger = ledger_with(rules, Some(clock(2024, 1, 7, 12)));
    assert_eq!(ledger.sweep(&clock(2024, 1, 14, 12)), SweepOutcome::Applied(0));
    assert!(ledger.entries().is_empty());
    assert_eq!(ledger.last_run().unwrap().day(), 14);
}

#[test]
fn sweeps_every_six_hours_append_once_for_each_monday() {
    let rules = vec![cron(1, CronSchedule::Weekly(Weekday::Mon), 10, "monday")];
    let start = clock(2023, 12, 31, 20);
    let mut ledger = ledger_with(rules, Some(start));
    let mut secs = start.unix_seconds();
    let mut appended_on: Vec<u32> = Vec::new();
    for _ in 0..(4 * 21) {
        secs += SIX_HOURS;
        let now = Instant::from_unix_seconds(secs).unwrap();
        match ledger.sweep(&now) {
            SweepOutcome::Applied(1) => {
                assert_eq!(now.weekday(), Weekday::Mon);
                appended_on.push(now.day());
            }
            SweepOutcome::Applied(0) => {}
            other => panic!("unexpected outcome {:?}", other),
        }
    }
    assert_eq!(appended_on, vec![1, 8, 15]);
    let entries = ledger.entries();
    assert_eq!(entries.len(), 3);
    assert_eq!(entries[2].balance, 30);
}

#[test]
fn a_monthly_rule_for_day_31_skips_the_shorter_months() {
    let rules = vec![cron(1, CronSchedule::Monthly(31), 100, "month end")];
    let start = clock(2023, 1, 30, 12);
    let mut ledger = ledger_with(rules, Some(start));
    let mut secs = start.unix_seconds();
    let mut fired: Vec<(u32, u32)> = Vec::new();
    for _ in 0..(4 * 95) {
        secs += SIX_HOURS;
        let now = Instant::from_unix_seconds(secs).unwrap();
        if ledger.sweep(&now) == SweepOutcome::Applied(1) {
            let date = chrono::DateTime::from_timestamp(secs, 0).unwrap().date_naive();
            fired.push((chrono::Datelike::month(&date), chrono::Datelike::day(&date)));
        }
    }
    assert_eq!(fired, vec![(1, 31), (3, 31)]);
    assert_eq!(ledger.get_balance(), 200);
}

#[test]
fn the_due_rules_append_in_the_order_of_the_rule_table() {
    let rules = vec![
        cron(1, CronSchedule::Weekly(Weekday::Mon), 5, "first"),
        cron(2, CronSchedule::Weekly(Weekday::Tue), 50, "not due"),
        cron(4, CronSchedule::Monthly(8), -3, "second"),
        cron(9, CronSchedule::Monthly(7), 500, "was due at the last run"),
    ];
    let mut ledger = ledger_with(rules, Some(clock(2024, 1, 7, 23)));
    assert_eq!(ledger.sweep(&clock(2024, 1, 8, 5)), SweepOutcome::Applied(2));
    let entries = ledger.entries();
    assert_eq!(entries.len(), 2);
    assert_eq!((entries[0].amount, entries[0].balance), (5, 5));
    assert_eq!(entries[0].description, "first");
    assert_eq!((entries[1].amount, entries[1].balance), (-3, 2));
    assert_eq!(entries[1].description, "second");
    assert_eq!(entries[1].rowid, 2);
    assert_eq!(ledger.get_crons().len(), 4);
}

#[test]
fn a_sweep_that_cannot_store_an_entry_changes_nothing() {
    let stored = vec![Entry {
        rowid: 1,
        amount: i32::MAX - 5,
        balance: i32::MAX - 5,
        description: "nearly full".to_string(),
        time: 0,
    }];
    let rules = vec![
        cron(1, CronSchedule::Weekly(Weekday::Mon), 5, "fits"),
        cron(2, CronSchedule::Weekly(Weekday::Mon), 1, "does not fit"),
    ];
    let last_run = clock(2023, 12, 31, 20);
    let mut ledger = Ledger::from_parts(stored, rules, Some(last_run)).unwrap();
    let outcome = ledger.sweep(&clock(2024, 1, 1, 2));
    assert_eq!(outcome, SweepOutcome::Failed(LedgerError::StorageError));
    assert_eq!(ledger.entries().len(), 1);
    assert_eq!(ledger.get_balance(), i32::MAX - 5);
    assert_eq!(ledger.last_run().unwrap().unix_seconds(), last_run.unix_seconds());

    ledger.delete_cron(2).unwrap();
    assert_eq!(ledger.sweep(&clock(2024, 1, 1, 8)), SweepOutcome::Applied(1));
    assert_eq!(ledger.get_balance(), i32::MAX);
}

#[test]
fn a_sweep_whose_balance_comes_back_into_range_is_still_refused() {
    let stored = vec![Entry {
        rowid: 1,
        amount: i32::MAX,
        balance: i32::MAX,
        description: "full".to_string(),
        time: 0,
    }];
    let rules = vec![
        cron(1, CronSchedule::Weekly(Weekday::Mon), 1, "over"),
        cron(2, CronSchedule::Weekly(Weekday::Mon), -10, "back"),
    ];
    let mut ledger =
        Ledger::from_parts(stored, rules, Some(clock(2023, 12, 31, 20))).unwrap();
    let outcome = ledger.sweep(&clock(2024, 1, 1, 2));
    assert_eq!(outcome, SweepOutcome::Failed(LedgerError::StorageError));
    assert_eq!(ledger.entries().len(), 1);
}
