use ledgers::calendar::Instant;
use ledgers::ledger::Ledger;
use ledgers::query::{Direction, PagingArgs, DEFAULT_PER_PAGE};

fn tick(secs: i64) -> Instant {
    Instant::from_unix_seconds(secs).unwrap()
}

fn ledger_of(amounts: &[i32]) -> Ledger {
    let mut ledger = Ledger::new();
    for (i, amount) in amounts.iter().enumerate() {
        ledger.do_transaction(*amount, "x", &tick(i as i64)).unwrap();
    }
    ledger
}

fn rowids(entries: &[ledgers::ledger::Entry]) -> Vec<i32> {
    entries.iter().map(|e| e.rowid).collect()
}

#[test]
fn the_first_page_of_one_holds_the_most_recent_debit() {
    let mut ledger = Ledger::new();
    ledger.do_transaction(100, "paycheck", &tick(1)).unwrap();
    ledger.do_transaction(-30, "groceries", &tick(2)).unwrap();
    ledger.do_transaction(-20, "cinema", &tick(3)).unwrap();
    let debits = ledger.list(Direction::Debits, 0, 1);
    assert_eq!(debits.len(), 1);
    assert_eq!(debits[0].rowid, 3);
    assert_eq!(debits[0].amount, -20);
    assert_eq!(debits[0].balance, 50);
    assert_eq!(debits[0].description, "cinema");
    assert_eq!(debits[0].time, 3);
    let listing = ledger.list_entries(Direction::Debits, 0, 1);
    assert_eq!(rowids(&listing.entries), vec![3]);
    assert_eq!(listing.balance, 50);
    let page = ledger.get_ledger_paged(PagingArgs { page: Some(0), per_page: Some(1) });
    assert_eq!(rowids(&page.debits), vec![3]);
    assert_eq!(rowids(&page.credits), vec![1]);
    assert_eq!(page.balance, 50);
}

#[test]
fn pages_follow_one_another_from_the_most_recent() {
    let ledger = ledger_of(&[-1, 5, -2, -3, 6, -4, -5]);
    assert_eq!(rowids(&ledger.list(Direction::Debits, 0, 2)), vec![7, 6]);
    assert_eq!(rowids(&ledger.list(Direction::Debits, 1, 2)), vec![4, 3]);
    assert_eq!(rowids(&ledger.list(Direction::Debits, 2, 2)), vec![1]);
    assert_eq!(rowids(&ledger.list(Direction::Debits, 3, 2)), Vec::<i32>::new());
    assert_eq!(rowids(&ledger.list(Direction::Credits, 0, 2)), vec![5, 2]);
    assert_eq!(rowids(&ledger.list(Direction::Credits, 1, 2)), Vec::<i32>::new());
    assert_eq!(rowids(&ledger.list(Direction::Debits, 0, 100)), vec![7, 6, 4, 3, 1]);
}

#[test]
fn a_page_of_no_entries_is_empty() {
    let ledger = ledger_of(&[-1, 5, -2]);
    assert!(ledger.list(Direction::Debits, 0, 0).is_empty());
    assert!(ledger.list(Direction::Debits, 5, 0).is_empty());
    assert!(ledger.list(Direction::Credits, 0, 0).is_empty());
}

#[test]
fn a_page_far_beyond_the_end_is_empty() {
    let ledger = ledger_of(&[-1, 5, -2]);
    assert!(ledger.list(Direction::Debits, usize::MAX, usize::MAX).is_empty());
    assert!(ledger.list(Direction::Debits, usize::MAX, 2).is_empty());
    assert!(ledger.list(Direction::Debits, 2, usize::MAX).is_empty());
    assert_eq!(rowids(&ledger.list(Direction::Debits, 0, usize::MAX)), vec![3, 1]);
    assert_eq!(rowids(&ledger.list(Direction::Debits, 1, 1)), vec![1]);
}

#[test]
fn an_entry_of_amount_zero_is_on_neither_side() {
    let ledger = ledger_of(&[0, 5, 0, -2, 0]);
    let list = ledger.get_ledger();
    assert_eq!(rowids(&list.debits), vec![4]);
    assert_eq!(rowids(&list.credits), vec![2]);
    assert_eq!(list.balance, 3);
}

#[test]
fn an_empty_ledger_lists_nothing_and_has_balance_zero() {
    let ledger = Ledger::new();
    let list = ledger.get_ledger();
    assert!(list.debits.is_empty());
    assert!(list.credits.is_empty());
    assert_eq!(list.balance, 0);
}

#[test]
fn the_default_page_holds_twenty_entries() {
    assert_eq!(DEFAULT_PER_PAGE, 20);
    let amounts: Vec<i32> = (1..=25).collect();
    let ledger = ledger_of(&amounts);
    let list = ledger.get_ledger();
    assert_eq!(rowids(&list.credits), (6..=25).rev().collect::<Vec<i32>>());
    assert!(list.debits.is_empty());
    assert_eq!(list.balance, 325);
    let second = ledger.get_ledger_paged(PagingArgs { page: Some(1), per_page: None });
    assert_eq!(rowids(&second.credits), vec![5, 4, 3, 2, 1]);
    let wide = ledger.get_ledger_paged(PagingArgs { page: None, per_page: Some(3) });
    assert_eq!(rowids(&wide.credits), vec![25, 24, 23]);
}

#[test]
fn a_listing_shows_the_balances_after_an_edit() {
    let mut ledger = ledger_of(&[100, -30, -20]);
    ledger.edit_trans(1, 80, "less").unwrap();
    let list = ledger.get_ledger();
    let balances: Vec<i32> = list.debits.iter().map(|e| e.balance).collect();
    assert_eq!(balances, vec![30, 50]);
    assert_eq!(list.credits[0].balance, 80);
    assert_eq!(list.credits[0].description, "less");
    assert_eq!(list.balance, 30);
}

#[test]
fn an_edit_can_move_an_entry_to_the_other_side() {
    let mut ledger = ledger_of(&[10, 20]);
    ledger.edit_trans(1, -10, "now a debit").unwrap();
    let list = ledger.get_ledger();
    assert_eq!(rowids(&list.debits), vec![1]);
    assert_eq!(rowids(&list.credits), vec![2]);
    assert_eq!(list.balance, 10);
}
