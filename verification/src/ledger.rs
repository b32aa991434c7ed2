use crate::calendar::{Instant, InstantView};
use crate::error::LedgerError;
use crate::schedule::{CronSpec, CronSpecView};
use vstd::prelude::*;

verus! {

/// One transaction of a ledger's log.
#[derive(Clone, Debug)]
pub struct Entry {
    /// The sequence id: assigned by the ledger, rising along the log.
    pub rowid: i32,
    /// Credits are positive, debits negative.
    pub amount: i32,
    /// The sum of the amounts up to and including this entry.
    pub balance: i32,
    pub description: String,
    /// When the entry was appended, in seconds since 1970-01-01T00:00:00.
    pub time: i64,
}

/// What an [`Entry`] stands for.
pub struct EntryView {
    pub rowid: int,
    pub amount: int,
    pub balance: int,
    pub description: Seq<char>,
    pub time: int,
}

impl View for Entry {
    type V = EntryView;

    open spec fn view(&self) -> EntryView {
        EntryView {
            rowid: self.rowid as int,
            amount: self.amount as int,
            balance: self.balance as int,
            description: self.description@,
            time: self.time as int,
        }
    }
}

/// A recurrence rule as the ledger keeps it: the rule and its id.
#[derive(Clone, Debug)]
pub struct Rule {
    pub rowid: i32,
    pub spec: CronSpec,
}

/// What a [`Rule`] stands for.
pub struct RuleView {
    pub rowid: int,
    pub spec: CronSpecView,
}

impl View for Rule {
    type V = RuleView;

    open spec fn view(&self) -> RuleView {
        RuleView { rowid: self.rowid as int, spec: self.spec@ }
    }
}

/// What a [`Ledger`] stands for: its log, its rules in the order of their
/// ids, and the instant of the last scheduler run.
pub struct LedgerView {
    pub entries: Seq<EntryView>,
    pub rules: Seq<RuleView>,
    pub last_run: Option<InstantView>,
}

/// The views of the entries of a vector, in order.
pub open spec fn entry_views(entries: Seq<Entry>) -> Seq<EntryView> {
    entries.map_values(|e: Entry| e@)
}

/// The views of the rules of a vector, in order.
pub open spec fn rule_views(rules: Seq<Rule>) -> Seq<RuleView> {
    rules.map_values(|r: Rule| r@)
}

/// Whether a number can be stored: it is a 32-bit signed integer.
pub open spec fn storable(n: int) -> bool {
    i32::MIN <= n <= i32::MAX
}

/// The running balance of a log: that of its last entry, 0 for an empty log.
pub open spec fn balance_of(entries: Seq<EntryView>) -> int {
    if entries.len() == 0 {
        0
    } else {
        entries.last().balance
    }
}

/// The sequence id that the next entry of a log gets.
pub open spec fn next_rowid(entries: Seq<EntryView>) -> int {
    if entries.len() == 0 {
        1
    } else {
        entries.last().rowid + 1
    }
}

/// The id that the next rule of a rule table gets.
pub open spec fn next_rule_id(rules: Seq<RuleView>) -> int {
    if rules.len() == 0 {
        1
    } else {
        rules.last().rowid + 1
    }
}

/// The balance of the entry at position `i` is the balance before it plus
/// its amount; before the first entry the balance is 0.
pub open spec fn adds_up_at(entries: Seq<EntryView>, i: int) -> bool {
    entries[i].balance == (if i == 0 {
        0
    } else {
        entries[i - 1].balance
    }) + entries[i].amount
}

/// Every entry's balance is the balance before it plus its amount.
pub open spec fn balanced(entries: Seq<EntryView>) -> bool {
    forall|i: int| 0 <= i < entries.len() ==> #[trigger] adds_up_at(entries, i)
}

/// The sequence ids are positive and rise along the log.
pub open spec fn rowids_rise(entries: Seq<EntryView>) -> bool {
    &&& forall|i: int| 0 <= i < entries.len() ==> 0 < (#[trigger] entries[i]).rowid
    &&& forall|i: int, j: int|
        0 <= i < j < entries.len() ==> (#[trigger] entries[i]).rowid < (#[trigger] entries[j]).rowid
}

/// The rule ids are positive and rise along the table.
pub open spec fn rule_ids_rise(rules: Seq<RuleView>) -> bool {
    &&& forall|i: int| 0 <= i < rules.len() ==> 0 < (#[trigger] rules[i]).rowid
    &&& forall|i: int, j: int|
        0 <= i < j < rules.len() ==> (#[trigger] rules[i]).rowid < (#[trigger] rules[j]).rowid
}

/// The invariant of a ledger.
pub open spec fn well_formed(ledger: LedgerView) -> bool {
    &&& balanced(ledger.entries)
    &&& rowids_rise(ledger.entries)
    &&& rule_ids_rise(ledger.rules)
}

/// The ledger with another log in place of its own.
pub open spec fn with_entries(ledger: LedgerView, entries: Seq<EntryView>) -> LedgerView {
    LedgerView { entries, ..ledger }
}

/// The ledger with another rule table in place of its own.
pub open spec fn with_rules(ledger: LedgerView, rules: Seq<RuleView>) -> LedgerView {
    LedgerView { rules, ..ledger }
}

/// The ledger with `at` as its last scheduler run.
pub open spec fn with_last_run(ledger: LedgerView, at: InstantView) -> LedgerView {
    LedgerView { last_run: Some(at), ..ledger }
}

/// The ledger without entries, rules or a scheduler run.
pub open spec fn empty_ledger() -> LedgerView {
    LedgerView {
        entries: Seq::<EntryView>::empty(),
        rules: Seq::<RuleView>::empty(),
        last_run: None,
    }
}

/// The rule table after a rule is added: it gets the next id and stands last.
pub open spec fn rule_added(rules: Seq<RuleView>, spec: CronSpecView) -> Seq<RuleView> {
    rules.push(RuleView { rowid: next_rule_id(rules), spec })
}

/// The ledger made of a log, a rule table and a last run.
pub open spec fn stored_ledger(
    entries: Seq<EntryView>,
    rules: Seq<RuleView>,
    last_run: Option<InstantView>,
) -> LedgerView {
    LedgerView { entries, rules, last_run }
}

/// The log after an entry with this amount and description is appended at
/// the time `time`.
pub open spec fn appended(
    entries: Seq<EntryView>,
    amount: int,
    description: Seq<char>,
    time: int,
) -> Seq<EntryView> {
    entries.push(
        EntryView {
            rowid: next_rowid(entries),
            amount,
            balance: balance_of(entries) + amount,
            description,
            time,
        },
    )
}

/// Whether an entry with this amount can be appended: its balance and its
/// sequence id can be stored.
pub open spec fn append_fits(entries: Seq<EntryView>, amount: int) -> bool {
    storable(balance_of(entries) + amount) && storable(next_rowid(entries))
}

/// Whether some entry of the log has the sequence id `rowid`.
pub open spec fn has_rowid(entries: Seq<EntryView>, rowid: int) -> bool {
    exists|i: int| 0 <= i < entries.len() && (#[trigger] entries[i]).rowid == rowid
}

/// The position of the entry with the sequence id `rowid`, where there is one.
pub open spec fn position_of(entries: Seq<EntryView>, rowid: int) -> int {
    choose|i: int| 0 <= i < entries.len() && (#[trigger] entries[i]).rowid == rowid
}

/// The log after the entry at position `at` is given a new amount and a new
/// description: the balance of that entry and of every later one moves by
/// the change of the amount, and nothing else changes.
pub open spec fn edited(
    entries: Seq<EntryView>,
    at: int,
    amount: int,
    description: Seq<char>,
) -> Seq<EntryView> {
    Seq::new(
        entries.len(),
        |j: int|
            if j < at {
                entries[j]
            } else if j == at {
                EntryView {
                    rowid: entries[j].rowid,
                    amount,
                    balance: entries[j].balance - (entries[at].amount - amount),
                    description,
                    time: entries[j].time,
                }
            } else {
                EntryView {
                    rowid: entries[j].rowid,
                    amount: entries[j].amount,
                    balance: entries[j].balance - (entries[at].amount - amount),
                    description: entries[j].description,
                    time: entries[j].time,
                }
            },
    )
}

/// Whether the entry at position `at` can be given the amount `amount`:
/// every balance that moves can still be stored.
pub open spec fn edit_fits(entries: Seq<EntryView>, at: int, amount: int) -> bool {
    forall|j: int|
        at <= j < entries.len() ==> storable(
            (#[trigger] entries[j]).balance - (entries[at].amount - amount),
        )
}

/// In a log whose sequence ids rise, the entry with a given id stands at one
/// position only.
pub proof fn lemma_position_is_unique(entries: Seq<EntryView>, at: int)
    requires
        rowids_rise(entries),
        0 <= at < entries.len(),
    ensures
        has_rowid(entries, entries[at].rowid),
        position_of(entries, entries[at].rowid) == at,
{
    let found = position_of(entries, entries[at].rowid);
    assert(0 <= found < entries.len() && entries[found].rowid == entries[at].rowid);
    if found < at {
        assert(entries[found].rowid < entries[at].rowid);
    }
    if at < found {
        assert(entries[at].rowid < entries[found].rowid);
    }
}

/// An edit keeps the number of entries, every sequence id and every time of
/// entry; it changes the amount and the description of the edited entry
/// only, and the balances from that entry on.
pub proof fn lemma_edit_changes_only_what_it_names(
    entries: Seq<EntryView>,
    at: int,
    amount: int,
    description: Seq<char>,
)
    requires
        0 <= at < entries.len(),
    ensures
        edited(entries, at, amount, description).len() == entries.len(),
        forall|j: int|
            0 <= j < entries.len() ==> {
                let e = #[trigger] edited(entries, at, amount, description)[j];
                &&& e.rowid == entries[j].rowid
                &&& e.time == entries[j].time
                &&& (j != at ==> e.amount == entries[j].amount && e.description
                    == entries[j].description)
                &&& (j < at ==> e == entries[j])
                &&& (j >= at ==> e.balance == entries[j].balance - entries[at].amount + amount)
            },
        edited(entries, at, amount, description)[at].amount == amount,
        edited(entries, at, amount, description)[at].description == description,
{
}

/// An edit of a sound log gives a sound log: the balances still add up and
/// the sequence ids still rise.
pub proof fn lemma_edit_keeps_log_sound(
    entries: Seq<EntryView>,
    at: int,
    amount: int,
    description: Seq<char>,
)
    requires
        0 <= at < entries.len(),
        balanced(entries),
        rowids_rise(entries),
    ensures
        balanced(edited(entries, at, amount, description)),
        rowids_rise(edited(entries, at, amount, description)),
{
    let after = edited(entries, at, amount, description);
    assert forall|i: int| 0 <= i < after.len() implies #[trigger] adds_up_at(after, i) by {
        assert(adds_up_at(entries, i));
    }
    assert forall|i: int, j: int| 0 <= i < j < after.len() implies (#[trigger] after[i]).rowid
        < (#[trigger] after[j]).rowid by {
        assert(entries[i].rowid < entries[j].rowid);
    }
    assert forall|i: int| 0 <= i < after.len() implies 0 < (#[trigger] after[i]).rowid by {
        assert(0 < entries[i].rowid);
    }
}

/// An append to a sound log gives a sound log.
pub proof fn lemma_append_keeps_log_sound(
    entries: Seq<EntryView>,
    amount: int,
    description: Seq<char>,
    time: int,
)
    requires
        balanced(entries),
        rowids_rise(entries),
    ensures
        balanced(appended(entries, amount, description, time)),
        rowids_rise(appended(entries, amount, description, time)),
        balance_of(appended(entries, amount, description, time)) == balance_of(entries) + amount,
{
    let after = appended(entries, amount, description, time);
    assert forall|i: int| 0 <= i < after.len() implies #[trigger] adds_up_at(after, i) by {
        if i < entries.len() {
            assert(after[i] == entries[i]);
            assert(adds_up_at(entries, i));
        }
    }
    assert forall|i: int| 0 <= i < after.len() implies 0 < (#[trigger] after[i]).rowid by {
        if i < entries.len() {
            assert(0 < entries[i].rowid);
        } else if entries.len() > 0 {
            assert(0 < entries[entries.len() - 1].rowid);
        }
    }
    assert forall|i: int, j: int| 0 <= i < j < after.len() implies (#[trigger] after[i]).rowid
        < (#[trigger] after[j]).rowid by {
        if j < entries.len() {
            assert(entries[i].rowid < entries[j].rowid);
        } else if i < entries.len() - 1 {
            assert(entries[i].rowid < entries[entries.len() - 1].rowid);
        }
    }
}

/// The position of the entry with the sequence id `rowid`, if there is one.
fn find_entry(entries: &Vec<Entry>, rowid: i32) -> (r: Option<usize>)
    ensures
        match r {
            Some(at) => at < entries.len() && entries[at as int].rowid == rowid,
            None => !has_rowid(entry_views(entries@), rowid as int),
        },
{
    let n = entries.len();
    let mut at: usize = 0;
    while at < n
        invariant
            at <= n,
            n == entries.len(),
            forall|i: int| 0 <= i < at ==> entries[i].rowid != rowid,
        decreases n - at,
    {
        if entries[at].rowid == rowid {
            return Some(at);
        }
        at = at + 1;
    }
    assert forall|i: int| 0 <= i < entries.len() implies (#[trigger] entry_views(
        entries@,
    )[i]).rowid != rowid by {
        assert(entries[i].rowid != rowid);
    }
    None
}

/// Whether every balance from position `at` on can still be stored once the
/// entry there has the amount `amount`.
fn edit_is_storable(entries: &Vec<Entry>, at: usize, amount: i32) -> (r: bool)
    requires
        at < entries.len(),
    ensures
        r == edit_fits(entry_views(entries@), at as int, amount as int),
{
    let ghost views = entry_views(entries@);
    let n = entries.len();
    let diff: i64 = entries[at].amount as i64 - amount as i64;
    let mut j: usize = at;
    while j < n
        invariant
            at <= j <= n,
            n == entries.len(),
            views == entry_views(entries@),
            diff == views[at as int].amount - amount,
            forall|k: int| at <= k < j ==> storable((#[trigger] views[k]).balance - diff),
        decreases n - j,
    {
        let moved: i64 = entries[j].balance as i64 - diff;
        if moved < i32::MIN as i64 || moved > i32::MAX as i64 {
            assert(!storable(views[j as int].balance - diff));
            return false;
        }
        j = j + 1;
    }
    true
}

/// Gives the entry at `at` the new amount and description and moves the
/// balances from there on.
fn apply_edit(entries: &mut Vec<Entry>, at: usize, amount: i32, description: String)
    requires
        at < old(entries).len(),
        edit_fits(entry_views(old(entries)@), at as int, amount as int),
    ensures
        entry_views(final(entries)@) == edited(
            entry_views(old(entries)@),
            at as int,
            amount as int,
            description@,
        ),
{
    let ghost before = entry_views(entries@);
    let ghost after = edited(before, at as int, amount as int, description@);
    let ghost text = description@;
    let n = entries.len();
    let diff: i64 = entries[at].amount as i64 - amount as i64;
    entries[at].amount = amount;
    entries[at].description = description;
    let mut j: usize = at;
    while j < n
        invariant
            at <= j <= n,
            n == entries.len(),
            n == before.len(),
            diff == before[at as int].amount - amount,
            edit_fits(before, at as int, amount as int),
            after == edited(before, at as int, amount as int, text),
            forall|k: int| 0 <= k < j ==> (#[trigger] entries@[k])@ == after[k],
            forall|k: int|
                j <= k < n ==> (#[trigger] entries@[k])@ == (if k == at {
                    EntryView {
                        rowid: before[k].rowid,
                        amount: amount as int,
                        balance: before[k].balance,
                        description: text,
                        time: before[k].time,
                    }
                } else {
                    before[k]
                }),
        decreases n - j,
    {
        assert(storable(before[j as int].balance - diff));
        assert(entries@[j as int]@.balance == before[j as int].balance);
        let moved: i64 = entries[j].balance as i64 - diff;
        entries[j].balance = moved as i32;
        j = j + 1;
    }
    assert(entry_views(entries@) =~= after);
}

/// Whether some rule of the table has the id `rowid`.
pub open spec fn has_rule(rules: Seq<RuleView>, rowid: int) -> bool {
    exists|i: int| 0 <= i < rules.len() && (#[trigger] rules[i]).rowid == rowid
}

/// The position of the rule with the id `rowid`, where there is one.
pub open spec fn rule_position(rules: Seq<RuleView>, rowid: int) -> int {
    choose|i: int| 0 <= i < rules.len() && (#[trigger] rules[i]).rowid == rowid
}

/// What an optional instant stands for.
pub open spec fn instant_view(at: Option<Instant>) -> Option<InstantView> {
    match at {
        Some(at) => Some(at@),
        None => None,
    }
}

/// In a table whose ids rise, the rule with a given id stands at one
/// position only.
pub proof fn lemma_rule_position_is_unique(rules: Seq<RuleView>, at: int)
    requires
        rule_ids_rise(rules),
        0 <= at < rules.len(),
    ensures
        has_rule(rules, rules[at].rowid),
        rule_position(rules, rules[at].rowid) == at,
{
    let found = rule_position(rules, rules[at].rowid);
    assert(0 <= found < rules.len() && rules[found].rowid == rules[at].rowid);
    if found < at {
        assert(rules[found].rowid < rules[at].rowid);
    }
    if at < found {
        assert(rules[at].rowid < rules[found].rowid);
    }
}

/// The position of the rule with the id `rowid`, if there is one.
fn find_rule(rules: &Vec<Rule>, rowid: i32) -> (r: Option<usize>)
    ensures
        match r {
            Some(at) => at < rules.len() && rules[at as int].rowid == rowid,
            None => !has_rule(rule_views(rules@), rowid as int),
        },
{
    let n = rules.len();
    let mut at: usize = 0;
    while at < n
        invariant
            at <= n,
            n == rules.len(),
            forall|i: int| 0 <= i < at ==> rules[i].rowid != rowid,
        decreases n - at,
    {
        if rules[at].rowid == rowid {
            return Some(at);
        }
        at = at + 1;
    }
    assert forall|i: int| 0 <= i < rules.len() implies (#[trigger] rule_views(rules@)[i]).rowid
        != rowid by {
        assert(rules[i].rowid != rowid);
    }
    None
}

/// A sound log stays sound with one more entry whose balance adds up and
/// whose sequence id is higher than the last.
proof fn lemma_sound_prefix_grows(views: Seq<EntryView>, i: int)
    requires
        0 <= i < views.len(),
        balanced(views.take(i)),
        rowids_rise(views.take(i)),
        adds_up_at(views, i),
        (if i == 0 {
            0
        } else {
            views[i - 1].rowid
        }) < views[i].rowid,
    ensures
        balanced(views.take(i + 1)),
        rowids_rise(views.take(i + 1)),
{
    let shorter = views.take(i);
    let longer = views.take(i + 1);
    assert forall|k: int| 0 <= k < longer.len() implies #[trigger] adds_up_at(longer, k) by {
        if k < i {
            assert(adds_up_at(shorter, k));
        }
    }
    assert forall|k: int| 0 <= k < longer.len() implies 0 < (#[trigger] longer[k]).rowid by {
        if k < i {
            assert(0 < shorter[k].rowid);
        } else if i > 0 {
            assert(0 < shorter[i - 1].rowid);
        }
    }
    assert forall|k: int, l: int| 0 <= k < l < longer.len() implies (#[trigger] longer[k]).rowid
        < (#[trigger] longer[l]).rowid by {
        if l < i {
            assert(shorter[k].rowid < shorter[l].rowid);
        } else if k < i - 1 {
            assert(shorter[k].rowid < shorter[i - 1].rowid);
            assert(shorter[i - 1] == views[i - 1]);
        }
    }
}

/// A log is not sound where an entry's balance does not add up, or its
/// sequence id does not rise.
proof fn lemma_unsound_entry(views: Seq<EntryView>, i: int)
    requires
        0 <= i < views.len(),
        !adds_up_at(views, i) || (if i == 0 {
            0
        } else {
            views[i - 1].rowid
        }) >= views[i].rowid,
    ensures
        !(balanced(views) && rowids_rise(views)),
{
    if balanced(views) && rowids_rise(views) {
        assert(adds_up_at(views, i));
        assert(0 < views[i].rowid);
        if i > 0 {
            assert(views[i - 1].rowid < views[i].rowid);
        }
    }
}

/// Whether the balances of a log add up and its sequence ids rise.
fn log_is_sound(entries: &Vec<Entry>) -> (r: bool)
    ensures
        r == (balanced(entry_views(entries@)) && rowids_rise(entry_views(entries@))),
{
    let ghost views = entry_views(entries@);
    let n = entries.len();
    let mut i: usize = 0;
    while i < n
        invariant
            i <= n,
            n == entries.len(),
            views == entry_views(entries@),
            balanced(views.take(i as int)),
            rowids_rise(views.take(i as int)),
        decreases n - i,
    {
        let (balance_before, rowid_before): (i32, i32) = if i == 0 {
            (0, 0)
        } else {
            (entries[i - 1].balance, entries[i - 1].rowid)
        };
        let adds_up = entries[i].balance as i64 == balance_before as i64 + entries[i].amount as i64;
        let rises = rowid_before < entries[i].rowid;
        if !adds_up || !rises {
            proof {
                lemma_unsound_entry(views, i as int);
            }
            return false;
        }
        proof {
            lemma_sound_prefix_grows(views, i as int);
        }
        i = i + 1;
    }
    assert(views.take(n as int) =~= views);
    true
}

/// A rising rule table stays rising with one more rule of a higher id.
proof fn lemma_rising_prefix_grows(views: Seq<RuleView>, i: int)
    requires
        0 <= i < views.len(),
        rule_ids_rise(views.take(i)),
        (if i == 0 {
            0
        } else {
            views[i - 1].rowid
        }) < views[i].rowid,
    ensures
        rule_ids_rise(views.take(i + 1)),
{
    let shorter = views.take(i);
    let longer = views.take(i + 1);
    assert forall|k: int| 0 <= k < longer.len() implies 0 < (#[trigger] longer[k]).rowid by {
        if k < i {
            assert(0 < shorter[k].rowid);
        } else if i > 0 {
            assert(0 < shorter[i - 1].rowid);
        }
    }
    assert forall|k: int, l: int| 0 <= k < l < longer.len() implies (#[trigger] longer[k]).rowid
        < (#[trigger] longer[l]).rowid by {
        if l < i {
            assert(shorter[k].rowid < shorter[l].rowid);
        } else if k < i - 1 {
            assert(shorter[k].rowid < shorter[i - 1].rowid);
            assert(shorter[i - 1] == views[i - 1]);
        }
    }
}

/// Whether the ids of a rule table are positive and rise.
fn rule_ids_are_rising(rules: &Vec<Rule>) -> (r: bool)
    ensures
        r == rule_ids_rise(rule_views(rules@)),
{
    let ghost views = rule_views(rules@);
    let n = rules.len();
    let mut i: usize = 0;
    while i < n
        invariant
            i <= n,
            n == rules.len(),
            views == rule_views(rules@),
            rule_ids_rise(views.take(i as int)),
        decreases n - i,
    {
        let rowid_before: i32 = if i == 0 {
            0
        } else {
            rules[i - 1].rowid
        };
        if rowid_before >= rules[i].rowid {
            proof {
                if rule_ids_rise(views) {
                    assert(0 < views[i as int].rowid);
                    if i > 0 {
                        assert(views[i - 1].rowid < views[i as int].rowid);
                    }
                }
            }
            return false;
        }
        proof {
            lemma_rising_prefix_grows(views, i as int);
        }
        i = i + 1;
    }
    assert(views.take(n as int) =~= views);
    true
}

/// The named ledger's state: an ordered log with its running balance, a
/// table of recurrence rules, and the instant of the last scheduler run.
#[derive(Debug)]
pub struct Ledger {
    entries: Vec<Entry>,
    rules: Vec<Rule>,
    last_run: Option<Instant>,
}

impl View for Ledger {
    type V = LedgerView;

    closed spec fn view(&self) -> LedgerView {
        LedgerView {
            entries: entry_views(self.entries@),
            rules: rule_views(self.rules@),
            last_run: match self.last_run {
                Some(at) => Some(at@),
                None => None,
            },
        }
    }
}

impl Ledger {
    /// The invariant: balances add up, and ids rise.
    pub open spec fn wf(&self) -> bool {
        well_formed(self@)
    }

    /// An empty ledger: no entry, no rule, no scheduler run yet.
    pub fn new() -> (ledger: Ledger)
        ensures
            ledger.wf(),
            ledger@ == empty_ledger(),
    {
        let ledger = Ledger { entries: Vec::new(), rules: Vec::new(), last_run: None };
        assert(ledger@.entries =~= Seq::<EntryView>::empty());
        assert(ledger@.rules =~= Seq::<RuleView>::empty());
        ledger
    }

    /// The current balance: the running balance of the last entry, or 0.
    pub fn get_balance(&self) -> (balance: i32)
        ensures
            balance == balance_of(self@.entries),
    {
        let n = self.entries.len();
        if n == 0 {
            0
        } else {
            self.entries[n - 1].balance
        }
    }

    /// Appends an entry with this amount and description, made at `now`,
    /// and returns it. The entry's balance is the balance before plus the
    /// amount; its sequence id is the next one. Where either cannot be
    /// stored, nothing is appended.
    pub fn do_transaction(&mut self, amount: i32, description: &str, now: &Instant) -> (r: Result<
        Entry,
        LedgerError,
    >)
        requires
            old(self).wf(),
        ensures
            final(self).wf(),
            final(self)@.rules == old(self)@.rules,
            final(self)@.last_run == old(self)@.last_run,
            append_fits(old(self)@.entries, amount as int) ==> r is Ok && final(self)@.entries
                == appended(old(self)@.entries, amount as int, description@, now@.secs)
                && r->Ok_0@ == final(self)@.entries.last(),
            !append_fits(old(self)@.entries, amount as int) ==> r == Err::<Entry, LedgerError>(
                LedgerError::StorageError,
            ) && final(self)@.entries == old(self)@.entries,
    {
        let n = self.entries.len();
        let (last_balance, last_rowid): (i32, i32) = if n == 0 {
            (0, 0)
        } else {
            (self.entries[n - 1].balance, self.entries[n - 1].rowid)
        };
        let balance: i64 = last_balance as i64 + amount as i64;
        if balance < i32::MIN as i64 || balance > i32::MAX as i64 || last_rowid == i32::MAX {
            return Err(LedgerError::StorageError);
        }
        let entry = Entry {
            rowid: last_rowid + 1,
            amount,
            balance: balance as i32,
            description: description.to_owned(),
            time: now.unix_seconds(),
        };
        let copy = Entry {
            rowid: entry.rowid,
            amount: entry.amount,
            balance: entry.balance,
            description: entry.description.clone(),
            time: entry.time,
        };
        self.entries.push(entry);
        proof {
            assert(self@.entries =~= appended(
                old(self)@.entries,
                amount as int,
                description@,
                now@.secs,
            ));
            lemma_append_keeps_log_sound(
                old(self)@.entries,
                amount as int,
                description@,
                now@.secs,
            );
        }
        Ok(copy)
    }

    /// Gives the entry with the sequence id `rowid` a new amount and a new
    /// description, and moves its balance and every later one by the change
    /// of the amount. All of it happens, or nothing: an unknown id, or a
    /// balance that could no longer be stored, leaves the ledger as it was.
    pub fn edit_trans(&mut self, rowid: i32, amount: i32, description: &str) -> (r: Result<
        (),
        LedgerError,
    >)
        requires
            old(self).wf(),
        ensures
            final(self).wf(),
            final(self)@.rules == old(self)@.rules,
            final(self)@.last_run == old(self)@.last_run,
            !has_rowid(old(self)@.entries, rowid as int) ==> r == Err::<(), LedgerError>(
                LedgerError::NotFound,
            ) && final(self)@.entries == old(self)@.entries,
            has_rowid(old(self)@.entries, rowid as int) && !edit_fits(
                old(self)@.entries,
                position_of(old(self)@.entries, rowid as int),
                amount as int,
            ) ==> r == Err::<(), LedgerError>(LedgerError::StorageError) && final(self)@.entries
                == old(self)@.entries,
            has_rowid(old(self)@.entries, rowid as int) && edit_fits(
                old(self)@.entries,
                position_of(old(self)@.entries, rowid as int),
                amount as int,
            ) ==> r is Ok && final(self)@.entries == edited(
                old(self)@.entries,
                position_of(old(self)@.entries, rowid as int),
                amount as int,
                description@,
            ),
    {
        let ghost before = self@.entries;
        match find_entry(&self.entries, rowid) {
            None => Err(LedgerError::NotFound),
            Some(at) => {
                proof {
                    lemma_position_is_unique(before, at as int);
                }
                if !edit_is_storable(&self.entries, at, amount) {
                    return Err(LedgerError::StorageError);
                }
                apply_edit(&mut self.entries, at, amount, description.to_owned());
                proof {
                    lemma_edit_keeps_log_sound(before, at as int, amount as int, description@);
                }
                Ok(())
            },
        }
    }

    /// A ledger with this log, these rules and this last run, as read back
    /// from storage. Stored state that breaks the invariant is refused.
    pub fn from_parts(entries: Vec<Entry>, rules: Vec<Rule>, last_run: Option<Instant>) -> (r:
        Result<Ledger, LedgerError>)
        ensures
            ({
                let stored = stored_ledger(
                    entry_views(entries@),
                    rule_views(rules@),
                    instant_view(last_run),
                );
                if well_formed(stored) {
                    r is Ok && r->Ok_0@ == stored && r->Ok_0.wf()
                } else {
                    r is Err && r->Err_0 == LedgerError::StorageError
                }
            }),
    {
        if !log_is_sound(&entries) {
            return Err(LedgerError::StorageError);
        }
        if !rule_ids_are_rising(&rules) {
            return Err(LedgerError::StorageError);
        }
        Ok(Ledger { entries, rules, last_run })
    }

    /// The log, oldest entry first.
    pub fn entries(&self) -> (entries: &Vec<Entry>)
        ensures
            entry_views(entries@) == self@.entries,
    {
        &self.entries
    }

    /// The rule table, in the order of the rule ids.
    pub fn rules(&self) -> (rules: &Vec<Rule>)
        ensures
            rule_views(rules@) == self@.rules,
    {
        &self.rules
    }

    /// The instant of the last scheduler run, if there was one.
    pub fn last_run(&self) -> (at: Option<Instant>)
        ensures
            instant_view(at) == self@.last_run,
    {
        self.last_run
    }

    /// Records a scheduler run at `now`.
    pub fn mark_run(&mut self, now: &Instant)
        ensures
            final(self)@ == with_last_run(old(self)@, now@),
    {
        self.last_run = Some(*now);
    }

    /// Adds a recurrence rule and returns its id: one more than the highest
    /// id in the table, or 1. Where that id cannot be stored, nothing is added.
    pub fn create_cron(&mut self, spec: CronSpec) -> (r: Result<i32, LedgerError>)
        requires
            old(self).wf(),
        ensures
            final(self).wf(),
            final(self)@.entries == old(self)@.entries,
            final(self)@.last_run == old(self)@.last_run,
            storable(next_rule_id(old(self)@.rules)) ==> r == Ok::<i32, LedgerError>(
                next_rule_id(old(self)@.rules) as i32,
            ) && final(self)@.rules == rule_added(old(self)@.rules, spec@),
            !storable(next_rule_id(old(self)@.rules)) ==> r == Err::<i32, LedgerError>(
                LedgerError::StorageError,
            ) && final(self)@.rules == old(self)@.rules,
    {
        let n = self.rules.len();
        let last_rowid: i32 = if n == 0 {
            0
        } else {
            self.rules[n - 1].rowid
        };
        proof {
            if n > 0 {
                assert(0 < self@.rules[n - 1].rowid);
            }
        }
        if last_rowid == i32::MAX {
            return Err(LedgerError::StorageError);
        }
        let rowid: i32 = last_rowid + 1;
        let ghost before = self@.rules;
        self.rules.push(Rule { rowid, spec });
        proof {
            let after = self@.rules;
            assert(after =~= before.push(RuleView { rowid: rowid as int, spec: spec@ }));
            assert forall|i: int| 0 <= i < after.len() implies 0 < (#[trigger] after[i]).rowid by {
                if i < before.len() {
                    assert(0 < before[i].rowid);
                }
            }
            assert forall|i: int, j: int| 0 <= i < j < after.len() implies (
            #[trigger] after[i]).rowid < (#[trigger] after[j]).rowid by {
                if j < before.len() {
                    assert(before[i].rowid < before[j].rowid);
                } else if i < before.len() - 1 {
                    assert(before[i].rowid < before[before.len() - 1].rowid);
                }
            }
        }
        Ok(rowid)
    }

    /// The recurrence rules with their ids, in the order of the ids.
    pub fn get_crons(&self) -> (crons: Vec<Rule>)
        ensures
            rule_views(crons@) == self@.rules,
    {
        let n = self.rules.len();
        let mut crons: Vec<Rule> = Vec::new();
        let mut i: usize = 0;
        while i < n
            invariant
                i <= n,
                n == self.rules.len(),
                crons.len() == i,
                forall|k: int| 0 <= k < i ==> (#[trigger] crons@[k])@ == self.rules@[k]@,
            decreases n - i,
        {
            let rule = &self.rules[i];
            crons.push(
                Rule {
                    rowid: rule.rowid,
                    spec: CronSpec {
                        schedule: rule.spec.schedule,
                        amount: rule.spec.amount,
                        description: rule.spec.description.clone(),
                    },
                },
            );
            i = i + 1;
        }
        assert(rule_views(crons@) =~= self@.rules);
        crons
    }

    /// Removes the rule with the id `rowid`.
    pub fn delete_cron(&mut self, rowid: i32) -> (r: Result<(), LedgerError>)
        requires
            old(self).wf(),
        ensures
            final(self).wf(),
            final(self)@.entries == old(self)@.entries,
            final(self)@.last_run == old(self)@.last_run,
            has_rule(old(self)@.rules, rowid as int) ==> r is Ok && final(self)@.rules
                == old(self)@.rules.remove(rule_position(old(self)@.rules, rowid as int)),
            !has_rule(old(self)@.rules, rowid as int) ==> r == Err::<(), LedgerError>(
                LedgerError::NotFound,
            ) && final(self)@.rules == old(self)@.rules,
    {
        let ghost before = self@.rules;
        match find_rule(&self.rules, rowid) {
            None => Err(LedgerError::NotFound),
            Some(at) => {
                proof {
                    lemma_rule_position_is_unique(before, at as int);
                }
                self.rules.remove(at);
                proof {
                    let after = self@.rules;
                    assert(after =~= before.remove(at as int));
                    assert forall|i: int| 0 <= i < after.len() implies 0 < (
                    #[trigger] after[i]).rowid by {
                        if i < at {
                            assert(0 < before[i].rowid);
                        } else {
                            assert(0 < before[i + 1].rowid);
                        }
                    }
                    assert forall|i: int, j: int| 0 <= i < j < after.len() implies (
                    #[trigger] after[i]).rowid < (#[trigger] after[j]).rowid by {
                        let bi = if i < at { i } else { i + 1 };
                        let bj = if j < at { j } else { j + 1 };
                        assert(before[bi].rowid < before[bj].rowid);
                    }
                }
                Ok(())
            },
        }
    }

    /// Appends a credit of `amount`.
    pub fn credit(&mut self, amount: i32, description: &str, now: &Instant) -> (r: Result<
        Entry,
        LedgerError,
    >)
        requires
            old(self).wf(),
        ensures
            final(self).wf(),
            final(self)@.rules == old(self)@.rules,
            final(self)@.last_run == old(self)@.last_run,
            append_fits(old(self)@.entries, amount as int) ==> r is Ok && final(self)@.entries
                == appended(old(self)@.entries, amount as int, description@, now@.secs)
                && r->Ok_0@ == final(self)@.entries.last(),
            !append_fits(old(self)@.entries, amount as int) ==> r == Err::<Entry, LedgerError>(
                LedgerError::StorageError,
            ) && final(self)@.entries == old(self)@.entries,
    {
        self.do_transaction(amount, description, now)
    }

    /// Appends a debit of `amount`: an entry whose amount is `-amount`.
    /// Where `-amount` cannot be stored, nothing is appended.
    pub fn debit(&mut self, amount: i32, description: &str, now: &Instant) -> (r: Result<
        Entry,
        LedgerError,
    >)
        requires
            old(self).wf(),
        ensures
            final(self).wf(),
            final(self)@.rules == old(self)@.rules,
            final(self)@.last_run == old(self)@.last_run,
            storable(-amount) && append_fits(old(self)@.entries, -amount) ==> r is Ok
                && final(self)@.entries == appended(
                old(self)@.entries,
                -amount,
                description@,
                now@.secs,
            ) && r->Ok_0@ == final(self)@.entries.last(),
            !(storable(-amount) && append_fits(old(self)@.entries, -amount)) ==> r == Err::<
                Entry,
                LedgerError,
            >(LedgerError::StorageError) && final(self)@.entries == old(self)@.entries,
    {
        if amount == i32::MIN {
            return Err(LedgerError::StorageError);
        }
        self.do_transaction(-amount, description, now)
    }
}

/// The sum of the amounts of the first `n` entries of a log.
pub open spec fn sum_of_amounts(entries: Seq<EntryView>, n: int) -> int
    decreases n,
{
    if n <= 0 {
        0
    } else {
        sum_of_amounts(entries, n - 1) + entries[n - 1].amount
    }
}

/// In a balanced log every running balance is the sum of the amounts up to
/// and including its entry, and the ledger's balance is the sum of all.
pub proof fn lemma_balance_is_the_sum_of_amounts(entries: Seq<EntryView>, i: int)
    requires
        balanced(entries),
        0 <= i < entries.len(),
    ensures
        entries[i].balance == sum_of_amounts(entries, i + 1),
        balance_of(entries) == sum_of_amounts(entries, entries.len() as int),
{
    lemma_balance_sums_up_to(entries, i);
    lemma_balance_sums_up_to(entries, entries.len() - 1);
}

proof fn lemma_balance_sums_up_to(entries: Seq<EntryView>, i: int)
    requires
        balanced(entries),
        0 <= i < entries.len(),
    ensures
        entries[i].balance == sum_of_amounts(entries, i + 1),
    decreases i,
{
    assert(adds_up_at(entries, i));
    if i > 0 {
        lemma_balance_sums_up_to(entries, i - 1);
    } else {
        assert(sum_of_amounts(entries, 0) == 0);
    }
}

/// A change to a log: an append, or an edit of the entry with a sequence id.
pub enum LogOp {
    Append { amount: int, description: Seq<char>, time: int },
    Edit { rowid: int, amount: int, description: Seq<char> },
}

/// The log after one change. An edit of a sequence id that the log does
/// not hold changes nothing.
pub open spec fn apply_op(entries: Seq<EntryView>, op: LogOp) -> Seq<EntryView> {
    match op {
        LogOp::Append { amount, description, time } => appended(
            entries,
            amount,
            description,
            time,
        ),
        LogOp::Edit { rowid, amount, description } => if has_rowid(entries, rowid) {
            edited(entries, position_of(entries, rowid), amount, description)
        } else {
            entries
        },
    }
}

/// The log after a run of changes, the first of them first.
pub open spec fn apply_ops(entries: Seq<EntryView>, ops: Seq<LogOp>) -> Seq<EntryView>
    decreases ops.len(),
{
    if ops.len() == 0 {
        entries
    } else {
        apply_op(apply_ops(entries, ops.drop_last()), ops.last())
    }
}

/// After any run of appends and edits, every entry's balance is still the
/// balance of the entry before it plus its own amount, and the sequence ids
/// still rise.
pub proof fn lemma_any_changes_keep_the_log_sound(entries: Seq<EntryView>, ops: Seq<LogOp>)
    requires
        balanced(entries),
        rowids_rise(entries),
    ensures
        balanced(apply_ops(entries, ops)),
        rowids_rise(apply_ops(entries, ops)),
    decreases ops.len(),
{
    if ops.len() > 0 {
        lemma_any_changes_keep_the_log_sound(entries, ops.drop_last());
        let before = apply_ops(entries, ops.drop_last());
        match ops.last() {
            LogOp::Append { amount, description, time } => {
                lemma_append_keeps_log_sound(before, amount, description, time);
            },
            LogOp::Edit { rowid, amount, description } => {
                if has_rowid(before, rowid) {
                    lemma_edit_keeps_log_sound(
                        before,
                        position_of(before, rowid),
                        amount,
                        description,
                    );
                }
            },
        }
    }
}

/// Starting from the empty log, any run of appends and edits gives a log
/// whose balances add up.
pub proof fn lemma_log_built_by_changes_is_sound(ops: Seq<LogOp>)
    ensures
        balanced(apply_ops(Seq::<EntryView>::empty(), ops)),
        rowids_rise(apply_ops(Seq::<EntryView>::empty(), ops)),
{
    lemma_any_changes_keep_the_log_sound(Seq::<EntryView>::empty(), ops);
}

} // verus!
