use crate::calendar::{Instant, InstantView};
use crate::error::LedgerError;
use crate::ledger::{
    append_fits, appended, balance_of, balanced, entry_views, lemma_append_keeps_log_sound,
    next_rowid, rowids_rise, rule_views, with_last_run, Entry, EntryView, Ledger, LedgerView,
    Rule, RuleView,
};
use crate::schedule::{
    all_match, fires, firings, last_of, lemma_fires_once_for_each_of_its_days, matches_at,
    none_match,
};
use vstd::prelude::*;

verus! {

/// How a sweep over one ledger ended.
#[derive(Clone, Copy, Debug, PartialEq, Eq, Structural)]
pub enum SweepOutcome {
    /// The ledger has no scheduler run on record: it was passed over.
    Skipped,
    /// The due rules were applied and the run recorded; the number of
    /// entries appended.
    Applied(usize),
    /// The sweep failed, and the ledger is as it was before.
    Failed(LedgerError),
}

/// The log after a sweep at `now` over `rules`, the sweep before having run
/// at `last_run`: every rule that fires appends its entry, in the order of
/// the rule table.
pub open spec fn swept(
    entries: Seq<EntryView>,
    rules: Seq<RuleView>,
    last_run: InstantView,
    now: InstantView,
) -> Seq<EntryView>
    decreases rules.len(),
{
    if rules.len() == 0 {
        entries
    } else {
        let before = swept(entries, rules.drop_last(), last_run, now);
        let rule = rules.last();
        if fires(rule.spec.schedule, last_run, now) {
            appended(before, rule.spec.amount, rule.spec.description, now.secs)
        } else {
            before
        }
    }
}

/// Whether every entry that the sweep appends can be stored.
pub open spec fn sweep_fits(
    entries: Seq<EntryView>,
    rules: Seq<RuleView>,
    last_run: InstantView,
    now: InstantView,
) -> bool
    decreases rules.len(),
{
    if rules.len() == 0 {
        true
    } else {
        let before = swept(entries, rules.drop_last(), last_run, now);
        let rule = rules.last();
        &&& sweep_fits(entries, rules.drop_last(), last_run, now)
        &&& fires(rule.spec.schedule, last_run, now) ==> append_fits(before, rule.spec.amount)
    }
}

/// The number of rules that fire in a sweep at `now`.
pub open spec fn due_count(rules: Seq<RuleView>, last_run: InstantView, now: InstantView) -> nat
    decreases rules.len(),
{
    if rules.len() == 0 {
        0
    } else {
        due_count(rules.drop_last(), last_run, now) + (if fires(
            rules.last().spec.schedule,
            last_run,
            now,
        ) {
            1nat
        } else {
            0nat
        })
    }
}

/// The ledger after a sweep at `now`: as it was, where no run is on record
/// or an entry could not be stored; else with the due entries appended and
/// `now` as the last run.
pub open spec fn after_sweep(ledger: LedgerView, now: InstantView) -> LedgerView {
    match ledger.last_run {
        None => ledger,
        Some(last_run) => if sweep_fits(ledger.entries, ledger.rules, last_run, now) {
            LedgerView {
                entries: swept(ledger.entries, ledger.rules, last_run, now),
                rules: ledger.rules,
                last_run: Some(now),
            }
        } else {
            ledger
        },
    }
}

/// How a sweep at `now` over the ledger ends.
pub open spec fn outcome_of_sweep(ledger: LedgerView, now: InstantView) -> SweepOutcome {
    match ledger.last_run {
        None => SweepOutcome::Skipped,
        Some(last_run) => if sweep_fits(ledger.entries, ledger.rules, last_run, now) {
            SweepOutcome::Applied(due_count(ledger.rules, last_run, now) as usize)
        } else {
            SweepOutcome::Failed(LedgerError::StorageError)
        },
    }
}

/// A sweep that fits as a whole fits up to each of its rules.
pub proof fn lemma_sweep_fits_prefix(
    entries: Seq<EntryView>,
    rules: Seq<RuleView>,
    last_run: InstantView,
    now: InstantView,
    k: int,
)
    requires
        0 <= k <= rules.len(),
        sweep_fits(entries, rules, last_run, now),
    ensures
        sweep_fits(entries, rules.take(k), last_run, now),
    decreases rules.len(),
{
    if k == rules.len() {
        assert(rules.take(k) =~= rules);
    } else {
        lemma_sweep_fits_prefix(entries, rules.drop_last(), last_run, now, k);
        assert(rules.drop_last().take(k) =~= rules.take(k));
    }
}

/// A sweep appends one entry for each rule that fires and leaves the
/// entries before them as they were; a sound log stays sound.
pub proof fn lemma_sweep_appends_one_per_due_rule(
    entries: Seq<EntryView>,
    rules: Seq<RuleView>,
    last_run: InstantView,
    now: InstantView,
)
    ensures
        swept(entries, rules, last_run, now).len() == entries.len() + due_count(
            rules,
            last_run,
            now,
        ),
        swept(entries, rules, last_run, now).take(entries.len() as int) == entries,
        balanced(entries) && rowids_rise(entries) ==> balanced(
            swept(entries, rules, last_run, now),
        ) && rowids_rise(swept(entries, rules, last_run, now)),
    decreases rules.len(),
{
    if rules.len() == 0 {
        assert(entries.take(entries.len() as int) =~= entries);
    } else {
        lemma_sweep_appends_one_per_due_rule(entries, rules.drop_last(), last_run, now);
        let before = swept(entries, rules.drop_last(), last_run, now);
        let rule = rules.last();
        let after = swept(entries, rules, last_run, now);
        assert(after.take(entries.len() as int) =~= before.take(entries.len() as int));
        if balanced(entries) && rowids_rise(entries) {
            lemma_append_keeps_log_sound(
                before,
                rule.spec.amount,
                rule.spec.description,
                now.secs,
            );
        }
    }
}

/// A sweep in which no rule fires appends nothing, and never fails.
pub proof fn lemma_sweep_without_a_due_rule(
    entries: Seq<EntryView>,
    rules: Seq<RuleView>,
    last_run: InstantView,
    now: InstantView,
)
    requires
        forall|i: int|
            0 <= i < rules.len() ==> !fires((#[trigger] rules[i]).spec.schedule, last_run, now),
    ensures
        swept(entries, rules, last_run, now) == entries,
        sweep_fits(entries, rules, last_run, now),
        due_count(rules, last_run, now) == 0,
    decreases rules.len(),
{
    if rules.len() > 0 {
        let earlier = rules.drop_last();
        assert forall|i: int| 0 <= i < earlier.len() implies !fires(
            (#[trigger] earlier[i]).spec.schedule,
            last_run,
            now,
        ) by {
            assert(earlier[i] == rules[i]);
        }
        lemma_sweep_without_a_due_rule(entries, earlier, last_run, now);
        assert(!fires(rules[rules.len() - 1].spec.schedule, last_run, now));
    }
}

/// A second sweep on the calendar day of the last run appends no entry,
/// whatever the rules: it only records the new run.
pub proof fn lemma_second_sweep_on_a_day_appends_nothing(ledger: LedgerView, now: InstantView)
    requires
        ledger.last_run matches Some(last_run) && last_run.weekday == now.weekday && last_run.day
            == now.day,
    ensures
        after_sweep(ledger, now) == with_last_run(ledger, now),
        outcome_of_sweep(ledger, now) == SweepOutcome::Applied(0),
{
    let last_run = ledger.last_run->Some_0;
    lemma_sweep_without_a_due_rule(ledger.entries, ledger.rules, last_run, now);
}

/// The ledger after a run of sweeps, the first of them first.
pub open spec fn after_sweeps(ledger: LedgerView, sweeps: Seq<InstantView>) -> LedgerView
    decreases sweeps.len(),
{
    if sweeps.len() == 0 {
        ledger
    } else {
        after_sweep(after_sweeps(ledger, sweeps.drop_last()), sweeps.last())
    }
}

/// Whether each sweep of a run finds a run on record and can store what it
/// appends.
pub open spec fn every_sweep_applies(ledger: LedgerView, sweeps: Seq<InstantView>) -> bool
    decreases sweeps.len(),
{
    if sweeps.len() == 0 {
        true
    } else {
        let before = after_sweeps(ledger, sweeps.drop_last());
        &&& every_sweep_applies(ledger, sweeps.drop_last())
        &&& before.last_run matches Some(last_run) && sweep_fits(
            before.entries,
            before.rules,
            last_run,
            sweeps.last(),
        )
    }
}

/// How often the rules of a table fire over a run of sweeps, all together.
pub open spec fn firings_of_all(
    rules: Seq<RuleView>,
    last_run: InstantView,
    sweeps: Seq<InstantView>,
) -> nat
    decreases rules.len(),
{
    if rules.len() == 0 {
        0
    } else {
        firings_of_all(rules.drop_last(), last_run, sweeps) + firings(
            rules.last().spec.schedule,
            last_run,
            sweeps,
        )
    }
}

/// Over a run of sweeps the rules fire as often as over the run without
/// its last sweep, and once more for each rule that is due at the last.
proof fn lemma_firings_of_all_step(
    rules: Seq<RuleView>,
    last_run: InstantView,
    sweeps: Seq<InstantView>,
)
    requires
        sweeps.len() > 0,
    ensures
        firings_of_all(rules, last_run, sweeps) == firings_of_all(
            rules,
            last_run,
            sweeps.drop_last(),
        ) + due_count(rules, last_of(last_run, sweeps.drop_last()), sweeps.last()),
    decreases rules.len(),
{
    if rules.len() > 0 {
        lemma_firings_of_all_step(rules.drop_last(), last_run, sweeps);
    }
}

/// Sweeps that all apply append one entry for each firing of each rule, no
/// more and no fewer; they keep the rules, and record the last sweep.
pub proof fn lemma_sweeps_append_one_entry_per_firing(
    ledger: LedgerView,
    sweeps: Seq<InstantView>,
)
    requires
        ledger.last_run is Some,
        every_sweep_applies(ledger, sweeps),
    ensures
        after_sweeps(ledger, sweeps).rules == ledger.rules,
        after_sweeps(ledger, sweeps).last_run == Some(last_of(ledger.last_run->Some_0, sweeps)),
        after_sweeps(ledger, sweeps).entries.len() == ledger.entries.len() + firings_of_all(
            ledger.rules,
            ledger.last_run->Some_0,
            sweeps,
        ),
    decreases sweeps.len(),
{
    let last_run = ledger.last_run->Some_0;
    if sweeps.len() == 0 {
        assert(sweeps =~= Seq::<InstantView>::empty());
        lemma_no_sweep_no_firing(ledger.rules, last_run);
    } else {
        let earlier = sweeps.drop_last();
        lemma_sweeps_append_one_entry_per_firing(ledger, earlier);
        let before = after_sweeps(ledger, earlier);
        lemma_sweep_appends_one_per_due_rule(
            before.entries,
            before.rules,
            last_of(last_run, earlier),
            sweeps.last(),
        );
        lemma_firings_of_all_step(ledger.rules, last_run, sweeps);
    }
}

/// Without a sweep no rule fires.
proof fn lemma_no_sweep_no_firing(rules: Seq<RuleView>, last_run: InstantView)
    ensures
        firings_of_all(rules, last_run, Seq::<InstantView>::empty()) == 0,
    decreases rules.len(),
{
    if rules.len() > 0 {
        lemma_no_sweep_no_firing(rules.drop_last(), last_run);
    }
}

/// A ledger with one rule gets exactly one entry for each of two days that
/// the rule's schedule names, however many sweeps fall on each of the two,
/// where sweeps on other days lie before the first and between the two.
pub proof fn lemma_one_entry_for_each_day_of_a_rule(
    ledger: LedgerView,
    first_day: Seq<InstantView>,
    between: Seq<InstantView>,
    second_day: Seq<InstantView>,
)
    requires
        ledger.rules.len() == 1,
        ledger.last_run matches Some(last_run) && !matches_at(
            ledger.rules[0].spec.schedule,
            last_run,
        ),
        first_day.len() > 0,
        all_match(ledger.rules[0].spec.schedule, first_day),
        between.len() > 0,
        none_match(ledger.rules[0].spec.schedule, between),
        second_day.len() > 0,
        all_match(ledger.rules[0].spec.schedule, second_day),
        every_sweep_applies(ledger, first_day + between + second_day),
    ensures
        after_sweeps(ledger, first_day + between + second_day).entries.len()
            == ledger.entries.len() + 2,
{
    let schedule = ledger.rules[0].spec.schedule;
    let last_run = ledger.last_run->Some_0;
    let sweeps = first_day + between + second_day;
    lemma_sweeps_append_one_entry_per_firing(ledger, sweeps);
    lemma_fires_once_for_each_of_its_days(schedule, last_run, first_day, between, second_day);
    assert(ledger.rules.drop_last().len() == 0);
    assert(firings_of_all(ledger.rules.drop_last(), last_run, sweeps) == 0);
    assert(ledger.rules.last() == ledger.rules[0]);
}

/// Whether every entry that a sweep over `rules` would append can be stored.
fn sweep_is_storable(entries: &Vec<Entry>, rules: &Vec<Rule>, last_run: &Instant, now: &Instant) -> (r:
    bool)
    ensures
        r == sweep_fits(entry_views(entries@), rule_views(rules@), last_run@, now@),
{
    let ghost log = entry_views(entries@);
    let ghost table = rule_views(rules@);
    let n = entries.len();
    let (mut balance, mut last_rowid): (i32, i32) = if n == 0 {
        (0, 0)
    } else {
        (entries[n - 1].balance, entries[n - 1].rowid)
    };
    let m = rules.len();
    let mut k: usize = 0;
    assert(table.take(0) =~= Seq::<RuleView>::empty());
    while k < m
        invariant
            k <= m,
            m == rules.len(),
            log == entry_views(entries@),
            table == rule_views(rules@),
            sweep_fits(log, table.take(k as int), last_run@, now@),
            balance == balance_of(swept(log, table.take(k as int), last_run@, now@)),
            last_rowid + 1 == next_rowid(swept(log, table.take(k as int), last_run@, now@)),
        decreases m - k,
    {
        let rule = &rules[k];
        proof {
            assert(table.take(k + 1).drop_last() =~= table.take(k as int));
            assert(table.take(k + 1).last() == rule@);
        }
        if rule.spec.schedule.matches(now) && !rule.spec.schedule.matches(last_run) {
            let moved: i64 = balance as i64 + rule.spec.amount as i64;
            if moved < i32::MIN as i64 || moved > i32::MAX as i64 || last_rowid == i32::MAX {
                proof {
                    assert(!sweep_fits(log, table.take(k + 1), last_run@, now@));
                    if sweep_fits(log, table, last_run@, now@) {
                        lemma_sweep_fits_prefix(log, table, last_run@, now@, k + 1);
                    }
                }
                return false;
            }
            balance = moved as i32;
            last_rowid = last_rowid + 1;
        }
        k = k + 1;
    }
    assert(table.take(m as int) =~= table);
    true
}

impl Ledger {
    /// One scheduler sweep over this ledger, at `now`.
    ///
    /// A ledger without a run on record is passed over. Otherwise every rule
    /// whose day has come at `now`, and had not come at the last run,
    /// appends its entry, in the order of the rule table, and `now` becomes
    /// the last run. Where one of these entries cannot be stored the whole
    /// sweep fails: no entry is appended and the last run stays.
    pub fn sweep(&mut self, now: &Instant) -> (outcome: SweepOutcome)
        requires
            old(self).wf(),
        ensures
            final(self).wf(),
            final(self)@ == after_sweep(old(self)@, now@),
            outcome == outcome_of_sweep(old(self)@, now@),
    {
        let last_run = match self.last_run() {
            None => {
                return SweepOutcome::Skipped;
            },
            Some(at) => at,
        };
        let rules = self.get_crons();
        if !sweep_is_storable(self.entries(), &rules, &last_run, now) {
            return SweepOutcome::Failed(LedgerError::StorageError);
        }
        let ghost log = self@.entries;
        let ghost table = self@.rules;
        let m = rules.len();
        let mut applied: usize = 0;
        let mut k: usize = 0;
        assert(table.take(0) =~= Seq::<RuleView>::empty());
        while k < m
            invariant
                k <= m,
                m == rules.len(),
                table == rule_views(rules@),
                self.wf(),
                self@.rules == table,
                self@.last_run == Some(last_run@),
                sweep_fits(log, table, last_run@, now@),
                self@.entries == swept(log, table.take(k as int), last_run@, now@),
                applied == due_count(table.take(k as int), last_run@, now@),
                applied <= k,
            decreases m - k,
        {
            let rule = &rules[k];
            proof {
                assert(table.take(k + 1).drop_last() =~= table.take(k as int));
                assert(table.take(k + 1).last() == rule@);
                lemma_sweep_fits_prefix(log, table, last_run@, now@, k + 1);
            }
            if rule.spec.schedule.matches(now) && !rule.spec.schedule.matches(&last_run) {
                let _ = self.do_transaction(rule.spec.amount, rule.spec.description.as_str(), now);
                applied = applied + 1;
            }
            k = k + 1;
        }
        assert(table.take(m as int) =~= table);
        self.mark_run(now);
        SweepOutcome::Applied(applied)
    }
}

} // verus!
