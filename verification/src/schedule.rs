use crate::calendar::{Instant, InstantView, Weekday};
use crate::error::LedgerError;
use vstd::prelude::*;
use vstd::string::*;

verus! {

/// When a recurring transaction is due.
#[derive(Clone, Copy, Debug, PartialEq, Eq, Structural)]
pub enum CronSchedule {
    /// Every week, on this weekday.
    Weekly(Weekday),
    /// Every month, on this day of the month. A month that has no such day
    /// is passed over: the rule is not moved to another day.
    Monthly(u32),
}

/// A recurring transaction: what to append, and when.
#[derive(Clone, Debug)]
pub struct CronSpec {
    pub schedule: CronSchedule,
    pub amount: i32,
    pub description: String,
}

/// What a [`CronSpec`] stands for.
pub struct CronSpecView {
    pub schedule: CronSchedule,
    pub amount: int,
    pub description: Seq<char>,
}

impl View for CronSpec {
    type V = CronSpecView;

    open spec fn view(&self) -> CronSpecView {
        CronSpecView {
            schedule: self.schedule,
            amount: self.amount as int,
            description: self.description@,
        }
    }
}

/// Whether `schedule` holds on a calendar day with this weekday and this day
/// of the month.
pub open spec fn matches_day(schedule: CronSchedule, weekday: Weekday, day: int) -> bool {
    match schedule {
        CronSchedule::Weekly(w) => weekday == w,
        CronSchedule::Monthly(d) => day == d,
    }
}

/// Whether `schedule` holds on the calendar day of `at`.
pub open spec fn matches_at(schedule: CronSchedule, at: InstantView) -> bool {
    matches_day(schedule, at.weekday, at.day)
}

/// Whether a rule is due in a sweep at `now` when the sweep before it ran at
/// `last_run`: its day has come, and the sweep before did not already see it.
pub open spec fn fires(schedule: CronSchedule, last_run: InstantView, now: InstantView) -> bool {
    matches_at(schedule, now) && !matches_at(schedule, last_run)
}

/// The stored form of a schedule: its kind as text, and an index.
pub open spec fn stored_form(schedule: CronSchedule) -> (Seq<char>, int) {
    match schedule {
        CronSchedule::Weekly(w) => ("weekly"@, w.number()),
        CronSchedule::Monthly(d) => ("monthly"@, d as int),
    }
}

/// The schedule that a stored kind and index stand for, if any.
pub open spec fn read_stored_form(kind: Seq<char>, index: int) -> Option<CronSchedule> {
    if kind == "weekly"@ {
        if 1 <= index <= 7 {
            Some(CronSchedule::Weekly(Weekday::of_number(index)))
        } else {
            None
        }
    } else if kind == "monthly"@ && 0 <= index <= u32::MAX {
        Some(CronSchedule::Monthly(index as u32))
    } else {
        None
    }
}

impl CronSchedule {
    /// Whether the schedule holds on a day with this weekday and day of the month.
    pub fn matches_on(&self, weekday: Weekday, day: u32) -> (r: bool)
        ensures
            r == matches_day(*self, weekday, day as int),
    {
        match self {
            CronSchedule::Weekly(w) => weekday == *w,
            CronSchedule::Monthly(d) => day == *d,
        }
    }

    /// Whether the schedule holds on the calendar day of `dt`.
    pub fn matches(&self, dt: &Instant) -> (r: bool)
        ensures
            r == matches_at(*self, dt@),
    {
        self.matches_on(dt.weekday(), dt.day())
    }

    /// Reads a schedule from its stored form. The kind is `weekly`, with a
    /// weekday index from 1 (Monday) to 7 (Sunday), or `monthly`, with the
    /// day of the month.
    pub fn from_sql(cron_type: &str, index: u32) -> (r: Result<CronSchedule, LedgerError>)
        ensures
            match read_stored_form(cron_type@, index as int) {
                Some(schedule) => r == Ok::<CronSchedule, LedgerError>(schedule),
                None => r == Err::<CronSchedule, LedgerError>(LedgerError::InvalidSchedule),
            },
    {
        let kind = cron_type.to_owned();
        if kind == "weekly".to_owned() {
            match Weekday::from_number(index) {
                Some(weekday) => Ok(CronSchedule::Weekly(weekday)),
                None => Err(LedgerError::InvalidSchedule),
            }
        } else if kind == "monthly".to_owned() {
            Ok(CronSchedule::Monthly(index))
        } else {
            Err(LedgerError::InvalidSchedule)
        }
    }

    /// The stored form of the schedule.
    pub fn to_sql(&self) -> (r: (&'static str, u32))
        ensures
            (r.0@, r.1 as int) == stored_form(*self),
    {
        match self {
            CronSchedule::Weekly(weekday) => ("weekly", weekday.number_from_monday()),
            CronSchedule::Monthly(day) => ("monthly", *day),
        }
    }
}

/// Reading back the stored form of a schedule gives that schedule.
pub proof fn lemma_stored_form_round_trip(schedule: CronSchedule)
    ensures
        read_stored_form(stored_form(schedule).0, stored_form(schedule).1) == Some(schedule),
{
    reveal_strlit("weekly");
    reveal_strlit("monthly");
    match schedule {
        CronSchedule::Weekly(w) => {
            crate::calendar::lemma_weekday_number_round_trip(w);
        },
        CronSchedule::Monthly(d) => {
            assert("monthly"@.len() == 7);
            assert("weekly"@.len() == 6);
        },
    }
}

/// A rule that the sweep before already saw on its day does not fire again:
/// a second sweep on a day that the schedule names appends nothing for it.
pub proof fn lemma_no_second_firing(schedule: CronSchedule, last_run: InstantView, now: InstantView)
    requires
        matches_at(schedule, last_run),
    ensures
        !fires(schedule, last_run, now),
{
}

/// Whether a rule fires depends on the calendar days of the two sweeps
/// only: two sweeps on one calendar day never fire a rule between them.
pub proof fn lemma_same_day_never_fires(
    schedule: CronSchedule,
    last_run: InstantView,
    now: InstantView,
)
    requires
        last_run.weekday == now.weekday,
        last_run.day == now.day,
    ensures
        !fires(schedule, last_run, now),
{
}

/// A monthly rule holds on the days whose day of the month is the rule's,
/// and on no other: in a month without that day it does not hold at all,
/// and a rule for a day below 1 or above 31 never holds.
pub proof fn lemma_monthly_rule_holds_on_its_day_only(day: u32, at: InstantView)
    ensures
        matches_at(CronSchedule::Monthly(day), at) <==> at.day == day,
        1 <= at.day <= 31 && !(1 <= day <= 31) ==> !matches_at(CronSchedule::Monthly(day), at),
{
}

/// How often a rule fires over a run of sweeps, the first of which follows
/// a sweep at `last_run`: each sweep is judged against the one before it.
pub open spec fn firings(
    schedule: CronSchedule,
    last_run: InstantView,
    sweeps: Seq<InstantView>,
) -> nat
    decreases sweeps.len(),
{
    if sweeps.len() == 0 {
        0
    } else {
        let earlier = sweeps.drop_last();
        firings(schedule, last_run, earlier) + (if fires(
            schedule,
            last_of(last_run, earlier),
            sweeps.last(),
        ) {
            1nat
        } else {
            0nat
        })
    }
}

/// The last sweep of a run, or the sweep before the run where it is empty.
pub open spec fn last_of(last_run: InstantView, sweeps: Seq<InstantView>) -> InstantView {
    if sweeps.len() == 0 {
        last_run
    } else {
        sweeps.last()
    }
}

/// Whether the schedule holds at every sweep of a run.
pub open spec fn all_match(schedule: CronSchedule, sweeps: Seq<InstantView>) -> bool {
    forall|i: int| 0 <= i < sweeps.len() ==> matches_at(schedule, #[trigger] sweeps[i])
}

/// Whether the schedule holds at no sweep of a run.
pub open spec fn none_match(schedule: CronSchedule, sweeps: Seq<InstantView>) -> bool {
    forall|i: int| 0 <= i < sweeps.len() ==> !matches_at(schedule, #[trigger] sweeps[i])
}

/// The firings of two runs of sweeps, one after the other, add up.
pub proof fn lemma_firings_add_up(
    schedule: CronSchedule,
    last_run: InstantView,
    first: Seq<InstantView>,
    second: Seq<InstantView>,
)
    ensures
        firings(schedule, last_run, first + second) == firings(schedule, last_run, first)
            + firings(schedule, last_of(last_run, first), second),
        last_of(last_run, first + second) == last_of(last_of(last_run, first), second),
    decreases second.len(),
{
    if second.len() == 0 {
        assert(first + second =~= first);
    } else {
        lemma_firings_add_up(schedule, last_run, first, second.drop_last());
        assert((first + second).drop_last() =~= first + second.drop_last());
        assert((first + second).last() == second.last());
    }
}

/// Any number of sweeps on days that the schedule names, after a sweep on a
/// day that it does not name, fire the rule once: at the first of them.
pub proof fn lemma_fires_once_when_its_day_comes(
    schedule: CronSchedule,
    last_run: InstantView,
    sweeps: Seq<InstantView>,
)
    requires
        !matches_at(schedule, last_run),
        sweeps.len() > 0,
        all_match(schedule, sweeps),
    ensures
        firings(schedule, last_run, sweeps) == 1,
    decreases sweeps.len(),
{
    let earlier = sweeps.drop_last();
    assert(matches_at(schedule, sweeps[sweeps.len() - 1]));
    if earlier.len() > 0 {
        assert forall|i: int| 0 <= i < earlier.len() implies matches_at(
            schedule,
            #[trigger] earlier[i],
        ) by {
            assert(earlier[i] == sweeps[i]);
        }
        lemma_fires_once_when_its_day_comes(schedule, last_run, earlier);
        assert(matches_at(schedule, earlier[earlier.len() - 1]));
    } else {
        assert(firings(schedule, last_run, earlier) == 0);
    }
}

/// Sweeps on days that the schedule names, after a sweep that already saw
/// such a day, do not fire the rule.
pub proof fn lemma_no_firing_while_its_day_lasts(
    schedule: CronSchedule,
    last_run: InstantView,
    sweeps: Seq<InstantView>,
)
    requires
        matches_at(schedule, last_run),
        all_match(schedule, sweeps),
    ensures
        firings(schedule, last_run, sweeps) == 0,
    decreases sweeps.len(),
{
    if sweeps.len() > 0 {
        let earlier = sweeps.drop_last();
        assert forall|i: int| 0 <= i < earlier.len() implies matches_at(
            schedule,
            #[trigger] earlier[i],
        ) by {
            assert(earlier[i] == sweeps[i]);
        }
        lemma_no_firing_while_its_day_lasts(schedule, last_run, earlier);
        if earlier.len() > 0 {
            assert(matches_at(schedule, earlier[earlier.len() - 1]));
        }
    }
}

/// Sweeps on days that the schedule does not name do not fire the rule.
pub proof fn lemma_no_firing_off_its_day(
    schedule: CronSchedule,
    last_run: InstantView,
    sweeps: Seq<InstantView>,
)
    requires
        none_match(schedule, sweeps),
    ensures
        firings(schedule, last_run, sweeps) == 0,
    decreases sweeps.len(),
{
    if sweeps.len() > 0 {
        let earlier = sweeps.drop_last();
        assert(!matches_at(schedule, sweeps[sweeps.len() - 1]));
        assert forall|i: int| 0 <= i < earlier.len() implies !matches_at(
            schedule,
            #[trigger] earlier[i],
        ) by {
            assert(earlier[i] == sweeps[i]);
        }
        lemma_no_firing_off_its_day(schedule, last_run, earlier);
    }
}

/// A rule fires exactly once for each of two days that its schedule names,
/// however many sweeps fall on each, where sweeps on other days lie before
/// the first and between the two.
pub proof fn lemma_fires_once_for_each_of_its_days(
    schedule: CronSchedule,
    last_run: InstantView,
    first_day: Seq<InstantView>,
    between: Seq<InstantView>,
    second_day: Seq<InstantView>,
)
    requires
        !matches_at(schedule, last_run),
        first_day.len() > 0,
        all_match(schedule, first_day),
        between.len() > 0,
        none_match(schedule, between),
        second_day.len() > 0,
        all_match(schedule, second_day),
    ensures
        firings(schedule, last_run, first_day) == 1,
        firings(schedule, last_run, first_day + between) == 1,
        firings(schedule, last_run, first_day + between + second_day) == 2,
{
    lemma_fires_once_when_its_day_comes(schedule, last_run, first_day);
    lemma_firings_add_up(schedule, last_run, first_day, between);
    lemma_no_firing_off_its_day(schedule, last_of(last_run, first_day), between);
    lemma_firings_add_up(schedule, last_run, first_day + between, second_day);
    assert(!matches_at(schedule, between[between.len() - 1]));
    assert(last_of(last_run, first_day + between) == between.last());
    lemma_fires_once_when_its_day_comes(schedule, between.last(), second_day);
}

/// Sweeps on two days that the schedule names, with no sweep on another day
/// between them, fire the rule for the first day only: the sweep before the
/// second day already saw a day of the rule.
pub proof fn lemma_days_without_a_sweep_between_fire_once(
    schedule: CronSchedule,
    last_run: InstantView,
    first_day: Seq<InstantView>,
    second_day: Seq<InstantView>,
)
    requires
        !matches_at(schedule, last_run),
        first_day.len() > 0,
        all_match(schedule, first_day),
        all_match(schedule, second_day),
    ensures
        firings(schedule, last_run, first_day + second_day) == 1,
{
    lemma_fires_once_when_its_day_comes(schedule, last_run, first_day);
    lemma_firings_add_up(schedule, last_run, first_day, second_day);
    assert(matches_at(schedule, first_day[first_day.len() - 1]));
    lemma_no_firing_while_its_day_lasts(schedule, first_day.last(), second_day);
}

} // verus!
