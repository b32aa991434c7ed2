use crate::calendar::Instant;
use crate::error::LedgerError;
use crate::ledger::{
    append_fits, appended, balance_of, edit_fits, edited, empty_ledger, entry_views, has_rowid,
    has_rule, next_rule_id, position_of, rule_added, rule_position, rule_views, storable,
    well_formed, with_entries, with_rules, Entry, Ledger, LedgerView, Rule,
};
use crate::names::{lemma_bytes_le_total, lemma_bytes_le_transitive, name_is_le, name_le};
use crate::query::{
    listed, page_named, page_of, per_page_named, Direction, Listing, PagingArgs, TransList,
    DEFAULT_PER_PAGE,
};
use crate::schedule::CronSpec;
use crate::scheduler::{after_sweep, outcome_of_sweep, SweepOutcome};
use vstd::prelude::*;
use vstd::string::*;
use vstd::utf8::encode_utf8;

verus! {

/// The texts of a vector of names, in order.
pub open spec fn name_views(names: Seq<String>) -> Seq<Seq<char>> {
    names.map_values(|name: String| name@)
}

/// The names are in order, and none stands twice.
pub open spec fn names_in_order(names: Seq<Seq<char>>) -> bool {
    forall|i: int, j: int|
        0 <= i < j < names.len() ==> name_le(#[trigger] names[i], #[trigger] names[j])
            && names[i] != names[j]
}

/// The ledgers of one process, each under its name.
#[derive(Debug)]
pub struct Registry {
    names: Vec<String>,
    ledgers: Vec<Ledger>,
}

impl View for Registry {
    type V = Map<Seq<char>, LedgerView>;

    /// The ledger that stands under each registered name.
    closed spec fn view(&self) -> Map<Seq<char>, LedgerView> {
        Map::new(
            |name: Seq<char>| name_views(self.names@).contains(name),
            |name: Seq<char>| self.ledgers@[name_views(self.names@).index_of(name)]@,
        )
    }
}

impl Registry {
    /// The registered names, in the order in which they are listed.
    pub closed spec fn names(&self) -> Seq<Seq<char>> {
        name_views(self.names@)
    }

    /// The invariant: the names are in order, none stands twice, and each
    /// has its well-formed ledger.
    pub closed spec fn wf(&self) -> bool {
        &&& self.names@.len() == self.ledgers@.len()
        &&& names_in_order(self.names())
        &&& forall|i: int| 0 <= i < self.ledgers@.len() ==> (#[trigger] self.ledgers@[i]).wf()
    }

    /// The listed names are the registered ones, each once, in order, and
    /// every registered ledger is well-formed.
    pub proof fn lemma_names_are_the_registered(&self)
        requires
            self.wf(),
        ensures
            names_in_order(self.names()),
            forall|name: Seq<char>| self.names().contains(name) <==> self@.dom().contains(name),
            forall|name: Seq<char>|
                self@.dom().contains(name) ==> well_formed(#[trigger] self@[name]),
    {
        assert forall|name: Seq<char>| self@.dom().contains(name) implies well_formed(
            #[trigger] self@[name],
        ) by {
            let i = self.names().index_of(name);
            assert(self.names()[i] == name);
            assert(self.ledgers@[i].wf());
        }
    }

    /// The ledger in slot `i` is the one under the name in slot `i`.
    proof fn lemma_slot(&self, i: int)
        requires
            self.wf(),
            0 <= i < self.names@.len(),
        ensures
            self@.dom().contains(self.names()[i]),
            self@[self.names()[i]] == self.ledgers@[i]@,
            self.names().index_of(self.names()[i]) == i,
    {
        let names = self.names();
        let found = names.index_of(names[i]);
        assert(names.contains(names[i]));
        assert(0 <= found < names.len() && names[found] == names[i]);
        if found < i {
            assert(names[found] != names[i]);
        }
        if i < found {
            assert(names[i] != names[found]);
        }
    }

    /// Changing the ledger in slot `i` changes the ledger under that slot's
    /// name, and nothing else.
    proof fn lemma_slot_changed(before: &Registry, after: &Registry, i: int)
        requires
            before.wf(),
            0 <= i < before.names@.len(),
            after.names@ == before.names@,
            after.ledgers@.len() == before.ledgers@.len(),
            forall|j: int|
                0 <= j < before.ledgers@.len() && j != i ==> after.ledgers@[j]
                    == before.ledgers@[j],
            after.ledgers@[i].wf(),
        ensures
            after.wf(),
            after.names() == before.names(),
            after@ == before@.insert(before.names()[i], after.ledgers@[i]@),
    {
        let names = before.names();
        assert forall|name: Seq<char>| #[trigger]
            after@.dom().contains(name) implies after@[name] == before@.insert(
            names[i],
            after.ledgers@[i]@,
        )[name] by {
            let j = names.index_of(name);
            assert(names[j] == name);
            before.lemma_slot(j);
        }
        before.lemma_slot(i);
        assert(after@ =~= before@.insert(names[i], after.ledgers@[i]@));
    }

    /// A registry without ledgers.
    pub fn new() -> (registry: Registry)
        ensures
            registry.wf(),
            registry@ == Map::<Seq<char>, LedgerView>::empty(),
            registry.names() == Seq::<Seq<char>>::empty(),
    {
        let registry = Registry { names: Vec::new(), ledgers: Vec::new() };
        assert(registry.names() =~= Seq::<Seq<char>>::empty());
        assert(registry@ =~= Map::<Seq<char>, LedgerView>::empty());
        registry
    }

    /// The slot of the ledger with this name, if it is registered.
    fn slot_of(&self, name: &str) -> (r: Option<usize>)
        requires
            self.wf(),
        ensures
            match r {
                Some(i) => {
                    &&& i < self.names@.len()
                    &&& self.names()[i as int] == name@
                    &&& self@.dom().contains(name@)
                    &&& self@[name@] == self.ledgers@[i as int]@
                },
                None => !self@.dom().contains(name@),
            },
    {
        let key = name.to_owned();
        let n = self.names.len();
        let mut i: usize = 0;
        while i < n
            invariant
                i <= n,
                n == self.names@.len(),
                self.wf(),
                key@ == name@,
                forall|k: int| 0 <= k < i ==> self.names@[k]@ != name@,
            decreases n - i,
        {
            if self.names[i] == key {
                proof {
                    self.lemma_slot(i as int);
                }
                return Some(i);
            }
            i = i + 1;
        }
        proof {
            if self.names().contains(name@) {
                let k = self.names().index_of(name@);
                assert(self.names@[k]@ == name@);
            }
        }
        None
    }

    /// Registers `ledger` under `name`, as a ledger found in storage when
    /// the process starts. A name that is registered already keeps its
    /// ledger.
    pub fn adopt(&mut self, name: String, ledger: Ledger) -> (r: Result<(), LedgerError>)
        requires
            old(self).wf(),
            ledger.wf(),
        ensures
            final(self).wf(),
            old(self)@.dom().contains(name@) ==> r == Err::<(), LedgerError>(
                LedgerError::AlreadyExists,
            ) && final(self)@ == old(self)@ && final(self).names() == old(self).names(),
            !old(self)@.dom().contains(name@) ==> r is Ok && final(self)@ == old(self)@.insert(
                name@,
                ledger@,
            ) && exists|at: int|
                0 <= at <= old(self).names().len() && final(self).names()
                    == old(self).names().insert(at, name@),
    {
        if self.slot_of(name.as_str()).is_some() {
            return Err(LedgerError::AlreadyExists);
        }
        let n = self.names.len();
        let mut at: usize = 0;
        while at < n && name_is_le(self.names[at].as_str(), name.as_str())
            invariant
                at <= n,
                n == self.names@.len(),
                forall|k: int| 0 <= k < at ==> name_le(self.names@[k]@, name@),
            decreases n - at,
        {
            at = at + 1;
        }
        let ghost before = *self;
        let ghost text = name@;
        let ghost added = ledger@;
        self.names.insert(at, name);
        self.ledgers.insert(at, ledger);
        proof {
            let old_names = before.names();
            let new_names = self.names();
            assert(new_names =~= old_names.insert(at as int, text));
            assert forall|i: int, j: int| 0 <= i < j < new_names.len() implies name_le(
                #[trigger] new_names[i],
                #[trigger] new_names[j],
            ) && new_names[i] != new_names[j] by {
                let oi = if i < at { i } else { i - 1 };
                let oj = if j < at { j } else { j - 1 };
                if i == at {
                    assert(old_names.contains(old_names[oj]));
                    lemma_bytes_le_total(encode_utf8(old_names[at as int]), encode_utf8(text));
                    if oj > at {
                        assert(name_le(old_names[at as int], old_names[oj]));
                        lemma_bytes_le_transitive(
                            encode_utf8(text),
                            encode_utf8(old_names[at as int]),
                            encode_utf8(old_names[oj]),
                        );
                    }
                } else if j == at {
                    assert(old_names.contains(old_names[oi]));
                    assert(name_le(before.names@[oi]@, text));
                } else {
                    assert(name_le(old_names[oi], old_names[oj]) && old_names[oi] != old_names[oj]);
                }
            }
            assert forall|i: int| 0 <= i < self.ledgers@.len() implies (
            #[trigger] self.ledgers@[i]).wf() by {
                if i < at {
                    assert(before.ledgers@[i].wf());
                } else if i > at {
                    assert(before.ledgers@[i - 1].wf());
                }
            }
            assert(self.wf());
            assert forall|key: Seq<char>| #[trigger]
                self@.dom().contains(key) <==> before@.insert(text, added).dom().contains(
                    key,
                ) by {
                if new_names.contains(key) {
                    let i = new_names.index_of(key);
                    assert(new_names[i] == key);
                    if i != at {
                        let oi = if i < at { i } else { i - 1 };
                        assert(old_names[oi] == key);
                    }
                }
                if old_names.contains(key) {
                    let oi = old_names.index_of(key);
                    assert(old_names[oi] == key);
                    let i = if oi < at { oi } else { oi + 1 };
                    assert(new_names[i] == key);
                }
                if key == text {
                    assert(new_names[at as int] == key);
                }
            }
            assert forall|key: Seq<char>| #[trigger]
                self@.dom().contains(key) implies self@[key] == before@.insert(text, added)[key] by {
                let i = new_names.index_of(key);
                assert(new_names[i] == key);
                self.lemma_slot(i);
                if i != at {
                    let oi = if i < at { i } else { i - 1 };
                    assert(old_names[oi] == key);
                    before.lemma_slot(oi);
                }
            }
            assert(self@ =~= before@.insert(text, added));
        }
        Ok(())
    }

    /// Registers an empty ledger under `ledger`. A name that is registered
    /// already keeps its ledger, entries and all.
    pub fn init(&mut self, ledger: String) -> (r: Result<(), LedgerError>)
        requires
            old(self).wf(),
        ensures
            final(self).wf(),
            old(self)@.dom().contains(ledger@) ==> r == Err::<(), LedgerError>(
                LedgerError::AlreadyExists,
            ) && final(self)@ == old(self)@ && final(self).names() == old(self).names(),
            !old(self)@.dom().contains(ledger@) ==> r is Ok && final(self)@ == old(self)@.insert(
                ledger@,
                empty_ledger(),
            ) && exists|at: int|
                0 <= at <= old(self).names().len() && final(self).names()
                    == old(self).names().insert(at, ledger@),
    {
        self.adopt(ledger, Ledger::new())
    }

    /// The registered names, in order.
    pub fn list_ledgers(&self) -> (ledgers: Vec<String>)
        requires
            self.wf(),
        ensures
            name_views(ledgers@) == self.names(),
            names_in_order(name_views(ledgers@)),
            forall|name: Seq<char>|
                name_views(ledgers@).contains(name) <==> self@.dom().contains(name),
    {
        let n = self.names.len();
        let mut ledgers: Vec<String> = Vec::new();
        let mut i: usize = 0;
        while i < n
            invariant
                i <= n,
                n == self.names@.len(),
                ledgers@.len() == i,
                forall|k: int| 0 <= k < i ==> (#[trigger] ledgers@[k])@ == self.names@[k]@,
            decreases n - i,
        {
            ledgers.push(self.names[i].clone());
            i = i + 1;
        }
        proof {
            assert(name_views(ledgers@) =~= self.names());
            self.lemma_names_are_the_registered();
        }
        ledgers
    }

    /// The ledger under `ledger`, to read.
    pub fn get_read(&self, ledger: &str) -> (r: Result<&Ledger, LedgerError>)
        requires
            self.wf(),
        ensures
            match r {
                Ok(found) => self@.dom().contains(ledger@) && found@ == self@[ledger@]
                    && found.wf(),
                Err(e) => !self@.dom().contains(ledger@) && e == LedgerError::NotFound,
            },
    {
        match self.slot_of(ledger) {
            Some(i) => Ok(&self.ledgers[i]),
            None => Err(LedgerError::NotFound),
        }
    }
    /// Appends a credit of `amount` to the ledger under `ledger`.
    pub fn credit(&mut self, ledger: &str, amount: i32, description: &str, now: &Instant) -> (r:
        Result<Entry, LedgerError>)
        requires
            old(self).wf(),
        ensures
            final(self).wf(),
            final(self).names() == old(self).names(),
            !old(self)@.dom().contains(ledger@) ==> r == Err::<Entry, LedgerError>(
                LedgerError::NotFound,
            ) && final(self)@ == old(self)@,
            old(self)@.dom().contains(ledger@) ==> ({
                let before = old(self)@[ledger@];
                let after = appended(before.entries, amount as int, description@, now@.secs);
                if append_fits(before.entries, amount as int) {
                    &&& r is Ok
                    &&& r->Ok_0@ == after.last()
                    &&& final(self)@ == old(self)@.insert(ledger@, with_entries(before, after))
                } else {
                    r == Err::<Entry, LedgerError>(LedgerError::StorageError) && final(self)@
                        == old(self)@
                }
            }),
    {
        let i = match self.slot_of(ledger) {
            None => {
                return Err(LedgerError::NotFound);
            },
            Some(i) => i,
        };
        let ghost before = *self;
        let r = self.ledgers[i].credit(amount, description, now);
        proof {
            Registry::lemma_slot_changed(&before, self, i as int);
            assert(before@.insert(ledger@, before@[ledger@]) =~= before@);
        }
        r
    }

    /// Appends a debit of `amount` to the ledger under `ledger`: an entry
    /// whose amount is `-amount`.
    pub fn debit(&mut self, ledger: &str, amount: i32, description: &str, now: &Instant) -> (r:
        Result<Entry, LedgerError>)
        requires
            old(self).wf(),
        ensures
            final(self).wf(),
            final(self).names() == old(self).names(),
            !old(self)@.dom().contains(ledger@) ==> r == Err::<Entry, LedgerError>(
                LedgerError::NotFound,
            ) && final(self)@ == old(self)@,
            old(self)@.dom().contains(ledger@) ==> ({
                let before = old(self)@[ledger@];
                let after = appended(before.entries, -amount, description@, now@.secs);
                if storable(-amount) && append_fits(before.entries, -amount) {
                    &&& r is Ok
                    &&& r->Ok_0@ == after.last()
                    &&& final(self)@ == old(self)@.insert(ledger@, with_entries(before, after))
                } else {
                    r == Err::<Entry, LedgerError>(LedgerError::StorageError) && final(self)@
                        == old(self)@
                }
            }),
    {
        let i = match self.slot_of(ledger) {
            None => {
                return Err(LedgerError::NotFound);
            },
            Some(i) => i,
        };
        let ghost before = *self;
        let r = self.ledgers[i].debit(amount, description, now);
        proof {
            Registry::lemma_slot_changed(&before, self, i as int);
            assert(before@.insert(ledger@, before@[ledger@]) =~= before@);
        }
        r
    }

    /// Gives the entry `rowid` of the ledger under `ledger` a new amount and
    /// a new description, and moves the balances from that entry on.
    pub fn edit_trans(&mut self, ledger: &str, rowid: i32, amount: i32, description: &str) -> (r:
        Result<(), LedgerError>)
        requires
            old(self).wf(),
        ensures
            final(self).wf(),
            final(self).names() == old(self).names(),
            !old(self)@.dom().contains(ledger@) ==> r == Err::<(), LedgerError>(
                LedgerError::NotFound,
            ) && final(self)@ == old(self)@,
            old(self)@.dom().contains(ledger@) ==> ({
                let before = old(self)@[ledger@];
                let at = position_of(before.entries, rowid as int);
                if !has_rowid(before.entries, rowid as int) {
                    r == Err::<(), LedgerError>(LedgerError::NotFound) && final(self)@
                        == old(self)@
                } else if !edit_fits(before.entries, at, amount as int) {
                    r == Err::<(), LedgerError>(LedgerError::StorageError) && final(self)@
                        == old(self)@
                } else {
                    r is Ok && final(self)@ == old(self)@.insert(
                        ledger@,
                        with_entries(
                            before,
                            edited(before.entries, at, amount as int, description@),
                        ),
                    )
                }
            }),
    {
        let i = match self.slot_of(ledger) {
            None => {
                return Err(LedgerError::NotFound);
            },
            Some(i) => i,
        };
        let ghost before = *self;
        let r = self.ledgers[i].edit_trans(rowid, amount, description);
        proof {
            Registry::lemma_slot_changed(&before, self, i as int);
            assert(before@.insert(ledger@, before@[ledger@]) =~= before@);
        }
        r
    }

    /// Adds a recurrence rule to the ledger under `ledger` and returns the
    /// rule's id.
    pub fn create_cron(&mut self, ledger: &str, cron: CronSpec) -> (r: Result<i32, LedgerError>)
        requires
            old(self).wf(),
        ensures
            final(self).wf(),
            final(self).names() == old(self).names(),
            !old(self)@.dom().contains(ledger@) ==> r == Err::<i32, LedgerError>(
                LedgerError::NotFound,
            ) && final(self)@ == old(self)@,
            old(self)@.dom().contains(ledger@) ==> ({
                let before = old(self)@[ledger@];
                let rowid = next_rule_id(before.rules);
                if storable(rowid) {
                    r == Ok::<i32, LedgerError>(rowid as i32) && final(self)@
                        == old(self)@.insert(
                        ledger@,
                        with_rules(before, rule_added(before.rules, cron@)),
                    )
                } else {
                    r == Err::<i32, LedgerError>(LedgerError::StorageError) && final(self)@
                        == old(self)@
                }
            }),
    {
        let i = match self.slot_of(ledger) {
            None => {
                return Err(LedgerError::NotFound);
            },
            Some(i) => i,
        };
        let ghost before = *self;
        let r = self.ledgers[i].create_cron(cron);
        proof {
            Registry::lemma_slot_changed(&before, self, i as int);
            assert(before@.insert(ledger@, before@[ledger@]) =~= before@);
        }
        r
    }

    /// The recurrence rules of the ledger under `ledger`, with their ids.
    pub fn get_crons(&self, ledger: &str) -> (r: Result<Vec<Rule>, LedgerError>)
        requires
            self.wf(),
        ensures
            match r {
                Ok(crons) => self@.dom().contains(ledger@) && rule_views(crons@)
                    == self@[ledger@].rules,
                Err(e) => !self@.dom().contains(ledger@) && e == LedgerError::NotFound,
            },
    {
        match self.slot_of(ledger) {
            Some(i) => Ok(self.ledgers[i].get_crons()),
            None => Err(LedgerError::NotFound),
        }
    }

    /// Removes the rule `rowid` from the ledger under `ledger`.
    pub fn delete_cron(&mut self, ledger: &str, rowid: i32) -> (r: Result<(), LedgerError>)
        requires
            old(self).wf(),
        ensures
            final(self).wf(),
            final(self).names() == old(self).names(),
            !old(self)@.dom().contains(ledger@) ==> r == Err::<(), LedgerError>(
                LedgerError::NotFound,
            ) && final(self)@ == old(self)@,
            old(self)@.dom().contains(ledger@) ==> ({
                let before = old(self)@[ledger@];
                if has_rule(before.rules, rowid as int) {
                    r is Ok && final(self)@ == old(self)@.insert(
                        ledger@,
                        with_rules(
                            before,
                            before.rules.remove(rule_position(before.rules, rowid as int)),
                        ),
                    )
                } else {
                    r == Err::<(), LedgerError>(LedgerError::NotFound) && final(self)@
                        == old(self)@
                }
            }),
    {
        let i = match self.slot_of(ledger) {
            None => {
                return Err(LedgerError::NotFound);
            },
            Some(i) => i,
        };
        let ghost before = *self;
        let r = self.ledgers[i].delete_cron(rowid);
        proof {
            Registry::lemma_slot_changed(&before, self, i as int);
            assert(before@.insert(ledger@, before@[ledger@]) =~= before@);
        }
        r
    }

    /// One page of one side of the ledger under `ledger`, the most recent
    /// entry first, and its current balance.
    pub fn list_entries(&self, ledger: &str, direction: Direction, page: usize, per_page: usize) -> (r:
        Result<Listing, LedgerError>)
        requires
            self.wf(),
        ensures
            match r {
                Ok(listing) => {
                    &&& self@.dom().contains(ledger@)
                    &&& entry_views(listing.entries@) == page_of(
                        listed(self@[ledger@].entries, direction),
                        page as int,
                        per_page as int,
                    )
                    &&& listing.balance == balance_of(self@[ledger@].entries)
                },
                Err(e) => !self@.dom().contains(ledger@) && e == LedgerError::NotFound,
            },
    {
        match self.slot_of(ledger) {
            Some(i) => Ok(self.ledgers[i].list_entries(direction, page, per_page)),
            None => Err(LedgerError::NotFound),
        }
    }

    /// The page that `paging` names of both sides of the ledger under
    /// `ledger`, and its current balance.
    pub fn get_ledger_paged(&self, ledger: &str, paging: PagingArgs) -> (r: Result<
        TransList,
        LedgerError,
    >)
        requires
            self.wf(),
        ensures
            match r {
                Ok(list) => {
                    &&& self@.dom().contains(ledger@)
                    &&& entry_views(list.debits@) == page_of(
                        listed(self@[ledger@].entries, Direction::Debits),
                        page_named(paging),
                        per_page_named(paging),
                    )
                    &&& entry_views(list.credits@) == page_of(
                        listed(self@[ledger@].entries, Direction::Credits),
                        page_named(paging),
                        per_page_named(paging),
                    )
                    &&& list.balance == balance_of(self@[ledger@].entries)
                },
                Err(e) => !self@.dom().contains(ledger@) && e == LedgerError::NotFound,
            },
    {
        match self.slot_of(ledger) {
            Some(i) => Ok(self.ledgers[i].get_ledger_paged(paging)),
            None => Err(LedgerError::NotFound),
        }
    }

    /// The first page of both sides of the ledger under `ledger`, at the
    /// default page size, and its current balance.
    pub fn get_ledger(&self, ledger: &str) -> (r: Result<TransList, LedgerError>)
        requires
            self.wf(),
        ensures
            match r {
                Ok(list) => {
                    &&& self@.dom().contains(ledger@)
                    &&& entry_views(list.debits@) == page_of(
                        listed(self@[ledger@].entries, Direction::Debits),
                        0,
                        DEFAULT_PER_PAGE as int,
                    )
                    &&& entry_views(list.credits@) == page_of(
                        listed(self@[ledger@].entries, Direction::Credits),
                        0,
                        DEFAULT_PER_PAGE as int,
                    )
                    &&& list.balance == balance_of(self@[ledger@].entries)
                },
                Err(e) => !self@.dom().contains(ledger@) && e == LedgerError::NotFound,
            },
    {
        self.get_ledger_paged(ledger, PagingArgs { page: None, per_page: None })
    }

    /// One scheduler sweep at `now` over every registered ledger, in the
    /// order of the names. A ledger whose sweep fails stays as it was, and
    /// the sweep goes on with the next; the outcomes come back in the order
    /// of the names.
    pub fn sweep_all(&mut self, now: &Instant) -> (outcomes: Vec<SweepOutcome>)
        requires
            old(self).wf(),
        ensures
            final(self).wf(),
            final(self).names() == old(self).names(),
            final(self)@.dom() == old(self)@.dom(),
            forall|name: Seq<char>|
                old(self)@.dom().contains(name) ==> #[trigger] final(self)@[name] == after_sweep(
                    old(self)@[name],
                    now@,
                ),
            outcomes@.len() == old(self).names().len(),
            forall|i: int|
                0 <= i < outcomes@.len() ==> #[trigger] outcomes@[i] == outcome_of_sweep(
                    old(self)@[old(self).names()[i]],
                    now@,
                ),
    {
        let ghost before = *self;
        let n = self.ledgers.len();
        let mut outcomes: Vec<SweepOutcome> = Vec::new();
        let mut i: usize = 0;
        while i < n
            invariant
                i <= n,
                before.wf(),
                n == before.ledgers@.len(),
                self.ledgers@.len() == n,
                self.names@ == before.names@,
                outcomes@.len() == i,
                forall|j: int| 0 <= j < n ==> (#[trigger] self.ledgers@[j]).wf(),
                forall|j: int|
                    0 <= j < i ==> (#[trigger] self.ledgers@[j])@ == after_sweep(
                        before.ledgers@[j]@,
                        now@,
                    ),
                forall|j: int| i <= j < n ==> #[trigger] self.ledgers@[j] == before.ledgers@[j],
                forall|j: int|
                    0 <= j < i ==> #[trigger] outcomes@[j] == outcome_of_sweep(
                        before.ledgers@[j]@,
                        now@,
                    ),
            decreases n - i,
        {
            let outcome = self.ledgers[i].sweep(now);
            outcomes.push(outcome);
            i = i + 1;
        }
        proof {
            assert(self.names() == before.names());
            assert(self.wf());
            assert(self@.dom() =~= before@.dom());
            assert forall|name: Seq<char>| before@.dom().contains(name) implies #[trigger] self@[name]
                == after_sweep(before@[name], now@) by {
                let j = before.names().index_of(name);
                assert(before.names()[j] == name);
                before.lemma_slot(j);
                self.lemma_slot(j);
            }
            assert forall|j: int| 0 <= j < outcomes@.len() implies #[trigger] outcomes@[j]
                == outcome_of_sweep(before@[before.names()[j]], now@) by {
                before.lemma_slot(j);
            }
        }
        outcomes
    }
}

} // verus!
