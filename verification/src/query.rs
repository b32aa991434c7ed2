use crate::ledger::{balance_of, entry_views, Entry, EntryView, Ledger};
use vstd::prelude::*;

verus! {

/// Which side of a ledger a listing shows.
#[derive(Clone, Copy, Debug, PartialEq, Eq, Structural)]
pub enum Direction {
    /// Entries with a negative amount.
    Debits,
    /// Entries with a positive amount.
    Credits,
}

/// The page size of a listing that names none.
pub const DEFAULT_PER_PAGE: usize = 20;

/// Which page of a listing to show. A page that is not named is page 0; a
/// page size that is not named is [`DEFAULT_PER_PAGE`].
#[derive(Clone, Copy, Debug)]
pub struct PagingArgs {
    pub page: Option<usize>,
    pub per_page: Option<usize>,
}

/// One page of each side of a ledger, with the ledger's current balance.
#[derive(Debug)]
pub struct TransList {
    pub debits: Vec<Entry>,
    pub credits: Vec<Entry>,
    pub balance: i32,
}

/// One page of one side of a ledger, with the ledger's current balance.
#[derive(Debug)]
pub struct Listing {
    pub entries: Vec<Entry>,
    pub balance: i32,
}

/// Whether an entry with this amount belongs to the side `direction`. An
/// entry with the amount 0 belongs to neither side.
pub open spec fn admits(direction: Direction, amount: int) -> bool {
    match direction {
        Direction::Debits => amount < 0,
        Direction::Credits => amount > 0,
    }
}

/// The test that picks the entries of one side.
pub open spec fn on_side(direction: Direction) -> spec_fn(EntryView) -> bool {
    |e: EntryView| admits(direction, e.amount)
}

/// The entries of one side of a log, the most recent first.
pub open spec fn listed(entries: Seq<EntryView>, direction: Direction) -> Seq<EntryView> {
    entries.filter(on_side(direction)).reverse()
}

/// Page number `page` of a listing cut into pages of `per_page` entries:
/// the entries from position `page * per_page` on, at most `per_page` of
/// them.
pub open spec fn page_of(listing: Seq<EntryView>, page: int, per_page: int) -> Seq<EntryView> {
    let start = if page * per_page < listing.len() {
        page * per_page
    } else {
        listing.len() as int
    };
    let end = if start + per_page < listing.len() {
        start + per_page
    } else {
        listing.len() as int
    };
    listing.subrange(start, end)
}

/// The page that `paging` names, with the defaults filled in.
pub open spec fn page_named(paging: PagingArgs) -> int {
    match paging.page {
        Some(page) => page as int,
        None => 0,
    }
}

/// The page size that `paging` names, with the defaults filled in.
pub open spec fn per_page_named(paging: PagingArgs) -> int {
    match paging.per_page {
        Some(per_page) => per_page as int,
        None => DEFAULT_PER_PAGE as int,
    }
}

/// The entries of one side among the first `i` entries of a log are the
/// first of that side in the whole log; the entry at `i - 1`, where it is of
/// that side, is the last of them.
proof fn lemma_side_of_prefix(entries: Seq<EntryView>, direction: Direction, i: int)
    requires
        0 < i <= entries.len(),
    ensures
        ({
            let all = entries.filter(on_side(direction));
            let shorter = entries.take(i - 1).filter(on_side(direction));
            let longer = entries.take(i).filter(on_side(direction));
            &&& longer.len() <= all.len()
            &&& if admits(direction, entries[i - 1].amount) {
                &&& longer.len() == shorter.len() + 1
                &&& all[longer.len() - 1] == entries[i - 1]
            } else {
                longer.len() == shorter.len()
            }
        }),
{
    let pred = on_side(direction);
    let head = entries.take(i);
    let tail = entries.skip(i);
    assert(entries =~= head + tail);
    Seq::filter_distributes_over_add(head, tail, pred);
    assert(head.drop_last() =~= entries.take(i - 1));
    assert(head.last() == entries[i - 1]);
    reveal(Seq::filter);
    assert(head.filter(pred) == if pred(head.last()) {
        head.drop_last().filter(pred).push(head.last())
    } else {
        head.drop_last().filter(pred)
    });
}

impl Ledger {
    /// One page of one side of the ledger, the most recent entry first.
    /// The page `page` starts `page * per_page` entries into the listing
    /// and holds at most `per_page` entries.
    pub fn list(&self, direction: Direction, page: usize, per_page: usize) -> (entries: Vec<Entry>)
        ensures
            entry_views(entries@) == page_of(
                listed(self@.entries, direction),
                page as int,
                per_page as int,
            ),
    {
        let log = self.entries();
        let ghost views = entry_views(log@);
        let ghost all = views.filter(on_side(direction));
        let ghost listing = listed(views, direction);
        let n = log.len();
        let mut out: Vec<Entry> = Vec::new();
        proof {
            views.lemma_filter_len(on_side(direction));
        }
        let offset: usize = match page.checked_mul(per_page) {
            Some(offset) => offset,
            None => {
                assert(page * per_page > listing.len());
                assert(entry_views(out@) =~= page_of(listing, page as int, per_page as int));
                return out;
            },
        };
        let mut seen: usize = 0;
        let mut i: usize = n;
        proof {
            assert(views.take(n as int) =~= views);
            assert(entry_views(out@) =~= listing.subrange(0, 0));
        }
        while i > 0 && out.len() < per_page
            invariant
                i <= n,
                n == log.len(),
                views == entry_views(log@),
                all == views.filter(on_side(direction)),
                listing == all.reverse(),
                offset == page * per_page,
                seen + views.take(i as int).filter(on_side(direction)).len() == all.len(),
                all.len() <= n,
                out.len() <= per_page,
                entry_views(out@) == listing.subrange(
                    if seen < offset {
                        seen as int
                    } else {
                        offset as int
                    },
                    if seen < offset + per_page {
                        seen as int
                    } else {
                        offset + per_page
                    },
                ),
            decreases i,
        {
            proof {
                lemma_side_of_prefix(views, direction, i as int);
            }
            let entry = &log[i - 1];
            let on_this_side = match direction {
                Direction::Debits => entry.amount < 0,
                Direction::Credits => entry.amount > 0,
            };
            if on_this_side {
                assert(listing[seen as int] == entry@);
                if seen >= offset {
                    let ghost shown = entry_views(out@);
                    out.push(
                        Entry {
                            rowid: entry.rowid,
                            amount: entry.amount,
                            balance: entry.balance,
                            description: entry.description.clone(),
                            time: entry.time,
                        },
                    );
                    assert(entry_views(out@) =~= shown.push(entry@));
                    assert(entry_views(out@) =~= listing.subrange(offset as int, seen + 1));
                } else {
                    assert(entry_views(out@) =~= listing.subrange(seen + 1, seen + 1));
                }
                seen = seen + 1;
            }
            i = i - 1;
        }
        proof {
            if i == 0 {
                assert(views.take(0) =~= Seq::<EntryView>::empty());
                reveal(Seq::filter);
                assert(views.take(0).filter(on_side(direction)).len() == 0);
            } else {
                views.take(i as int).lemma_filter_len(on_side(direction));
            }
            assert(entry_views(out@) =~= page_of(listing, page as int, per_page as int));
        }
        out
    }

    /// One page of one side of the ledger, the most recent entry first, and
    /// the current balance.
    pub fn list_entries(&self, direction: Direction, page: usize, per_page: usize) -> (listing:
        Listing)
        ensures
            entry_views(listing.entries@) == page_of(
                listed(self@.entries, direction),
                page as int,
                per_page as int,
            ),
            listing.balance == balance_of(self@.entries),
    {
        Listing { entries: self.list(direction, page, per_page), balance: self.get_balance() }
    }

    /// The page that `paging` names of both sides of the ledger, and the
    /// current balance.
    pub fn get_ledger_paged(&self, paging: PagingArgs) -> (list: TransList)
        ensures
            entry_views(list.debits@) == page_of(
                listed(self@.entries, Direction::Debits),
                page_named(paging),
                per_page_named(paging),
            ),
            entry_views(list.credits@) == page_of(
                listed(self@.entries, Direction::Credits),
                page_named(paging),
                per_page_named(paging),
            ),
            list.balance == balance_of(self@.entries),
    {
        let page = match paging.page {
            Some(page) => page,
            None => 0,
        };
        let per_page = match paging.per_page {
            Some(per_page) => per_page,
            None => DEFAULT_PER_PAGE,
        };
        TransList {
            debits: self.list(Direction::Debits, page, per_page),
            credits: self.list(Direction::Credits, page, per_page),
            balance: self.get_balance(),
        }
    }

    /// The first page of both sides of the ledger, at the default page
    /// size, and the current balance.
    pub fn get_ledger(&self) -> (list: TransList)
        ensures
            entry_views(list.debits@) == page_of(
                listed(self@.entries, Direction::Debits),
                0,
                DEFAULT_PER_PAGE as int,
            ),
            entry_views(list.credits@) == page_of(
                listed(self@.entries, Direction::Credits),
                0,
                DEFAULT_PER_PAGE as int,
            ),
            list.balance == balance_of(self@.entries),
    {
        self.get_ledger_paged(PagingArgs { page: None, per_page: None })
    }
}

} // verus!
