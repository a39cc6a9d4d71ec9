//! What a traversal that is fed one directory listing at a time has in
//! common: the entries that are still to be looked at, and how far one
//! listing lets the traversal go.

use vstd::prelude::*;
use crate::entry::is_directory;
use crate::entry::DirEntry;
use crate::entry::EntryView;
use crate::visit::entry_visit;
use crate::visit::Visit;

verus! {

/// The values of a sequence of entries, in order.
pub open spec fn entries_view(entries: Seq<DirEntry>) -> Seq<EntryView> {
    Seq::new(entries.len(), |i: int| entries[i]@)
}

/// The answer to a request to list a directory: its entries in the order
/// in which the system gave them, or the message of the failure.
pub type Reply = Result<Vec<DirEntry>, String>;

/// The mathematical value of a `Reply`.
pub open spec fn reply_view(reply: Reply) -> Result<Seq<EntryView>, Seq<char>> {
    match reply {
        Ok(entries) => Ok(entries_view(entries@)),
        Err(message) => Err(message@),
    }
}

/// The entries that a reply brings: none where the listing failed.
pub open spec fn reply_entries(reply: Result<Seq<EntryView>, Seq<char>>) -> Seq<EntryView> {
    match reply {
        Ok(entries) => entries,
        Err(_) => Seq::empty(),
    }
}

/// The visit that a reply itself stands for: the failure to list, if it
/// is one.
pub open spec fn reply_visits(reply: Result<Seq<EntryView>, Seq<char>>) -> Seq<Visit> {
    match reply {
        Ok(_) => Seq::empty(),
        Err(message) => seq![Visit::Unlistable(message)],
    }
}

/// The position of the first directory among `entries`; their number if
/// there is none.
pub open spec fn next_directory(entries: Seq<EntryView>) -> int
    decreases entries.len(),
{
    if entries.len() == 0 {
        0
    } else if is_directory(entries[0]) {
        0
    } else {
        1 + next_directory(entries.drop_first())
    }
}

/// How many of `entries` can be worked through before a listing is needed:
/// those before the first directory if the traversal is recursive, else all.
pub open spec fn reach(entries: Seq<EntryView>, recursive: bool) -> int {
    if recursive {
        next_directory(entries)
    } else {
        entries.len() as int
    }
}

/// The visits that `entries` give rise to when no directory is entered.
pub open spec fn flat_visits(entries: Seq<EntryView>) -> Seq<Visit>
    decreases entries.len(),
{
    if entries.len() == 0 {
        Seq::empty()
    } else {
        let rest = flat_visits(entries.drop_first());
        match entry_visit(entries[0]) {
            Some(visit) => seq![visit] + rest,
            None => rest,
        }
    }
}

/// `next_directory` is the position of a directory with none before it, or
/// the number of entries.
pub proof fn lemma_next_directory(entries: Seq<EntryView>)
    ensures
        0 <= next_directory(entries) <= entries.len(),
        forall|j: int| 0 <= j < next_directory(entries) ==> !is_directory(#[trigger] entries[j]),
        next_directory(entries) < entries.len() ==> is_directory(
            entries[next_directory(entries)],
        ),
    decreases entries.len(),
{
    if entries.len() > 0 && !is_directory(entries[0]) {
        let rest = entries.drop_first();
        lemma_next_directory(rest);
        assert forall|j: int| 0 <= j < next_directory(entries) implies !is_directory(
            #[trigger] entries[j],
        ) by {
            if j > 0 {
                assert(entries[j] == rest[j - 1]);
            }
        }
    }
}

/// The entries that a traversal has been given and has not yet looked at,
/// the next one first.
pub struct Pending {
    stack: Vec<DirEntry>,
}

impl View for Pending {
    type V = Seq<EntryView>;

    closed spec fn view(&self) -> Seq<EntryView> {
        entries_view(self.stack@.reverse())
    }
}

impl Pending {
    /// No entries.
    pub fn new() -> (pending: Pending)
        ensures
            pending@ == Seq::<EntryView>::empty(),
    {
        let pending = Pending { stack: Vec::new() };
        assert(pending@ =~= Seq::<EntryView>::empty());
        pending
    }

    /// Puts the entries of a listing before those that are pending.
    pub fn put_first(&mut self, entries: Vec<DirEntry>)
        ensures
            final(self)@ == entries_view(entries@) + old(self)@,
    {
        let ghost given = entries@;
        let ghost below = self.stack@;
        let mut entries = entries;
        assert(given.skip(given.len() as int).reverse() =~= Seq::<DirEntry>::empty());
        assert(below + Seq::<DirEntry>::empty() =~= below);
        while entries.len() > 0
            invariant
                entries@ == given.take(entries.len() as int),
                entries.len() <= given.len(),
                self.stack@ == below + given.skip(entries.len() as int).reverse(),
            decreases entries.len(),
        {
            let ghost left = entries.len() as int;
            let entry = entries.pop().unwrap();
            self.stack.push(entry);
            assert(entry == given[left - 1]);
            assert(entries@ =~= given.take(left - 1));
            assert(self.stack@ =~= below + given.skip(left - 1).reverse());
        }
        assert(given.skip(0) =~= given);
        assert(self@ =~= entries_view(given) + old(self)@);
    }

    /// Takes the next entry, if any is pending.
    pub fn take_first(&mut self) -> (first: Option<DirEntry>)
        ensures
            match first {
                None => old(self)@.len() == 0 && final(self)@ == old(self)@,
                Some(entry) => old(self)@.len() > 0 && entry@ == old(self)@[0] && final(self)@
                    == old(self)@.drop_first(),
            },
    {
        let first = self.stack.pop();
        proof {
            if first is Some {
                assert(self@ =~= old(self)@.drop_first());
            }
        }
        first
    }
}

} // verus!
