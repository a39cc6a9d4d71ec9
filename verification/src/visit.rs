//! The traversal of a tree as a flat sequence of visits, and what a count or
//! a listing makes of such a sequence.

use vstd::prelude::*;
use crate::entry::EntryKind;
use crate::entry::EntryView;
use crate::entry::NodeView;
use crate::error::ErrorView;
use crate::item::describe;
use crate::item::FileDescriptor;

verus! {

/// One thing that a traversal meets and has to decide about. A directory
/// that is listed, or passed over because the traversal is not recursive,
/// leaves no visit of its own.
pub enum Visit {
    /// A regular file, with its descriptor.
    File(FileDescriptor),
    /// An entry that is neither a regular file nor a directory.
    Other,
    /// An entry whose metadata could not be read, with the failure's message.
    Unreadable(Seq<char>),
    /// A directory that could not be listed, with the failure's message.
    Unlistable(Seq<char>),
}

/// What a traversal does about single entries that it cannot use: end
/// with an error, or pass them over. A directory that cannot be listed is
/// no such entry: it ends every traversal with `Io`.
#[derive(Clone, Copy, Debug, PartialEq, Eq, Structural)]
pub struct Policy {
    /// An entry that is neither file nor directory fails with `UnsupportedEntry`.
    pub other_fails: bool,
    /// An entry with unreadable metadata fails with `Io`.
    pub unreadable_fails: bool,
}

impl Policy {
    /// Every entry that cannot be used ends the traversal.
    pub open spec fn strict() -> Policy {
        Policy { other_fails: true, unreadable_fails: true }
    }

    /// Entries that are neither file nor directory are passed over; what
    /// cannot be read ends the traversal.
    pub open spec fn files_and_directories() -> Policy {
        Policy { other_fails: false, unreadable_fails: true }
    }

    /// Entries that cannot be used are passed over: only a directory that
    /// cannot be listed ends the traversal.
    pub open spec fn listable() -> Policy {
        Policy { other_fails: false, unreadable_fails: false }
    }
}

/// The visit that an entry which is not entered as a directory gives rise
/// to; `None` for a directory.
pub open spec fn entry_visit(entry: EntryView) -> Option<Visit> {
    match entry.metadata {
        Err(message) => Some(Visit::Unreadable(message)),
        Ok(metadata) => match metadata.kind {
            EntryKind::RegularFile => Some(Visit::File(describe(entry, metadata.len))),
            EntryKind::Other => Some(Visit::Other),
            EntryKind::Directory => None,
        },
    }
}

/// The visits of a listing result: those of its nodes, or the one failure.
pub open spec fn listing_visits(listing: Result<Seq<NodeView>, Seq<char>>, recursive: bool) -> Seq<
    Visit,
>
    decreases listing,
{
    match listing {
        Err(message) => seq![Visit::Unlistable(message)],
        Ok(nodes) => visits(nodes, recursive),
    }
}

/// The visits of one node, in the order of a depth-first traversal.
pub open spec fn node_visits(node: NodeView, recursive: bool) -> Seq<Visit>
    decreases node,
{
    match entry_visit(node.entry) {
        Some(visit) => seq![visit],
        None => if recursive {
            listing_visits(node.listing, recursive)
        } else {
            Seq::empty()
        },
    }
}

/// The visits of a sequence of nodes: each node's visits, the nodes taken
/// in order.
pub open spec fn visits(nodes: Seq<NodeView>, recursive: bool) -> Seq<Visit>
    decreases nodes,
{
    if nodes.len() == 0 {
        Seq::empty()
    } else {
        node_visits(nodes[0], recursive) + visits(nodes.drop_first(), recursive)
    }
}

/// The visits of a concatenation are those of the front, then those of
/// the back.
pub proof fn lemma_visits_concat(front: Seq<NodeView>, back: Seq<NodeView>, recursive: bool)
    ensures
        visits(front + back, recursive) == visits(front, recursive) + visits(back, recursive),
    decreases front.len(),
{
    let whole = front + back;
    if front.len() == 0 {
        assert(whole =~= back);
        assert(visits(front, recursive) + visits(back, recursive) =~= visits(back, recursive));
    } else {
        lemma_visits_concat(front.drop_first(), back, recursive);
        assert(whole.drop_first() =~= front.drop_first() + back);
        assert(whole[0] == front[0]);
        assert(visits(whole, recursive) =~= visits(front, recursive) + visits(back, recursive));
    }
}

/// The error with which `visit` ends a traversal under `policy`, if it does.
pub open spec fn fault(visit: Visit, policy: Policy) -> Option<ErrorView> {
    match visit {
        Visit::File(_) => None,
        Visit::Other => if policy.other_fails {
            Some(ErrorView::UnsupportedEntry)
        } else {
            None
        },
        Visit::Unreadable(message) => if policy.unreadable_fails {
            Some(ErrorView::Io(message))
        } else {
            None
        },
        Visit::Unlistable(message) => Some(ErrorView::Io(message)),
    }
}

/// The position of the first visit that ends the traversal under `policy`;
/// the length of `visits` if none does.
pub open spec fn first_fault(visits: Seq<Visit>, policy: Policy) -> int
    decreases visits.len(),
{
    if visits.len() == 0 {
        0
    } else if fault(visits[0], policy) is Some {
        0
    } else {
        1 + first_fault(visits.drop_first(), policy)
    }
}

/// The descriptors of the regular files among `visits`, in order.
pub open spec fn files_in(visits: Seq<Visit>) -> Seq<FileDescriptor>
    decreases visits.len(),
{
    if visits.len() == 0 {
        Seq::empty()
    } else {
        let rest = files_in(visits.drop_first());
        match visits[0] {
            Visit::File(descriptor) => seq![descriptor] + rest,
            _ => rest,
        }
    }
}

/// The regular files met before the traversal ends.
pub open spec fn files_before_fault(visits: Seq<Visit>, policy: Policy) -> Seq<FileDescriptor> {
    files_in(visits.take(first_fault(visits, policy)))
}

/// What a bounded count makes of `visits`: `BudgetExceeded` if more than `max`
/// regular files come before the first fault; else that fault's error; else
/// the number of regular files.
pub open spec fn count_outcome(visits: Seq<Visit>, policy: Policy, max: nat) -> Result<
    nat,
    ErrorView,
> {
    let stop = first_fault(visits, policy);
    let files = files_before_fault(visits, policy).len();
    if files > max {
        Err(ErrorView::BudgetExceeded)
    } else if stop < visits.len() {
        Err(fault(visits[stop], policy)->Some_0)
    } else {
        Ok(files)
    }
}

/// What a listing makes of `visits`: the first fault's error, or else the
/// descriptors of all regular files in order.
pub open spec fn list_outcome(visits: Seq<Visit>, policy: Policy) -> Result<
    Seq<FileDescriptor>,
    ErrorView,
> {
    let stop = first_fault(visits, policy);
    if stop < visits.len() {
        Err(fault(visits[stop], policy)->Some_0)
    } else {
        Ok(files_in(visits))
    }
}

/// `first_fault` is the position of a fault with no fault before it, or the
/// length where there is none.
pub proof fn lemma_first_fault(visits: Seq<Visit>, policy: Policy)
    ensures
        0 <= first_fault(visits, policy) <= visits.len(),
        forall|j: int|
            0 <= j < first_fault(visits, policy) ==> fault(#[trigger] visits[j], policy) is None,
        first_fault(visits, policy) < visits.len() ==> fault(
            visits[first_fault(visits, policy)],
            policy,
        ) is Some,
    decreases visits.len(),
{
    if visits.len() > 0 && fault(visits[0], policy) is None {
        let rest = visits.drop_first();
        lemma_first_fault(rest, policy);
        assert forall|j: int| 0 <= j < first_fault(visits, policy) implies fault(
            #[trigger] visits[j],
            policy,
        ) is None by {
            if j > 0 {
                assert(visits[j] == rest[j - 1]);
            }
        }
    }
}

/// A position with no fault before it that holds a fault, or is the end, is
/// `first_fault`.
pub proof fn lemma_first_fault_is(visits: Seq<Visit>, policy: Policy, stop: int)
    requires
        0 <= stop <= visits.len(),
        forall|j: int| 0 <= j < stop ==> fault(#[trigger] visits[j], policy) is None,
        stop < visits.len() ==> fault(visits[stop], policy) is Some,
    ensures
        first_fault(visits, policy) == stop,
{
    lemma_first_fault(visits, policy);
}

/// In a concatenation the first fault is that of the front part if it has
/// one, else that of the back part.
pub proof fn lemma_first_fault_concat(front: Seq<Visit>, back: Seq<Visit>, policy: Policy)
    ensures
        first_fault(front + back, policy) == if first_fault(front, policy) < front.len() {
            first_fault(front, policy)
        } else {
            front.len() + first_fault(back, policy)
        },
{
    lemma_first_fault(front, policy);
    lemma_first_fault(back, policy);
    let whole = front + back;
    let stop = if first_fault(front, policy) < front.len() {
        first_fault(front, policy)
    } else {
        front.len() + first_fault(back, policy)
    };
    assert forall|j: int| 0 <= j < stop implies fault(#[trigger] whole[j], policy) is None by {
        if j < front.len() {
            assert(whole[j] == front[j]);
        } else {
            assert(whole[j] == back[j - front.len()]);
        }
    }
    if stop < whole.len() {
        if stop < front.len() {
            assert(whole[stop] == front[stop]);
        } else {
            assert(whole[stop] == back[stop - front.len()]);
        }
    }
    lemma_first_fault_is(whole, policy, stop);
}

/// The files of a concatenation are those of the front, then those of the back.
pub proof fn lemma_files_in_concat(front: Seq<Visit>, back: Seq<Visit>)
    ensures
        files_in(front + back) == files_in(front) + files_in(back),
    decreases front.len(),
{
    if front.len() == 0 {
        assert(front + back =~= back);
        assert(files_in(front) + files_in(back) =~= files_in(back));
    } else {
        let whole = front + back;
        lemma_files_in_concat(front.drop_first(), back);
        assert(whole.drop_first() =~= front.drop_first() + back);
        assert(whole[0] == front[0]);
        assert(files_in(whole) =~= files_in(front) + files_in(back));
    }
}

/// What a count makes of a single visit.
pub proof fn lemma_count_single(visit: Visit, policy: Policy, max: nat)
    ensures
        count_outcome(seq![visit], policy, max) == match fault(visit, policy) {
            Some(error) => Err(error),
            None => if !(visit is File) {
                Ok(0nat)
            } else if max == 0 {
                Err(ErrorView::BudgetExceeded)
            } else {
                Ok(1nat)
            },
        },
{
    let single = seq![visit];
    assert(single.drop_first() =~= Seq::<Visit>::empty());
    assert(first_fault(single.drop_first(), policy) == 0);
    if fault(visit, policy) is Some {
        assert(single.take(0) =~= Seq::<Visit>::empty());
    } else {
        assert(first_fault(single, policy) == 1);
        assert(single.take(1) =~= single);
        assert(files_in(single.drop_first()) =~= Seq::<FileDescriptor>::empty());
    }
}

/// What a listing makes of a single visit.
pub proof fn lemma_list_single(visit: Visit, policy: Policy)
    ensures
        list_outcome(seq![visit], policy) == match fault(visit, policy) {
            Some(error) => Err(error),
            None => match visit {
                Visit::File(descriptor) => Ok(seq![descriptor]),
                _ => Ok(Seq::<FileDescriptor>::empty()),
            },
        },
{
    let single = seq![visit];
    assert(single.drop_first() =~= Seq::<Visit>::empty());
    assert(first_fault(single.drop_first(), policy) == 0);
    if fault(visit, policy) is None {
        assert(first_fault(single, policy) == 1);
        assert(files_in(single.drop_first()) =~= Seq::<FileDescriptor>::empty());
        assert(files_in(single) =~= match visit {
            Visit::File(descriptor) => seq![descriptor],
            _ => Seq::<FileDescriptor>::empty(),
        });
    }
}

/// A count over a concatenation counts the front part and then, with what
/// budget is left, the back part.
pub proof fn lemma_count_concat(front: Seq<Visit>, back: Seq<Visit>, policy: Policy, max: nat)
    ensures
        count_outcome(front + back, policy, max) == match count_outcome(front, policy, max) {
            Err(error) => Err(error),
            Ok(counted) => match count_outcome(back, policy, (max - counted) as nat) {
                Err(error) => Err(error),
                Ok(more) => Ok(counted + more),
            },
        },
{
    let whole = front + back;
    lemma_first_fault(front, policy);
    lemma_first_fault(back, policy);
    lemma_first_fault_concat(front, back, policy);
    let stop = first_fault(whole, policy);
    if first_fault(front, policy) < front.len() {
        assert(whole.take(stop) =~= front.take(stop));
        assert(whole[stop] == front[stop]);
    } else {
        let back_stop = first_fault(back, policy);
        assert(front.take(front.len() as int) =~= front);
        assert(whole.take(stop) =~= front + back.take(back_stop));
        lemma_files_in_concat(front, back.take(back_stop));
        if back_stop < back.len() {
            assert(whole[stop] == back[back_stop]);
        }
    }
}

/// A listing of a concatenation lists the front part and then the back part.
pub proof fn lemma_list_concat(front: Seq<Visit>, back: Seq<Visit>, policy: Policy)
    ensures
        list_outcome(front + back, policy) == match list_outcome(front, policy) {
            Err(error) => Err(error),
            Ok(files) => match list_outcome(back, policy) {
                Err(error) => Err(error),
                Ok(more) => Ok(files + more),
            },
        },
{
    let whole = front + back;
    lemma_first_fault(front, policy);
    lemma_first_fault(back, policy);
    lemma_first_fault_concat(front, back, policy);
    lemma_files_in_concat(front, back);
    let stop = first_fault(whole, policy);
    if first_fault(front, policy) < front.len() {
        assert(whole[stop] == front[stop]);
    } else if first_fault(back, policy) < back.len() {
        assert(whole[stop] == back[first_fault(back, policy)]);
    }
}

} // verus!
