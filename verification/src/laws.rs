//! What holds of counts and listings over every tree.

use vstd::prelude::*;
use crate::entry::is_regular_file;
use crate::entry::EntryKind;
use crate::entry::EntryView;
use crate::entry::NodeView;
use crate::error::ErrorView;
use crate::item::FileDescriptor;
use crate::run::node_entries;
use crate::visit::count_outcome;
use crate::visit::fault;
use crate::visit::files_before_fault;
use crate::visit::files_in;
use crate::visit::first_fault;
use crate::visit::lemma_first_fault;
use crate::visit::lemma_first_fault_is;
use crate::visit::list_outcome;
use crate::visit::listing_visits;
use crate::visit::node_visits;
use crate::visit::visits;
use crate::visit::Policy;
use crate::visit::Visit;

verus! {

/// Whether a traversal of `nodes` meets regular files and directories that
/// can be listed, and nothing else.
pub open spec fn sound(nodes: Seq<NodeView>, recursive: bool) -> bool
    decreases nodes,
{
    nodes.len() == 0 || (sound_node(nodes[0], recursive) && sound(nodes.drop_first(), recursive))
}

/// Whether a traversal of `node` meets regular files and directories that
/// can be listed, and nothing else.
pub open spec fn sound_node(node: NodeView, recursive: bool) -> bool
    decreases node,
{
    match node.entry.metadata {
        Err(_) => false,
        Ok(metadata) => match metadata.kind {
            EntryKind::RegularFile => true,
            EntryKind::Other => false,
            EntryKind::Directory => !recursive || sound_listing(node.listing, recursive),
        },
    }
}

/// Whether the directory could be listed and a traversal of what it holds
/// meets regular files and directories that can be listed, and nothing
/// else.
pub open spec fn sound_listing(listing: Result<Seq<NodeView>, Seq<char>>, recursive: bool) -> bool
    decreases listing,
{
    match listing {
        Err(_) => false,
        Ok(nodes) => sound(nodes, recursive),
    }
}

/// The number of regular files among `nodes` and, if `recursive`, in the
/// directories under them.
pub open spec fn file_total(nodes: Seq<NodeView>, recursive: bool) -> nat
    decreases nodes,
{
    if nodes.len() == 0 {
        0
    } else {
        node_file_total(nodes[0], recursive) + file_total(nodes.drop_first(), recursive)
    }
}

/// The number of regular files that `node` is or, if `recursive`, holds.
pub open spec fn node_file_total(node: NodeView, recursive: bool) -> nat
    decreases node,
{
    match node.entry.metadata {
        Err(_) => 0,
        Ok(metadata) => match metadata.kind {
            EntryKind::RegularFile => 1,
            EntryKind::Other => 0,
            EntryKind::Directory => if recursive {
                listing_file_total(node.listing, recursive)
            } else {
                0
            },
        },
    }
}

/// The number of regular files in a directory that listed as `listing` and,
/// if `recursive`, in the directories under it.
pub open spec fn listing_file_total(
    listing: Result<Seq<NodeView>, Seq<char>>,
    recursive: bool,
) -> nat
    decreases listing,
{
    match listing {
        Err(_) => 0,
        Ok(nodes) => file_total(nodes, recursive),
    }
}

/// The number of regular files among `entries`.
pub open spec fn direct_files(entries: Seq<EntryView>) -> nat
    decreases entries.len(),
{
    if entries.len() == 0 {
        0
    } else {
        direct_files(entries.drop_last()) + if is_regular_file(entries.last()) {
            1nat
        } else {
            0nat
        }
    }
}

/// Whether every visit is a regular file.
pub open spec fn only_files(visits: Seq<Visit>) -> bool {
    forall|j: int| 0 <= j < visits.len() ==> #[trigger] visits[j] is File
}

/// Visits that are all regular files hold no fault, and as many files as
/// there are visits.
pub proof fn lemma_only_files(visits: Seq<Visit>, policy: Policy)
    requires
        only_files(visits),
    ensures
        first_fault(visits, policy) == visits.len(),
        files_in(visits).len() == visits.len(),
    decreases visits.len(),
{
    lemma_first_fault_is(visits, policy, visits.len() as int);
    if visits.len() > 0 {
        let rest = visits.drop_first();
        assert forall|j: int| 0 <= j < rest.len() implies #[trigger] rest[j] is File by {
            assert(rest[j] == visits[j + 1]);
        }
        lemma_only_files(rest, policy);
        assert(visits[0] is File);
    }
}

/// The traversal of a sound tree meets its regular files and nothing else.
pub proof fn lemma_sound_visits(nodes: Seq<NodeView>, recursive: bool)
    requires
        sound(nodes, recursive),
    ensures
        only_files(visits(nodes, recursive)),
        visits(nodes, recursive).len() == file_total(nodes, recursive),
    decreases nodes,
{
    if nodes.len() > 0 {
        let first = nodes[0];
        lemma_sound_visits(nodes.drop_first(), recursive);
        let head = node_visits(first, recursive);
        assert(sound_node(first, recursive));
        assert(first.entry.metadata is Ok);
        if first.entry.metadata->Ok_0.kind == EntryKind::Directory && recursive {
            assert(sound_listing(first.listing, recursive));
            assert(first.listing is Ok);
            lemma_sound_visits(first.listing->Ok_0, recursive);
            assert(head == visits(first.listing->Ok_0, recursive));
        }
        assert(only_files(head));
        assert(head.len() == node_file_total(first, recursive));
        let tail = visits(nodes.drop_first(), recursive);
        assert forall|j: int| 0 <= j < (head + tail).len() implies #[trigger] (head + tail)[j]
            is File by {
            if j < head.len() {
                assert((head + tail)[j] == head[j]);
            } else {
                assert((head + tail)[j] == tail[j - head.len()]);
            }
        }
    }
}

/// Where a directory lists and all that a traversal meets under it are
/// regular files and directories that list, a count whose budget is at
/// least the number of those files returns that number. With the budget
/// equal to the number this is the count that just fits.
pub proof fn lemma_count_within_budget(
    root: Result<Seq<NodeView>, Seq<char>>,
    recursive: bool,
    policy: Policy,
    max: nat,
)
    requires
        sound_listing(root, recursive),
        listing_file_total(root, recursive) <= max,
    ensures
        count_outcome(listing_visits(root, recursive), policy, max) == Ok::<nat, ErrorView>(
            listing_file_total(root, recursive),
        ),
{
    let met = listing_visits(root, recursive);
    lemma_sound_visits(root->Ok_0, recursive);
    lemma_only_files(met, policy);
    assert(met.take(met.len() as int) =~= met);
}

/// Where a directory lists and all that a traversal meets under it are
/// regular files and directories that list, a count whose budget is less
/// than the number of those files fails with `BudgetExceeded`: there is no
/// partial count.
pub proof fn lemma_count_over_budget(
    root: Result<Seq<NodeView>, Seq<char>>,
    recursive: bool,
    policy: Policy,
    max: nat,
)
    requires
        sound_listing(root, recursive),
        max < listing_file_total(root, recursive),
    ensures
        count_outcome(listing_visits(root, recursive), policy, max) == Err::<nat, ErrorView>(
            ErrorView::BudgetExceeded,
        ),
{
    let met = listing_visits(root, recursive);
    lemma_sound_visits(root->Ok_0, recursive);
    lemma_only_files(met, policy);
    assert(met.take(met.len() as int) =~= met);
}

/// Without recursion only the files directly among the nodes count.
pub proof fn lemma_file_total_flat(nodes: Seq<NodeView>)
    ensures
        file_total(nodes, false) == direct_files(node_entries(nodes)),
    decreases nodes.len(),
{
    let entries = node_entries(nodes);
    if nodes.len() > 0 {
        lemma_file_total_front(nodes.drop_last(), nodes.last(), false);
        assert(nodes =~= nodes.drop_last().push(nodes.last()));
        lemma_file_total_flat(nodes.drop_last());
        assert(entries.drop_last() =~= node_entries(nodes.drop_last()));
        assert(entries.last() == nodes.last().entry);
    }
}

/// The total of a sequence with one more node behind it.
pub proof fn lemma_file_total_front(front: Seq<NodeView>, last: NodeView, recursive: bool)
    ensures
        file_total(front.push(last), recursive) == file_total(front, recursive) + node_file_total(
            last,
            recursive,
        ),
    decreases front.len(),
{
    let whole = front.push(last);
    if front.len() == 0 {
        assert(whole.drop_first() =~= front);
        assert(file_total(whole.drop_first(), recursive) == 0);
    } else {
        lemma_file_total_front(front.drop_first(), last, recursive);
        assert(whole.drop_first() =~= front.drop_first().push(last));
    }
}

/// A count that does not enter directories, over a directory that holds
/// regular files and directories only, returns the number of regular files
/// directly in it, whenever the budget is at least that number.
pub proof fn lemma_flat_count(nodes: Seq<NodeView>, policy: Policy, max: nat)
    requires
        sound(nodes, false),
        direct_files(node_entries(nodes)) <= max,
    ensures
        count_outcome(
            listing_visits(Ok::<Seq<NodeView>, Seq<char>>(nodes), false),
            policy,
            max,
        ) == Ok::<nat, ErrorView>(direct_files(node_entries(nodes))),
{
    lemma_file_total_flat(nodes);
    lemma_count_within_budget(Ok(nodes), false, policy, max);
}

/// A count succeeds exactly where the traversal meets no fault and no more
/// regular files than the budget allows, and then it is the number of
/// regular files met.
pub proof fn lemma_count_succeeds(visits: Seq<Visit>, policy: Policy, max: nat)
    ensures
        count_outcome(visits, policy, max) is Ok <==> first_fault(visits, policy) == visits.len()
            && files_in(visits).len() <= max,
        count_outcome(visits, policy, max) is Ok ==> count_outcome(visits, policy, max)->Ok_0
            == files_in(visits).len(),
        count_outcome(visits, policy, max) is Ok ==> count_outcome(visits, policy, max)->Ok_0
            <= max,
{
    lemma_first_fault(visits, policy);
    assert(visits.take(visits.len() as int) =~= visits);
}

/// A count fails with `BudgetExceeded` exactly where more regular files
/// than the budget allows stand before the first fault.
pub proof fn lemma_count_exceeds(visits: Seq<Visit>, policy: Policy, max: nat)
    ensures
        count_outcome(visits, policy, max) == Err::<nat, ErrorView>(ErrorView::BudgetExceeded)
            <==> files_before_fault(visits, policy).len() > max,
{
    lemma_first_fault(visits, policy);
    let stop = first_fault(visits, policy);
    if stop < visits.len() {
        assert(fault(visits[stop], policy) is Some);
    }
}

/// A listing succeeds exactly where the traversal meets no fault, and then
/// it holds the descriptors of all regular files met.
pub proof fn lemma_list_succeeds(visits: Seq<Visit>, policy: Policy)
    ensures
        list_outcome(visits, policy) is Ok <==> first_fault(visits, policy) == visits.len(),
        list_outcome(visits, policy) is Ok ==> list_outcome(visits, policy)->Ok_0 == files_in(
            visits,
        ),
{
    lemma_first_fault(visits, policy);
}

/// Under one policy, a count within its budget returns the length of what
/// the listing returns, and a count fails with the listing's error where
/// the listing fails and the budget is not exceeded before.
pub proof fn lemma_count_is_length_of_listing(visits: Seq<Visit>, policy: Policy, max: nat)
    ensures
        match list_outcome(visits, policy) {
            Ok(files) => count_outcome(visits, policy, max) == if files.len() <= max {
                Ok::<nat, ErrorView>(files.len())
            } else {
                Err::<nat, ErrorView>(ErrorView::BudgetExceeded)
            },
            Err(error) => count_outcome(visits, policy, max) == Err::<nat, ErrorView>(error)
                || count_outcome(visits, policy, max) == Err::<nat, ErrorView>(
                ErrorView::BudgetExceeded,
            ),
        },
{
    lemma_first_fault(visits, policy);
    assert(visits.take(visits.len() as int) =~= visits);
}

/// Two listings of one tree give the same descriptors in the same order,
/// and so the same set of descriptors.
pub proof fn lemma_listing_repeats(
    first: Result<Seq<FileDescriptor>, ErrorView>,
    second: Result<Seq<FileDescriptor>, ErrorView>,
    root: Result<Seq<NodeView>, Seq<char>>,
    recursive: bool,
    policy: Policy,
)
    requires
        first == list_outcome(listing_visits(root, recursive), policy),
        second == list_outcome(listing_visits(root, recursive), policy),
    ensures
        first == second,
        first is Ok ==> first->Ok_0.to_set() == second->Ok_0.to_set(),
{
}

} // verus!
