//! The bounded counter: how many regular files a tree holds, as long as
//! they are no more than a budget.

use vstd::prelude::*;
use crate::entry::lemma_nodes_view;
use crate::entry::listing_view;
use crate::entry::nodes_view;
use crate::entry::EntryKind;
use crate::entry::Listing;
use crate::entry::Node;
use crate::entry::NodeView;
use crate::error::Error;
use crate::error::ErrorView;
use crate::visit::count_outcome;
use crate::visit::lemma_count_concat;
use crate::visit::lemma_count_single;
use crate::visit::listing_visits;
use crate::visit::node_visits;
use crate::visit::visits;
use crate::visit::Policy;
use crate::visit::Visit;

verus! {

/// The mathematical value of a count's result.
pub open spec fn count_view(result: Result<usize, Error>) -> Result<nat, ErrorView> {
    match result {
        Ok(counted) => Ok(counted as nat),
        Err(error) => Err(error@),
    }
}

/// A count that goes on from `base` files counted before.
pub open spec fn count_from(base: nat, outcome: Result<nat, ErrorView>) -> Result<nat, ErrorView> {
    match outcome {
        Ok(counted) => Ok(base + counted),
        Err(error) => Err(error),
    }
}

/// Counts the regular files among `nodes` and, if `recursive`, in the
/// directories under them, depth first. At most `budget` files may be met
/// before the end or the first fault.
pub fn count_nodes(nodes: &Vec<Node>, recursive: bool, policy: Policy, budget: usize) -> (result:
    Result<usize, Error>)
    ensures
        count_view(result) == count_outcome(
            visits(nodes_view(nodes@), recursive),
            policy,
            budget as nat,
        ),
    decreases nodes,
{
    let ghost views = nodes_view(nodes@);
    let mut counted: usize = 0;
    let mut i: usize = 0;
    proof {
        lemma_nodes_view(nodes@);
        assert(views.skip(0) =~= views);
    }
    while i < nodes.len()
        invariant
            i <= nodes.len(),
            counted <= budget,
            views == nodes_view(nodes@),
            views.len() == nodes.len(),
            forall|j: int| 0 <= j < nodes.len() ==> #[trigger] views[j] == nodes@[j]@,
            count_outcome(visits(views, recursive), policy, budget as nat) == count_from(
                counted as nat,
                count_outcome(
                    visits(views.skip(i as int), recursive),
                    policy,
                    (budget - counted) as nat,
                ),
            ),
        decreases nodes.len() - i,
    {
        let node = &nodes[i];
        let ghost rest = visits(views.skip(i + 1), recursive);
        let ghost left = (budget - counted) as nat;
        proof {
            let suffix = views.skip(i as int);
            assert(suffix[0] == node@);
            assert(suffix.drop_first() =~= views.skip(i + 1));
            assert(visits(suffix, recursive) == node_visits(node@, recursive) + rest);
            lemma_count_concat(node_visits(node@, recursive), rest, policy, left);
        }
        match &node.entry.metadata {
            Err(message) => {
                proof {
                    lemma_count_single(Visit::Unreadable(message@), policy, left);
                }
                if policy.unreadable_fails {
                    return Err(Error::Io(message.clone()));
                }
            },
            Ok(metadata) => match metadata.kind {
                EntryKind::RegularFile => {
                    proof {
                        lemma_count_single(
                            node_visits(node@, recursive)[0],
                            policy,
                            left,
                        );
                    }
                    if counted >= budget {
                        return Err(Error::BudgetExceeded);
                    }
                    counted = counted + 1;
                },
                EntryKind::Other => {
                    proof {
                        lemma_count_single(Visit::Other, policy, left);
                    }
                    if policy.other_fails {
                        return Err(Error::UnsupportedEntry);
                    }
                },
                EntryKind::Directory => {
                    if recursive {
                        match &node.listing {
                            Err(message) => {
                                proof {
                                    lemma_count_single(Visit::Unlistable(message@), policy, left);
                                }
                                return Err(Error::Io(message.clone()));
                            },
                            Ok(children) => {
                                assert(node@.listing == listing_view(node.listing));
                                match count_nodes(children, recursive, policy, budget - counted) {
                                    Err(error) => {
                                        return Err(error);
                                    },
                                    Ok(more) => {
                                        counted = counted + more;
                                    },
                                }
                            },
                        }
                    } else {
                        assert(node_visits(node@, recursive) =~= Seq::<Visit>::empty());
                        assert(count_outcome(Seq::<Visit>::empty(), policy, left) == Ok::<nat, ErrorView>(0nat));
                    }
                },
            },
        }
        i = i + 1;
    }
    proof {
        assert(views.skip(i as int) =~= Seq::<NodeView>::empty());
    }
    Ok(counted)
}

/// Counts the regular files of the tree whose root directory listed as
/// `root`, under `policy` and within `budget`.
pub fn count_with(root: &Listing, recursive: bool, policy: Policy, budget: usize) -> (result:
    Result<usize, Error>)
    ensures
        count_view(result) == count_outcome(
            listing_visits(listing_view(*root), recursive),
            policy,
            budget as nat,
        ),
{
    match root {
        Err(message) => {
            proof {
                lemma_count_single(Visit::Unlistable(message@), policy, budget as nat);
            }
            Err(Error::Io(message.clone()))
        },
        Ok(nodes) => count_nodes(nodes, recursive, policy, budget),
    }
}

/// Counts the regular files directly in the root directory and, if
/// `recursive`, in every directory under it. One budget holds for the whole
/// traversal: as soon as more than `max` files are met the count is
/// abandoned with `BudgetExceeded`. An entry that is neither file nor
/// directory fails with `UnsupportedEntry`; a directory that cannot be
/// listed, or an entry whose metadata cannot be read, fails with `Io`. On
/// success the result is `start` plus the number of files.
pub fn fetch_file_count(root: &Listing, recursive: bool, max: usize, start: usize) -> (result:
    Result<usize, Error>)
    requires
        start + max <= usize::MAX,
    ensures
        count_view(result) == count_from(
            start as nat,
            count_outcome(
                listing_visits(listing_view(*root), recursive),
                Policy::strict(),
                max as nat,
            ),
        ),
{
    let policy = Policy { other_fails: true, unreadable_fails: true };
    match count_with(root, recursive, policy, max) {
        Ok(counted) => Ok(start + counted),
        Err(error) => Err(error),
    }
}

/// The text with which the folder counts report `error`.
pub open spec fn folder_count_text(error: ErrorView) -> Seq<char> {
    match error {
        ErrorView::BudgetExceeded => "MAX_FILE_COUNT"@,
        other => other.message(),
    }
}

/// What a folder count makes of the visits of a tree: the number of
/// regular files, or the text of the failure.
pub open spec fn folder_count_outcome(visits: Seq<Visit>, max: nat) -> Result<nat, Seq<char>> {
    match count_outcome(visits, Policy::listable(), max) {
        Ok(counted) => Ok(counted),
        Err(error) => Err(folder_count_text(error)),
    }
}

/// The mathematical value of a folder count's result.
pub open spec fn folder_count_view(result: Result<usize, String>) -> Result<nat, Seq<char>> {
    match result {
        Ok(counted) => Ok(counted as nat),
        Err(text) => Err(text@),
    }
}

fn folder_count(root: &Listing, recursive: bool, max: usize) -> (result: Result<usize, String>)
    ensures
        folder_count_view(result) == folder_count_outcome(
            listing_visits(listing_view(*root), recursive),
            max as nat,
        ),
{
    let policy = Policy { other_fails: false, unreadable_fails: false };
    match count_with(root, recursive, policy, max) {
        Ok(counted) => Ok(counted),
        Err(Error::BudgetExceeded) => Err("MAX_FILE_COUNT".to_owned()),
        Err(error) => Err(error.message()),
    }
}

/// Counts the regular files of a folder and of every folder under it,
/// within the budget `max`. Entries that are neither file nor folder, or
/// whose metadata cannot be read, are passed over. A failure is reported as
/// text: `MAX_FILE_COUNT` where the budget is exceeded, the system's message
/// where a folder cannot be listed.
pub fn count_folder_files(root: &Listing, max: usize) -> (result: Result<usize, String>)
    ensures
        folder_count_view(result) == folder_count_outcome(
            listing_visits(listing_view(*root), true),
            max as nat,
        ),
{
    folder_count(root, true, max)
}

/// Counts the regular files directly in a folder, within the budget `max`;
/// folders under it are not entered. Failures are reported as by
/// `count_folder_files`.
pub fn count_folder_file(root: &Listing, max: usize) -> (result: Result<usize, String>)
    ensures
        folder_count_view(result) == folder_count_outcome(
            listing_visits(listing_view(*root), false),
            max as nat,
        ),
{
    folder_count(root, false, max)
}

} // verus!
