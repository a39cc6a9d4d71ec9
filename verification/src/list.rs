//! The inventory builder: the descriptors of the regular files of a tree,
//! as one flat sequence in traversal order.

use vstd::prelude::*;
use crate::entry::lemma_nodes_view;
use crate::entry::listing_view;
use crate::entry::nodes_view;
use crate::entry::EntryKind;
use crate::entry::Listing;
use crate::entry::Node;
use crate::entry::NodeView;
use crate::error::Error;
use crate::error::ErrorView;
use crate::item::descriptors;
use crate::item::Descriptor;
use crate::item::FileDescriptor;
use crate::item::FileInfo;
use crate::item::FileItem;
use crate::visit::lemma_list_concat;
use crate::visit::lemma_list_single;
use crate::visit::list_outcome;
use crate::visit::listing_visits;
use crate::visit::node_visits;
use crate::visit::visits;
use crate::visit::Policy;
use crate::visit::Visit;

verus! {

/// The mathematical value of a listing's result.
pub open spec fn list_view<D: Descriptor>(result: Result<Vec<D>, Error>) -> Result<
    Seq<FileDescriptor>,
    ErrorView,
> {
    match result {
        Ok(items) => Ok(descriptors(items@)),
        Err(error) => Err(error@),
    }
}

/// A listing that goes on after `found` was found before.
pub open spec fn list_from(
    found: Seq<FileDescriptor>,
    outcome: Result<Seq<FileDescriptor>, ErrorView>,
) -> Result<Seq<FileDescriptor>, ErrorView> {
    match outcome {
        Ok(more) => Ok(found + more),
        Err(error) => Err(error),
    }
}

/// Appends to `out` the descriptors of the regular files among `nodes` and,
/// if `recursive`, in the directories under them, depth first. Where the
/// traversal fails, what `out` holds is of no use.
fn list_into<D: Descriptor>(
    nodes: &Vec<Node>,
    recursive: bool,
    policy: Policy,
    out: &mut Vec<D>,
) -> (result: Result<(), Error>)
    ensures
        match list_outcome(visits(nodes_view(nodes@), recursive), policy) {
            Ok(files) => result is Ok && descriptors(final(out)@) == descriptors(old(out)@)
                + files,
            Err(error) => result is Err && result->Err_0@ == error,
        },
    decreases nodes,
{
    let ghost views = nodes_view(nodes@);
    let ghost before = descriptors(out@);
    let ghost mut found = Seq::<FileDescriptor>::empty();
    let mut i: usize = 0;
    proof {
        lemma_nodes_view(nodes@);
        assert(views.skip(0) =~= views);
        assert(before + found =~= before);
    }
    while i < nodes.len()
        invariant
            i <= nodes.len(),
            views == nodes_view(nodes@),
            views.len() == nodes.len(),
            forall|j: int| 0 <= j < nodes.len() ==> #[trigger] views[j] == nodes@[j]@,
            descriptors(out@) == before + found,
            list_outcome(visits(views, recursive), policy) == list_from(
                found,
                list_outcome(visits(views.skip(i as int), recursive), policy),
            ),
        decreases nodes.len() - i,
    {
        let node = &nodes[i];
        let ghost rest = visits(views.skip(i + 1), recursive);
        proof {
            let suffix = views.skip(i as int);
            assert(suffix[0] == node@);
            assert(suffix.drop_first() =~= views.skip(i + 1));
            assert(visits(suffix, recursive) == node_visits(node@, recursive) + rest);
            lemma_list_concat(node_visits(node@, recursive), rest, policy);
            assert(found + Seq::<FileDescriptor>::empty() =~= found);
        }
        match &node.entry.metadata {
            Err(message) => {
                proof {
                    lemma_list_single(Visit::Unreadable(message@), policy);
                }
                if policy.unreadable_fails {
                    return Err(Error::Io(message.clone()));
                }
            },
            Ok(metadata) => match metadata.kind {
                EntryKind::RegularFile => {
                    let item = D::of(&node.entry, metadata.len);
                    proof {
                        lemma_list_single(node_visits(node@, recursive)[0], policy);
                        assert(descriptors(out@.push(item)) =~= descriptors(out@) + seq![item@]);
                        assert(before + (found + seq![item@]) =~= (before + found) + seq![item@]);
                        let more = list_outcome(rest, policy);
                        if more is Ok {
                            assert(found + (seq![item@] + more->Ok_0) =~= (found + seq![item@])
                                + more->Ok_0);
                        }
                        found = found + seq![item@];
                    }
                    out.push(item);
                },
                EntryKind::Other => {
                    proof {
                        lemma_list_single(Visit::Other, policy);
                    }
                    if policy.other_fails {
                        return Err(Error::UnsupportedEntry);
                    }
                },
                EntryKind::Directory => {
                    if recursive {
                        match &node.listing {
                            Err(message) => {
                                proof {
                                    lemma_list_single(Visit::Unlistable(message@), policy);
                                }
                                return Err(Error::Io(message.clone()));
                            },
                            Ok(children) => {
                                assert(node@.listing == listing_view(node.listing));
                                let ghost inner = list_outcome(
                                    visits(nodes_view(children@), recursive),
                                    policy,
                                );
                                match list_into(children, recursive, policy, out) {
                                    Err(error) => {
                                        return Err(error);
                                    },
                                    Ok(()) => {
                                        proof {
                                            let files = inner->Ok_0;
                                            assert(before + (found + files) =~= (before + found)
                                                + files);
                                            let more = list_outcome(rest, policy);
                                            if more is Ok {
                                                assert(found + (files + more->Ok_0) =~= (found
                                                    + files) + more->Ok_0);
                                            }
                                            found = found + files;
                                        }
                                    },
                                }
                            },
                        }
                    } else {
                        assert(node_visits(node@, recursive) =~= Seq::<Visit>::empty());
                        assert(list_outcome(Seq::<Visit>::empty(), policy) == Ok::<
                            Seq<FileDescriptor>,
                            ErrorView,
                        >(Seq::<FileDescriptor>::empty()));
                    }
                },
            },
        }
        i = i + 1;
    }
    proof {
        assert(views.skip(i as int) =~= Seq::<NodeView>::empty());
        assert(found + Seq::<FileDescriptor>::empty() =~= found);
    }
    Ok(())
}

/// The descriptors of the regular files of the tree whose root directory
/// listed as `root`, under `policy`.
pub fn list_with<D: Descriptor>(root: &Listing, recursive: bool, policy: Policy) -> (result:
    Result<Vec<D>, Error>)
    ensures
        list_view(result) == list_outcome(
            listing_visits(listing_view(*root), recursive),
            policy,
        ),
{
    let mut items: Vec<D> = Vec::new();
    match root {
        Err(message) => {
            proof {
                lemma_list_single(Visit::Unlistable(message@), policy);
                assert(descriptors(items@) =~= Seq::<FileDescriptor>::empty());
            }
            Err(Error::Io(message.clone()))
        },
        Ok(nodes) => {
            proof {
                let files = list_outcome(visits(nodes_view(nodes@), recursive), policy);
                assert(descriptors(items@) =~= Seq::<FileDescriptor>::empty());
                if files is Ok {
                    assert(Seq::<FileDescriptor>::empty() + files->Ok_0 =~= files->Ok_0);
                }
            }
            match list_into(nodes, recursive, policy, &mut items) {
                Ok(()) => Ok(items),
                Err(error) => Err(error),
            }
        },
    }
}

/// Lists the regular files directly in the root directory and, if
/// `recursive`, in every directory under it: one descriptor for each, in
/// traversal order, a directory's files where the directory stands among its
/// siblings. Entries that are neither file nor directory are passed over. A
/// directory that cannot be listed, or an entry whose metadata cannot be
/// read, fails the whole listing with `Io`.
pub fn fetch_file_list(root: &Listing, recursive: bool) -> (result: Result<Vec<FileItem>, Error>)
    ensures
        list_view(result) == list_outcome(
            listing_visits(listing_view(*root), recursive),
            Policy::files_and_directories(),
        ),
{
    let policy = Policy { other_fails: false, unreadable_fails: true };
    list_with(root, recursive, policy)
}

/// Lists the regular files of a folder and of every folder under it.
/// Entries that are neither file nor folder, or whose metadata cannot be
/// read, are passed over. A folder that cannot be listed, the root or one
/// under it, fails the whole listing with `Io`: no shortened list is
/// returned.
pub fn get_folder_files(root: &Listing) -> (result: Result<Vec<FileInfo>, Error>)
    ensures
        list_view(result) == list_outcome(
            listing_visits(listing_view(*root), true),
            Policy::listable(),
        ),
{
    let policy = Policy { other_fails: false, unreadable_fails: false };
    list_with(root, true, policy)
}

/// Lists the regular files directly in a folder; folders under it are not
/// entered. Entries that are neither file nor folder, or whose metadata
/// cannot be read, are passed over. A folder that cannot be listed fails
/// with `Io`.
pub fn get_folder_file(root: &Listing) -> (result: Result<Vec<FileInfo>, Error>)
    ensures
        list_view(result) == list_outcome(
            listing_visits(listing_view(*root), false),
            Policy::listable(),
        ),
{
    let policy = Policy { other_fails: false, unreadable_fails: false };
    list_with(root, false, policy)
}

} // verus!
