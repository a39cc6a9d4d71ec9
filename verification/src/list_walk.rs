//! The inventory builder as a walk that is fed one directory listing at a
//! time.

use vstd::prelude::*;
use crate::entry::is_directory;
use crate::entry::EntryKind;
use crate::entry::EntryView;
use crate::entry::NodeView;
use crate::error::Error;
use crate::error::ErrorView;
use crate::item::descriptors;
use crate::item::Descriptor;
use crate::item::FileDescriptor;
use crate::list::list_from;
use crate::run::answer;
use crate::run::lemma_visits_ahead;
use crate::run::lemma_weight_behind;
use crate::run::lemma_weight_concat;
use crate::run::listed;
use crate::run::listing_weight;
use crate::run::node_entries;
use crate::run::weight;
use crate::visit::entry_visit;
use crate::visit::fault;
use crate::visit::lemma_list_concat;
use crate::visit::lemma_list_single;
use crate::visit::list_outcome;
use crate::visit::listing_visits;
use crate::visit::visits;
use crate::visit::Policy;
use crate::visit::Visit;
use crate::walk::flat_visits;
use crate::walk::lemma_next_directory;
use crate::walk::reach;
use crate::walk::reply_entries;
use crate::walk::reply_view;
use crate::walk::reply_visits;
use crate::walk::Pending;
use crate::walk::Reply;

verus! {

/// A listing in progress, between two directory listings.
pub struct ListWalk<D: Descriptor> {
    pending: Pending,
    recursive: bool,
    policy: Policy,
    found: Vec<D>,
}

/// The mathematical value of a `ListWalk`.
pub struct ListWalkView {
    /// The entries that were listed and not yet looked at, the next one first.
    pub pending: Seq<EntryView>,
    /// Whether directories are entered.
    pub recursive: bool,
    /// Which visits end the listing.
    pub policy: Policy,
    /// The descriptors of the regular files met so far, in order.
    pub found: Seq<FileDescriptor>,
}

impl<D: Descriptor> View for ListWalk<D> {
    type V = ListWalkView;

    closed spec fn view(&self) -> ListWalkView {
        ListWalkView {
            pending: self.pending@,
            recursive: self.recursive,
            policy: self.policy,
            found: descriptors(self.found@),
        }
    }
}

/// What a listing does once a directory listing has come in.
pub enum ListStep<D: Descriptor> {
    /// The listing goes on and needs the listing of the directory at this
    /// path.
    Next(ListWalk<D>, String),
    /// The listing has ended.
    Done(Result<Vec<D>, Error>),
}

/// The mathematical value of a `ListStep`.
pub enum ListStepView {
    Next(ListWalkView, Seq<char>),
    Done(Result<Seq<FileDescriptor>, ErrorView>),
}

impl<D: Descriptor> View for ListStep<D> {
    type V = ListStepView;

    open spec fn view(&self) -> ListStepView {
        match self {
            ListStep::Next(walk, path) => ListStepView::Next(walk@, path@),
            ListStep::Done(Ok(items)) => ListStepView::Done(Ok(descriptors(items@))),
            ListStep::Done(Err(error)) => ListStepView::Done(Err(error@)),
        }
    }
}

/// The step that a listing takes on a reply. The entries of the reply come
/// before those that were pending. The listing works through them up to
/// the first directory that it has to enter: if a fault is met on the way,
/// it ends with that error; if such a directory is found, it asks for that
/// directory's listing and keeps the entries behind it; else it ends with
/// all that it found.
pub open spec fn list_step(walk: ListWalkView, reply: Result<Seq<EntryView>, Seq<char>>) ->
    ListStepView {
    let entries = reply_entries(reply) + walk.pending;
    let stop = reach(entries, walk.recursive);
    let met = reply_visits(reply) + flat_visits(entries.take(stop));
    match list_outcome(met, walk.policy) {
        Err(error) => ListStepView::Done(Err(error)),
        Ok(files) => if stop < entries.len() {
            ListStepView::Next(
                ListWalkView {
                    pending: entries.skip(stop + 1),
                    found: walk.found + files,
                    ..walk
                },
                entries[stop].path,
            )
        } else {
            ListStepView::Done(Ok(walk.found + files))
        },
    }
}

/// The step on a directory listing that brings nothing.
pub open spec fn list_on(walk: ListWalkView) -> ListStepView {
    list_step(walk, Ok(Seq::empty()))
}

/// With nothing pending the listing ends.
proof fn lemma_list_on_nothing(walk: ListWalkView)
    requires
        walk.pending.len() == 0,
    ensures
        list_on(walk) == ListStepView::Done(Ok(walk.found)),
{
    let entries = Seq::<EntryView>::empty() + walk.pending;
    assert(entries =~= Seq::<EntryView>::empty());
    let stop = reach(entries, walk.recursive);
    assert(stop == 0);
    assert(entries.take(0) =~= Seq::<EntryView>::empty());
    assert(Seq::<Visit>::empty() + flat_visits(Seq::<EntryView>::empty()) =~= Seq::<Visit>::empty());
    assert(walk.found + Seq::<FileDescriptor>::empty() =~= walk.found);
}

/// A reply is worked off by putting its entries first; a failure ends the
/// listing.
proof fn lemma_list_step_reply(walk: ListWalkView, reply: Result<Seq<EntryView>, Seq<char>>)
    ensures
        list_step(walk, reply) == match reply {
            Ok(entries) => list_on(ListWalkView { pending: entries + walk.pending, ..walk }),
            Err(message) => ListStepView::Done(Err(ErrorView::Io(message))),
        },
{
    let none = Seq::<EntryView>::empty();
    match reply {
        Ok(entries) => {
            assert(none + (entries + walk.pending) =~= entries + walk.pending);
        },
        Err(message) => {
            let pending = none + walk.pending;
            let stop = reach(pending, walk.recursive);
            let visit = Visit::Unlistable(message);
            let rest = flat_visits(pending.take(stop));
            assert(Seq::<Visit>::empty() + rest =~= rest);
            lemma_list_concat(seq![visit], rest, walk.policy);
            lemma_list_single(visit, walk.policy);
            let more = list_outcome(rest, walk.policy);
            if more is Ok {
                assert(Seq::<FileDescriptor>::empty() + more->Ok_0 =~= more->Ok_0);
            }
        },
    }
}

/// How the step on nothing new deals with the first pending entry.
proof fn lemma_list_on_first(walk: ListWalkView)
    requires
        walk.pending.len() > 0,
    ensures
        list_on(walk) == ({
            let first = walk.pending[0];
            let rest = ListWalkView { pending: walk.pending.drop_first(), ..walk };
            match entry_visit(first) {
                None => if walk.recursive {
                    ListStepView::Next(rest, first.path)
                } else {
                    list_on(rest)
                },
                Some(visit) => match fault(visit, walk.policy) {
                    Some(error) => ListStepView::Done(Err(error)),
                    None => match visit {
                        Visit::File(descriptor) => list_on(
                            ListWalkView { found: walk.found.push(descriptor), ..rest },
                        ),
                        _ => list_on(rest),
                    },
                },
            }
        }),
{
    let none = Seq::<EntryView>::empty();
    let no_visit = Seq::<Visit>::empty();
    let no_file = Seq::<FileDescriptor>::empty();
    let entries = none + walk.pending;
    let first = walk.pending[0];
    let behind = walk.pending.drop_first();
    let behind_entries = none + behind;
    assert(entries =~= walk.pending);
    assert(behind_entries =~= behind);
    let stop = reach(entries, walk.recursive);
    let behind_stop = reach(behind_entries, walk.recursive);
    let met = flat_visits(entries.take(stop));
    let behind_met = flat_visits(behind_entries.take(behind_stop));
    assert(no_visit + met =~= met);
    assert(no_visit + behind_met =~= behind_met);
    lemma_next_directory(entries);
    lemma_next_directory(behind);
    match entry_visit(first) {
        None => {
            assert(is_directory(first));
            if walk.recursive {
                assert(entries.take(0) =~= none);
                assert(entries.skip(1) =~= behind);
                assert(list_outcome(no_visit, walk.policy) == Ok::<
                    Seq<FileDescriptor>,
                    ErrorView,
                >(no_file));
                assert(walk.found + no_file =~= walk.found);
            } else {
                assert(entries.take(stop) =~= entries);
                assert(behind_entries.take(behind_stop) =~= behind);
            }
        },
        Some(visit) => {
            assert(!is_directory(first));
            assert(stop == 1 + behind_stop);
            let segment = entries.take(stop);
            assert(segment.drop_first() =~= behind_entries.take(behind_stop));
            assert(segment[0] == first);
            assert(met =~= seq![visit] + behind_met);
            lemma_list_concat(seq![visit], behind_met, walk.policy);
            lemma_list_single(visit, walk.policy);
            if stop < entries.len() {
                assert(entries.skip(stop + 1) =~= behind_entries.skip(behind_stop + 1));
                assert(entries[stop] == behind_entries[behind_stop]);
            }
            let more = list_outcome(behind_met, walk.policy);
            if more is Ok {
                assert(no_file + more->Ok_0 =~= more->Ok_0);
                if visit is File {
                    let descriptor = visit->File_0;
                    assert(walk.found + (seq![descriptor] + more->Ok_0) =~= walk.found.push(
                        descriptor,
                    ) + more->Ok_0);
                }
            }
        },
    }
}

/// The result with which a listing ends when each of its requests is
/// answered from a tree. `trees` are the trees under the entries that are
/// pending, and `root` is the directory listing that the walk is waiting
/// for.
pub open spec fn list_run(
    walk: ListWalkView,
    trees: Seq<NodeView>,
    root: Result<Seq<NodeView>, Seq<char>>,
) -> Result<Seq<FileDescriptor>, ErrorView>
    recommends
        walk.pending == node_entries(trees),
    decreases weight(trees) + listing_weight(root),
{
    match list_step(walk, answer(root)) {
        ListStepView::Done(result) => result,
        ListStepView::Next(next, _) => {
            let all = listed(root) + trees;
            let stop = reach(node_entries(all), walk.recursive);
            if 0 <= stop < all.len() {
                proof {
                    lemma_weight_concat(listed(root), trees);
                    lemma_weight_behind(all, stop);
                }
                list_run(next, all.skip(stop + 1), all[stop].listing)
            } else {
                arbitrary()
            }
        },
    }
}

/// One step of a listing that is answered from a tree leaves the result
/// that the whole listing is going to have as it was: what was found so
/// far, followed by what the visits that lie ahead give.
pub proof fn lemma_list_step_on_tree(
    walk: ListWalkView,
    trees: Seq<NodeView>,
    root: Result<Seq<NodeView>, Seq<char>>,
)
    requires
        walk.pending == node_entries(trees),
    ensures
        ({
            let ahead = listing_visits(root, walk.recursive) + visits(trees, walk.recursive);
            let goal = list_from(walk.found, list_outcome(ahead, walk.policy));
            let all = listed(root) + trees;
            let stop = reach(node_entries(all), walk.recursive);
            match list_step(walk, answer(root)) {
                ListStepView::Done(result) => result == goal,
                ListStepView::Next(next, path) => {
                    &&& 0 <= stop < all.len()
                    &&& path == all[stop].entry.path
                    &&& next.pending == node_entries(all.skip(stop + 1))
                    &&& next.recursive == walk.recursive
                    &&& next.policy == walk.policy
                    &&& goal == list_from(
                        next.found,
                        list_outcome(
                            listing_visits(all[stop].listing, walk.recursive) + visits(
                                all.skip(stop + 1),
                                walk.recursive,
                            ),
                            next.policy,
                        ),
                    )
                },
            }
        }),
{
    let recursive = walk.recursive;
    let all = listed(root) + trees;
    let entries = reply_entries(answer(root)) + walk.pending;
    let stop = reach(entries, recursive);
    let met = reply_visits(answer(root)) + flat_visits(entries.take(stop));
    let tail = if stop < all.len() {
        listing_visits(all[stop].listing, recursive) + visits(all.skip(stop + 1), recursive)
    } else {
        Seq::<Visit>::empty()
    };
    lemma_visits_ahead(trees, root, recursive);
    lemma_list_concat(met, tail, walk.policy);
    let files = list_outcome(met, walk.policy);
    let more = list_outcome(tail, walk.policy);
    if files is Ok {
        if stop < all.len() {
            assert(entries.skip(stop + 1) =~= node_entries(all.skip(stop + 1)));
            if more is Ok {
                assert(walk.found + (files->Ok_0 + more->Ok_0) =~= (walk.found + files->Ok_0)
                    + more->Ok_0);
            }
        } else {
            assert(files->Ok_0 + Seq::<FileDescriptor>::empty() =~= files->Ok_0);
        }
    }
}

/// A listing that is answered from a tree ends with what the listing of
/// the tree's visits gives.
pub proof fn lemma_list_run(
    walk: ListWalkView,
    trees: Seq<NodeView>,
    root: Result<Seq<NodeView>, Seq<char>>,
)
    requires
        walk.pending == node_entries(trees),
    ensures
        list_run(walk, trees, root) == list_from(
            walk.found,
            list_outcome(
                listing_visits(root, walk.recursive) + visits(trees, walk.recursive),
                walk.policy,
            ),
        ),
    decreases weight(trees) + listing_weight(root),
{
    lemma_list_step_on_tree(walk, trees, root);
    match list_step(walk, answer(root)) {
        ListStepView::Done(_) => {},
        ListStepView::Next(next, _) => {
            let all = listed(root) + trees;
            let stop = reach(node_entries(all), walk.recursive);
            lemma_weight_concat(listed(root), trees);
            lemma_weight_behind(all, stop);
            lemma_list_run(next, all.skip(stop + 1), all[stop].listing);
        },
    }
}

/// A listing that begins at the root of a tree and is answered from the
/// tree ends with the listing of the tree's visits.
pub proof fn lemma_list_walk_lists_tree(
    recursive: bool,
    policy: Policy,
    root: Result<Seq<NodeView>, Seq<char>>,
)
    ensures
        list_run(
            ListWalkView { pending: Seq::empty(), recursive, policy, found: Seq::empty() },
            Seq::empty(),
            root,
        ) == list_outcome(listing_visits(root, recursive), policy),
{
    let walk = ListWalkView { pending: Seq::empty(), recursive, policy, found: Seq::empty() };
    let none = Seq::<NodeView>::empty();
    assert(walk.pending =~= node_entries(none));
    lemma_list_run(walk, none, root);
    let ahead = listing_visits(root, recursive);
    assert(ahead + visits(none, recursive) =~= ahead);
    let files = list_outcome(ahead, policy);
    if files is Ok {
        assert(Seq::<FileDescriptor>::empty() + files->Ok_0 =~= files->Ok_0);
    }
}

impl<D: Descriptor> ListWalk<D> {
    /// A listing that has met nothing yet and is waiting for the listing of
    /// the root directory.
    pub fn begin(recursive: bool, policy: Policy) -> (walk: ListWalk<D>)
        ensures
            walk@ == (ListWalkView {
                pending: Seq::empty(),
                recursive,
                policy,
                found: Seq::empty(),
            }),
    {
        let walk = ListWalk { pending: Pending::new(), recursive, policy, found: Vec::new() };
        assert(descriptors(walk.found@) =~= Seq::<FileDescriptor>::empty());
        walk
    }

    /// Takes the directory listing that the walk was waiting for and goes
    /// on until it needs the next one or ends.
    pub fn resume(self, reply: Reply) -> (step: ListStep<D>)
        ensures
            step@ == list_step(self@, reply_view(reply)),
    {
        proof {
            lemma_list_step_reply(self@, reply_view(reply));
        }
        let ghost before = self@;
        let ghost given = reply_view(reply);
        let recursive = self.recursive;
        let policy = self.policy;
        let mut found = self.found;
        let mut pending = self.pending;
        match reply {
            Err(message) => {
                return ListStep::Done(Err(Error::Io(message)));
            },
            Ok(entries) => {
                pending.put_first(entries);
            },
        }
        loop
            invariant
                before == self@,
                given == reply_view(reply),
                list_step(before, given) == list_on(
                    ListWalkView {
                        pending: pending@,
                        recursive,
                        policy,
                        found: descriptors(found@),
                    },
                ),
            decreases pending@.len(),
        {
            let ghost now = ListWalkView {
                pending: pending@,
                recursive,
                policy,
                found: descriptors(found@),
            };
            match pending.take_first() {
                None => {
                    proof {
                        lemma_list_on_nothing(now);
                    }
                    return ListStep::Done(Ok(found));
                },
                Some(entry) => {
                    proof {
                        lemma_list_on_first(now);
                    }
                    match &entry.metadata {
                        Err(message) => {
                            if policy.unreadable_fails {
                                return ListStep::Done(Err(Error::Io(message.clone())));
                            }
                        },
                        Ok(metadata) => match metadata.kind {
                            EntryKind::RegularFile => {
                                let item = D::of(&entry, metadata.len);
                                assert(descriptors(found@.push(item)) =~= descriptors(
                                    found@,
                                ).push(item@));
                                found.push(item);
                            },
                            EntryKind::Other => {
                                if policy.other_fails {
                                    return ListStep::Done(Err(Error::UnsupportedEntry));
                                }
                            },
                            EntryKind::Directory => {
                                if recursive {
                                    let walk = ListWalk { pending, recursive, policy, found };
                                    return ListStep::Next(walk, entry.path);
                                }
                            },
                        },
                    }
                },
            }
        }
    }
}

} // verus!
