//! The bounded counter as a walk that is fed one directory listing at a
//! time: it never reads a directory itself, and stops asking as soon as the
//! budget is exceeded or a fault is met.

use vstd::prelude::*;
use crate::count::count_from;
use crate::entry::is_directory;
use crate::entry::EntryKind;
use crate::entry::EntryView;
use crate::entry::NodeView;
use crate::error::Error;
use crate::error::ErrorView;
use crate::laws::lemma_count_succeeds;
use crate::run::answer;
use crate::run::lemma_visits_ahead;
use crate::run::lemma_weight_behind;
use crate::run::lemma_weight_concat;
use crate::run::listed;
use crate::run::listing_weight;
use crate::run::node_entries;
use crate::run::weight;
use crate::visit::count_outcome;
use crate::visit::entry_visit;
use crate::visit::fault;
use crate::visit::lemma_count_concat;
use crate::visit::lemma_count_single;
use crate::visit::listing_visits;
use crate::visit::visits;
use crate::visit::Policy;
use crate::visit::Visit;
use crate::walk::flat_visits;
use crate::walk::lemma_next_directory;
use crate::walk::reach;
use crate::walk::reply_entries;
use crate::walk::reply_view;
use crate::walk::reply_visits;
use crate::walk::Pending;
use crate::walk::Reply;

verus! {

/// A count in progress, between two listings.
pub struct CountWalk {
    pending: Pending,
    recursive: bool,
    policy: Policy,
    remaining: usize,
    counted: usize,
}

/// The mathematical value of a `CountWalk`.
pub struct CountWalkView {
    /// The entries that were listed and not yet looked at, the next one first.
    pub pending: Seq<EntryView>,
    /// Whether directories are entered.
    pub recursive: bool,
    /// Which visits end the count.
    pub policy: Policy,
    /// How many more regular files the budget allows.
    pub remaining: nat,
    /// The count so far, with what it started from.
    pub counted: nat,
}

impl View for CountWalk {
    type V = CountWalkView;

    closed spec fn view(&self) -> CountWalkView {
        CountWalkView {
            pending: self.pending@,
            recursive: self.recursive,
            policy: self.policy,
            remaining: self.remaining as nat,
            counted: self.counted as nat,
        }
    }
}

/// What a count does once a listing has come in.
pub enum CountStep {
    /// The count goes on and needs the listing of the directory at this path.
    Next(CountWalk, String),
    /// The count has ended.
    Done(Result<usize, Error>),
}

/// The mathematical value of a `CountStep`.
pub enum CountStepView {
    Next(CountWalkView, Seq<char>),
    Done(Result<nat, ErrorView>),
}

impl View for CountStep {
    type V = CountStepView;

    open spec fn view(&self) -> CountStepView {
        match self {
            CountStep::Next(walk, path) => CountStepView::Next(walk@, path@),
            CountStep::Done(Ok(counted)) => CountStepView::Done(Ok(*counted as nat)),
            CountStep::Done(Err(error)) => CountStepView::Done(Err(error@)),
        }
    }
}

/// The step that a count takes on a reply. The entries of the reply come
/// before those that were pending. The count works through them up to the
/// first directory that it has to enter: if the budget is exceeded or a
/// fault is met on the way, it ends with that error; if such a directory
/// is found, it asks for that directory's listing and keeps the entries
/// behind it; else it ends with the count.
pub open spec fn count_step(walk: CountWalkView, reply: Result<Seq<EntryView>, Seq<char>>) ->
    CountStepView {
    let entries = reply_entries(reply) + walk.pending;
    let stop = reach(entries, walk.recursive);
    let met = reply_visits(reply) + flat_visits(entries.take(stop));
    match count_outcome(met, walk.policy, walk.remaining) {
        Err(error) => CountStepView::Done(Err(error)),
        Ok(counted) => if stop < entries.len() {
            CountStepView::Next(
                CountWalkView {
                    pending: entries.skip(stop + 1),
                    remaining: (walk.remaining - counted) as nat,
                    counted: walk.counted + counted,
                    ..walk
                },
                entries[stop].path,
            )
        } else {
            CountStepView::Done(Ok(walk.counted + counted))
        },
    }
}

/// The step on a listing that brings nothing.
pub open spec fn count_on(walk: CountWalkView) -> CountStepView {
    count_step(walk, Ok(Seq::empty()))
}

/// With nothing pending the count ends.
proof fn lemma_count_on_nothing(walk: CountWalkView)
    requires
        walk.pending.len() == 0,
    ensures
        count_on(walk) == CountStepView::Done(Ok(walk.counted)),
{
    let entries = Seq::<EntryView>::empty() + walk.pending;
    assert(entries =~= Seq::<EntryView>::empty());
    let stop = reach(entries, walk.recursive);
    assert(stop == 0);
    assert(entries.take(0) =~= Seq::<EntryView>::empty());
    assert(Seq::<Visit>::empty() + flat_visits(Seq::<EntryView>::empty()) =~= Seq::<Visit>::empty());
}

/// A reply is worked off by putting its entries first; a failure ends the
/// count.
proof fn lemma_count_step_reply(walk: CountWalkView, reply: Result<Seq<EntryView>, Seq<char>>)
    ensures
        count_step(walk, reply) == match reply {
            Ok(entries) => count_on(CountWalkView { pending: entries + walk.pending, ..walk }),
            Err(message) => CountStepView::Done(Err(ErrorView::Io(message))),
        },
{
    let none = Seq::<EntryView>::empty();
    match reply {
        Ok(entries) => {
            assert(none + (entries + walk.pending) =~= entries + walk.pending);
        },
        Err(message) => {
            let pending = none + walk.pending;
            let stop = reach(pending, walk.recursive);
            let visit = Visit::Unlistable(message);
            let rest = flat_visits(pending.take(stop));
            assert(Seq::<Visit>::empty() + rest =~= rest);
            lemma_count_concat(seq![visit], rest, walk.policy, walk.remaining);
            lemma_count_single(visit, walk.policy, walk.remaining);
        },
    }
}

/// How the step on nothing new deals with the first pending entry.
proof fn lemma_count_on_first(walk: CountWalkView)
    requires
        walk.pending.len() > 0,
    ensures
        count_on(walk) == ({
            let first = walk.pending[0];
            let rest = CountWalkView { pending: walk.pending.drop_first(), ..walk };
            match entry_visit(first) {
                None => if walk.recursive {
                    CountStepView::Next(rest, first.path)
                } else {
                    count_on(rest)
                },
                Some(visit) => match fault(visit, walk.policy) {
                    Some(error) => CountStepView::Done(Err(error)),
                    None => if !(visit is File) {
                        count_on(rest)
                    } else if walk.remaining == 0 {
                        CountStepView::Done(Err(ErrorView::BudgetExceeded))
                    } else {
                        count_on(
                            CountWalkView {
                                remaining: (walk.remaining - 1) as nat,
                                counted: walk.counted + 1,
                                ..rest
                            },
                        )
                    },
                },
            }
        }),
{
    let none = Seq::<EntryView>::empty();
    let no_visit = Seq::<Visit>::empty();
    let entries = none + walk.pending;
    let first = walk.pending[0];
    let behind = walk.pending.drop_first();
    let behind_entries = none + behind;
    assert(entries =~= walk.pending);
    assert(behind_entries =~= behind);
    let stop = reach(entries, walk.recursive);
    let behind_stop = reach(behind_entries, walk.recursive);
    let met = flat_visits(entries.take(stop));
    let behind_met = flat_visits(behind_entries.take(behind_stop));
    assert(no_visit + met =~= met);
    assert(no_visit + behind_met =~= behind_met);
    lemma_next_directory(entries);
    lemma_next_directory(behind);
    match entry_visit(first) {
        None => {
            assert(is_directory(first));
            if walk.recursive {
                assert(entries.take(0) =~= none);
                assert(entries.skip(1) =~= behind);
                assert(count_outcome(no_visit, walk.policy, walk.remaining) == Ok::<
                    nat,
                    ErrorView,
                >(0nat));
            } else {
                assert(entries.take(stop) =~= entries);
                assert(behind_entries.take(behind_stop) =~= behind);
            }
        },
        Some(visit) => {
            assert(!is_directory(first));
            assert(stop == 1 + behind_stop);
            let segment = entries.take(stop);
            assert(segment.drop_first() =~= behind_entries.take(behind_stop));
            assert(segment[0] == first);
            assert(met =~= seq![visit] + behind_met);
            lemma_count_concat(seq![visit], behind_met, walk.policy, walk.remaining);
            lemma_count_single(visit, walk.policy, walk.remaining);
            if stop < entries.len() {
                assert(entries.skip(stop + 1) =~= behind_entries.skip(behind_stop + 1));
                assert(entries[stop] == behind_entries[behind_stop]);
            }
        },
    }
}

/// A step spends budget and never gains any: what was counted and what the
/// budget still allows add up to the same after the step as before, and a
/// count that ends well has not counted more than that sum.
pub proof fn lemma_count_step_keeps_budget(
    walk: CountWalkView,
    reply: Result<Seq<EntryView>, Seq<char>>,
)
    ensures
        match count_step(walk, reply) {
            CountStepView::Next(next, _) => next.remaining <= walk.remaining && next.counted
                + next.remaining == walk.counted + walk.remaining,
            CountStepView::Done(Ok(counted)) => walk.counted <= counted <= walk.counted
                + walk.remaining,
            CountStepView::Done(Err(_)) => true,
        },
{
    let entries = reply_entries(reply) + walk.pending;
    let stop = reach(entries, walk.recursive);
    let met = reply_visits(reply) + flat_visits(entries.take(stop));
    lemma_count_succeeds(met, walk.policy, walk.remaining);
}

/// The result with which a count ends when each of its requests is
/// answered from a tree. `trees` are the trees under the entries that are
/// pending, and `root` is the listing that the count is waiting for.
pub open spec fn count_run(
    walk: CountWalkView,
    trees: Seq<NodeView>,
    root: Result<Seq<NodeView>, Seq<char>>,
) -> Result<nat, ErrorView>
    recommends
        walk.pending == node_entries(trees),
    decreases weight(trees) + listing_weight(root),
{
    match count_step(walk, answer(root)) {
        CountStepView::Done(result) => result,
        CountStepView::Next(next, _) => {
            let all = listed(root) + trees;
            let stop = reach(node_entries(all), walk.recursive);
            if 0 <= stop < all.len() {
                proof {
                    lemma_weight_concat(listed(root), trees);
                    lemma_weight_behind(all, stop);
                }
                count_run(next, all.skip(stop + 1), all[stop].listing)
            } else {
                arbitrary()
            }
        },
    }
}

/// One step of a count that is answered from a tree leaves the result that
/// the whole count is going to have as it was: the count so far and what
/// the budget still allows, applied to the visits that lie ahead.
pub proof fn lemma_count_step_on_tree(
    walk: CountWalkView,
    trees: Seq<NodeView>,
    root: Result<Seq<NodeView>, Seq<char>>,
)
    requires
        walk.pending == node_entries(trees),
    ensures
        ({
            let ahead = listing_visits(root, walk.recursive) + visits(trees, walk.recursive);
            let goal = count_from(walk.counted, count_outcome(ahead, walk.policy, walk.remaining));
            let all = listed(root) + trees;
            let stop = reach(node_entries(all), walk.recursive);
            match count_step(walk, answer(root)) {
                CountStepView::Done(result) => result == goal,
                CountStepView::Next(next, path) => {
                    &&& 0 <= stop < all.len()
                    &&& path == all[stop].entry.path
                    &&& next.pending == node_entries(all.skip(stop + 1))
                    &&& next.recursive == walk.recursive
                    &&& next.policy == walk.policy
                    &&& goal == count_from(
                        next.counted,
                        count_outcome(
                            listing_visits(all[stop].listing, walk.recursive) + visits(
                                all.skip(stop + 1),
                                walk.recursive,
                            ),
                            next.policy,
                            next.remaining,
                        ),
                    )
                },
            }
        }),
{
    let recursive = walk.recursive;
    let all = listed(root) + trees;
    let entries = reply_entries(answer(root)) + walk.pending;
    let stop = reach(entries, recursive);
    let met = reply_visits(answer(root)) + flat_visits(entries.take(stop));
    let tail = if stop < all.len() {
        listing_visits(all[stop].listing, recursive) + visits(all.skip(stop + 1), recursive)
    } else {
        Seq::<Visit>::empty()
    };
    lemma_visits_ahead(trees, root, recursive);
    lemma_count_concat(met, tail, walk.policy, walk.remaining);
    if stop < all.len() {
        assert(entries.skip(stop + 1) =~= node_entries(all.skip(stop + 1)));
    }
}

/// A count that is answered from a tree ends with what the count of the
/// tree's visits gives.
pub proof fn lemma_count_run(
    walk: CountWalkView,
    trees: Seq<NodeView>,
    root: Result<Seq<NodeView>, Seq<char>>,
)
    requires
        walk.pending == node_entries(trees),
    ensures
        count_run(walk, trees, root) == count_from(
            walk.counted,
            count_outcome(
                listing_visits(root, walk.recursive) + visits(trees, walk.recursive),
                walk.policy,
                walk.remaining,
            ),
        ),
    decreases weight(trees) + listing_weight(root),
{
    lemma_count_step_on_tree(walk, trees, root);
    match count_step(walk, answer(root)) {
        CountStepView::Done(_) => {},
        CountStepView::Next(next, _) => {
            let all = listed(root) + trees;
            let stop = reach(node_entries(all), walk.recursive);
            lemma_weight_concat(listed(root), trees);
            lemma_weight_behind(all, stop);
            lemma_count_run(next, all.skip(stop + 1), all[stop].listing);
        },
    }
}

/// A count that begins at the root of a tree and is answered from the tree
/// ends with the count of the tree's visits, added to what it started from.
pub proof fn lemma_count_walk_counts_tree(
    recursive: bool,
    policy: Policy,
    max: nat,
    start: nat,
    root: Result<Seq<NodeView>, Seq<char>>,
)
    ensures
        count_run(
            CountWalkView { pending: Seq::empty(), recursive, policy, remaining: max, counted: start },
            Seq::empty(),
            root,
        ) == count_from(start, count_outcome(listing_visits(root, recursive), policy, max)),
{
    let walk = CountWalkView {
        pending: Seq::empty(),
        recursive,
        policy,
        remaining: max,
        counted: start,
    };
    let none = Seq::<NodeView>::empty();
    assert(walk.pending =~= node_entries(none));
    lemma_count_run(walk, none, root);
    assert(listing_visits(root, recursive) + visits(none, recursive) =~= listing_visits(
        root,
        recursive,
    ));
}

/// How much of the budget `max` a count that goes on from `start` can
/// use: all of it, or where `start + max` is more than the machine's
/// numbers hold, what is left up to the largest of them.
pub open spec fn usable_budget(max: nat, start: nat) -> nat {
    if start + max <= usize::MAX {
        max
    } else {
        (usize::MAX - start) as nat
    }
}

impl CountWalk {
    #[verifier::type_invariant]
    spec fn within_bounds(self) -> bool {
        self.counted + self.remaining <= usize::MAX
    }

    /// A count that has met nothing yet. It goes on from `start`, may meet
    /// `max` regular files, and is waiting for the listing of the root
    /// directory.
    pub fn begin(recursive: bool, policy: Policy, max: usize, start: usize) -> (walk: CountWalk)
        requires
            start + max <= usize::MAX,
        ensures
            walk@ == (CountWalkView {
                pending: Seq::empty(),
                recursive,
                policy,
                remaining: max as nat,
                counted: start as nat,
            }),
    {
        CountWalk { pending: Pending::new(), recursive, policy, remaining: max, counted: start }
    }

    /// A count as `begin` gives it, for any `max` and `start`: where a
    /// count of `start + max` would not fit the machine's numbers, the
    /// budget is cut to what fits.
    pub fn begin_within(recursive: bool, policy: Policy, max: usize, start: usize) -> (walk:
        CountWalk)
        ensures
            walk@ == (CountWalkView {
                pending: Seq::empty(),
                recursive,
                policy,
                remaining: usable_budget(max as nat, start as nat),
                counted: start as nat,
            }),
    {
        let room = usize::MAX - start;
        let budget = if max <= room {
            max
        } else {
            room
        };
        CountWalk::begin(recursive, policy, budget, start)
    }

    /// Takes the listing that the count was waiting for and goes on until
    /// it needs the next one or ends.
    pub fn resume(self, reply: Reply) -> (step: CountStep)
        ensures
            step@ == count_step(self@, reply_view(reply)),
    {
        proof {
            use_type_invariant(&self);
            lemma_count_step_reply(self@, reply_view(reply));
        }
        let ghost before = self@;
        let ghost given = reply_view(reply);
        let recursive = self.recursive;
        let policy = self.policy;
        let mut remaining = self.remaining;
        let mut counted = self.counted;
        let mut pending = self.pending;
        match reply {
            Err(message) => {
                return CountStep::Done(Err(Error::Io(message)));
            },
            Ok(entries) => {
                pending.put_first(entries);
            },
        }
        loop
            invariant
                before == self@,
                given == reply_view(reply),
                counted + remaining <= usize::MAX,
                count_step(before, given) == count_on(
                    CountWalkView {
                        pending: pending@,
                        recursive,
                        policy,
                        remaining: remaining as nat,
                        counted: counted as nat,
                    },
                ),
            decreases pending@.len(),
        {
            let ghost now = CountWalkView {
                pending: pending@,
                recursive,
                policy,
                remaining: remaining as nat,
                counted: counted as nat,
            };
            match pending.take_first() {
                None => {
                    proof {
                        lemma_count_on_nothing(now);
                    }
                    return CountStep::Done(Ok(counted));
                },
                Some(entry) => {
                    proof {
                        lemma_count_on_first(now);
                    }
                    match entry.metadata {
                        Err(message) => {
                            if policy.unreadable_fails {
                                return CountStep::Done(Err(Error::Io(message)));
                            }
                        },
                        Ok(metadata) => match metadata.kind {
                            EntryKind::RegularFile => {
                                if remaining == 0 {
                                    return CountStep::Done(Err(Error::BudgetExceeded));
                                }
                                remaining = remaining - 1;
                                counted = counted + 1;
                            },
                            EntryKind::Other => {
                                if policy.other_fails {
                                    return CountStep::Done(Err(Error::UnsupportedEntry));
                                }
                            },
                            EntryKind::Directory => {
                                if recursive {
                                    let walk = CountWalk {
                                        pending,
                                        recursive,
                                        policy,
                                        remaining,
                                        counted,
                                    };
                                    return CountStep::Next(walk, entry.path);
                                }
                            },
                        },
                    }
                },
            }
        }
    }
}

} // verus!
