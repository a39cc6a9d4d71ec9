//! A walk that is answered from a tree goes through the tree's visits.

use vstd::prelude::*;
use crate::entry::is_directory;
use crate::entry::EntryView;
use crate::entry::NodeView;
use crate::visit::entry_visit;
use crate::visit::lemma_visits_concat;
use crate::visit::listing_visits;
use crate::visit::node_visits;
use crate::visit::visits;
use crate::visit::Visit;
use crate::walk::flat_visits;
use crate::walk::lemma_next_directory;
use crate::walk::reach;
use crate::walk::reply_entries;
use crate::walk::reply_visits;

verus! {

/// The entries at the top of a sequence of nodes.
pub open spec fn node_entries(nodes: Seq<NodeView>) -> Seq<EntryView> {
    Seq::new(nodes.len(), |i: int| nodes[i].entry)
}

/// The reply that a tree gives to the request to list one of its
/// directories: the entries of the listing without what lies under them.
pub open spec fn answer(listing: Result<Seq<NodeView>, Seq<char>>) -> Result<
    Seq<EntryView>,
    Seq<char>,
> {
    match listing {
        Ok(nodes) => Ok(node_entries(nodes)),
        Err(message) => Err(message),
    }
}

/// The nodes that a listing brings: none where it failed.
pub open spec fn listed(listing: Result<Seq<NodeView>, Seq<char>>) -> Seq<NodeView> {
    match listing {
        Ok(nodes) => nodes,
        Err(_) => Seq::empty(),
    }
}

/// The number of nodes in a sequence of trees.
pub open spec fn weight(nodes: Seq<NodeView>) -> nat
    decreases nodes,
{
    if nodes.len() == 0 {
        0
    } else {
        1 + listing_weight(nodes[0].listing) + weight(nodes.drop_first())
    }
}

/// The number of nodes that a listing brings, with all that lies under them.
pub open spec fn listing_weight(listing: Result<Seq<NodeView>, Seq<char>>) -> nat
    decreases listing,
{
    match listing {
        Ok(nodes) => weight(nodes),
        Err(_) => 0,
    }
}

/// The weight of a concatenation is the sum of the weights.
pub proof fn lemma_weight_concat(front: Seq<NodeView>, back: Seq<NodeView>)
    ensures
        weight(front + back) == weight(front) + weight(back),
    decreases front.len(),
{
    let whole = front + back;
    if front.len() == 0 {
        assert(whole =~= back);
    } else {
        lemma_weight_concat(front.drop_first(), back);
        assert(whole.drop_first() =~= front.drop_first() + back);
        assert(whole[0] == front[0]);
    }
}

/// A node and what follows it weigh less than the whole sequence.
pub proof fn lemma_weight_behind(nodes: Seq<NodeView>, at: int)
    requires
        0 <= at < nodes.len(),
    ensures
        1 + listing_weight(nodes[at].listing) + weight(nodes.skip(at + 1)) <= weight(nodes),
{
    let behind = nodes.skip(at);
    assert(nodes =~= nodes.take(at) + behind);
    lemma_weight_concat(nodes.take(at), behind);
    assert(behind[0] == nodes[at]);
    assert(behind.drop_first() =~= nodes.skip(at + 1));
}

/// The visits of a sequence of trees, split where a walk has to stop: the
/// visits of the entries before the first directory to enter, then what
/// that directory's listing gives, then the visits of the trees behind it.
pub proof fn lemma_visits_split(nodes: Seq<NodeView>, recursive: bool)
    ensures
        ({
            let entries = node_entries(nodes);
            let stop = reach(entries, recursive);
            &&& 0 <= stop <= nodes.len()
            &&& stop < nodes.len() ==> recursive && is_directory(nodes[stop].entry)
            &&& visits(nodes, recursive) == flat_visits(entries.take(stop)) + if stop
                < nodes.len() {
                listing_visits(nodes[stop].listing, recursive) + visits(
                    nodes.skip(stop + 1),
                    recursive,
                )
            } else {
                Seq::empty()
            }
        }),
    decreases nodes.len(),
{
    let entries = node_entries(nodes);
    let stop = reach(entries, recursive);
    let none = Seq::<Visit>::empty();
    lemma_next_directory(entries);
    if nodes.len() == 0 {
        assert(entries.take(stop) =~= Seq::<EntryView>::empty());
        assert(none + none =~= none);
    } else {
        let behind = nodes.drop_first();
        let behind_entries = node_entries(behind);
        let behind_stop = reach(behind_entries, recursive);
        lemma_visits_split(behind, recursive);
        lemma_next_directory(behind_entries);
        assert(entries.drop_first() =~= behind_entries);
        assert(entries[0] == nodes[0].entry);
        let tail = if behind_stop < behind.len() {
            listing_visits(behind[behind_stop].listing, recursive) + visits(
                behind.skip(behind_stop + 1),
                recursive,
            )
        } else {
            none
        };
        match entry_visit(nodes[0].entry) {
            None => {
                assert(is_directory(entries[0]));
                if recursive {
                    assert(stop == 0);
                    assert(entries.take(0) =~= Seq::<EntryView>::empty());
                    assert(nodes.skip(1) =~= behind);
                    assert(none + (node_visits(nodes[0], recursive) + visits(behind, recursive))
                        =~= visits(nodes, recursive));
                } else {
                    assert(stop == nodes.len());
                    assert(behind_stop == behind.len());
                    assert(entries.take(stop) =~= entries);
                    assert(behind_entries.take(behind_stop) =~= behind_entries);
                    assert(node_visits(nodes[0], recursive) =~= none);
                    assert(none + visits(behind, recursive) =~= visits(behind, recursive));
                }
            },
            Some(visit) => {
                assert(!is_directory(entries[0]));
                assert(stop == 1 + behind_stop);
                let segment = entries.take(stop);
                assert(segment.drop_first() =~= behind_entries.take(behind_stop));
                assert(segment[0] == entries[0]);
                assert(flat_visits(segment) =~= seq![visit] + flat_visits(
                    behind_entries.take(behind_stop),
                ));
                if stop < nodes.len() {
                    assert(nodes[stop] == behind[behind_stop]);
                    assert(nodes.skip(stop + 1) =~= behind.skip(behind_stop + 1));
                }
                let behind_flat = flat_visits(behind_entries.take(behind_stop));
                assert(node_visits(nodes[0], recursive) == seq![visit]);
                assert(visits(nodes, recursive) == seq![visit] + visits(behind, recursive));
                assert(visits(behind, recursive) == behind_flat + tail);
                assert(seq![visit] + (behind_flat + tail) =~= (seq![visit] + behind_flat) + tail);
            },
        }
    }
}

/// All that a walk has before it when it holds the entries of `trees` and
/// is given the listing `root`, split at the point up to which the next
/// step gets.
pub proof fn lemma_visits_ahead(
    trees: Seq<NodeView>,
    root: Result<Seq<NodeView>, Seq<char>>,
    recursive: bool,
)
    ensures
        ({
            let all = listed(root) + trees;
            let entries = reply_entries(answer(root)) + node_entries(trees);
            let stop = reach(entries, recursive);
            &&& entries == node_entries(all)
            &&& 0 <= stop <= all.len()
            &&& stop < all.len() ==> recursive && is_directory(all[stop].entry)
            &&& listing_visits(root, recursive) + visits(trees, recursive) == (reply_visits(
                answer(root),
            ) + flat_visits(entries.take(stop))) + if stop < all.len() {
                listing_visits(all[stop].listing, recursive) + visits(
                    all.skip(stop + 1),
                    recursive,
                )
            } else {
                Seq::empty()
            }
        }),
{
    let all = listed(root) + trees;
    let entries = reply_entries(answer(root)) + node_entries(trees);
    let stop = reach(entries, recursive);
    assert(entries =~= node_entries(all));
    lemma_visits_split(all, recursive);
    lemma_visits_concat(listed(root), trees, recursive);
    let tail = if stop < all.len() {
        listing_visits(all[stop].listing, recursive) + visits(all.skip(stop + 1), recursive)
    } else {
        Seq::<Visit>::empty()
    };
    let flat = flat_visits(entries.take(stop));
    match root {
        Ok(nodes) => {
            assert(Seq::<Visit>::empty() + flat =~= flat);
        },
        Err(message) => {
            assert(all =~= trees);
            assert(seq![Visit::Unlistable(message)] + (flat + tail) =~= (seq![
                Visit::Unlistable(message),
            ] + flat) + tail);
        },
    }
}

} // verus!
