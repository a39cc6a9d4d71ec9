//! The order in which a directory's entries are listed decides the order
//! of what is found, and nothing else.

use vstd::prelude::*;
use vstd::seq_lib::lemma_multiset_commutative;
use crate::entry::is_directory;
use crate::entry::NodeView;
use crate::visit::count_outcome;
use crate::visit::files_in;
use crate::visit::first_fault;
use crate::visit::lemma_files_in_concat;
use crate::visit::lemma_first_fault;
use crate::visit::lemma_first_fault_concat;
use crate::visit::lemma_visits_concat;
use crate::visit::list_outcome;
use crate::visit::listing_visits;
use crate::visit::node_visits;
use crate::visit::visits;
use crate::visit::Policy;
use crate::visit::Visit;

verus! {

/// Whether the listing `second` holds what `first` holds, in whatever
/// order, and the same is so of the listing of each directory in them.
pub open spec fn rearranged(first: Seq<NodeView>, second: Seq<NodeView>) -> bool
    decreases first,
{
    if first.len() == 0 {
        second.len() == 0
    } else {
        exists|j: int|
            0 <= j < second.len() && alike(first[0], #[trigger] second[j]) && rearranged(
                first.drop_first(),
                second.remove(j),
            )
    }
}

/// Whether two nodes are the same entry and, where that is a directory,
/// list alike.
pub open spec fn alike(first: NodeView, second: NodeView) -> bool
    decreases first,
{
    first.entry == second.entry && (is_directory(first.entry) ==> alike_listing(
        first.listing,
        second.listing,
    ))
}

/// Whether two listings failed with the same message, or hold the same in
/// whatever order.
pub open spec fn alike_listing(
    first: Result<Seq<NodeView>, Seq<char>>,
    second: Result<Seq<NodeView>, Seq<char>>,
) -> bool
    decreases first,
{
    match first {
        Ok(nodes) => second is Ok && rearranged(nodes, second->Ok_0),
        Err(message) => second == Err::<Seq<NodeView>, Seq<char>>(message),
    }
}

/// Every listing holds what it holds.
pub proof fn lemma_rearranged_itself(nodes: Seq<NodeView>)
    ensures
        rearranged(nodes, nodes),
    decreases nodes,
{
    if nodes.len() > 0 {
        lemma_alike_itself(nodes[0]);
        lemma_rearranged_itself(nodes.drop_first());
        assert(nodes.remove(0) =~= nodes.drop_first());
        assert(alike(nodes[0], nodes[0]) && rearranged(nodes.drop_first(), nodes.remove(0)));
    }
}

/// Every node is like itself.
pub proof fn lemma_alike_itself(node: NodeView)
    ensures
        alike(node, node),
    decreases node,
{
    if is_directory(node.entry) && node.listing is Ok {
        lemma_rearranged_itself(node.listing->Ok_0);
    }
}

/// Whether a traversal that meets `visits` ends on a fault.
pub open spec fn has_fault(visits: Seq<Visit>, policy: Policy) -> bool {
    first_fault(visits, policy) < visits.len()
}

/// What two sequences of visits have in common when they differ by order
/// only: the same regular files, each as often, and a fault in both or in
/// neither.
pub open spec fn same_finds(first: Seq<Visit>, second: Seq<Visit>, policy: Policy) -> bool {
    &&& files_in(first).to_multiset() == files_in(second).to_multiset()
    &&& has_fault(first, policy) == has_fault(second, policy)
}

/// The finds of a concatenation are those of its parts together.
proof fn lemma_finds_concat(front: Seq<Visit>, back: Seq<Visit>, policy: Policy)
    ensures
        files_in(front + back).to_multiset() == files_in(front).to_multiset().add(
            files_in(back).to_multiset(),
        ),
        has_fault(front + back, policy) == (has_fault(front, policy) || has_fault(back, policy)),
{
    lemma_files_in_concat(front, back);
    lemma_multiset_commutative(files_in(front), files_in(back));
    lemma_first_fault(front, policy);
    lemma_first_fault(back, policy);
    lemma_first_fault_concat(front, back, policy);
}

/// The finds of a listing are those of one of its nodes together with
/// those of the listing without that node.
proof fn lemma_finds_remove(nodes: Seq<NodeView>, at: int, recursive: bool, policy: Policy)
    requires
        0 <= at < nodes.len(),
    ensures
        files_in(visits(nodes, recursive)).to_multiset() == files_in(
            node_visits(nodes[at], recursive),
        ).to_multiset().add(files_in(visits(nodes.remove(at), recursive)).to_multiset()),
        has_fault(visits(nodes, recursive), policy) == (has_fault(
            node_visits(nodes[at], recursive),
            policy,
        ) || has_fault(visits(nodes.remove(at), recursive), policy)),
{
    let front = nodes.take(at);
    let behind = nodes.skip(at);
    let back = nodes.skip(at + 1);
    let here = node_visits(nodes[at], recursive);
    assert(nodes =~= front + behind);
    assert(nodes.remove(at) =~= front + back);
    assert(behind[0] == nodes[at]);
    assert(behind.drop_first() =~= back);
    assert(visits(behind, recursive) == here + visits(back, recursive));
    lemma_visits_concat(front, behind, recursive);
    lemma_visits_concat(front, back, recursive);
    lemma_finds_concat(here, visits(back, recursive), policy);
    lemma_finds_concat(visits(front, recursive), visits(behind, recursive), policy);
    lemma_finds_concat(visits(front, recursive), visits(back, recursive), policy);
    let a = files_in(visits(front, recursive)).to_multiset();
    let b = files_in(here).to_multiset();
    let c = files_in(visits(back, recursive)).to_multiset();
    assert(a.add(b.add(c)) =~= b.add(a.add(c)));
}

/// Listings that hold the same in whatever order lead a traversal to the
/// same regular files, and to a fault in both or in neither.
pub proof fn lemma_rearranged_finds(
    first: Seq<NodeView>,
    second: Seq<NodeView>,
    recursive: bool,
    policy: Policy,
)
    requires
        rearranged(first, second),
    ensures
        same_finds(visits(first, recursive), visits(second, recursive), policy),
    decreases first,
{
    if first.len() == 0 {
        assert(second =~= Seq::<NodeView>::empty());
    } else {
        let j = choose|j: int|
            0 <= j < second.len() && alike(first[0], #[trigger] second[j]) && rearranged(
                first.drop_first(),
                second.remove(j),
            );
        lemma_alike_finds(first[0], second[j], recursive, policy);
        lemma_rearranged_finds(first.drop_first(), second.remove(j), recursive, policy);
        lemma_finds_concat(
            node_visits(first[0], recursive),
            visits(first.drop_first(), recursive),
            policy,
        );
        lemma_finds_remove(second, j, recursive, policy);
    }
}

/// Nodes that are alike lead a traversal to the same regular files, and to
/// a fault in both or in neither.
proof fn lemma_alike_finds(first: NodeView, second: NodeView, recursive: bool, policy: Policy)
    requires
        alike(first, second),
    ensures
        same_finds(node_visits(first, recursive), node_visits(second, recursive), policy),
    decreases first,
{
    if is_directory(first.entry) && recursive {
        assert(alike_listing(first.listing, second.listing));
        if first.listing is Ok {
            lemma_rearranged_finds(first.listing->Ok_0, second.listing->Ok_0, recursive, policy);
        }
    }
}

/// Where two listings of a tree differ only by the order in which each
/// directory's entries came, a listing succeeds on both or on neither, and
/// where it succeeds it returns the same descriptors, each as often,
/// whatever their order.
pub proof fn lemma_listing_ignores_order(
    first: Result<Seq<NodeView>, Seq<char>>,
    second: Result<Seq<NodeView>, Seq<char>>,
    recursive: bool,
    policy: Policy,
)
    requires
        alike_listing(first, second),
    ensures
        list_outcome(listing_visits(first, recursive), policy) is Ok <==> list_outcome(
            listing_visits(second, recursive),
            policy,
        ) is Ok,
        list_outcome(listing_visits(first, recursive), policy) is Ok ==> list_outcome(
            listing_visits(first, recursive),
            policy,
        )->Ok_0.to_multiset() == list_outcome(
            listing_visits(second, recursive),
            policy,
        )->Ok_0.to_multiset(),
{
    if first is Ok {
        lemma_rearranged_finds(first->Ok_0, second->Ok_0, recursive, policy);
    }
    lemma_first_fault(listing_visits(first, recursive), policy);
    lemma_first_fault(listing_visits(second, recursive), policy);
}

/// Where two listings of a tree differ only by the order in which each
/// directory's entries came, a count that succeeds on one succeeds on the
/// other, with the same number.
pub proof fn lemma_count_ignores_order(
    first: Result<Seq<NodeView>, Seq<char>>,
    second: Result<Seq<NodeView>, Seq<char>>,
    recursive: bool,
    policy: Policy,
    max: nat,
)
    requires
        alike_listing(first, second),
        count_outcome(listing_visits(first, recursive), policy, max) is Ok,
    ensures
        count_outcome(listing_visits(second, recursive), policy, max) == count_outcome(
            listing_visits(first, recursive),
            policy,
            max,
        ),
{
    let met = listing_visits(first, recursive);
    let other = listing_visits(second, recursive);
    if first is Ok {
        lemma_rearranged_finds(first->Ok_0, second->Ok_0, recursive, policy);
    }
    lemma_first_fault(met, policy);
    lemma_first_fault(other, policy);
    assert(met.take(met.len() as int) =~= met);
    assert(other.take(other.len() as int) =~= other);
    files_in(met).to_multiset_ensures();
    files_in(other).to_multiset_ensures();
}

} // verus!
