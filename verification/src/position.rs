//! The regular files of a tree by the place where they stand, and the
//! proof that a recursive listing holds each of them exactly once.

use vstd::prelude::*;
use crate::entry::is_directory;
use crate::entry::is_regular_file;
use crate::entry::NodeView;
use crate::error::ErrorView;
use crate::item::describe;
use crate::item::FileDescriptor;
use crate::run::listed;
use crate::visit::files_in;
use crate::visit::lemma_files_in_concat;
use crate::visit::lemma_first_fault;
use crate::visit::lemma_list_single;
use crate::visit::list_outcome;
use crate::visit::listing_visits;
use crate::visit::node_visits;
use crate::visit::visits;
use crate::visit::Policy;
use crate::visit::Visit;

verus! {

/// The node at `position`: the first number picks a node among `nodes`,
/// each further number a node in the listing of the directory picked
/// before. `None` where a number is out of range or the way leads through
/// something that is no directory or could not be listed.
pub open spec fn node_at(nodes: Seq<NodeView>, position: Seq<int>) -> Option<NodeView>
    decreases position.len(),
{
    if position.len() == 0 || !(0 <= position[0] < nodes.len()) {
        None
    } else if position.len() == 1 {
        Some(nodes[position[0]])
    } else {
        let node = nodes[position[0]];
        if is_directory(node.entry) && node.listing is Ok {
            node_at(node.listing->Ok_0, position.drop_first())
        } else {
            None
        }
    }
}

/// The descriptor of the regular file at `position`, if one stands there.
pub open spec fn file_at(nodes: Seq<NodeView>, position: Seq<int>) -> Option<FileDescriptor> {
    match node_at(nodes, position) {
        Some(node) => if is_regular_file(node.entry) {
            Some(describe(node.entry, node.entry.metadata->Ok_0.len))
        } else {
            None
        },
        None => None,
    }
}

/// The positions of the regular files that stand at or behind index `from`
/// among `nodes`, or under a directory there, in traversal order.
pub open spec fn positions_from(nodes: Seq<NodeView>, from: int) -> Seq<Seq<int>>
    decreases nodes, nodes.len() - from,
{
    if from < 0 || from >= nodes.len() {
        Seq::empty()
    } else {
        positions_under(nodes[from], from) + positions_from(nodes, from + 1)
    }
}

/// The positions of the regular files that `node`, which stands at `index`
/// in its listing, is or holds.
pub open spec fn positions_under(node: NodeView, index: int) -> Seq<Seq<int>>
    decreases node, 0int,
{
    if is_regular_file(node.entry) {
        seq![seq![index]]
    } else if is_directory(node.entry) && node.listing is Ok {
        below(positions_from(node.listing->Ok_0, 0), index)
    } else {
        Seq::empty()
    }
}

/// Each of `positions` with `index` put before it.
pub open spec fn below(positions: Seq<Seq<int>>, index: int) -> Seq<Seq<int>> {
    Seq::new(positions.len(), |i: int| seq![index] + positions[i])
}

/// What `positions_from` is to the files of a recursive traversal: it has
/// one position for each of them, in the same order; the positions differ
/// from each other; and no regular file stands at any other position.
pub open spec fn one_per_file(nodes: Seq<NodeView>, from: int) -> bool {
    let files = files_in(visits(nodes.skip(from), true));
    let positions = positions_from(nodes, from);
    &&& positions.len() == files.len()
    &&& forall|i: int|
        0 <= i < positions.len() ==> (#[trigger] positions[i]).len() > 0 && positions[i][0] >= from
            && file_at(nodes, positions[i]) == Some(files[i])
    &&& forall|i: int, j: int|
        0 <= i < j < positions.len() ==> #[trigger] positions[i] != #[trigger] positions[j]
    &&& forall|position: Seq<int>|
        position.len() > 0 && position[0] >= from && (#[trigger] file_at(nodes, position))
            is Some ==> positions.contains(position)
}

/// A recursive traversal meets each regular file of a tree exactly once.
pub proof fn lemma_one_per_file(nodes: Seq<NodeView>, from: int)
    requires
        0 <= from <= nodes.len(),
    ensures
        one_per_file(nodes, from),
    decreases nodes, nodes.len() - from,
{
    let files = files_in(visits(nodes.skip(from), true));
    let positions = positions_from(nodes, from);
    if from == nodes.len() {
        assert(nodes.skip(from) =~= Seq::<NodeView>::empty());
        assert forall|position: Seq<int>|
            position.len() > 0 && position[0] >= from && (#[trigger] file_at(nodes, position))
                is Some implies positions.contains(position) by {
            assert(node_at(nodes, position) is None);
        }
    } else {
        let node = nodes[from];
        let behind = nodes.skip(from);
        let head = positions_under(node, from);
        let tail = positions_from(nodes, from + 1);
        let head_files = files_in(node_visits(node, true));
        let tail_files = files_in(visits(nodes.skip(from + 1), true));
        lemma_one_per_file(nodes, from + 1);
        assert(behind[0] == node);
        assert(behind.drop_first() =~= nodes.skip(from + 1));
        assert(visits(behind, true) == node_visits(node, true) + visits(nodes.skip(from + 1), true));
        lemma_files_in_concat(node_visits(node, true), visits(nodes.skip(from + 1), true));
        assert(files == head_files + tail_files);
        assert(positions == head + tail);
        lemma_under(nodes, from);
        assert forall|i: int| 0 <= i < positions.len() implies (#[trigger] positions[i]).len() > 0
            && positions[i][0] >= from && file_at(nodes, positions[i]) == Some(files[i]) by {
            if i < head.len() {
                assert(positions[i] == head[i]);
            } else {
                assert(positions[i] == tail[i - head.len()]);
            }
        }
        assert forall|i: int, j: int| 0 <= i < j < positions.len() implies #[trigger] positions[i]
            != #[trigger] positions[j] by {
            if j < head.len() {
                assert(positions[i] == head[i] && positions[j] == head[j]);
            } else if i >= head.len() {
                assert(positions[i] == tail[i - head.len()]);
                assert(positions[j] == tail[j - head.len()]);
            } else {
                assert(positions[i] == head[i]);
                assert(positions[j] == tail[j - head.len()]);
                assert(positions[i][0] == from);
                assert(positions[j][0] >= from + 1);
            }
        }
        assert forall|position: Seq<int>|
            position.len() > 0 && position[0] >= from && (#[trigger] file_at(nodes, position))
                is Some implies positions.contains(position) by {
            if position[0] == from {
                assert(head.contains(position));
                let i = choose|i: int| 0 <= i < head.len() && head[i] == position;
                assert(positions[i] == position);
            } else {
                assert(tail.contains(position));
                let i = choose|i: int| 0 <= i < tail.len() && tail[i] == position;
                assert(positions[head.len() + i] == position);
            }
        }
    }
}

/// Whether no two nodes of the tree have the same path.
pub open spec fn paths_differ(nodes: Seq<NodeView>) -> bool {
    forall|p: Seq<int>, q: Seq<int>|
        (#[trigger] node_at(nodes, p)) is Some && (#[trigger] node_at(nodes, q)) is Some && p != q
            ==> node_at(nodes, p)->Some_0.entry.path != node_at(nodes, q)->Some_0.entry.path
}

/// A recursive listing that succeeds returns exactly one descriptor for
/// each regular file that can be reached from the root: the files of the
/// listing are, in order, the regular files at the positions that
/// `positions_from` gives; those positions differ from each other; and
/// every position at which a regular file stands is among them.
pub proof fn lemma_listing_has_each_file_once(
    root: Result<Seq<NodeView>, Seq<char>>,
    policy: Policy,
    files: Seq<FileDescriptor>,
)
    requires
        list_outcome(listing_visits(root, true), policy) == Ok::<Seq<FileDescriptor>, ErrorView>(
            files,
        ),
    ensures
        root is Ok,
        ({
            let nodes = listed(root);
            let positions = positions_from(nodes, 0);
            &&& positions.len() == files.len()
            &&& forall|i: int|
                0 <= i < positions.len() ==> file_at(nodes, #[trigger] positions[i]) == Some(
                    files[i],
                )
            &&& forall|i: int, j: int|
                0 <= i < j < positions.len() ==> #[trigger] positions[i] != #[trigger] positions[j]
            &&& forall|position: Seq<int>|
                (#[trigger] file_at(nodes, position)) is Some ==> positions.contains(position)
        }),
{
    let nodes = listed(root);
    let positions = positions_from(nodes, 0);
    lemma_first_fault(listing_visits(root, true), policy);
    lemma_one_per_file(nodes, 0);
    assert(nodes.skip(0) =~= nodes);
    if root is Err {
        lemma_list_single(Visit::Unlistable(root->Err_0), policy);
    }
    assert forall|position: Seq<int>| (#[trigger] file_at(nodes, position)) is Some implies positions.contains(
        position,
    ) by {
        assert(node_at(nodes, position) is Some);
    }
}

/// Where no two nodes of a tree have the same path, no two descriptors of
/// a recursive listing have.
pub proof fn lemma_listed_paths_differ(
    root: Result<Seq<NodeView>, Seq<char>>,
    policy: Policy,
    files: Seq<FileDescriptor>,
)
    requires
        list_outcome(listing_visits(root, true), policy) == Ok::<Seq<FileDescriptor>, ErrorView>(
            files,
        ),
        paths_differ(listed(root)),
    ensures
        forall|i: int, j: int|
            0 <= i < j < files.len() ==> (#[trigger] files[i]).absolute_path
                != (#[trigger] files[j]).absolute_path,
{
    let nodes = listed(root);
    let positions = positions_from(nodes, 0);
    lemma_listing_has_each_file_once(root, policy, files);
    assert forall|i: int, j: int| 0 <= i < j < files.len() implies (#[trigger] files[i]).absolute_path
        != (#[trigger] files[j]).absolute_path by {
        assert(file_at(nodes, positions[i]) == Some(files[i]));
        assert(file_at(nodes, positions[j]) == Some(files[j]));
        assert(positions[i] != positions[j]);
        assert(node_at(nodes, positions[i]) is Some);
        assert(node_at(nodes, positions[j]) is Some);
    }
}

/// What `positions_under` is to the files that a traversal meets at one
/// node: one position for each, all of them beginning with the node's
/// index, all different, and none missing.
proof fn lemma_under(nodes: Seq<NodeView>, index: int)
    requires
        0 <= index < nodes.len(),
    ensures
        ({
            let files = files_in(node_visits(nodes[index], true));
            let positions = positions_under(nodes[index], index);
            &&& positions.len() == files.len()
            &&& forall|i: int|
                0 <= i < positions.len() ==> (#[trigger] positions[i]).len() > 0 && positions[i][0]
                    == index && file_at(nodes, positions[i]) == Some(files[i])
            &&& forall|i: int, j: int|
                0 <= i < j < positions.len() ==> #[trigger] positions[i] != #[trigger] positions[j]
            &&& forall|position: Seq<int>|
                position.len() > 0 && position[0] == index && (#[trigger] file_at(nodes, position))
                    is Some ==> positions.contains(position)
        }),
    decreases nodes, 0int,
{
    let node = nodes[index];
    let met = node_visits(node, true);
    let files = files_in(met);
    let positions = positions_under(node, index);
    let no_file = Seq::<FileDescriptor>::empty();
    if is_regular_file(node.entry) {
        let descriptor = describe(node.entry, node.entry.metadata->Ok_0.len);
        assert(met == seq![Visit::File(descriptor)]);
        assert(met.drop_first() =~= Seq::<Visit>::empty());
        assert(files_in(met.drop_first()) =~= no_file);
        assert(files =~= seq![descriptor]);
        assert(node_at(nodes, seq![index]) == Some(node));
        assert forall|position: Seq<int>|
            position.len() > 0 && position[0] == index && (#[trigger] file_at(nodes, position))
                is Some implies positions.contains(position) by {
            assert(position.len() == 1);
            assert(position =~= seq![index]);
            assert(positions[0] == position);
        }
    } else if is_directory(node.entry) && node.listing is Ok {
        let children = node.listing->Ok_0;
        let inner = positions_from(children, 0);
        lemma_one_per_file(children, 0);
        assert(children.skip(0) =~= children);
        assert(met == visits(children, true));
        assert forall|i: int| 0 <= i < positions.len() implies (#[trigger] positions[i]).len() > 0
            && positions[i][0] == index && file_at(nodes, positions[i]) == Some(files[i]) by {
            assert(inner[i].len() > 0);
            assert(positions[i].drop_first() =~= inner[i]);
            assert(file_at(children, inner[i]) == Some(files[i]));
        }
        assert forall|i: int, j: int| 0 <= i < j < positions.len() implies #[trigger] positions[i]
            != #[trigger] positions[j] by {
            assert(positions[i].drop_first() =~= inner[i]);
            assert(positions[j].drop_first() =~= inner[j]);
        }
        assert forall|position: Seq<int>|
            position.len() > 0 && position[0] == index && (#[trigger] file_at(nodes, position))
                is Some implies positions.contains(position) by {
            assert(position.len() > 1);
            let rest = position.drop_first();
            assert(node_at(nodes, position) == node_at(children, rest));
            assert(file_at(children, rest) is Some);
            assert(inner.contains(rest));
            let i = choose|i: int| 0 <= i < inner.len() && inner[i] == rest;
            assert(positions[i] =~= position);
        }
    } else {
        if is_directory(node.entry) {
            assert(met == seq![Visit::Unlistable(node.listing->Err_0)]);
        }
        if met.len() > 0 {
            assert(met.drop_first() =~= Seq::<Visit>::empty());
            assert(files_in(met.drop_first()) =~= no_file);
        }
        assert(files =~= no_file);
        assert forall|position: Seq<int>|
            position.len() > 0 && position[0] == index && (#[trigger] file_at(nodes, position))
                is Some implies positions.contains(position) by {
            assert(node_at(nodes, position) is None);
        }
    }
}

} // verus!
