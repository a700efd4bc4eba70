//! Snapshots: an index as a tree of plain values, as it is written out and
//! read back.

use vstd::prelude::*;
use crate::index::{well_formed, EntryView};

verus! {

/// One node of a snapshot: an entry's values and the nodes under it.
#[derive(Debug, PartialEq, Eq)]
pub struct SnapshotNode {
    pub id: u64,
    pub embedding: Vec<u64>,
    pub label: String,
    pub tally: u32,
    pub children: Vec<SnapshotNode>,
}

/// The values that a snapshot node holds itself.
pub open spec fn node_view(node: SnapshotNode) -> EntryView {
    EntryView { id: node.id, embedding: node.embedding@, label: node.label@, tally: node.tally }
}

/// The entries that a snapshot lists under its root.
pub open spec fn snapshot_entries(root: SnapshotNode) -> Seq<EntryView> {
    root.children@.map_values(|child: SnapshotNode| node_view(child))
}

/// Whether `root` has the shape of a snapshot: the root has id 0, no
/// embedding and no label, and the nodes under it have none under them.
pub open spec fn snapshot_shaped(root: SnapshotNode) -> bool {
    &&& root.id == 0
    &&& root.embedding@.len() == 0
    &&& root.label@.len() == 0
    &&& forall|i: int|
        0 <= i < root.children@.len() ==> (#[trigger] root.children@[i]).children@.len() == 0
}

/// Whether `root` is the snapshot of some index.
pub open spec fn valid_snapshot(root: SnapshotNode) -> bool {
    snapshot_shaped(root) && well_formed(snapshot_entries(root))
}

/// Whether `root` is a snapshot of an index with these entries.
pub open spec fn is_snapshot_of(root: SnapshotNode, entries: Seq<EntryView>) -> bool {
    snapshot_shaped(root) && snapshot_entries(root) == entries
}

/// The entries of the index that loading `root` yields, if it yields one.
pub open spec fn loaded(root: SnapshotNode) -> Option<Seq<EntryView>> {
    if valid_snapshot(root) {
        Some(snapshot_entries(root))
    } else {
        None
    }
}

/// Loading a snapshot of an index yields an index with the same entries:
/// the same ids, embeddings, labels and tallies, in the same order.
pub proof fn lemma_load_restores_snapshot(entries: Seq<EntryView>, root: SnapshotNode)
    requires
        well_formed(entries),
        is_snapshot_of(root, entries),
    ensures
        loaded(root) == Some(entries),
{
}

} // verus!
