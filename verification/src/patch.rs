//! The diff engine's output type: added, removed and updated entries, with
//! three-state property deltas (set, clear, or absent meaning no change).

use vstd::prelude::*;
use crate::instance::InstanceSnapshot;
use crate::variant::{InstanceId, Variant};

verus! {

/// One property's change: `Overwrite` replaces the property with a new value;
/// `Clear` reverts it to its default/unset state. A property absent from a
/// delta map is unchanged — distinct from `Clear`.
pub enum PropertyDelta {
    /// Overwrite the property with this value.
    Overwrite(Variant),
    /// Remove the property, reverting it to the format's default.
    Clear,
}

/// A delta map: property name to its change.
pub type DeltaMap = Vec<(String, PropertyDelta)>;

/// Property deltas for one existing instance.
pub struct UpdatedInstance {
    /// The instance the deltas apply to.
    pub id: InstanceId,
    /// Name to change; absence from this map means no change.
    pub changed_properties: DeltaMap,
}

/// One subtree to insert: the parent it goes under and the full desired
/// subtree, which needs no further diffing.
pub struct AddedInstance {
    /// The identifier of the parent to insert under.
    pub parent_id: InstanceId,
    /// The full desired subtree.
    pub snapshot: InstanceSnapshot,
}

/// A patch: the minimal delta between a desired snapshot and a current tree.
/// `added_instances` is ordered top-down so a parent always precedes its
/// children; each `removed_instances` entry implies its whole descendant
/// subtree and never overlaps `updated_instances` in one patch.
pub struct PatchSet {
    /// Subtrees to insert, in top-down order.
    pub added_instances: Vec<AddedInstance>,
    /// Identifiers whose subtrees are to be deleted.
    pub removed_instances: Vec<InstanceId>,
    /// Per-instance property deltas.
    pub updated_instances: Vec<UpdatedInstance>,
}

impl PatchSet {
    /// A patch that changes nothing.
    pub fn new() -> (r: PatchSet)
        ensures
            r.added_instances@.len() == 0,
            r.removed_instances@.len() == 0,
            r.updated_instances@.len() == 0,
    {
        PatchSet {
            added_instances: Vec::new(),
            removed_instances: Vec::new(),
            updated_instances: Vec::new(),
        }
    }

    /// Whether this patch changes nothing at all.
    pub open spec fn spec_is_empty(self) -> bool {
        self.added_instances@.len() == 0 && self.removed_instances@.len() == 0
            && self.updated_instances@.len() == 0
    }

    /// Decides whether this patch changes nothing at all.
    pub fn is_empty(&self) -> (r: bool)
        ensures
            r == self.spec_is_empty(),
    {
        self.added_instances.len() == 0 && self.removed_instances.len() == 0
            && self.updated_instances.len() == 0
    }
}

} // verus!
