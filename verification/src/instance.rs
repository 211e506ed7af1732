//! Instances and snapshots: the tree node type and the immutable, detached
//! description of a prospective subtree that the diff engine consumes.

use vstd::prelude::*;
use crate::props::{PropMap, assoc_wf, copy_props};
use crate::variant::InstanceId;

verus! {

/// Out-of-band data carried per node, not part of the serializable tree.
pub struct InstanceMetadata {
    /// When true, the diff engine must not propose removing this instance
    /// even though it is absent from the desired side.
    pub ignore_unknown_instances: bool,
    /// The project source path this node was produced from, when known; the
    /// resolver's correlation key.
    pub source_path: Option<String>,
}

impl InstanceMetadata {
    /// Metadata for a node the project fully manages.
    pub fn new() -> (r: InstanceMetadata)
        ensures
            !r.ignore_unknown_instances,
            r.source_path is None,
    {
        InstanceMetadata { ignore_unknown_instances: false, source_path: None }
    }

    /// A copy with the same tolerance flag and source path characters.
    pub fn duplicate(&self) -> (r: InstanceMetadata)
        ensures
            r.ignore_unknown_instances == self.ignore_unknown_instances,
            r.source_path is Some <==> self.source_path is Some,
            self.source_path matches Some(p) ==> r.source_path matches Some(q) && p@ == q@,
    {
        InstanceMetadata {
            ignore_unknown_instances: self.ignore_unknown_instances,
            source_path: match &self.source_path {
                Some(p) => Some(p.clone()),
                None => None,
            },
        }
    }
}

/// A live tree node: class tag, display name, property map, ordered children
/// and a back-reference to its parent (absent only for the tree root).
pub struct Instance {
    /// The class tag describing platform semantics.
    pub class_name: String,
    /// The display name.
    pub name: String,
    /// Property name to value.
    pub properties: PropMap,
    /// Ordered child identifiers; order is significant.
    pub children: Vec<InstanceId>,
    /// The parent identifier; `None` only for the tree root.
    pub parent: Option<InstanceId>,
    /// Out-of-band metadata.
    pub metadata: InstanceMetadata,
}

/// An immutable, detached description of a prospective instance subtree.
/// It has no identifier of its own; identifiers are assigned only when it is
/// attached to a tree.
pub struct InstanceSnapshot {
    /// The class tag.
    pub class_name: String,
    /// The display name.
    pub name: String,
    /// Property name to value.
    pub properties: PropMap,
    /// Ordered child snapshots.
    pub children: Vec<InstanceSnapshot>,
    /// Out-of-band metadata.
    pub metadata: InstanceMetadata,
}

impl InstanceSnapshot {
    /// The snapshot's property map has distinct keys, recursively.
    pub open spec fn wf(self) -> bool
        decreases self,
    {
        &&& assoc_wf(self.properties@)
        &&& forall|i: int|
            #![trigger self.children@[i]]
            0 <= i < self.children@.len() ==> self.children@[i].wf()
    }

    /// A leaf snapshot with no properties and no children.
    pub fn leaf(class_name: String, name: String) -> (r: InstanceSnapshot)
        ensures
            r.wf(),
            r.class_name@ == class_name@,
            r.name@ == name@,
            r.properties@.len() == 0,
            r.children@.len() == 0,
            !r.metadata.ignore_unknown_instances,
    {
        let r = InstanceSnapshot {
            class_name,
            name,
            properties: Vec::new(),
            children: Vec::new(),
            metadata: InstanceMetadata::new(),
        };
        proof {
            assert(r.children@.len() == 0);
        }
        r
    }
}

/// An instance built from the fields of a snapshot's root, with the given
/// parent and children.
pub fn instance_from_snapshot(
    snap: &InstanceSnapshot,
    parent: Option<InstanceId>,
) -> (r: Instance)
    ensures
        r.class_name@ == snap.class_name@,
        r.name@ == snap.name@,
        r.properties@.len() == snap.properties@.len(),
        forall|i: int| 0 <= i < snap.properties@.len() ==> r.properties@[i].0@
            == snap.properties@[i].0@ && crate::variant::vareq(
            snap.properties@[i].1,
            r.properties@[i].1,
        ),
        r.children@.len() == 0,
        r.parent == parent,
        r.metadata.ignore_unknown_instances == snap.metadata.ignore_unknown_instances,
{
    Instance {
        class_name: snap.class_name.clone(),
        name: snap.name.clone(),
        properties: copy_props(&snap.properties),
        children: Vec::new(),
        parent,
        metadata: snap.metadata.duplicate(),
    }
}


/// The two snapshots describe the same subtree: equal class, name and
/// property names, equivalent property values, the same tolerance flag, and
/// equivalent children pairwise — at every depth.
pub open spec fn snap_equiv(a: InstanceSnapshot, b: InstanceSnapshot) -> bool
    decreases a,
{
    &&& a.class_name@ == b.class_name@
    &&& a.name@ == b.name@
    &&& a.properties@.len() == b.properties@.len()
    &&& (forall|i: int|
        0 <= i < a.properties@.len() ==> (#[trigger] a.properties@[i]).0@ == b.properties@[i].0@
            && crate::variant::vareq(a.properties@[i].1, b.properties@[i].1))
    &&& a.metadata.ignore_unknown_instances == b.metadata.ignore_unknown_instances
    &&& a.children@.len() == b.children@.len()
    &&& (forall|i: int|
        #![trigger a.children@[i]]
        0 <= i < a.children@.len() ==> snap_equiv(a.children@[i], b.children@[i]))
}

impl InstanceSnapshot {
    /// A copy of this snapshot, equivalent to it at every depth.
    pub fn duplicate(&self) -> (r: InstanceSnapshot)
        requires
            self.wf(),
        ensures
            r.wf(),
            snap_equiv(*self, r),
            r.class_name@ == self.class_name@,
            r.name@ == self.name@,
            r.children@.len() == self.children@.len(),
            r.properties@.len() == self.properties@.len(),
            forall|i: int| 0 <= i < self.properties@.len() ==> (#[trigger] r.properties@[i]).0@
                == self.properties@[i].0@ && crate::variant::vareq(
                self.properties@[i].1,
                r.properties@[i].1,
            ),
            r.metadata.ignore_unknown_instances == self.metadata.ignore_unknown_instances,
        decreases *self,
    {
        let props = copy_props(&self.properties);
        proof {
            assert forall|i2: int, j2: int| 0 <= i2 < j2 < props@.len() implies props@[i2].0@
                != props@[j2].0@ by {
                assert(props@[i2].0@ == self.properties@[i2].0@);
                assert(props@[j2].0@ == self.properties@[j2].0@);
            }
        }
        let mut children: Vec<InstanceSnapshot> = Vec::new();
        let mut i: usize = 0;
        while i < self.children.len()
            invariant
                self.wf(),
                i <= self.children@.len(),
                children@.len() == i,
                forall|j: int|
                    #![trigger children@[j]]
                    0 <= j < i ==> children@[j].wf(),
                forall|j: int|
                    #![trigger children@[j]]
                    0 <= j < i ==> snap_equiv(self.children@[j], children@[j]),
            decreases self.children@.len() - i,
        {
            let child = &self.children[i];
            proof {
                assert(self.children@[i as int].wf());
            }
            let copy = child.duplicate();
            children.push(copy);
            i = i + 1;
        }
        let r = InstanceSnapshot {
            class_name: self.class_name.clone(),
            name: self.name.clone(),
            properties: props,
            children,
            metadata: self.metadata.duplicate(),
        };
        proof {
            assert forall|j: int|
                #![trigger self.children@[j]]
                0 <= j < self.children@.len() implies snap_equiv(
                self.children@[j],
                r.children@[j],
            ) by {
                assert(snap_equiv(self.children@[j], r.children@[j]));
            }
            assert(snap_equiv(*self, r));
        }
        r
    }
}


impl InstanceSnapshot {
    /// Decides the well-formedness invariant: the executable check for
    /// snapshots built outside the library, before they are handed to the
    /// diff engine.
    pub fn check_wf(&self) -> (r: bool)
        ensures
            r == self.wf(),
        decreases *self,
    {
        if !crate::props::assoc_keys_distinct(&self.properties) {
            return false;
        }
        let mut i: usize = 0;
        while i < self.children.len()
            invariant
                assoc_wf(self.properties@),
                i <= self.children@.len(),
                forall|j: int|
                    #![trigger self.children@[j]]
                    0 <= j < i ==> self.children@[j].wf(),
            decreases self.children@.len() - i,
        {
            let child = &self.children[i];
            if !child.check_wf() {
                proof {
                    assert(!self.children@[i as int].wf());
                }
                return false;
            }
            i = i + 1;
        }
        proof {
            assert(self.wf());
        }
        true
    }
}

} // verus!
