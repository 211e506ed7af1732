//! The owned, mutable instance tree: an arena of nodes keyed by identifier.
//! Identifiers are slot indices, allocated fresh on insertion and never
//! reused after deletion; a deleted slot stays empty forever. Children
//! always have larger identifiers than their parent, which makes the tree
//! acyclic by construction.

use vstd::prelude::*;
use vstd::pervasive::VecAdditionalExecFns;
use crate::instance::{Instance, InstanceMetadata, InstanceSnapshot};
use crate::props::{PropMap, assoc_get, assoc_wf, copy_props, lemma_pairwise_assoc_equiv};
use crate::variant::{InstanceId, opt_vareq};

verus! {

broadcast use vstd::std_specs::vec::axiom_vec_index_decreases;

/// The root's identifier: the first slot ever allocated.
pub const ROOT_ID: InstanceId = 0;

/// An owned tree of instances with stable identifier allocation.
pub struct Tree {
    /// Slot `i` holds the instance with identifier `i`, or nothing if that
    /// identifier was deleted.
    pub slots: Vec<Option<Instance>>,
}

impl Tree {
    /// How many identifiers have ever been allocated.
    pub open spec fn spec_len(self) -> int {
        self.slots@.len() as int
    }

    /// Identifier `id` names a live instance.
    pub open spec fn is_live(self, id: int) -> bool {
        0 <= id < self.slots@.len() && self.slots@[id] is Some
    }

    /// The live instance at `id`.
    pub open spec fn node(self, id: int) -> Instance {
        self.slots@[id]->Some_0
    }

    /// The child identifiers of the instance at `id`.
    pub open spec fn kids(self, id: int) -> Seq<InstanceId> {
        self.node(id).children@
    }

    /// Every child edge is downward (parent has the smaller identifier),
    /// points at a live node, and is confirmed by the child's back-reference.
    pub open spec fn wf_children(self) -> bool {
        forall|p: int, k: int|
            self.is_live(p) && 0 <= k < self.kids(p).len() ==> p < #[trigger] self.kids(p)[k]
                as int && (self.kids(p)[k] as int) < self.spec_len() && self.is_live(
                self.kids(p)[k] as int,
            ) && self.node(self.kids(p)[k] as int).parent == Some(p as InstanceId)
    }

    /// Every live non-root node has a live parent with a smaller identifier
    /// whose child list names it.
    pub open spec fn wf_parents(self) -> bool {
        forall|c: int|
            #![trigger self.node(c).parent]
            self.is_live(c) && c != 0 ==> self.node(c).parent is Some && (self.node(
                c,
            ).parent->Some_0 as int) < c && self.is_live(self.node(c).parent->Some_0 as int)
                && self.kids(self.node(c).parent->Some_0 as int).contains(c as InstanceId)
    }

    /// No child list names the same identifier twice.
    pub open spec fn wf_no_dup_children(self) -> bool {
        forall|p: int, k1: int, k2: int|
            #![trigger self.kids(p)[k1], self.kids(p)[k2]]
            self.is_live(p) && 0 <= k1 < k2 < self.kids(p).len() ==> self.kids(p)[k1]
                != self.kids(p)[k2]
    }

    /// Every live node's property map has distinct keys.
    pub open spec fn wf_props(self) -> bool {
        forall|c: int| #[trigger] self.is_live(c) ==> assoc_wf(self.node(c).properties@)
    }

    /// The tree invariant: a live root without parent, downward child edges
    /// confirmed by parent back-references, duplicate-free child lists and
    /// well-formed property maps.
    pub open spec fn wf(self) -> bool {
        &&& self.spec_len() >= 1
        &&& self.is_live(0)
        &&& self.node(0).parent is None
        &&& self.wf_children()
        &&& self.wf_parents()
        &&& self.wf_no_dup_children()
        &&& self.wf_props()
    }

    /// `a` lies in the subtree rooted at `b`: following parent references
    /// upward from `a` reaches `b`.
    pub open spec fn in_subtree(self, a: int, b: int) -> bool
        decreases a,
    {
        if a == b {
            true
        } else if !self.is_live(a) {
            false
        } else {
            match self.node(a).parent {
                Some(pa) => if 0 <= pa as int && (pa as int) < a {
                    self.in_subtree(pa as int, b)
                } else {
                    false
                },
                None => false,
            }
        }
    }

    /// Subtree membership only reaches upward: a member's identifier is at
    /// least the subtree root's.
    pub proof fn lemma_in_subtree_bounds(self, a: int, b: int)
        ensures
            self.in_subtree(a, b) ==> b <= a,
        decreases a,
    {
        if a != b && self.is_live(a) {
            match self.node(a).parent {
                Some(pa) => {
                    if 0 <= pa as int && (pa as int) < a {
                        self.lemma_in_subtree_bounds(pa as int, b);
                    }
                },
                None => {},
            }
        }
    }

    /// A fresh tree holding only its root, built from the root's fields.
    pub fn new(
        class_name: String,
        name: String,
        properties: PropMap,
        metadata: InstanceMetadata,
    ) -> (t: Tree)
        requires
            assoc_wf(properties@),
        ensures
            t.wf(),
            t.spec_len() == 1,
            t.is_live(0),
            t.node(0).class_name == class_name,
            t.node(0).name == name,
            t.node(0).properties == properties,
            t.node(0).children@.len() == 0,
            t.node(0).parent is None,
            t.node(0).metadata == metadata,
    {
        let root = Instance {
            class_name,
            name,
            properties,
            children: Vec::new(),
            parent: None,
            metadata,
        };
        let mut slots: Vec<Option<Instance>> = Vec::new();
        slots.push(Some(root));
        let t = Tree { slots };
        proof {
            assert(t.is_live(0));
            assert(t.kids(0).len() == 0);
        }
        t
    }

    /// The root's identifier.
    pub fn get_root_id(&self) -> (r: InstanceId)
        ensures
            r == 0,
    {
        ROOT_ID
    }

    /// How many identifiers have ever been allocated.
    pub fn slot_count(&self) -> (r: usize)
        ensures
            r as int == self.spec_len(),
    {
        self.slots.len()
    }

    /// Looks an instance up by identifier; an unknown or deleted identifier
    /// yields an explicit not-found result rather than aborting.
    pub fn get(&self, id: InstanceId) -> (r: Option<&Instance>)
        ensures
            match r {
                Some(inst) => self.is_live(id as int) && *inst == self.node(id as int),
                None => !self.is_live(id as int),
            },
    {
        if id < self.slots.len() {
            match &self.slots[id] {
                Some(inst) => Some(inst),
                None => None,
            }
        } else {
            None
        }
    }

    /// The two trees hold the same instance at `id`, apart from its child
    /// list.
    pub open spec fn same_but_children(a: Instance, b: Instance) -> bool {
        a.class_name == b.class_name && a.name == b.name && a.properties == b.properties
            && a.parent == b.parent && a.metadata == b.metadata
    }

    /// Inserts a fresh instance under `parent_id`, allocating the next
    /// identifier; insertion with an unknown parent is rejected and leaves
    /// the tree untouched.
    pub fn insert(
        &mut self,
        parent_id: InstanceId,
        class_name: String,
        name: String,
        properties: PropMap,
        metadata: InstanceMetadata,
    ) -> (r: Result<InstanceId, crate::SyncError>)
        requires
            old(self).wf(),
            assoc_wf(properties@),
        ensures
            final(self).wf(),
            !old(self).is_live(parent_id as int) ==> (r matches Err(e) && e
                == crate::SyncError::UnknownParentOnInsert && *final(self) == *old(self)),
            old(self).is_live(parent_id as int) ==> (r matches Ok(new_id) && {
                &&& new_id as int == old(self).spec_len()
                &&& final(self).spec_len() == old(self).spec_len() + 1
                &&& final(self).is_live(new_id as int)
                &&& final(self).node(new_id as int).class_name == class_name
                &&& final(self).node(new_id as int).name == name
                &&& final(self).node(new_id as int).properties == properties
                &&& final(self).node(new_id as int).children@.len() == 0
                &&& final(self).node(new_id as int).parent == Some(parent_id)
                &&& final(self).node(new_id as int).metadata == metadata
                &&& forall|j: int|
                    0 <= j < old(self).spec_len() && j != parent_id as int
                        ==> final(self).slots@[j] == old(self).slots@[j]
                &&& final(self).kids(parent_id as int) == old(self).kids(
                    parent_id as int,
                ).push(new_id)
                &&& Self::same_but_children(
                    final(self).node(parent_id as int),
                    old(self).node(parent_id as int),
                )
            }),
    {
        if parent_id >= self.slots.len() {
            return Err(crate::SyncError::UnknownParentOnInsert);
        }
        if self.slots[parent_id].is_none() {
            return Err(crate::SyncError::UnknownParentOnInsert);
        }
        let new_id = self.slots.len();
        let mut taken: Option<Instance> = None;
        self.slots.set_and_swap(parent_id, &mut taken);
        match taken {
            Some(mut par) => {
                par.children.push(new_id);
                self.slots.set(parent_id, Some(par));
            },
            None => {
                proof {
                    assert(false);
                }
            },
        }
        let inst = Instance {
            class_name,
            name,
            properties,
            children: Vec::new(),
            parent: Some(parent_id),
            metadata,
        };
        self.slots.push(Some(inst));
        proof {
            let o = *old(self);
            let f = *self;
            let p = parent_id as int;
            let n = new_id as int;
            assert(f.slots@[n] == Some(inst));
            assert(f.kids(p) =~= o.kids(p).push(new_id));
            assert forall|j: int| 0 <= j < o.spec_len() && j != p implies f.slots@[j]
                == o.slots@[j] by {}
            assert forall|pp: int, k: int|
                f.is_live(pp) && 0 <= k < f.kids(pp).len() implies pp < #[trigger] f.kids(pp)[k]
                as int && (f.kids(pp)[k] as int) < f.spec_len() && f.is_live(
                f.kids(pp)[k] as int,
            ) && f.node(f.kids(pp)[k] as int).parent == Some(pp as InstanceId) by {
                if pp == n {
                    assert(f.kids(pp).len() == 0);
                } else if pp == p {
                    if k < o.kids(p).len() {
                        assert(o.kids(p)[k] == f.kids(p)[k]);
                        assert((o.kids(p)[k] as int) > p);
                    } else {
                        assert(f.kids(p)[k] == new_id);
                    }
                } else {
                    assert(o.is_live(pp));
                    assert(o.kids(pp) == f.kids(pp));
                    assert((o.kids(pp)[k] as int) > pp);
                }
            }
            assert forall|c: int|
                #![trigger f.node(c).parent]
                f.is_live(c) && c != 0 implies f.node(c).parent is Some && (f.node(
                c,
            ).parent->Some_0 as int) < c && f.is_live(f.node(c).parent->Some_0 as int) && f.kids(
                f.node(c).parent->Some_0 as int,
            ).contains(c as InstanceId) by {
                if c == n {
                    assert(f.kids(p)[f.kids(p).len() - 1] == new_id);
                    assert(f.kids(p).contains(new_id));
                } else {
                    assert(o.is_live(c));
                    let pa = o.node(c).parent->Some_0 as int;
                    assert(o.kids(pa).contains(c as InstanceId));
                    let ki = choose|ki: int| 0 <= ki < o.kids(pa).len() && o.kids(pa)[ki] == c
                        as InstanceId;
                    if pa == p {
                        assert(f.kids(p)[ki] == c as InstanceId);
                        assert(f.kids(p).contains(c as InstanceId));
                    } else {
                        assert(f.kids(pa) == o.kids(pa));
                        assert(f.kids(pa)[ki] == c as InstanceId);
                    }
                }
            }
            assert forall|pp: int, k1: int, k2: int|
                #![trigger f.kids(pp)[k1], f.kids(pp)[k2]]
                f.is_live(pp) && 0 <= k1 < k2 < f.kids(pp).len() implies f.kids(pp)[k1] != f.kids(
                pp,
            )[k2] by {
                if pp == p {
                    if k2 == f.kids(p).len() - 1 && o.kids(p).len() < f.kids(p).len() {
                        assert(f.kids(p)[k2] == new_id);
                        assert(o.kids(p)[k1] == f.kids(p)[k1]);
                        assert((o.kids(p)[k1] as int) < o.spec_len());
                    } else {
                        assert(o.kids(p)[k1] == f.kids(p)[k1]);
                        assert(o.kids(p)[k2] == f.kids(p)[k2]);
                    }
                } else if pp != n {
                    assert(o.kids(pp) == f.kids(pp));
                }
            }
            assert forall|c: int| #[trigger] f.is_live(c) implies assoc_wf(
                f.node(c).properties@,
            ) by {
                if c != n {
                    assert(o.is_live(c));
                    if c != p {
                        assert(f.node(c) == o.node(c));
                    }
                }
            }
        }
        Ok(new_id)
    }
}


impl Tree {
    /// Inserts the full desired subtree described by a snapshot under
    /// `parent_id`, recursively, allocating fresh identifiers top-down; the
    /// returned identifier is the inserted root's. Insertion with an unknown
    /// parent is rejected and leaves the tree untouched.
    pub fn insert_subtree(&mut self, parent_id: InstanceId, snap: &InstanceSnapshot) -> (r:
        Result<InstanceId, crate::SyncError>)
        requires
            old(self).wf(),
            snap.wf(),
        ensures
            final(self).wf(),
            !old(self).is_live(parent_id as int) ==> (r matches Err(e) && e
                == crate::SyncError::UnknownParentOnInsert && *final(self) == *old(self)),
            old(self).is_live(parent_id as int) ==> (r matches Ok(new_id) && {
                &&& new_id as int == old(self).spec_len()
                &&& final(self).spec_len() > old(self).spec_len()
                &&& final(self).is_live(new_id as int)
                &&& final(self).node(new_id as int).class_name@ == snap.class_name@
                &&& final(self).node(new_id as int).name@ == snap.name@
                &&& forall|k: Seq<char>| #[trigger] opt_vareq(
                    assoc_get(final(self).node(new_id as int).properties@, k),
                    assoc_get(snap.properties@, k),
                )
                &&& final(self).node(new_id as int).children@.len() == snap.children@.len()
                &&& final(self).node(new_id as int).parent == Some(parent_id)
                &&& final(self).node(new_id as int).metadata.ignore_unknown_instances
                    == snap.metadata.ignore_unknown_instances
                &&& forall|j: int|
                    0 <= j < old(self).spec_len() && j != parent_id as int
                        ==> final(self).slots@[j] == old(self).slots@[j]
                &&& final(self).kids(parent_id as int) == old(self).kids(
                    parent_id as int,
                ).push(new_id)
                &&& Self::same_but_children(
                    final(self).node(parent_id as int),
                    old(self).node(parent_id as int),
                )
                &&& crate::diff::snap_matches(*final(self), *snap, new_id as int)
            }),
        decreases *snap,
    {
        if parent_id >= self.slots.len() {
            return Err(crate::SyncError::UnknownParentOnInsert);
        }
        if self.slots[parent_id].is_none() {
            return Err(crate::SyncError::UnknownParentOnInsert);
        }
        let props = copy_props(&snap.properties);
        proof {
            assert forall|i2: int, j2: int| 0 <= i2 < j2 < props@.len() implies props@[i2].0@
                != props@[j2].0@ by {
                assert(props@[i2].0@ == snap.properties@[i2].0@);
                assert(props@[j2].0@ == snap.properties@[j2].0@);
            }
            lemma_pairwise_assoc_equiv(props@, snap.properties@);
        }
        let inserted = self.insert(
            parent_id,
            snap.class_name.clone(),
            snap.name.clone(),
            props,
            snap.metadata.duplicate(),
        );
        let new_id = match inserted {
            Ok(id) => id,
            Err(e) => {
                proof {
                    assert(false);
                }
                return Err(e);
            },
        };
        let ghost base = *self;
        let mut i: usize = 0;
        while i < snap.children.len()
            invariant
                snap.wf(),
                self.wf(),
                base.wf(),
                new_id as int == old(self).spec_len(),
                base.spec_len() == old(self).spec_len() + 1,
                self.spec_len() >= base.spec_len(),
                i <= snap.children@.len(),
                self.is_live(new_id as int),
                old(self).is_live(parent_id as int),
                (parent_id as int) < new_id as int,
                Self::same_but_children(self.node(new_id as int), base.node(new_id as int)),
                base.node(new_id as int).class_name@ == snap.class_name@,
                base.node(new_id as int).name@ == snap.name@,
                forall|k: Seq<char>| #[trigger] opt_vareq(
                    assoc_get(base.node(new_id as int).properties@, k),
                    assoc_get(snap.properties@, k),
                ),
                base.node(new_id as int).parent == Some(parent_id),
                base.node(new_id as int).metadata.ignore_unknown_instances
                    == snap.metadata.ignore_unknown_instances,
                self.node(new_id as int).children@.len() == i,
                forall|j: int|
                    0 <= j < old(self).spec_len() && j != parent_id as int ==> self.slots@[j]
                        == old(self).slots@[j],
                self.kids(parent_id as int) == old(self).kids(parent_id as int).push(new_id),
                Self::same_but_children(
                    self.node(parent_id as int),
                    old(self).node(parent_id as int),
                ),
                forall|j: int|
                    0 <= j < i ==> crate::diff::snap_matches(
                        *self,
                        #[trigger] snap.children@[j],
                        self.kids(new_id as int)[j] as int,
                    ),
            decreases snap.children@.len() - i,
        {
            let child = &snap.children[i];
            proof {
                assert(snap.children@[i as int].wf());
            }
            let ghost pre = *self;
            let r2 = self.insert_subtree(new_id, child);
            match r2 {
                Ok(cnew) => {
                    proof {
                        assert(self.kids(new_id as int) == pre.kids(new_id as int).push(cnew));
                        assert(crate::diff::snap_matches(
                            *self,
                            snap.children@[i as int],
                            cnew as int,
                        ));
                        assert forall|j: int|
                            0 <= j < i + 1 implies crate::diff::snap_matches(
                            *self,
                            #[trigger] snap.children@[j],
                            self.kids(new_id as int)[j] as int,
                        ) by {
                            if j < i {
                                let cj = pre.kids(new_id as int)[j] as int;
                                assert(self.kids(new_id as int)[j] == pre.kids(new_id as int)[j]);
                                assert(pre.is_live(cj) && cj > new_id as int);
                                assert forall|m: int|
                                    cj <= m < pre.spec_len() implies self.slots@[m]
                                    == pre.slots@[m] by {
                                    assert(m != new_id as int);
                                }
                                crate::diff::lemma_snap_matches_frame(
                                    pre,
                                    *self,
                                    snap.children@[j],
                                    cj,
                                );
                            } else {
                                assert(self.kids(new_id as int)[j] == cnew);
                            }
                        }
                    }
                },
                Err(_) => {
                    proof {
                        assert(false);
                    }
                },
            }
            i = i + 1;
        }
        proof {
            assert(self.node(new_id as int).class_name@ == snap.class_name@);
            assert forall|k: Seq<char>| #[trigger] opt_vareq(
                assoc_get(self.node(new_id as int).properties@, k),
                assoc_get(snap.properties@, k),
            ) by {
                assert(self.node(new_id as int).properties == base.node(
                    new_id as int,
                ).properties);
                assert(opt_vareq(
                    assoc_get(base.node(new_id as int).properties@, k),
                    assoc_get(snap.properties@, k),
                ));
            }
            assert forall|k: Seq<char>| crate::diff::props_agree_at(
                snap.properties@,
                self.node(new_id as int).properties@,
                k,
            ) by {
                assert(opt_vareq(
                    assoc_get(self.node(new_id as int).properties@, k),
                    assoc_get(snap.properties@, k),
                ));
                match assoc_get(snap.properties@, k) {
                    Some(dv) => {
                        let nv = assoc_get(self.node(new_id as int).properties@, k)->Some_0;
                        crate::variant::lemma_vareq_sym(nv, dv);
                    },
                    None => {},
                }
            }
            assert(crate::diff::snap_matches(*self, *snap, new_id as int));
        }
        Ok(new_id)
    }
}


/// Finds the position of `id` in a child list, if present.
fn find_child_index(list: &Vec<InstanceId>, id: InstanceId) -> (r: Option<usize>)
    ensures
        match r {
            Some(k) => k < list@.len() && list@[k as int] == id,
            None => forall|j: int| 0 <= j < list@.len() ==> list@[j] != id,
        },
{
    let mut i: usize = 0;
    while i < list.len()
        invariant
            i <= list@.len(),
            forall|j: int| 0 <= j < i ==> list@[j] != id,
        decreases list@.len() - i,
    {
        if list[i] == id {
            return Some(i);
        }
        i = i + 1;
    }
    None
}

impl Tree {
    /// Deletes the subtree rooted at `id`: the node and every descendant
    /// become dead, their identifiers never reused. Deleting the root, an
    /// unknown or an already-deleted identifier is a no-op, not an error, to
    /// tolerate ordering races between queued patches.
    #[verifier::rlimit(100)]
    pub fn remove_subtree(&mut self, id: InstanceId)
        requires
            old(self).wf(),
        ensures
            final(self).wf(),
            final(self).spec_len() == old(self).spec_len(),
            id as int == 0 ==> *final(self) == *old(self),
            !old(self).is_live(id as int) ==> *final(self) == *old(self),
            (id as int != 0 && old(self).is_live(id as int)) ==> {
                &&& forall|j: int|
                    final(self).is_live(j) <==> (old(self).is_live(j) && !old(self).in_subtree(
                        j,
                        id as int,
                    ))
                &&& forall|j: int|
                    final(self).is_live(j) && j != (old(self).node(id as int).parent->Some_0
                        as int) ==> final(self).slots@[j] == old(self).slots@[j]
                &&& old(self).node(id as int).parent matches Some(pp) && {
                    &&& final(self).is_live(pp as int)
                    &&& Self::same_but_children(
                        final(self).node(pp as int),
                        old(self).node(pp as int),
                    )
                    &&& exists|ki: int|
                        0 <= ki < old(self).kids(pp as int).len() && old(self).kids(pp as int)[ki]
                            == id && final(self).kids(pp as int) == old(self).kids(
                            pp as int,
                        ).remove(ki)
                    &&& forall|k2: int|
                        0 <= k2 < final(self).kids(pp as int).len() ==> final(self).kids(
                            pp as int,
                        )[k2] != id
                }
            },
    {
        if id == 0 {
            return;
        }
        if id >= self.slots.len() {
            return;
        }
        if self.slots[id].is_none() {
            return;
        }
        let ghost o = *old(self);
        let pp: InstanceId = match self.get(id) {
            Some(inst) => match inst.parent {
                Some(p) => p,
                None => {
                    proof {
                        assert(false);
                    }
                    return;
                },
            },
            None => {
                proof {
                    assert(false);
                }
                return;
            },
        };
        proof {
            assert(o.is_live(pp as int) && (pp as int) < id as int);
            assert(o.kids(pp as int).contains(id));
        }
        let mut taken: Option<Instance> = None;
        self.slots.set_and_swap(pp, &mut taken);
        let ghost ki_g: int;
        match taken {
            Some(mut par) => {
                let found = find_child_index(&par.children, id);
                match found {
                    Some(ki) => {
                        proof {
                            ki_g = ki as int;
                        }
                        let _ = par.children.remove(ki);
                        self.slots.set(pp, Some(par));
                    },
                    None => {
                        proof {
                            let w = choose|w: int|
                                0 <= w < o.kids(pp as int).len() && o.kids(pp as int)[w] == id;
                            assert(false);
                        }
                        return;
                    },
                }
            },
            None => {
                proof {
                    assert(false);
                }
                return;
            },
        }
        self.slots.set(id, None);
        let ghost base = *self;
        proof {
            assert(base.slots@.len() == o.slots@.len());
            assert(base.slots@[id as int] is None);
            assert(base.kids(pp as int) == o.kids(pp as int).remove(ki_g));
            assert forall|m: int| 0 <= m < o.spec_len() && m != id as int && m != pp as int
                implies base.slots@[m] == o.slots@[m] by {}
        }
        proof {
            assert forall|m: int| 0 <= m < (id as int) + 1 implies self.slots@[m] == (
            if o.in_subtree(m, id as int) {
                None::<Instance>
            } else {
                base.slots@[m]
            }) by {
                if m < id as int {
                    o.lemma_in_subtree_bounds(m, id as int);
                }
            }
        }
        let mut j: usize = id + 1;
        while j < self.slots.len()
            invariant
                o.wf(),
                self.spec_len() == o.spec_len(),
                base.spec_len() == o.spec_len(),
                0 < id as int,
                (id as int) + 1 <= j as int <= o.spec_len(),
                (pp as int) < id as int,
                o.is_live(id as int),
                o.is_live(pp as int),
                o.node(id as int).parent == Some(pp),
                base.slots@[id as int] is None,
                base.slots@[pp as int] is Some,
                forall|m: int|
                    0 <= m < o.spec_len() && m != id as int && m != pp as int
                        ==> base.slots@[m] == o.slots@[m],
                forall|m: int|
                    0 <= m < j as int ==> self.slots@[m] == (if o.in_subtree(m, id as int) {
                        None::<Instance>
                    } else {
                        base.slots@[m]
                    }),
                forall|m: int|
                    j as int <= m < o.spec_len() ==> self.slots@[m] == base.slots@[m],
            decreases o.spec_len() - j as int,
        {
            proof {
                o.lemma_in_subtree_bounds(pp as int, id as int);
            }
            let is_some = self.slots[j].is_some();
            if is_some {
                let pj: InstanceId = match self.get(j) {
                    Some(inst) => match inst.parent {
                        Some(p) => p,
                        None => {
                            proof {
                                assert(o.is_live(j as int));
                                assert(false);
                            }
                            j
                        },
                    },
                    None => j,
                };
                proof {
                    assert(o.is_live(j as int));
                    assert(o.node(j as int).parent == Some(pj));
                    assert((pj as int) < j as int);
                    assert(o.is_live(pj as int));
                }
                if pj >= id && self.slots[pj].is_none() {
                    self.slots.set(j, None);
                    proof {
                        assert(o.in_subtree(pj as int, id as int));
                        assert(o.in_subtree(j as int, id as int));
                    }
                } else {
                    proof {
                        if (pj as int) < id as int {
                            o.lemma_in_subtree_bounds(pj as int, id as int);
                        } else {
                            assert(self.slots@[pj as int] is Some);
                            assert(!o.in_subtree(pj as int, id as int));
                        }
                        assert(!o.in_subtree(j as int, id as int));
                    }
                }
            } else {
                proof {
                    assert(self.slots@[j as int] == base.slots@[j as int]);
                    assert(base.slots@[j as int] == o.slots@[j as int]);
                    assert(!o.is_live(j as int));
                    assert(!o.in_subtree(j as int, id as int));
                }
            }
            j = j + 1;
        }
        proof {
            let f = *self;
            let n = o.spec_len();
            o.lemma_in_subtree_bounds(pp as int, id as int);
            assert forall|m: int| 0 <= m < n implies f.slots@[m] == (if o.in_subtree(
                m,
                id as int,
            ) {
                None::<Instance>
            } else {
                base.slots@[m]
            }) by {
                if m < id as int {
                    o.lemma_in_subtree_bounds(m, id as int);
                }
            }
            assert forall|m: int| f.is_live(m) implies (o.is_live(m) && !o.in_subtree(
                m,
                id as int,
            )) by {
                if m != pp as int {
                    if m == id as int {
                    }
                }
            }
            assert forall|m: int| o.is_live(m) && !o.in_subtree(m, id as int) implies f.is_live(
                m,
            ) by {
                if m == pp as int {
                    o.lemma_in_subtree_bounds(pp as int, id as int);
                }
            }
            // well-formedness of the result
            assert(f.is_live(0)) by {
                o.lemma_in_subtree_bounds(0, id as int);
            }
            assert(f.node(0).parent is None) by {
                if pp as int == 0 {
                    assert(Self::same_but_children(f.node(0), o.node(0)));
                }
            }
            assert forall|p: int, k: int|
                f.is_live(p) && 0 <= k < f.kids(p).len() implies p < #[trigger] f.kids(p)[k]
                as int && (f.kids(p)[k] as int) < f.spec_len() && f.is_live(
                f.kids(p)[k] as int,
            ) && f.node(f.kids(p)[k] as int).parent == Some(p as InstanceId) by {
                assert(o.is_live(p) && !o.in_subtree(p, id as int));
                if p == pp as int {
                    let c = f.kids(p)[k];
                    assert(f.kids(p) == o.kids(p).remove(ki_g));
                    if k < ki_g {
                        assert(c == o.kids(p)[k]);
                    } else {
                        assert(c == o.kids(p)[k + 1]);
                    }
                    assert(o.kids(p).contains(c) || c == o.kids(p)[k] || c == o.kids(p)[k + 1]);
                    assert(o.node(c as int).parent == Some(pp));
                    assert(c != id) by {
                        if k < ki_g {
                            assert(o.kids(p)[k] != o.kids(p)[ki_g]);
                        } else {
                            assert(o.kids(p)[k + 1] != o.kids(p)[ki_g]);
                        }
                    }
                    assert(!o.in_subtree(c as int, id as int)) by {
                        o.lemma_in_subtree_bounds(pp as int, id as int);
                    }
                } else {
                    let c = f.kids(p)[k];
                    assert(f.node(p) == o.node(p));
                    assert(o.kids(p)[k] == c);
                    assert(o.node(c as int).parent == Some(p as InstanceId));
                    assert(c != id) by {
                        if c == id {
                            assert(o.node(id as int).parent == Some(p as InstanceId));
                        }
                    }
                    assert(!o.in_subtree(c as int, id as int));
                }
            }
            assert forall|c: int|
                #![trigger f.node(c).parent]
                f.is_live(c) && c != 0 implies f.node(c).parent is Some && (f.node(
                c,
            ).parent->Some_0 as int) < c && f.is_live(f.node(c).parent->Some_0 as int) && f.kids(
                f.node(c).parent->Some_0 as int,
            ).contains(c as InstanceId) by {
                assert(o.is_live(c) && !o.in_subtree(c, id as int));
                assert(Self::same_but_children(f.node(c), o.node(c)) || f.node(c) == o.node(c));
                let pa = o.node(c).parent->Some_0 as int;
                assert(o.is_live(pa) && pa < c && o.kids(pa).contains(c as InstanceId));
                assert(!o.in_subtree(pa, id as int)) by {
                    if c != id as int {
                    }
                }
                assert(f.is_live(pa));
                let kc = choose|kc: int|
                    0 <= kc < o.kids(pa).len() && o.kids(pa)[kc] == c as InstanceId;
                if pa == pp as int {
                    assert(kc != ki_g) by {
                        assert(c != id as int);
                    }
                    if kc < ki_g {
                        assert(f.kids(pa)[kc] == c as InstanceId);
                        assert(f.kids(pa).contains(c as InstanceId));
                    } else {
                        assert(f.kids(pa)[kc - 1] == o.kids(pa)[kc]);
                        assert(f.kids(pa).contains(c as InstanceId));
                    }
                } else {
                    assert(f.kids(pa) == o.kids(pa));
                    assert(f.kids(pa)[kc] == c as InstanceId);
                    assert(f.kids(pa).contains(c as InstanceId));
                }
            }
            assert forall|p: int, k1: int, k2: int|
                #![trigger f.kids(p)[k1], f.kids(p)[k2]]
                f.is_live(p) && 0 <= k1 < k2 < f.kids(p).len() implies f.kids(p)[k1] != f.kids(
                p,
            )[k2] by {
                assert(o.is_live(p));
                if p == pp as int {
                    assert(f.kids(p) == o.kids(p).remove(ki_g));
                    let m1: int = if k1 < ki_g { k1 } else { k1 + 1 };
                    let m2: int = if k2 < ki_g { k2 } else { k2 + 1 };
                    assert(f.kids(p)[k1] == o.kids(p)[m1]);
                    assert(f.kids(p)[k2] == o.kids(p)[m2]);
                    assert(o.kids(p)[m1] != o.kids(p)[m2]);
                } else {
                    assert(f.kids(p) == o.kids(p));
                    assert(o.kids(p)[k1] != o.kids(p)[k2]);
                }
            }
            assert forall|c: int| #[trigger] f.is_live(c) implies assoc_wf(
                f.node(c).properties@,
            ) by {
                assert(o.is_live(c));
                if c == pp as int {
                    assert(f.node(c).properties == o.node(c).properties);
                }
            }
            assert forall|k2: int| 0 <= k2 < f.kids(pp as int).len() implies f.kids(pp as int)[k2]
                != id by {
                let m: int = if k2 < ki_g { k2 } else { k2 + 1 };
                assert(f.kids(pp as int)[k2] == o.kids(pp as int)[m]);
                assert(m != ki_g);
                assert(o.kids(pp as int)[m] != o.kids(pp as int)[ki_g]);
            }
        }
    }
}


impl Tree {
    /// Applies a property delta map to the instance at `id`: `Overwrite`
    /// stores, `Clear` unbinds, absent names are untouched. An unknown or
    /// deleted identifier is tolerated as a no-op.
    pub fn update_properties(
        &mut self,
        id: InstanceId,
        delta: &Vec<(String, crate::patch::PropertyDelta)>,
    )
        requires
            old(self).wf(),
            assoc_wf(delta@),
        ensures
            final(self).wf(),
            final(self).spec_len() == old(self).spec_len(),
            !old(self).is_live(id as int) ==> *final(self) == *old(self),
            old(self).is_live(id as int) ==> {
                &&& forall|j: int|
                    0 <= j < old(self).spec_len() && j != id as int ==> final(self).slots@[j]
                        == old(self).slots@[j]
                &&& final(self).is_live(id as int)
                &&& crate::apply::props_after(
                    old(self).node(id as int).properties@,
                    delta@,
                    final(self).node(id as int).properties@,
                )
                &&& final(self).node(id as int).class_name == old(self).node(id as int).class_name
                &&& final(self).node(id as int).name == old(self).node(id as int).name
                &&& final(self).node(id as int).children == old(self).node(id as int).children
                &&& final(self).node(id as int).parent == old(self).node(id as int).parent
                &&& final(self).node(id as int).metadata == old(self).node(id as int).metadata
            },
    {
        if id >= self.slots.len() {
            return;
        }
        if self.slots[id].is_none() {
            return;
        }
        let mut taken: Option<Instance> = None;
        self.slots.set_and_swap(id, &mut taken);
        match taken {
            Some(mut inst) => {
                crate::apply::apply_properties(&mut inst.properties, delta);
                self.slots.set(id, Some(inst));
            },
            None => {
                proof {
                    assert(false);
                }
            },
        }
        proof {
            let o = *old(self);
            let f = *self;
            let n = id as int;
            assert(f.kids(n) == o.kids(n));
            assert forall|p: int, k: int|
                f.is_live(p) && 0 <= k < f.kids(p).len() implies p < #[trigger] f.kids(p)[k]
                as int && (f.kids(p)[k] as int) < f.spec_len() && f.is_live(
                f.kids(p)[k] as int,
            ) && f.node(f.kids(p)[k] as int).parent == Some(p as InstanceId) by {
                assert(o.is_live(p));
                assert(f.kids(p) == o.kids(p));
                assert((o.kids(p)[k] as int) > p);
            }
            assert forall|c: int|
                #![trigger f.node(c).parent]
                f.is_live(c) && c != 0 implies f.node(c).parent is Some && (f.node(
                c,
            ).parent->Some_0 as int) < c && f.is_live(f.node(c).parent->Some_0 as int) && f.kids(
                f.node(c).parent->Some_0 as int,
            ).contains(c as InstanceId) by {
                assert(o.is_live(c));
                assert(f.node(c).parent == o.node(c).parent);
                let pa = o.node(c).parent->Some_0 as int;
                assert(o.kids(pa).contains(c as InstanceId));
                assert(f.kids(pa) == o.kids(pa));
            }
            assert forall|p: int, k1: int, k2: int|
                #![trigger f.kids(p)[k1], f.kids(p)[k2]]
                f.is_live(p) && 0 <= k1 < k2 < f.kids(p).len() implies f.kids(p)[k1] != f.kids(
                p,
            )[k2] by {
                assert(o.is_live(p));
                assert(f.kids(p) == o.kids(p));
            }
            assert forall|c: int| #[trigger] f.is_live(c) implies assoc_wf(
                f.node(c).properties@,
            ) by {
                assert(o.is_live(c));
                if c != n {
                    assert(f.node(c) == o.node(c));
                }
            }
        }
    }
}

} // verus!
