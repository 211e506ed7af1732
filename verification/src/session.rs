//! The merge-sync pipeline and the live-serve change processor: each live
//! session owns exactly one tree (single writer) and serializes its
//! diff/apply cycles; observers catch up through the cursor queue.

use vstd::prelude::*;
use crate::apply::{
    apply_patch_set, delta_has_no_clear, lemma_no_clear_preserves_properties, patch_applicable,
    props_after, untouched_by_updates,
};
use crate::diff::{
    compute_patch_set, delta_models, delta_warranted, lemma_snap_equiv_matches, props_agree_at,
    set_needed, snap_matches,
};
use crate::instance::InstanceSnapshot;
use crate::patch::{PatchSet, PropertyDelta};
use crate::policy::filter_patch_for_sync;
use crate::props::assoc_get;
use crate::queue::MessageQueue;
use crate::resolver::RefResolver;
use crate::tree::Tree;
use crate::variant::{lemma_vareq_sym, lemma_vareq_trans, vareq};

verus! {

/// The merge-sync command's reconciliation core. Defaults and file handling
/// live with the command-line driver; the verified work — computing the
/// patch, filtering it under the **sync** policy and applying it — is
/// `sync_merge`.
pub struct SyncCommand {
    /// Path to the project to build. Empty means the current directory.
    pub project: String,
    /// Path to the file to merge into.
    pub input: String,
    /// Where to output the merged result.
    pub output: String,
}

/// Merges a desired snapshot into an existing tree under the **sync**
/// policy: the patch between the two is computed, its `removed` set and its
/// `Clear` deltas are discarded, and the rest is applied. Instances already
/// in the tree all survive with their class and name; no property of theirs
/// is cleared; and at the tree root every desired property ends up present
/// with the desired value while every other root property keeps its old
/// binding.
pub fn sync_merge(desired: &InstanceSnapshot, tree: &mut Tree) -> (errs: Vec<crate::SyncError>)
    requires
        old(tree).wf(),
        desired.wf(),
    ensures
        final(tree).wf(),
        final(tree).spec_len() >= old(tree).spec_len(),
        // pre-existing instances all survive
        forall|j: int| old(tree).is_live(j) ==> final(tree).is_live(j),
        // and keep their class and name
        forall|j: int|
            0 <= j < old(tree).spec_len() && old(tree).is_live(j) ==> final(tree).node(
                j,
            ).class_name == old(tree).node(j).class_name && final(tree).node(j).name == old(
                tree,
            ).node(j).name,
        // no property of any pre-existing instance is cleared
        forall|j: int, k: Seq<char>|
            old(tree).is_live(j) && assoc_get(old(tree).node(j).properties@, k) is Some
                ==> #[trigger] assoc_get(final(tree).node(j).properties@, k) is Some,
        // the root carries every desired property and keeps the rest
        forall|k: Seq<char>|
            #![trigger assoc_get(final(tree).node(0).properties@, k)]
            match assoc_get(desired.properties@, k) {
                Some(dv) => assoc_get(final(tree).node(0).properties@, k) matches Some(fv)
                    && vareq(dv, fv),
                None => assoc_get(final(tree).node(0).properties@, k) == assoc_get(
                    old(tree).node(0).properties@,
                    k,
                ),
            },
        // every added entry's parent pre-exists, so nothing fails
        errs@.len() == 0,
        // a desired root child pairing with no existing root child is
        // inserted: the tree grows
        (exists|ci2: int|
            0 <= ci2 < desired.children@.len() && (forall|kx: int|
                0 <= kx < old(tree).kids(0).len() ==> !(old(tree).node(
                    (#[trigger] old(tree).kids(0)[kx]) as int,
                ).class_name@ == (#[trigger] desired.children@[ci2]).class_name@ && old(
                    tree,
                ).node(old(tree).kids(0)[kx] as int).name@ == desired.children@[ci2].name@)))
            ==> final(tree).spec_len() > old(tree).spec_len(),
        // and its whole subtree stands under the root, matching the desired
        // child node for node
        forall|ci2: int|
            #![trigger desired.children@[ci2]]
            0 <= ci2 < desired.children@.len() && (forall|kx: int|
                0 <= kx < old(tree).kids(0).len() ==> !(old(tree).node(
                    (#[trigger] old(tree).kids(0)[kx]) as int,
                ).class_name@ == desired.children@[ci2].class_name@ && old(tree).node(
                    old(tree).kids(0)[kx] as int,
                ).name@ == desired.children@[ci2].name@)) ==> exists|r: int|
                old(tree).spec_len() <= r < final(tree).spec_len() && final(tree).is_live(r)
                    && final(tree).node(r).parent == Some(0usize) && snap_matches(
                    *final(tree),
                    desired.children@[ci2],
                    r,
                ),
{
    let root_id = tree.get_root_id();
    let ghost t0 = *tree;
    let patch = compute_patch_set(desired, tree, root_id);
    let ghost p0 = patch;
    let filtered = filter_patch_for_sync(patch);
    let ghost pf = filtered;
    let errs = apply_patch_set(tree, &filtered);
    proof {
        assert(pf.added_instances == p0.added_instances);
        assert forall|i: int|
            0 <= i < pf.added_instances@.len() implies t0.is_live(
            (#[trigger] pf.added_instances@[i]).parent_id as int,
        ) by {
            assert(t0.is_live(p0.added_instances@[i].parent_id as int));
        }
        assert forall|u2: int|
            0 <= u2 < pf.updated_instances@.len() implies ((#[trigger] pf.updated_instances@[
            u2
        ]).id as int) < t0.spec_len() by {
            assert(pf.updated_instances@[u2].id == p0.updated_instances@[u2].id);
            assert(t0.is_live(p0.updated_instances@[u2].id as int));
        }
        assert forall|ci2: int|
            #![trigger desired.children@[ci2]]
            0 <= ci2 < desired.children@.len() && (forall|kx: int|
                0 <= kx < t0.kids(0).len() ==> !(t0.node(
                    (#[trigger] t0.kids(0)[kx]) as int,
                ).class_name@ == desired.children@[ci2].class_name@ && t0.node(
                    t0.kids(0)[kx] as int,
                ).name@ == desired.children@[ci2].name@)) implies exists|r: int|
            t0.spec_len() <= r < tree.spec_len() && tree.is_live(r) && tree.node(r).parent
                == Some(0usize) && snap_matches(*tree, desired.children@[ci2], r) by {
            let ax = choose|ax: int|
                0 <= ax < p0.added_instances@.len() && (#[trigger] p0.added_instances@[
                    ax
                ]).parent_id == 0 && crate::instance::snap_equiv(
                    desired.children@[ci2],
                    p0.added_instances@[ax].snapshot,
                );
            let r = choose|r: int|
                t0.spec_len() <= r < tree.spec_len() && tree.is_live(r) && tree.node(r).parent
                    == Some((#[trigger] pf.added_instances@[ax]).parent_id) && snap_matches(
                    *tree,
                    pf.added_instances@[ax].snapshot,
                    r,
                );
            lemma_snap_equiv_matches(
                *tree,
                desired.children@[ci2],
                pf.added_instances@[ax].snapshot,
                r,
            );
        }
        if exists|ci2: int|
            0 <= ci2 < desired.children@.len() && (forall|kx: int|
                0 <= kx < t0.kids(0).len() ==> !(t0.node(
                    (#[trigger] t0.kids(0)[kx]) as int,
                ).class_name@ == (#[trigger] desired.children@[ci2]).class_name@ && t0.node(
                    t0.kids(0)[kx] as int,
                ).name@ == desired.children@[ci2].name@)) {
            let ci2 = choose|ci2: int|
                0 <= ci2 < desired.children@.len() && (forall|kx: int|
                    0 <= kx < t0.kids(0).len() ==> !(t0.node(
                        (#[trigger] t0.kids(0)[kx]) as int,
                    ).class_name@ == (#[trigger] desired.children@[ci2]).class_name@ && t0.node(
                        t0.kids(0)[kx] as int,
                    ).name@ == desired.children@[ci2].name@));
            assert(desired.children@[ci2] == desired.children@[ci2]);
            assert(p0.added_instances@.len() > 0);
            assert(tree.spec_len() >= t0.spec_len() + pf.added_instances@.len());
        }
        let d = desired.properties@;
        let e = t0.node(0).properties@;
        let f = final(tree).node(0).properties@;
        // no pre-existing property is lost
        assert forall|j: int, k: Seq<char>|
            t0.is_live(j) && assoc_get(t0.node(j).properties@, k) is Some implies #[trigger]
        assoc_get(tree.node(j).properties@, k) is Some by {
            if untouched_by_updates(pf, pf.updated_instances@.len() as int, j) {
                assert(tree.node(j).properties == t0.node(j).properties);
            } else {
                let i = choose|i: int|
                    0 <= i < pf.updated_instances@.len()
                        && (#[trigger] pf.updated_instances@[i]).id as int == j;
                assert(props_after(
                    t0.node(j).properties@,
                    pf.updated_instances@[i].changed_properties@,
                    tree.node(j).properties@,
                ));
                assert(delta_has_no_clear(pf.updated_instances@[i].changed_properties@));
                lemma_no_clear_preserves_properties(
                    t0.node(j).properties@,
                    pf.updated_instances@[i].changed_properties@,
                    tree.node(j).properties@,
                );
            }
        }
        // root properties
        if forall|k: Seq<char>| props_agree_at(d, e, k) {
            assert(untouched_by_updates(pf, pf.updated_instances@.len() as int, 0)) by {
                assert forall|i: int|
                    0 <= i < pf.updated_instances@.len() implies (
                #[trigger] pf.updated_instances@[i]).id as int != 0 by {
                    assert(pf.updated_instances@[i].id == p0.updated_instances@[i].id);
                    assert(p0.updated_instances@[i].id != 0);
                }
            }
            assert(tree.node(0).properties == t0.node(0).properties);
            assert forall|k: Seq<char>|
                #![trigger assoc_get(f, k)]
                match assoc_get(d, k) {
                    Some(dv) => assoc_get(f, k) matches Some(fv) && vareq(dv, fv),
                    None => assoc_get(f, k) == assoc_get(e, k),
                } by {
                assert(props_agree_at(d, e, k));
            }
        } else {
            assert(p0.updated_instances@[0].id == 0);
            assert(delta_models(p0.updated_instances@[0].changed_properties@, d, e));
            assert(pf.updated_instances@[0].id == 0);
            assert(t0.is_live(0) && tree.is_live(0));
            assert(props_after(
                t0.node(0).properties@,
                pf.updated_instances@[0].changed_properties@,
                tree.node(0).properties@,
            ));
            let d0 = p0.updated_instances@[0].changed_properties@;
            let f0 = pf.updated_instances@[0].changed_properties@;
            assert forall|k: Seq<char>|
                #![trigger assoc_get(f, k)]
                match assoc_get(d, k) {
                    Some(dv) => assoc_get(f, k) matches Some(fv) && vareq(dv, fv),
                    None => assoc_get(f, k) == assoc_get(e, k),
                } by {
                assert(assoc_get(f0, k) == (match assoc_get(d0, k) {
                    Some(dl) => match dl {
                        PropertyDelta::Overwrite(v) => Some(PropertyDelta::Overwrite(v)),
                        PropertyDelta::Clear => None::<PropertyDelta>,
                    },
                    None => None::<PropertyDelta>,
                }));
                match assoc_get(d, k) {
                    Some(dv) => {
                        if set_needed(d, e, k) {
                            match assoc_get(d0, k) {
                                Some(dl) => {
                                    match dl {
                                        PropertyDelta::Overwrite(v) => {
                                            let fv = assoc_get(f, k)->Some_0;
                                            lemma_vareq_sym(fv, v);
                                            lemma_vareq_trans(dv, v, fv);
                                        },
                                        PropertyDelta::Clear => {
                                            assert(false);
                                        },
                                    }
                                },
                                None => {
                                    assert(props_agree_at(d, e, k));
                                    assert(false);
                                },
                            }
                        } else {
                            match assoc_get(d0, k) {
                                Some(dl) => {
                                    match dl {
                                        PropertyDelta::Overwrite(_) => {
                                            assert(false);
                                        },
                                        PropertyDelta::Clear => {
                                            assert(false);
                                        },
                                    }
                                },
                                None => {
                                    assert(assoc_get(f, k) == assoc_get(e, k));
                                },
                            }
                        }
                    },
                    None => {
                        match assoc_get(d0, k) {
                            Some(dl) => {
                                match dl {
                                    PropertyDelta::Overwrite(_) => {
                                        assert(false);
                                    },
                                    PropertyDelta::Clear => {},
                                }
                            },
                            None => {},
                        }
                        assert(assoc_get(f0, k) is None);
                        assert(assoc_get(f, k) == assoc_get(e, k));
                    },
                }
            }
        }
    }
    errs
}

/// The change processor's control state for one live session:
/// `Idle -> Computing -> Applying -> Idle` on every batched change.
#[derive(Debug, Clone, Copy, PartialEq, Eq, Structural)]
pub enum SessionState {
    /// Waiting for the next change notification.
    Idle,
    /// Rebuilding the affected subtree's snapshot and diffing it.
    Computing,
    /// Applying the resulting patch to the tree.
    Applying,
}

/// One live session: the exclusively-owned tree, the path correlation
/// table, the observers' update queue and the processor state.
pub struct ServeSession {
    /// The session's tree; this session is its single writer.
    pub tree: Tree,
    /// The session-lifetime path-to-identifier table. Identifier stability
    /// for instances that stay paired comes from the diff itself — paired
    /// instances are updated in place and never re-created — and the arena
    /// never reuses a slot, so this table serves reference resolution: the
    /// transport records each source path's identifier once and resolves
    /// reference properties against it for the session's lifetime.
    pub resolver: RefResolver,
    /// The append-only update queue observers read from.
    pub queue: MessageQueue,
    /// The change processor's state.
    pub state: SessionState,
}

impl ServeSession {
    /// The session invariant: the tree and the resolver are well-formed.
    pub open spec fn wf(self) -> bool {
        &&& self.tree.wf()
        &&& self.resolver.wf()
    }

    /// A fresh session owning the given tree, with an empty queue.
    pub fn new(tree: Tree) -> (s: ServeSession)
        requires
            tree.wf(),
        ensures
            s.wf(),
            s.tree == tree,
            s.queue.entries@.len() == 0,
            s.state is Idle,
    {
        ServeSession {
            tree,
            resolver: RefResolver::new(),
            queue: MessageQueue::new(),
            state: SessionState::Idle,
        }
    }

    /// One diff/apply cycle of the serve workflow: the desired snapshot for
    /// the affected subtree is diffed against the whole tree, the patch is
    /// applied unmodified, and the patch is pushed for observers under the
    /// next cursor. The processor passes through `Computing` and `Applying`
    /// and is idle again when the cycle ends; observers never see a
    /// partially-applied tree, because the patch reaches the queue only
    /// after application completes.
    pub fn sync_once(&mut self, desired: &InstanceSnapshot) -> (cursor: usize)
        requires
            old(self).wf(),
            old(self).state is Idle,
            desired.wf(),
            old(self).queue.entries@.len() < usize::MAX,
        ensures
            final(self).wf(),
            final(self).state is Idle,
            final(self).queue.entries@.len() == old(self).queue.entries@.len() + 1,
            cursor as int == old(self).queue.entries@.len() + 1,
            forall|i: int|
                0 <= i < old(self).queue.entries@.len() ==> final(self).queue.entries@[i] == old(
                    self,
                ).queue.entries@[i],
            // the appended entry is the patch the diff engine computed for
            // the desired snapshot against the pre-cycle tree
            patch_applicable(final(self).queue.entries@.last()),
            (!(forall|k: Seq<char>|
                props_agree_at(
                    desired.properties@,
                    old(self).tree.node(0).properties@,
                    k,
                ))) ==> {
                &&& final(self).queue.entries@.last().updated_instances@.len() > 0
                &&& final(self).queue.entries@.last().updated_instances@[0].id == 0
                &&& delta_models(
                    final(self).queue.entries@.last().updated_instances@[0].changed_properties@,
                    desired.properties@,
                    old(self).tree.node(0).properties@,
                )
                &&& delta_warranted(
                    final(self).queue.entries@.last().updated_instances@[0].changed_properties@,
                    desired.properties@,
                    old(self).tree.node(0).properties@,
                )
            },
            (forall|k: Seq<char>|
                props_agree_at(desired.properties@, old(self).tree.node(0).properties@, k))
                ==> forall|i: int|
                0 <= i < final(self).queue.entries@.last().updated_instances@.len()
                    ==> (#[trigger] final(self).queue.entries@.last().updated_instances@[i]).id
                        != 0,
            // the entry removes every untolerated root child the desired
            // side no longer pairs with
            forall|kx: int|
                0 <= kx < old(self).tree.kids(0).len() && !old(self).tree.node(
                    old(self).tree.kids(0)[kx] as int,
                ).metadata.ignore_unknown_instances && (forall|ci2: int|
                    0 <= ci2 < desired.children@.len() ==> !((#[trigger] desired.children@[
                        ci2
                    ]).class_name@ == old(self).tree.node(
                        old(self).tree.kids(0)[kx] as int,
                    ).class_name@ && desired.children@[ci2].name@ == old(self).tree.node(
                        old(self).tree.kids(0)[kx] as int,
                    ).name@)) ==> final(self).queue.entries@.last().removed_instances@.contains(
                    #[trigger] old(self).tree.kids(0)[kx],
                ),
            // and adds every desired root child the tree no longer pairs with
            forall|ci2: int|
                #![trigger desired.children@[ci2]]
                0 <= ci2 < desired.children@.len() && (forall|kx: int|
                    0 <= kx < old(self).tree.kids(0).len() ==> !(old(self).tree.node(
                        (#[trigger] old(self).tree.kids(0)[kx]) as int,
                    ).class_name@ == desired.children@[ci2].class_name@ && old(self).tree.node(
                        old(self).tree.kids(0)[kx] as int,
                    ).name@ == desired.children@[ci2].name@)) ==> exists|ax: int|
                    0 <= ax < final(self).queue.entries@.last().added_instances@.len() && (
                    #[trigger] final(self).queue.entries@.last().added_instances@[ax]).parent_id
                        == 0 && crate::instance::snap_equiv(
                        desired.children@[ci2],
                        final(self).queue.entries@.last().added_instances@[ax].snapshot,
                    ),
            // and the tree stands in the applied-patch relation to it
            final(self).tree.spec_len() >= old(self).tree.spec_len(),
            forall|j: int|
                0 <= j < old(self).tree.spec_len() ==> (final(self).tree.is_live(j) ==> old(
                    self,
                ).tree.is_live(j)),
            final(self).queue.entries@.last().removed_instances@.len() == 0 ==> forall|j: int|
                old(self).tree.is_live(j) ==> final(self).tree.is_live(j),
            forall|ri: int|
                0 <= ri < final(self).queue.entries@.last().removed_instances@.len()
                    && #[trigger] final(self).queue.entries@.last().removed_instances@[ri] as int
                    != 0 ==> !final(self).tree.is_live(
                    final(self).queue.entries@.last().removed_instances@[ri] as int,
                ),
            forall|j: int|
                0 <= j < old(self).tree.spec_len() && final(self).tree.is_live(j) ==> final(self).tree.node(j).class_name == old(self).tree.node(j).class_name && final(self).tree.node(j).name == old(self).tree.node(j).name,
            forall|i: int|
                0 <= i < final(self).queue.entries@.last().updated_instances@.len() && old(
                    self,
                ).tree.is_live(
                    (#[trigger] final(self).queue.entries@.last().updated_instances@[i]).id
                        as int,
                ) && final(self).tree.is_live(
                    final(self).queue.entries@.last().updated_instances@[i].id as int,
                ) ==> props_after(
                    old(self).tree.node(
                        final(self).queue.entries@.last().updated_instances@[i].id as int,
                    ).properties@,
                    final(self).queue.entries@.last().updated_instances@[i].changed_properties@,
                    final(self).tree.node(
                        final(self).queue.entries@.last().updated_instances@[i].id as int,
                    ).properties@,
                ),
            forall|j: int|
                0 <= j < old(self).tree.spec_len() && final(self).tree.is_live(j)
                    && untouched_by_updates(
                    final(self).queue.entries@.last(),
                    final(self).queue.entries@.last().updated_instances@.len() as int,
                    j,
                ) ==> final(self).tree.node(j).properties == old(self).tree.node(j).properties,
    {
        self.state = SessionState::Computing;
        let root_id = self.tree.get_root_id();
        let patch = compute_patch_set(desired, &self.tree, root_id);
        self.state = SessionState::Applying;
        let _errs = apply_patch_set(&mut self.tree, &patch);
        self.state = SessionState::Idle;
        let ghost p = patch;
        let cursor = self.queue.push(patch);
        proof {
            assert(self.queue.entries@.last() == p);
        }
        cursor
    }

    /// Records the identifier allocated for a source path, reusing the one
    /// remembered if the path was seen before; the identifier a path gets is
    /// the identifier it keeps for the session's lifetime.
    pub fn remember_path(&mut self, path: &String, id: crate::variant::InstanceId) -> (r:
        crate::variant::InstanceId)
        requires
            old(self).wf(),
        ensures
            final(self).wf(),
            final(self).tree == old(self).tree,
            final(self).queue == old(self).queue,
            final(self).state == old(self).state,
            match crate::props::assoc_get(old(self).resolver.paths@, path@) {
                Some(known) => r == known && final(self).resolver == old(self).resolver,
                None => r == id && crate::props::assoc_get(final(self).resolver.paths@, path@)
                    == Some(id),
            },
    {
        self.resolver.get_or_insert(path, id)
    }

    /// A `Reference` value naming the identifier remembered for a path; a
    /// path never recorded yields the explicit unset reference.
    pub fn resolve_reference(&self, path: &String) -> (r: crate::Variant)
        ensures
            r == crate::Variant::Reference(
                crate::props::assoc_get(self.resolver.paths@, path@),
            ),
    {
        self.resolver.resolve_reference(path)
    }

    /// Everything observers with cursor `cursor` have not yet seen, in
    /// cursor order.
    pub fn patches_since<'a>(&'a self, cursor: usize) -> (r: Vec<&'a PatchSet>)
        ensures
            cursor as int <= self.queue.entries@.len() ==> r@.len() == self.queue.entries@.len()
                - cursor as int,
            cursor as int > self.queue.entries@.len() ==> r@.len() == 0,
            forall|i: int|
                0 <= i < r@.len() ==> *(#[trigger] r@[i]) == self.queue.entries@[cursor as int
                    + i],
    {
        self.queue.since(cursor)
    }
}

} // verus!
