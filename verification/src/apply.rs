//! Applying property deltas, and the laws relating diffing and applying:
//! re-diffing after an apply finds nothing left to change, and a delta with
//! no `Clear` entries never loses a property.

use vstd::prelude::*;
use crate::diff::{
    delta_models, delta_warranted, lemma_agree_iff_empty_diff, lemma_snap_matches_frame,
    props_agree_at, snap_matches,
};
use crate::patch::{PatchSet, PropertyDelta};
use crate::props::{assoc_get, assoc_remove, assoc_set, assoc_wf, lemma_assoc_get_some_index};
use crate::tree::Tree;
use crate::variant::{InstanceId, Variant, lemma_vareq_sym, lemma_vareq_trans, opt_vareq};

verus! {

/// `newp` is `oldp` with the delta map applied: every `Overwrite` key holds
/// the new value, every `Clear` key is unbound, and every other key is
/// untouched.
pub open spec fn props_after(
    oldp: Seq<(String, Variant)>,
    delta: Seq<(String, PropertyDelta)>,
    newp: Seq<(String, Variant)>,
) -> bool {
    forall|k: Seq<char>|
        #![trigger assoc_get(newp, k)]
        match assoc_get(delta, k) {
            Some(dl) => match dl {
                PropertyDelta::Overwrite(v) => opt_vareq(assoc_get(newp, k), Some(v)),
                PropertyDelta::Clear => assoc_get(newp, k) is None,
            },
            None => assoc_get(newp, k) == assoc_get(oldp, k),
        }
}

/// Applies a delta map to a property map in place: `Overwrite` stores the
/// value, `Clear` unbinds the name, absent names are untouched.
pub fn apply_properties(props: &mut Vec<(String, Variant)>, delta: &Vec<(String, PropertyDelta)>)
    requires
        assoc_wf(old(props)@),
        assoc_wf(delta@),
    ensures
        assoc_wf(final(props)@),
        props_after(old(props)@, delta@, final(props)@),
{
    let mut i: usize = 0;
    while i < delta.len()
        invariant
            assoc_wf(delta@),
            assoc_wf(props@),
            i <= delta@.len(),
            forall|jd: int| 0 <= jd < i ==> match delta@[jd].1 {
                PropertyDelta::Overwrite(v) => opt_vareq(
                    #[trigger] assoc_get(props@, delta@[jd].0@),
                    Some(v),
                ),
                PropertyDelta::Clear => assoc_get(props@, delta@[jd].0@) is None,
            },
            forall|k: Seq<char>|
                #![trigger assoc_get(props@, k)]
                (forall|jd: int| 0 <= jd < i ==> delta@[jd].0@ != k) ==> assoc_get(props@, k)
                    == assoc_get(old(props)@, k),
        decreases delta@.len() - i,
    {
        let entry = &delta[i];
        match &entry.1 {
            PropertyDelta::Overwrite(v) => {
                assoc_set(props, &entry.0, v.duplicate());
            },
            PropertyDelta::Clear => {
                assoc_remove(props, &entry.0);
            },
        }
        i = i + 1;
    }
    proof {
        assert forall|k: Seq<char>|
            #![trigger assoc_get(props@, k)]
            match assoc_get(delta@, k) {
                Some(dl) => match dl {
                    PropertyDelta::Overwrite(v) => opt_vareq(assoc_get(props@, k), Some(v)),
                    PropertyDelta::Clear => assoc_get(props@, k) is None,
                },
                None => assoc_get(props@, k) == assoc_get(old(props)@, k),
            } by {
            lemma_assoc_get_some_index(delta@, k);
            if assoc_get(delta@, k) is Some {
                let v = assoc_get(delta@, k)->Some_0;
                let jd = choose|jd: int|
                    0 <= jd < delta@.len() && delta@[jd].0@ == k && delta@[jd].1 == v;
                assert(match delta@[jd].1 {
                    PropertyDelta::Overwrite(v2) => opt_vareq(
                        assoc_get(props@, delta@[jd].0@),
                        Some(v2),
                    ),
                    PropertyDelta::Clear => assoc_get(props@, delta@[jd].0@) is None,
                });
            }
        }
    }
}

/// Applying the exact diff of `d` against `e` makes the result agree with
/// `d` at every key: nothing is left to set and nothing is left to clear.
pub proof fn lemma_apply_diff_restores_agreement(
    d: Seq<(String, Variant)>,
    e: Seq<(String, Variant)>,
    delta: Seq<(String, PropertyDelta)>,
    e2: Seq<(String, Variant)>,
)
    requires
        delta_models(delta, d, e),
        props_after(e, delta, e2),
    ensures
        forall|k: Seq<char>| props_agree_at(d, e2, k),
{
    assert forall|k: Seq<char>| props_agree_at(d, e2, k) by {
        assert(assoc_get(e2, k) == assoc_get(e2, k));
        match assoc_get(delta, k) {
            Some(dl) => match dl {
                PropertyDelta::Overwrite(v) => {
                    let dv = assoc_get(d, k)->Some_0;
                    let nv = assoc_get(e2, k)->Some_0;
                    lemma_vareq_sym(nv, v);
                    lemma_vareq_trans(dv, v, nv);
                },
                PropertyDelta::Clear => {},
            },
            None => {},
        }
    }
}

/// Re-syncing with no change in between finds nothing to do: the diff of
/// the desired map against the result of applying its own exact diff is the
/// empty delta map.
pub proof fn lemma_rediff_after_apply_is_empty(
    d: Seq<(String, Variant)>,
    e: Seq<(String, Variant)>,
    delta: Seq<(String, PropertyDelta)>,
    e2: Seq<(String, Variant)>,
    delta2: Seq<(String, PropertyDelta)>,
)
    requires
        delta_models(delta, d, e),
        props_after(e, delta, e2),
        delta_models(delta2, d, e2),
        delta_warranted(delta2, d, e2),
    ensures
        delta2.len() == 0,
{
    lemma_apply_diff_restores_agreement(d, e, delta, e2);
    lemma_agree_iff_empty_diff(delta2, d, e2);
}

/// No entry of the delta map is a `Clear`.
pub open spec fn delta_has_no_clear(delta: Seq<(String, PropertyDelta)>) -> bool {
    forall|jd: int| 0 <= jd < delta.len() ==> !(#[trigger] delta[jd].1 is Clear)
}

/// Applying a delta map with no `Clear` entries never loses a property:
/// every name bound before stays bound.
pub proof fn lemma_no_clear_preserves_properties(
    oldp: Seq<(String, Variant)>,
    delta: Seq<(String, PropertyDelta)>,
    newp: Seq<(String, Variant)>,
)
    requires
        props_after(oldp, delta, newp),
        delta_has_no_clear(delta),
    ensures
        forall|k: Seq<char>| assoc_get(oldp, k) is Some ==> #[trigger] assoc_get(newp, k)
            is Some,
{
    assert forall|k: Seq<char>| assoc_get(oldp, k) is Some implies #[trigger] assoc_get(
        newp,
        k,
    ) is Some by {
        match assoc_get(delta, k) {
            Some(dl) => match dl {
                PropertyDelta::Overwrite(_) => {},
                PropertyDelta::Clear => {
                    lemma_assoc_get_some_index(delta, k);
                },
            },
            None => {},
        }
    }
}


/// No updated entry among the first `n` names instance `j`.
pub open spec fn untouched_by_updates(p: PatchSet, n: int, j: int) -> bool {
    forall|i: int| 0 <= i < n ==> (#[trigger] p.updated_instances@[i]).id as int != j
}

/// The patch can be applied to the tree: every added snapshot is
/// well-formed, every delta map has distinct keys, and no two updated
/// entries name the same instance.
pub open spec fn patch_applicable(p: PatchSet) -> bool {
    &&& forall|i: int|
        0 <= i < p.added_instances@.len() ==> (#[trigger] p.added_instances@[i]).snapshot.wf()
    &&& forall|i: int|
        0 <= i < p.updated_instances@.len() ==> assoc_wf(
            (#[trigger] p.updated_instances@[i]).changed_properties@,
        )
    &&& forall|i: int, j: int|
        0 <= i < j < p.updated_instances@.len() ==> p.updated_instances@[i].id
            != p.updated_instances@[j].id
}

/// Mutates a tree according to a patch: added subtrees first, in the given
/// top-down order, then property deltas, then removals. An added entry whose
/// parent is unknown fails alone, reported in the result, without disturbing
/// entries already applied; an update or removal naming a dead identifier is
/// tolerated as a no-op so racing patches degrade gracefully.
#[verifier::rlimit(100)]
#[verifier::spinoff_prover]
pub fn apply_patch_set(tree: &mut Tree, patch: &PatchSet) -> (errs: Vec<crate::SyncError>)
    requires
        old(tree).wf(),
        patch_applicable(*patch),
    ensures
        final(tree).wf(),
        final(tree).spec_len() >= old(tree).spec_len(),
        // identifiers are stable: no old identifier changes meaning
        forall|j: int|
            0 <= j < old(tree).spec_len() ==> (final(tree).is_live(j) ==> old(tree).is_live(j)),
        // with nothing removed, every instance survives
        patch.removed_instances@.len() == 0 ==> forall|j: int|
            old(tree).is_live(j) ==> final(tree).is_live(j),
        // every removed non-root identifier is dead afterwards
        forall|ri: int|
            0 <= ri < patch.removed_instances@.len() && #[trigger] patch.removed_instances@[ri]
                as int != 0 ==> !final(tree).is_live(patch.removed_instances@[ri] as int),
        // surviving instances keep their class and name
        forall|j: int|
            0 <= j < old(tree).spec_len() && final(tree).is_live(j) ==> final(tree).node(
                j,
            ).class_name == old(tree).node(j).class_name && final(tree).node(j).name == old(
                tree,
            ).node(j).name,
        // each updated entry's deltas take effect on its surviving instance
        forall|i: int|
            0 <= i < patch.updated_instances@.len() && old(tree).is_live(
                (#[trigger] patch.updated_instances@[i]).id as int,
            ) && final(tree).is_live(patch.updated_instances@[i].id as int) ==> props_after(
                old(tree).node(patch.updated_instances@[i].id as int).properties@,
                patch.updated_instances@[i].changed_properties@,
                final(tree).node(patch.updated_instances@[i].id as int).properties@,
            ),
        // instances no updated entry names keep their properties
        forall|j: int|
            0 <= j < old(tree).spec_len() && final(tree).is_live(j) && untouched_by_updates(
                *patch,
                patch.updated_instances@.len() as int,
                j,
            ) ==> final(tree).node(j).properties == old(tree).node(j).properties,
        // the error list holds only unknown-parent failures
        forall|x: int|
            0 <= x < errs@.len() ==> #[trigger] errs@[x]
                == crate::SyncError::UnknownParentOnInsert,
        // when every added entry's parent pre-exists, nothing fails
        (forall|i: int|
            0 <= i < patch.added_instances@.len() ==> old(tree).is_live(
                (#[trigger] patch.added_instances@[i]).parent_id as int,
            )) ==> errs@.len() == 0,
        // an added entry naming a dead pre-existing parent is reported
        (exists|i: int|
            0 <= i < patch.added_instances@.len()
                && ((#[trigger] patch.added_instances@[i]).parent_id as int) < old(
                tree,
            ).spec_len() && !old(tree).is_live(patch.added_instances@[i].parent_id as int))
            ==> errs@.len() > 0,
        // a child listed before its parent — a parent the whole patch never
        // creates — is reported too
        (exists|i: int|
            0 <= i < patch.added_instances@.len()
                && ((#[trigger] patch.added_instances@[i]).parent_id as int) >= final(tree).spec_len()) ==> errs@.len() > 0,
        // with every parent pre-existing, each added entry allocates its
        // subtree: the tree grows by at least one slot per entry
        (forall|i: int|
            0 <= i < patch.added_instances@.len() ==> old(tree).is_live(
                (#[trigger] patch.added_instances@[i]).parent_id as int,
            )) ==> final(tree).spec_len() >= old(tree).spec_len()
            + patch.added_instances@.len(),
        // and when the patch also updates only pre-existing instances and
        // removes nothing, each added entry's whole subtree stands in the
        // final tree under its parent, matching the entry's snapshot
        ((forall|i: int|
            0 <= i < patch.added_instances@.len() ==> old(tree).is_live(
                (#[trigger] patch.added_instances@[i]).parent_id as int,
            )) && (forall|u: int|
            0 <= u < patch.updated_instances@.len()
                ==> ((#[trigger] patch.updated_instances@[u]).id as int) < old(tree).spec_len())
            && patch.removed_instances@.len() == 0) ==> forall|i: int|
            0 <= i < patch.added_instances@.len() ==> exists|r: int|
                old(tree).spec_len() <= r < final(tree).spec_len() && final(tree).is_live(r)
                    && final(tree).node(r).parent == Some(
                    (#[trigger] patch.added_instances@[i]).parent_id,
                ) && snap_matches(
                    *final(tree),
                    patch.added_instances@[i].snapshot,
                    r,
                ),
{
    let ghost o = *old(tree);
    let mut errs: Vec<crate::SyncError> = Vec::new();
    let mut ai: usize = 0;
    while ai < patch.added_instances.len()
        invariant
            patch_applicable(*patch),
            tree.wf(),
            o.wf(),
            tree.spec_len() >= o.spec_len(),
            ai <= patch.added_instances@.len(),
            forall|j: int| 0 <= j < o.spec_len() ==> tree.is_live(j) == o.is_live(j),
            forall|j: int|
                0 <= j < o.spec_len() && o.is_live(j) ==> Tree::same_but_children(
                    tree.node(j),
                    o.node(j),
                ),
            forall|x: int|
                0 <= x < errs@.len() ==> #[trigger] errs@[x]
                    == crate::SyncError::UnknownParentOnInsert,
            o == *old(tree),
            (forall|i: int|
                0 <= i < ai ==> o.is_live(
                    (#[trigger] patch.added_instances@[i]).parent_id as int,
                )) ==> errs@.len() == 0,
            (exists|i: int|
                0 <= i < ai && ((#[trigger] patch.added_instances@[i]).parent_id as int)
                    < o.spec_len() && !o.is_live(patch.added_instances@[i].parent_id as int))
                ==> errs@.len() > 0,
            (exists|i: int|
                0 <= i < ai && ((#[trigger] patch.added_instances@[i]).parent_id as int)
                    >= tree.spec_len()) ==> errs@.len() > 0,
            (forall|i: int|
                0 <= i < ai ==> o.is_live(
                    (#[trigger] patch.added_instances@[i]).parent_id as int,
                )) ==> tree.spec_len() >= o.spec_len() + ai,
            (forall|i: int|
                0 <= i < patch.added_instances@.len() ==> o.is_live(
                    (#[trigger] patch.added_instances@[i]).parent_id as int,
                )) ==> forall|i: int|
                0 <= i < ai ==> exists|r: int|
                    o.spec_len() <= r < tree.spec_len() && tree.is_live(r) && tree.node(r).parent
                        == Some((#[trigger] patch.added_instances@[i]).parent_id)
                        && snap_matches(*tree, patch.added_instances@[i].snapshot, r),
        decreases patch.added_instances@.len() - ai,
    {
        let entry = &patch.added_instances[ai];
        proof {
            assert(patch.added_instances@[ai as int].snapshot.wf());
        }
        let ghost errs_before = errs@;
        let ghost pre = *tree;
        let r = tree.insert_subtree(entry.parent_id, &entry.snapshot);
        match r {
            Ok(new_root) => {
                proof {
                    assert(o.is_live(patch.added_instances@[ai as int].parent_id as int)
                        || patch.added_instances@[ai as int].parent_id as int >= o.spec_len());
                    if forall|i: int|
                        0 <= i < patch.added_instances@.len() ==> o.is_live(
                            (#[trigger] patch.added_instances@[i]).parent_id as int,
                        ) {
                        assert(snap_matches(
                            *tree,
                            patch.added_instances@[ai as int].snapshot,
                            new_root as int,
                        ));
                        assert forall|i: int| 0 <= i < ai + 1 implies exists|r2: int|
                            o.spec_len() <= r2 < tree.spec_len() && tree.is_live(r2)
                                && tree.node(r2).parent == Some(
                                (#[trigger] patch.added_instances@[i]).parent_id,
                            ) && snap_matches(
                                *tree,
                                patch.added_instances@[i].snapshot,
                                r2,
                            ) by {
                            if i < ai {
                                let r0 = choose|r0: int|
                                    o.spec_len() <= r0 < pre.spec_len() && pre.is_live(r0)
                                        && pre.node(r0).parent == Some(
                                        patch.added_instances@[i].parent_id,
                                    ) && snap_matches(
                                        pre,
                                        patch.added_instances@[i].snapshot,
                                        r0,
                                    );
                                assert((patch.added_instances@[ai as int].parent_id as int)
                                    < o.spec_len());
                                assert forall|m: int|
                                    r0 <= m < pre.spec_len() implies tree.slots@[m]
                                    == pre.slots@[m] by {
                                    assert(m
                                        != patch.added_instances@[ai as int].parent_id as int);
                                }
                                lemma_snap_matches_frame(
                                    pre,
                                    *tree,
                                    patch.added_instances@[i].snapshot,
                                    r0,
                                );
                                assert(tree.slots@[r0] == pre.slots@[r0]);
                            } else {
                                assert(new_root as int >= o.spec_len());
                            }
                        }
                    }
                }
            },
            Err(e) => {
                errs.push(e);
                proof {
                    assert(!o.is_live(patch.added_instances@[ai as int].parent_id as int));
                    assert(!(forall|i: int|
                        0 <= i < ai as int + 1 ==> o.is_live(
                            (#[trigger] patch.added_instances@[i]).parent_id as int,
                        ))) by {
                        assert(!o.is_live(
                            (patch.added_instances@[ai as int]).parent_id as int,
                        ));
                    }
                }
            },
        }
        ai = ai + 1;
    }
    let ghost t1 = *tree;
    let mut ui: usize = 0;
    while ui < patch.updated_instances.len()
        invariant
            patch_applicable(*patch),
            tree.wf(),
            o.wf(),
            t1.wf(),
            t1.spec_len() >= o.spec_len(),
            tree.spec_len() == t1.spec_len(),
            ui <= patch.updated_instances@.len(),
            forall|j: int| tree.is_live(j) == t1.is_live(j),
            forall|j: int| 0 <= j < o.spec_len() ==> t1.is_live(j) == o.is_live(j),
            forall|j: int|
                0 <= j < o.spec_len() && o.is_live(j) ==> Tree::same_but_children(
                    t1.node(j),
                    o.node(j),
                ),
            forall|j: int|
                tree.is_live(j) ==> tree.node(j).class_name == t1.node(j).class_name
                    && tree.node(j).name == t1.node(j).name && tree.node(j).children == t1.node(
                    j,
                ).children && tree.node(j).parent == t1.node(j).parent && tree.node(j).metadata
                    == t1.node(j).metadata,
            forall|i: int|
                0 <= i < ui && t1.is_live((#[trigger] patch.updated_instances@[i]).id as int)
                    ==> props_after(
                    t1.node(patch.updated_instances@[i].id as int).properties@,
                    patch.updated_instances@[i].changed_properties@,
                    tree.node(patch.updated_instances@[i].id as int).properties@,
                ),
            forall|j: int|
                tree.is_live(j) && untouched_by_updates(*patch, ui as int, j) ==> tree.node(
                    j,
                ).properties == t1.node(j).properties,
            ((forall|i: int|
                0 <= i < patch.added_instances@.len() ==> o.is_live(
                    (#[trigger] patch.added_instances@[i]).parent_id as int,
                )) && (forall|u2: int|
                0 <= u2 < patch.updated_instances@.len()
                    ==> ((#[trigger] patch.updated_instances@[u2]).id as int) < o.spec_len()))
                ==> forall|i: int|
                0 <= i < patch.added_instances@.len() ==> exists|r: int|
                    o.spec_len() <= r < tree.spec_len() && tree.is_live(r) && tree.node(r).parent
                        == Some((#[trigger] patch.added_instances@[i]).parent_id)
                        && snap_matches(*tree, patch.added_instances@[i].snapshot, r),
        decreases patch.updated_instances@.len() - ui,
    {
        let entry = &patch.updated_instances[ui];
        proof {
            assert(assoc_wf(patch.updated_instances@[ui as int].changed_properties@));
        }
        let ghost before = *tree;
        let ghost u = patch.updated_instances@[ui as int].id as int;
        proof {
            assert forall|i: int| 0 <= i < ui implies (#[trigger] patch.updated_instances@[i]).id
                as int != u by {
                assert(patch.updated_instances@[i].id != patch.updated_instances@[ui as int].id);
            }
        }
        tree.update_properties(entry.id, &entry.changed_properties);
        proof {
            if (forall|i: int|
                0 <= i < patch.added_instances@.len() ==> o.is_live(
                    (#[trigger] patch.added_instances@[i]).parent_id as int,
                )) && (forall|u2: int|
                0 <= u2 < patch.updated_instances@.len()
                    ==> ((#[trigger] patch.updated_instances@[u2]).id as int) < o.spec_len()) {
                assert(u < o.spec_len());
                assert forall|i: int| 0 <= i < patch.added_instances@.len() implies exists|
                    r: int,
                |
                    o.spec_len() <= r < tree.spec_len() && tree.is_live(r) && tree.node(r).parent
                        == Some((#[trigger] patch.added_instances@[i]).parent_id)
                        && snap_matches(*tree, patch.added_instances@[i].snapshot, r) by {
                    let r0 = choose|r0: int|
                        o.spec_len() <= r0 < before.spec_len() && before.is_live(r0)
                            && before.node(r0).parent == Some(
                            patch.added_instances@[i].parent_id,
                        ) && snap_matches(before, patch.added_instances@[i].snapshot, r0);
                    if before.is_live(u) {
                        assert forall|m: int|
                            r0 <= m < before.spec_len() implies tree.slots@[m]
                            == before.slots@[m] by {
                            assert(m != u);
                        }
                        lemma_snap_matches_frame(
                            before,
                            *tree,
                            patch.added_instances@[i].snapshot,
                            r0,
                        );
                        assert(tree.slots@[r0] == before.slots@[r0]);
                    } else {
                        assert(*tree == before);
                    }
                }
            }
            if before.is_live(u) {
                assert(before.node(u).properties == t1.node(u).properties);
            }
            assert forall|i: int|
                0 <= i < ui + 1 && t1.is_live((#[trigger] patch.updated_instances@[i]).id as int)
                    implies props_after(
                t1.node(patch.updated_instances@[i].id as int).properties@,
                patch.updated_instances@[i].changed_properties@,
                tree.node(patch.updated_instances@[i].id as int).properties@,
            ) by {
                let w = patch.updated_instances@[i].id as int;
                if i < ui {
                    assert(w != u);
                    assert(tree.node(w).properties == before.node(w).properties);
                } else {
                    assert(w == u);
                }
            }
            assert forall|j: int|
                tree.is_live(j) && untouched_by_updates(*patch, ui as int + 1, j) implies
                tree.node(j).properties == t1.node(j).properties by {
                assert(patch.updated_instances@[ui as int].id as int != j);
                assert(u != j);
                assert(tree.node(j).properties == before.node(j).properties);
                assert(untouched_by_updates(*patch, ui as int, j));
                assert(before.is_live(j));
                assert(before.node(j).properties == t1.node(j).properties);
            }
        }
        ui = ui + 1;
    }
    let ghost t2 = *tree;
    let mut ri: usize = 0;
    while ri < patch.removed_instances.len()
        invariant
            tree.wf(),
            t2.wf(),
            tree.spec_len() == t2.spec_len(),
            ri <= patch.removed_instances@.len(),
            forall|j: int| tree.is_live(j) ==> t2.is_live(j),
            patch.removed_instances@.len() == 0 ==> *tree == t2,
            forall|r2: int|
                0 <= r2 < ri && #[trigger] patch.removed_instances@[r2] as int != 0
                    ==> !tree.is_live(patch.removed_instances@[r2] as int),
            forall|j: int|
                tree.is_live(j) ==> Tree::same_but_children(tree.node(j), t2.node(j)),
        decreases patch.removed_instances@.len() - ri,
    {
        let target = patch.removed_instances[ri];
        if target != 0 {
            let ghost before = *tree;
            tree.remove_subtree(target);
            proof {
                assert forall|r2: int|
                    0 <= r2 < ri + 1 && #[trigger] patch.removed_instances@[r2] as int != 0
                        implies !tree.is_live(patch.removed_instances@[r2] as int) by {
                    if r2 < ri {
                        assert(!before.is_live(patch.removed_instances@[r2] as int));
                    } else {
                        if before.is_live(target as int) {
                            assert(before.in_subtree(target as int, target as int));
                        }
                    }
                }
                assert forall|j: int| tree.is_live(j) implies Tree::same_but_children(
                    tree.node(j),
                    t2.node(j),
                ) by {
                    assert(before.is_live(j));
                    assert(Tree::same_but_children(before.node(j), t2.node(j)));
                    if before.is_live(target as int) {
                        let pa = before.node(target as int).parent->Some_0 as int;
                        if j == pa {
                            assert(Tree::same_but_children(tree.node(j), before.node(j)));
                        } else {
                            assert(tree.slots@[j] == before.slots@[j]);
                        }
                    } else {
                        assert(*tree == before);
                    }
                }
            }
        }
        ri = ri + 1;
    }
    proof {
        if (forall|i: int|
            0 <= i < patch.added_instances@.len() ==> o.is_live(
                (#[trigger] patch.added_instances@[i]).parent_id as int,
            )) && (forall|u2: int|
            0 <= u2 < patch.updated_instances@.len()
                ==> ((#[trigger] patch.updated_instances@[u2]).id as int) < o.spec_len())
            && patch.removed_instances@.len() == 0 {
            assert(*tree == t2);
        }
        assert forall|j: int|
            0 <= j < o.spec_len() && tree.is_live(j) implies tree.node(j).class_name == o.node(
            j,
        ).class_name && tree.node(j).name == o.node(j).name by {
            assert(t2.is_live(j));
            assert(t1.is_live(j));
            assert(o.is_live(j));
        }
        assert forall|i: int|
            0 <= i < patch.updated_instances@.len() && o.is_live(
                (#[trigger] patch.updated_instances@[i]).id as int,
            ) && tree.is_live(patch.updated_instances@[i].id as int) implies props_after(
            o.node(patch.updated_instances@[i].id as int).properties@,
            patch.updated_instances@[i].changed_properties@,
            tree.node(patch.updated_instances@[i].id as int).properties@,
        ) by {
            let uid = patch.updated_instances@[i].id as int;
            assert(t2.is_live(uid) && t1.is_live(uid));
            assert(t1.node(uid).properties == o.node(uid).properties);
            assert(tree.node(uid).properties == t2.node(uid).properties);
        }
        assert forall|j: int|
            0 <= j < o.spec_len() && tree.is_live(j) && (forall|i: int|
                0 <= i < patch.updated_instances@.len()
                    ==> (#[trigger] patch.updated_instances@[i]).id as int != j) implies tree.node(
            j,
        ).properties == o.node(j).properties by {
            assert(t2.is_live(j) && t1.is_live(j) && o.is_live(j));
            assert(t2.node(j).properties == t1.node(j).properties);
            assert(t1.node(j).properties == o.node(j).properties);
            assert(tree.node(j).properties == t2.node(j).properties);
        }
    }
    errs
}

} // verus!
