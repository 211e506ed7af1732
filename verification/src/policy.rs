//! Merge policies. All commands share one patch shape; **build** and
//! **serve** apply the patch unmodified, while **sync** — merging into an
//! existing file — first discards the whole `removed` set and drops every
//! `Clear` delta, so instances and properties the project does not manage
//! are never deleted or reset.

use vstd::prelude::*;
use crate::apply::{delta_has_no_clear, patch_applicable, props_after};
use crate::diff::{clear_needed, delta_models};
use crate::patch::{PatchSet, PropertyDelta, UpdatedInstance};
use crate::props::{
    assoc_get, assoc_wf, lemma_assoc_get_at_index, lemma_assoc_get_push,
    lemma_assoc_get_some_index,
};
use crate::variant::Variant;

verus! {

/// Which merge policy a command runs under.
#[derive(Debug, Clone, Copy, PartialEq, Eq, Structural)]
pub enum MergePolicy {
    /// Materialize the project fully: apply the patch unmodified.
    Build,
    /// Merge into existing content: keep foreign instances and properties.
    Sync,
    /// Live serve: apply the patch unmodified, per changed subtree.
    Serve,
}

/// One delta map with every `Clear` dropped: each key keeps its `Overwrite`
/// binding and loses any `Clear` binding.
fn retain_overwrites(delta: Vec<(String, PropertyDelta)>) -> (r: Vec<(String, PropertyDelta)>)
    requires
        assoc_wf(delta@),
    ensures
        assoc_wf(r@),
        delta_has_no_clear(r@),
        forall|k: Seq<char>|
            #![trigger assoc_get(r@, k)]
            assoc_get(r@, k) == (match assoc_get(delta@, k) {
                Some(dl) => match dl {
                    PropertyDelta::Overwrite(v) => Some(PropertyDelta::Overwrite(v)),
                    PropertyDelta::Clear => None::<PropertyDelta>,
                },
                None => None::<PropertyDelta>,
            }),
{
    let ghost orig = delta@;
    let mut rest = delta;
    let mut out: Vec<(String, PropertyDelta)> = Vec::new();
    let ghost mut i: int = 0;
    while rest.len() > 0
        invariant
            assoc_wf(orig),
            0 <= i && i + rest@.len() == orig.len(),
            rest@ == orig.skip(i),
            assoc_wf(out@),
            delta_has_no_clear(out@),
            forall|jd: int| 0 <= jd < out@.len() ==> exists|j2: int|
                0 <= j2 < i && orig[j2].0@ == (#[trigger] out@[jd].0@),
            forall|k: Seq<char>|
                #![trigger assoc_get(out@, k)]
                assoc_get(out@, k) == (if exists|j2: int|
                    0 <= j2 < i && (#[trigger] orig[j2].0@) == k {
                    match assoc_get(orig, k) {
                        Some(dl) => match dl {
                            PropertyDelta::Overwrite(v) => Some(PropertyDelta::Overwrite(v)),
                            PropertyDelta::Clear => None::<PropertyDelta>,
                        },
                        None => None::<PropertyDelta>,
                    }
                } else {
                    None::<PropertyDelta>
                }),
        decreases rest@.len(),
    {
        let entry = rest.remove(0);
        proof {
            assert(orig.skip(i)[0] == orig[i]);
            assert(rest@ =~= orig.skip(i + 1));
            lemma_assoc_get_at_index(orig, i);
            lemma_assoc_get_some_index(out@, orig[i].0@);
        }
        let ghost ki = orig[i].0@;
        match entry.1 {
            PropertyDelta::Overwrite(v) => {
                let ghost before = out@;
                out.push((entry.0, PropertyDelta::Overwrite(v)));
                proof {
                    assert forall|k: Seq<char>|
                        #![trigger assoc_get(out@, k)]
                        assoc_get(out@, k) == (if assoc_get(before, k) is Some {
                            assoc_get(before, k)
                        } else if k == ki {
                            Some(out@.last().1)
                        } else {
                            None::<PropertyDelta>
                        }) by {
                        lemma_assoc_get_push(before, out@.last(), k);
                    }
                }
            },
            PropertyDelta::Clear => {},
        }
        proof {
            i = i + 1;
        }
    }
    proof {
        assert forall|k: Seq<char>|
            #![trigger assoc_get(out@, k)]
            assoc_get(out@, k) == (match assoc_get(orig, k) {
                Some(dl) => match dl {
                    PropertyDelta::Overwrite(v) => Some(PropertyDelta::Overwrite(v)),
                    PropertyDelta::Clear => None::<PropertyDelta>,
                },
                None => None::<PropertyDelta>,
            }) by {
            lemma_assoc_get_some_index(orig, k);
        }
    }
    out
}

/// The post-processing filter that turns a generic patch into a **sync**
/// patch: the `removed` set is discarded entirely and every `Clear` delta is
/// dropped, so nothing pre-existing is deleted or reset. Updated entries
/// keep their identifiers and their `Overwrite` deltas; an entry left with
/// no deltas stays in the list as an empty delta map, which a correct
/// applier treats the same as its absence.
pub fn filter_patch_for_sync(patch: PatchSet) -> (r: PatchSet)
    requires
        patch_applicable(patch),
    ensures
        patch_applicable(r),
        r.removed_instances@.len() == 0,
        r.added_instances == patch.added_instances,
        r.updated_instances@.len() == patch.updated_instances@.len(),
        forall|i: int|
            0 <= i < patch.updated_instances@.len() ==> (#[trigger] r.updated_instances@[i]).id
                == patch.updated_instances@[i].id && delta_has_no_clear(
                r.updated_instances@[i].changed_properties@,
            ) && forall|k: Seq<char>|
                #![trigger assoc_get(r.updated_instances@[i].changed_properties@, k)]
                assoc_get(r.updated_instances@[i].changed_properties@, k) == (match assoc_get(
                    patch.updated_instances@[i].changed_properties@,
                    k,
                ) {
                    Some(dl) => match dl {
                        PropertyDelta::Overwrite(v) => Some(PropertyDelta::Overwrite(v)),
                        PropertyDelta::Clear => None::<PropertyDelta>,
                    },
                    None => None::<PropertyDelta>,
                }),
{
    let PatchSet { added_instances, removed_instances: _, updated_instances } = patch;
    let ghost orig_upd = updated_instances@;
    let mut rest = updated_instances;
    let mut updated: Vec<UpdatedInstance> = Vec::new();
    let ghost mut i: int = 0;
    while rest.len() > 0
        invariant
            0 <= i && i + rest@.len() == orig_upd.len(),
            rest@ == orig_upd.skip(i),
            updated@.len() == i,
            forall|j: int|
                0 <= j < orig_upd.len() ==> assoc_wf(
                    (#[trigger] orig_upd[j]).changed_properties@,
                ),
            forall|j: int|
                0 <= j < i ==> (#[trigger] updated@[j]).id == orig_upd[j].id && assoc_wf(
                    updated@[j].changed_properties@,
                ) && delta_has_no_clear(updated@[j].changed_properties@) && forall|k: Seq<char>|
                    #![trigger assoc_get(updated@[j].changed_properties@, k)]
                    assoc_get(updated@[j].changed_properties@, k) == (match assoc_get(
                        orig_upd[j].changed_properties@,
                        k,
                    ) {
                        Some(dl) => match dl {
                            PropertyDelta::Overwrite(v) => Some(PropertyDelta::Overwrite(v)),
                            PropertyDelta::Clear => None::<PropertyDelta>,
                        },
                        None => None::<PropertyDelta>,
                    }),
        decreases rest@.len(),
    {
        let entry = rest.remove(0);
        proof {
            assert(orig_upd.skip(i)[0] == orig_upd[i]);
            assert(rest@ =~= orig_upd.skip(i + 1));
            assert(assoc_wf(orig_upd[i].changed_properties@));
        }
        let filtered = retain_overwrites(entry.changed_properties);
        updated.push(UpdatedInstance { id: entry.id, changed_properties: filtered });
        proof {
            i = i + 1;
        }
    }
    proof {
        assert forall|i2: int, j2: int| 0 <= i2 < j2 < updated@.len() implies updated@[i2].id
            != updated@[j2].id by {
            assert(orig_upd[i2].id != orig_upd[j2].id);
        }
    }
    PatchSet {
        added_instances,
        removed_instances: Vec::new(),
        updated_instances: updated,
    }
}

/// Applying the exact diff and then a delta containing a `Clear` for key `k`
/// leaves `k` unbound: under the **build** policy a property absent from the
/// desired side is cleared.
pub proof fn lemma_build_policy_clears(
    d: Seq<(String, Variant)>,
    e: Seq<(String, Variant)>,
    delta: Seq<(String, PropertyDelta)>,
    newp: Seq<(String, Variant)>,
    k: Seq<char>,
)
    requires
        delta_models(delta, d, e),
        props_after(e, delta, newp),
        clear_needed(d, e, k),
    ensures
        assoc_get(newp, k) is None,
{
    assert(assoc_get(newp, k) == assoc_get(newp, k));
    match assoc_get(delta, k) {
        Some(dl) => {},
        None => {},
    }
}

} // verus!
