//! Property-level diffing: comparing a desired property map against an
//! existing one, key by key, into a three-state delta map.

use vstd::prelude::*;
use crate::apply::patch_applicable;
use crate::instance::InstanceSnapshot;
use crate::patch::{AddedInstance, PatchSet, PropertyDelta, UpdatedInstance};
use crate::props::{
    assoc_get, assoc_lookup, assoc_wf, lemma_assoc_get_at_index, lemma_assoc_get_push,
    lemma_assoc_get_some_index,
};
use crate::tree::Tree;
use crate::variant::{InstanceId, Variant, opt_vareq, vareq, variant_eq};

verus! {

/// An `Overwrite` delta is needed at key `k`: the desired side has a value there
/// and the existing side is missing it or holds a different one.
pub open spec fn set_needed(
    d: Seq<(String, Variant)>,
    e: Seq<(String, Variant)>,
    k: Seq<char>,
) -> bool {
    assoc_get(d, k) matches Some(dv) && !(assoc_get(e, k) matches Some(ev) && vareq(dv, ev))
}

/// A `Clear` delta is needed at key `k`: the existing side has a value there
/// and the desired side does not.
pub open spec fn clear_needed(
    d: Seq<(String, Variant)>,
    e: Seq<(String, Variant)>,
    k: Seq<char>,
) -> bool {
    assoc_get(d, k) is None && assoc_get(e, k) is Some
}

/// The two sides agree at key `k`: no delta is needed.
pub open spec fn props_agree_at(
    d: Seq<(String, Variant)>,
    e: Seq<(String, Variant)>,
    k: Seq<char>,
) -> bool {
    !set_needed(d, e, k) && !clear_needed(d, e, k)
}

/// The delta map is exactly the property diff of desired against existing:
/// at every key it holds `Overwrite` of the desired value where one is
/// needed, `Clear` where one is needed, and nothing where the sides agree.
pub open spec fn delta_models(
    delta: Seq<(String, PropertyDelta)>,
    d: Seq<(String, Variant)>,
    e: Seq<(String, Variant)>,
) -> bool {
    forall|k: Seq<char>|
        #![trigger assoc_get(delta, k)]
        match assoc_get(delta, k) {
            Some(dl) => match dl {
                PropertyDelta::Overwrite(v) => set_needed(d, e, k) && opt_vareq(
                    assoc_get(d, k),
                    Some(v),
                ),
                PropertyDelta::Clear => clear_needed(d, e, k),
            },
            None => props_agree_at(d, e, k),
        }
}

/// Every entry of the delta map is warranted: its key is one where the two
/// sides do not agree. Together with `delta_models` this pins the delta map
/// down to the exact diff, up to entry order.
pub open spec fn delta_warranted(
    delta: Seq<(String, PropertyDelta)>,
    d: Seq<(String, Variant)>,
    e: Seq<(String, Variant)>,
) -> bool {
    forall|j: int| 0 <= j < delta.len() ==> !props_agree_at(d, e, #[trigger] delta[j].0@)
}

/// Compares a desired property map against an existing one, key by key:
/// differing or newly-present desired properties yield `Overwrite`;
/// properties present only on the existing side yield `Clear`; agreeing
/// keys yield nothing. An empty result means the maps agree everywhere.
pub fn diff_properties(
    desired: &Vec<(String, Variant)>,
    existing: &Vec<(String, Variant)>,
) -> (delta: Vec<(String, PropertyDelta)>)
    requires
        assoc_wf(desired@),
        assoc_wf(existing@),
    ensures
        assoc_wf(delta@),
        delta_models(delta@, desired@, existing@),
        delta_warranted(delta@, desired@, existing@),
{
    let ghost d = desired@;
    let ghost e = existing@;
    let mut delta: Vec<(String, PropertyDelta)> = Vec::new();
    let mut i: usize = 0;
    while i < desired.len()
        invariant
            assoc_wf(d),
            assoc_wf(e),
            d == desired@,
            e == existing@,
            i <= d.len(),
            assoc_wf(delta@),
            forall|jd: int| 0 <= jd < delta@.len() ==> #[trigger] delta@[jd].1 is Overwrite
                && exists|j2: int| 0 <= j2 < i && d[j2].0@ == delta@[jd].0@,
            forall|k: Seq<char>|
                #![trigger assoc_get(delta@, k)]
                match assoc_get(delta@, k) {
                    Some(dl) => match dl {
                        PropertyDelta::Overwrite(v) => set_needed(d, e, k) && opt_vareq(
                            assoc_get(d, k),
                            Some(v),
                        ),
                        PropertyDelta::Clear => false,
                    },
                    None => !(set_needed(d, e, k) && exists|j2: int|
                        0 <= j2 < i && d[j2].0@ == k),
                },
            forall|jd: int| 0 <= jd < delta@.len() ==> !props_agree_at(
                d,
                e,
                #[trigger] delta@[jd].0@,
            ),
        decreases d.len() - i,
    {
        let pair = &desired[i];
        let ghost ki = d[i as int].0@;
        proof {
            lemma_assoc_get_at_index(d, i as int);
            lemma_assoc_get_some_index(delta@, ki);
        }
        let needs_set = match assoc_lookup(existing, &pair.0) {
            Some(ev) => !variant_eq(&pair.1, ev),
            None => true,
        };
        if needs_set {
            let ghost before = delta@;
            delta.push((pair.0.clone(), PropertyDelta::Overwrite(pair.1.duplicate())));
            proof {
                assert forall|k: Seq<char>|
                    #![trigger assoc_get(delta@, k)]
                    assoc_get(delta@, k) == (if assoc_get(before, k) is Some {
                        assoc_get(before, k)
                    } else if k == ki {
                        Some(delta@.last().1)
                    } else {
                        None::<PropertyDelta>
                    }) by {
                    lemma_assoc_get_push(before, delta@.last(), k);
                }
            }
        }
        i = i + 1;
    }
    proof {
        assert forall|jd: int| 0 <= jd < delta@.len() implies (#[trigger] delta@[jd].1 is Overwrite
            ==> assoc_get(d, delta@[jd].0@) is Some) && (delta@[jd].1 is Clear ==> assoc_get(
            d,
            delta@[jd].0@,
        ) is None && exists|j2: int| 0 <= j2 < 0 && e[j2].0@ == delta@[jd].0@) by {
            let k = delta@[jd].0@;
            let j2 = choose|j2: int| 0 <= j2 < d.len() && d[j2].0@ == k;
            lemma_assoc_get_at_index(d, j2);
        }
        assert forall|k: Seq<char>|
            #![trigger assoc_get(delta@, k)]
            match assoc_get(delta@, k) {
                Some(dl) => match dl {
                    PropertyDelta::Overwrite(v) => set_needed(d, e, k) && opt_vareq(
                        assoc_get(d, k),
                        Some(v),
                    ),
                    PropertyDelta::Clear => clear_needed(d, e, k),
                },
                None => !set_needed(d, e, k) && !(clear_needed(d, e, k) && exists|j2: int|
                    0 <= j2 < 0 && e[j2].0@ == k),
            } by {
            if assoc_get(delta@, k) is None {
                lemma_assoc_get_some_index(d, k);
            }
        }
    }
    let mut j: usize = 0;
    while j < existing.len()
        invariant
            assoc_wf(d),
            assoc_wf(e),
            d == desired@,
            e == existing@,
            j <= e.len(),
            assoc_wf(delta@),
            forall|jd: int| 0 <= jd < delta@.len() ==> (#[trigger] delta@[jd].1 is Overwrite
                ==> assoc_get(d, delta@[jd].0@) is Some) && (delta@[jd].1 is Clear
                ==> assoc_get(d, delta@[jd].0@) is None && exists|j2: int|
                    0 <= j2 < j && e[j2].0@ == delta@[jd].0@),
            forall|k: Seq<char>|
                #![trigger assoc_get(delta@, k)]
                match assoc_get(delta@, k) {
                    Some(dl) => match dl {
                        PropertyDelta::Overwrite(v) => set_needed(d, e, k) && opt_vareq(
                            assoc_get(d, k),
                            Some(v),
                        ),
                        PropertyDelta::Clear => clear_needed(d, e, k),
                    },
                    None => !set_needed(d, e, k) && !(clear_needed(d, e, k) && exists|j2: int|
                        0 <= j2 < j && e[j2].0@ == k),
                },
            forall|jd: int| 0 <= jd < delta@.len() ==> !props_agree_at(
                d,
                e,
                #[trigger] delta@[jd].0@,
            ),
        decreases e.len() - j,
    {
        let pair = &existing[j];
        let ghost kj = e[j as int].0@;
        proof {
            lemma_assoc_get_at_index(e, j as int);
            lemma_assoc_get_some_index(delta@, kj);
            lemma_assoc_get_some_index(d, kj);
        }
        let absent = match assoc_lookup(desired, &pair.0) {
            Some(_) => false,
            None => true,
        };
        if absent {
            let ghost before = delta@;
            delta.push((pair.0.clone(), PropertyDelta::Clear));
            proof {
                assert forall|k: Seq<char>|
                    #![trigger assoc_get(delta@, k)]
                    assoc_get(delta@, k) == (if assoc_get(before, k) is Some {
                        assoc_get(before, k)
                    } else if k == kj {
                        Some(delta@.last().1)
                    } else {
                        None::<PropertyDelta>
                    }) by {
                    lemma_assoc_get_push(before, delta@.last(), k);
                }
            }
        }
        j = j + 1;
    }
    proof {
        assert forall|k: Seq<char>|
            #![trigger assoc_get(delta@, k)]
            match assoc_get(delta@, k) {
                Some(dl) => match dl {
                    PropertyDelta::Overwrite(v) => set_needed(d, e, k) && opt_vareq(
                        assoc_get(d, k),
                        Some(v),
                    ),
                    PropertyDelta::Clear => clear_needed(d, e, k),
                },
                None => props_agree_at(d, e, k),
            } by {
            if assoc_get(delta@, k) is None {
                lemma_assoc_get_some_index(e, k);
            }
        }
    }
    delta
}

/// The two maps agree at every key exactly when their exact diff is the
/// empty delta map.
pub proof fn lemma_agree_iff_empty_diff(
    delta: Seq<(String, PropertyDelta)>,
    d: Seq<(String, Variant)>,
    e: Seq<(String, Variant)>,
)
    requires
        delta_models(delta, d, e),
        delta_warranted(delta, d, e),
    ensures
        (forall|k: Seq<char>| props_agree_at(d, e, k)) <==> delta.len() == 0,
{
    if delta.len() > 0 {
        assert(!props_agree_at(d, e, delta[0].0@));
    }
    if delta.len() == 0 {
        assert forall|k: Seq<char>| props_agree_at(d, e, k) by {
            assert(assoc_get(delta, k) is None);
        }
    }
}


/// Whether some updated entry already names `id`.
fn updated_names(list: &Vec<UpdatedInstance>, id: InstanceId) -> (r: bool)
    ensures
        r == exists|i: int| 0 <= i < list@.len() && (#[trigger] list@[i]).id == id,
{
    let mut i: usize = 0;
    while i < list.len()
        invariant
            i <= list@.len(),
            forall|j: int| 0 <= j < i ==> (#[trigger] list@[j]).id != id,
        decreases list@.len() - i,
    {
        if list[i].id == id {
            return true;
        }
        i = i + 1;
    }
    false
}

/// What one diff step may append to a patch while walking the subtree at
/// `id`: the entries already present are untouched; every new updated entry
/// names an instance with identifier at least `id`; every new removed entry
/// is a live instance strictly below the walked subtree's root in identifier
/// order — in particular never the tree root; and every new added entry
/// hangs under a live, pre-existing instance, so parents always precede the
/// subtrees added beneath them.
pub open spec fn patch_extends(before: PatchSet, after: PatchSet, tree: Tree, id: int) -> bool {
    &&& after.updated_instances@.len() >= before.updated_instances@.len()
    &&& (forall|i: int|
        0 <= i < before.updated_instances@.len() ==> after.updated_instances@[i]
            == before.updated_instances@[i])
    &&& (forall|i: int|
        before.updated_instances@.len() <= i < after.updated_instances@.len()
            ==> (#[trigger] after.updated_instances@[i]).id as int >= id && tree.is_live(
            after.updated_instances@[i].id as int,
        ))
    &&& after.removed_instances@.len() >= before.removed_instances@.len()
    &&& (forall|i: int|
        0 <= i < before.removed_instances@.len() ==> after.removed_instances@[i]
            == before.removed_instances@[i])
    &&& (forall|i: int|
        before.removed_instances@.len() <= i < after.removed_instances@.len() ==> tree.is_live(
            #[trigger] after.removed_instances@[i] as int,
        ) && after.removed_instances@[i] as int > id)
    &&& after.added_instances@.len() >= before.added_instances@.len()
    &&& (forall|i: int|
        0 <= i < before.added_instances@.len() ==> after.added_instances@[i]
            == before.added_instances@[i])
    &&& (forall|i: int|
        before.added_instances@.len() <= i < after.added_instances@.len() ==> tree.is_live(
            (#[trigger] after.added_instances@[i]).parent_id as int,
        ) && after.added_instances@[i].parent_id as int >= id)
}

/// `patch_extends` composes.
pub proof fn lemma_patch_extends_trans(a: PatchSet, b: PatchSet, c: PatchSet, tree: Tree, id: int)
    requires
        patch_extends(a, b, tree, id),
        patch_extends(b, c, tree, id),
    ensures
        patch_extends(a, c, tree, id),
{
    assert forall|i: int|
        a.updated_instances@.len() <= i < c.updated_instances@.len() implies (
    #[trigger] c.updated_instances@[i]).id as int >= id && tree.is_live(
        c.updated_instances@[i].id as int,
    ) by {
        if i < b.updated_instances@.len() {
            assert(c.updated_instances@[i] == b.updated_instances@[i]);
        }
    }
    assert forall|i: int|
        a.removed_instances@.len() <= i < c.removed_instances@.len() implies tree.is_live(
        #[trigger] c.removed_instances@[i] as int,
    ) && c.removed_instances@[i] as int > id by {
        if i < b.removed_instances@.len() {
            assert(c.removed_instances@[i] == b.removed_instances@[i]);
        }
    }
    assert forall|i: int|
        a.added_instances@.len() <= i < c.added_instances@.len() implies tree.is_live(
        (#[trigger] c.added_instances@[i]).parent_id as int,
    ) && c.added_instances@[i].parent_id as int >= id by {
        if i < b.added_instances@.len() {
            assert(c.added_instances@[i] == b.added_instances@[i]);
        }
    }
}

/// `patch_extends` at a deeper subtree root also holds at any shallower one.
pub proof fn lemma_patch_extends_weaken(
    a: PatchSet,
    b: PatchSet,
    tree: Tree,
    id_deep: int,
    id: int,
)
    requires
        patch_extends(a, b, tree, id_deep),
        id <= id_deep,
    ensures
        patch_extends(a, b, tree, id),
{
}

/// The desired snapshot already matches the existing subtree at `id`:
/// class, name and properties agree, the child lists line up one to one in
/// order, and every pair matches recursively. An already-synced, unchanged
/// subtree is exactly one in this state, and diffing it finds nothing to do.
pub open spec fn snap_matches(tree: Tree, s: InstanceSnapshot, id: int) -> bool
    decreases s,
{
    &&& tree.is_live(id)
    &&& tree.node(id).class_name@ == s.class_name@
    &&& tree.node(id).name@ == s.name@
    &&& (forall|k: Seq<char>| props_agree_at(s.properties@, tree.node(id).properties@, k))
    &&& tree.kids(id).len() == s.children@.len()
    &&& (forall|i: int|
        #![trigger s.children@[i]]
        0 <= i < s.children@.len() ==> snap_matches(
            tree,
            s.children@[i],
            tree.kids(id)[i] as int,
        ))
}

/// A matching pair stays matched when the tree changes only outside the
/// existing subtree: the subtree at `id` occupies slots from `id` upward
/// (children always have larger identifiers), so leaving those slots alone
/// preserves the correspondence whatever happens elsewhere or beyond the
/// old length.
pub proof fn lemma_snap_matches_frame(t1: Tree, t2: Tree, s: InstanceSnapshot, id: int)
    requires
        t1.wf(),
        snap_matches(t1, s, id),
        t2.spec_len() >= t1.spec_len(),
        forall|j: int| id <= j < t1.spec_len() ==> t2.slots@[j] == t1.slots@[j],
    ensures
        snap_matches(t2, s, id),
    decreases s,
{
    assert(t2.is_live(id));
    assert(t2.node(id) == t1.node(id));
    assert forall|i: int|
        #![trigger s.children@[i]]
        0 <= i < s.children@.len() implies snap_matches(
        t2,
        s.children@[i],
        t2.kids(id)[i] as int,
    ) by {
        let c = t1.kids(id)[i] as int;
        assert(t1.is_live(c) && c > id);
        assert(snap_matches(t1, s.children@[i], c));
        lemma_snap_matches_frame(t1, t2, s.children@[i], c);
        assert(t2.kids(id)[i] == t1.kids(id)[i]);
    }
}

/// Equivalent snapshots match the same subtree: matching is a property of
/// the described content, not of the particular copy describing it.
pub proof fn lemma_snap_equiv_matches(
    t: Tree,
    a: InstanceSnapshot,
    b: InstanceSnapshot,
    id: int,
)
    requires
        crate::instance::snap_equiv(a, b),
        snap_matches(t, b, id),
    ensures
        snap_matches(t, a, id),
    decreases a,
{
    crate::props::lemma_pairwise_assoc_equiv(a.properties@, b.properties@);
    assert forall|k: Seq<char>| props_agree_at(a.properties@, t.node(id).properties@, k) by {
        assert(opt_vareq(assoc_get(a.properties@, k), assoc_get(b.properties@, k)));
        assert(props_agree_at(b.properties@, t.node(id).properties@, k));
        match assoc_get(a.properties@, k) {
            Some(av) => {
                let bv = assoc_get(b.properties@, k)->Some_0;
                let ev = assoc_get(t.node(id).properties@, k)->Some_0;
                crate::variant::lemma_vareq_trans(av, bv, ev);
            },
            None => {},
        }
    }
    assert forall|i: int|
        #![trigger a.children@[i]]
        0 <= i < a.children@.len() implies snap_matches(
        t,
        a.children@[i],
        t.kids(id)[i] as int,
    ) by {
        assert(crate::instance::snap_equiv(a.children@[i], b.children@[i]));
        assert(snap_matches(t, b.children@[i], t.kids(id)[i] as int));
        lemma_snap_equiv_matches(t, a.children@[i], b.children@[i], t.kids(id)[i] as int);
    }
}

/// Walks the desired snapshot and the existing subtree at `id` in lock-step,
/// appending the needed entries to `patch`. Children are paired by class and
/// name, ties broken by stable index order — a documented best-effort
/// policy. (Pairing by the resolver's path table is not possible here: the
/// existing side comes from a decoded file, and source paths are
/// out-of-band metadata that the serialized tree does not carry, so the
/// existing children have no paths to pair by. The resolver still gives
/// reference lookups their stable path-to-identifier table.) Unpaired
/// desired children become `added` entries carrying their full subtree;
/// unpaired existing children become `removed` entries unless their
/// metadata tolerates unknown instances; paired children are diffed
/// recursively.
fn collect_patch(tree: &Tree, snap: &InstanceSnapshot, id: InstanceId, patch: &mut PatchSet)
    requires
        tree.wf(),
        snap.wf(),
        tree.is_live(id as int),
        patch_applicable(*old(patch)),
    ensures
        patch_applicable(*final(patch)),
        patch_extends(*old(patch), *final(patch), *tree, id as int),
        snap_matches(*tree, *snap, id as int) ==> *final(patch) == *old(patch),
        // removal completeness at the walked pair: an untolerated existing
        // child whose class and name pair with no desired child is removed
        forall|kx: int|
            0 <= kx < tree.kids(id as int).len() && !tree.node(
                tree.kids(id as int)[kx] as int,
            ).metadata.ignore_unknown_instances && (forall|ci2: int|
                0 <= ci2 < snap.children@.len() ==> !((#[trigger] snap.children@[ci2]).class_name@
                    == tree.node(tree.kids(id as int)[kx] as int).class_name@
                    && snap.children@[ci2].name@ == tree.node(
                    tree.kids(id as int)[kx] as int,
                ).name@)) ==> final(patch).removed_instances@.contains(
                #[trigger] tree.kids(id as int)[kx],
            ),
        // add completeness at the walked pair: a desired child whose class
        // and name pair with no existing child is added, full subtree
        forall|ci2: int|
            #![trigger snap.children@[ci2]]
            0 <= ci2 < snap.children@.len() && (forall|kx: int|
                0 <= kx < tree.kids(id as int).len() ==> !(tree.node(
                    (#[trigger] tree.kids(id as int)[kx]) as int,
                ).class_name@ == snap.children@[ci2].class_name@ && tree.node(
                    tree.kids(id as int)[kx] as int,
                ).name@ == snap.children@[ci2].name@)) ==> exists|ax: int|
                0 <= ax < final(patch).added_instances@.len() && (#[trigger] final(patch).added_instances@[ax]).parent_id == id && crate::instance::snap_equiv(
                    snap.children@[ci2],
                    final(patch).added_instances@[ax].snapshot,
                ),
        (forall|k: Seq<char>|
            props_agree_at(snap.properties@, tree.node(id as int).properties@, k)) ==> forall|
            i: int,
        |
            old(patch).updated_instances@.len() <= i < final(patch).updated_instances@.len()
                ==> (#[trigger] final(patch).updated_instances@[i]).id != id,
        (!(forall|k: Seq<char>|
            props_agree_at(snap.properties@, tree.node(id as int).properties@, k)) && !(
        exists|i: int|
            0 <= i < old(patch).updated_instances@.len()
                && (#[trigger] old(patch).updated_instances@[i]).id == id)) ==> {
            &&& final(patch).updated_instances@.len() > old(patch).updated_instances@.len()
            &&& final(patch).updated_instances@[old(patch).updated_instances@.len() as int].id
                == id
            &&& delta_models(
                final(patch).updated_instances@[old(
                    patch,
                ).updated_instances@.len() as int].changed_properties@,
                snap.properties@,
                tree.node(id as int).properties@,
            )
            &&& delta_warranted(
                final(patch).updated_instances@[old(
                    patch,
                ).updated_instances@.len() as int].changed_properties@,
                snap.properties@,
                tree.node(id as int).properties@,
            )
        },
    decreases *snap,
{
    let ghost base = *old(patch);
    let node = match tree.get(id) {
        Some(n) => n,
        None => {
            proof {
                assert(false);
            }
            return ;
        },
    };
    let delta = diff_properties(&snap.properties, &node.properties);
    proof {
        lemma_agree_iff_empty_diff(delta@, snap.properties@, node.properties@);
    }
    if delta.len() > 0 {
        if !updated_names(&patch.updated_instances, id) {
            patch.updated_instances.push(
                UpdatedInstance { id, changed_properties: delta },
            );
        }
    }
    let ghost after_root = *patch;
    proof {
        let bl = base.updated_instances@.len() as int;
        assert(patch_extends(base, after_root, *tree, id as int));
        if snap_matches(*tree, *snap, id as int) {
            assert(forall|k: Seq<char>|
                props_agree_at(snap.properties@, tree.node(id as int).properties@, k));
            assert(after_root == base);
        }
        assert((forall|k: Seq<char>|
            props_agree_at(snap.properties@, tree.node(id as int).properties@, k))
            ==> after_root.updated_instances@.len() == bl);
        assert((!(forall|k: Seq<char>|
            props_agree_at(snap.properties@, tree.node(id as int).properties@, k)) && !(
        exists|i: int|
            0 <= i < base.updated_instances@.len() && (#[trigger] base.updated_instances@[i]).id
                == id)) ==> after_root.updated_instances@.len() == bl + 1
            && after_root.updated_instances@[bl].id == id && delta_models(
            after_root.updated_instances@[bl].changed_properties@,
            snap.properties@,
            tree.node(id as int).properties@,
        ) && delta_warranted(
            after_root.updated_instances@[bl].changed_properties@,
            snap.properties@,
            tree.node(id as int).properties@,
        ));
    }
    let kid_count = node.children.len();
    let mut used: Vec<bool> = Vec::new();
    let mut ki: usize = 0;
    while ki < kid_count
        invariant
            used@.len() == ki,
            ki <= kid_count,
            forall|x: int| 0 <= x < ki ==> !used@[x],
        decreases kid_count - ki,
    {
        used.push(false);
        ki = ki + 1;
    }
    let mut ci: usize = 0;
    while ci < snap.children.len()
        invariant
            tree.wf(),
            snap.wf(),
            tree.is_live(id as int),
            *node == tree.node(id as int),
            kid_count == node.children@.len(),
            used@.len() == kid_count,
            ci <= snap.children@.len(),
            patch_applicable(*patch),
            patch_extends(after_root, *patch, *tree, id as int),
            forall|i: int|
                after_root.updated_instances@.len() <= i < patch.updated_instances@.len()
                    ==> (#[trigger] patch.updated_instances@[i]).id as int > id as int,
            snap_matches(*tree, *snap, id as int) ==> *patch == after_root && (forall|x: int|
                0 <= x < kid_count ==> used@[x] == (x < ci as int)),
            forall|kx: int|
                0 <= kx < kid_count as int && #[trigger] used@[kx] ==> exists|ci2: int|
                    0 <= ci2 < snap.children@.len() && (#[trigger] snap.children@[ci2]).class_name@
                        == tree.node(tree.kids(id as int)[kx] as int).class_name@
                        && snap.children@[ci2].name@ == tree.node(
                        tree.kids(id as int)[kx] as int,
                    ).name@,
            forall|ci2: int|
                #![trigger snap.children@[ci2]]
                0 <= ci2 < ci && (forall|kx: int|
                    0 <= kx < tree.kids(id as int).len() ==> !(tree.node(
                        (#[trigger] tree.kids(id as int)[kx]) as int,
                    ).class_name@ == snap.children@[ci2].class_name@ && tree.node(
                        tree.kids(id as int)[kx] as int,
                    ).name@ == snap.children@[ci2].name@)) ==> exists|ax: int|
                    0 <= ax < patch.added_instances@.len() && (#[trigger] patch.added_instances@[
                        ax
                    ]).parent_id == id && crate::instance::snap_equiv(
                        snap.children@[ci2],
                        patch.added_instances@[ax].snapshot,
                    ),
        decreases snap.children@.len() - ci,
    {
        let child = &snap.children[ci];
        proof {
            assert(snap.children@[ci as int].wf());
            if snap_matches(*tree, *snap, id as int) {
                assert(snap_matches(*tree, snap.children@[ci as int], tree.kids(id as int)[
                    ci as int
                ] as int));
            }
        }
        let mut found: Option<InstanceId> = None;
        let mut kj: usize = 0;
        while kj < kid_count && found.is_none()
            invariant
                tree.wf(),
                tree.is_live(id as int),
                *node == tree.node(id as int),
                kid_count == node.children@.len(),
                used@.len() == kid_count,
                kj <= kid_count,
                ci < snap.children@.len(),
                *child == snap.children@[ci as int],
                match found {
                    Some(cid) => tree.is_live(cid as int) && cid as int > id as int
                        && exists|kx: int|
                        0 <= kx < kid_count as int && #[trigger] tree.kids(id as int)[kx] == cid
                            && tree.node(cid as int).class_name@
                            == snap.children@[ci as int].class_name@ && tree.node(
                            cid as int,
                        ).name@ == snap.children@[ci as int].name@,
                    None => true,
                },
                snap_matches(*tree, *snap, id as int) ==> match found {
                    None => kj as int <= ci as int && (forall|x: int|
                        0 <= x < kid_count ==> used@[x] == (x < ci as int)),
                    Some(f) => f == tree.kids(id as int)[ci as int] && (forall|x: int|
                        0 <= x < kid_count ==> used@[x] == (x < ci as int + 1)),
                },
                forall|kx: int|
                    0 <= kx < kid_count as int && #[trigger] used@[kx] ==> exists|ci2: int|
                        0 <= ci2 < snap.children@.len() && (#[trigger] snap.children@[
                            ci2
                        ]).class_name@ == tree.node(tree.kids(id as int)[kx] as int).class_name@
                            && snap.children@[ci2].name@ == tree.node(
                            tree.kids(id as int)[kx] as int,
                        ).name@,
            decreases kid_count - kj,
        {
            proof {
                if snap_matches(*tree, *snap, id as int) {
                    assert(snap_matches(*tree, snap.children@[ci as int], tree.kids(id as int)[
                        ci as int
                    ] as int));
                }
            }
            if !used[kj] {
                let cid = node.children[kj];
                proof {
                    assert(tree.kids(id as int)[kj as int] == cid);
                    assert(tree.is_live(cid as int));
                    if snap_matches(*tree, *snap, id as int) {
                        assert(!used@[kj as int]);
                        assert(kj as int == ci as int);
                        assert(cid == tree.kids(id as int)[ci as int]);
                        assert(snap_matches(*tree, snap.children@[ci as int], cid as int));
                    }
                }
                match tree.get(cid) {
                    Some(cnode) => {
                        if cnode.class_name == child.class_name && cnode.name == child.name {
                            let ghost used_before = used@;
                            used.set(kj, true);
                            found = Some(cid);
                            proof {
                                assert(used@ == used_before.update(kj as int, true));
                                assert(cnode.class_name@ == snap.children@[ci as int].class_name@);
                                assert(cnode.name@ == snap.children@[ci as int].name@);
                                assert forall|kx: int|
                                    0 <= kx < kid_count as int && #[trigger] used@[kx] implies
                                    exists|ci2: int|
                                    0 <= ci2 < snap.children@.len() && (#[trigger] snap.children@[
                                        ci2
                                    ]).class_name@ == tree.node(
                                        tree.kids(id as int)[kx] as int,
                                    ).class_name@ && snap.children@[ci2].name@ == tree.node(
                                        tree.kids(id as int)[kx] as int,
                                    ).name@ by {
                                    if kx == kj as int {
                                        assert(snap.children@[ci as int].class_name@
                                            == tree.node(
                                            tree.kids(id as int)[kx] as int,
                                        ).class_name@);
                                    } else {
                                        assert(used_before[kx]);
                                    }
                                }
                                if snap_matches(*tree, *snap, id as int) {
                                    assert forall|x: int| 0 <= x < kid_count implies used@[x] == (
                                    x < ci as int + 1) by {
                                        if x != kj as int {
                                            assert(used@[x] == used_before[x]);
                                        }
                                    }
                                }
                            }
                        } else {
                            proof {
                                if snap_matches(*tree, *snap, id as int) {
                                    assert(cnode.class_name@
                                        == snap.children@[ci as int].class_name@);
                                    assert(false);
                                }
                            }
                        }
                    },
                    None => {
                        proof {
                            assert(false);
                        }
                    },
                }
            }
            kj = kj + 1;
        }
        let ghost kids_seq = tree.kids(id as int);
        match found {
            Some(cid) => {
                let ghost pre = *patch;
                collect_patch(tree, child, cid, patch);
                proof {
                    lemma_patch_extends_weaken(pre, *patch, *tree, cid as int, id as int);
                    lemma_patch_extends_trans(after_root, pre, *patch, *tree, id as int);
                    assert forall|i: int|
                        after_root.updated_instances@.len() <= i
                            < patch.updated_instances@.len() implies (
                    #[trigger] patch.updated_instances@[i]).id as int > id as int by {
                        if i < pre.updated_instances@.len() {
                            assert(patch.updated_instances@[i] == pre.updated_instances@[i]);
                        } else {
                            assert(patch.updated_instances@[i].id as int >= cid as int);
                        }
                    }
                    if snap_matches(*tree, *snap, id as int) {
                        assert(cid == tree.kids(id as int)[ci as int]);
                        assert(snap_matches(*tree, snap.children@[ci as int], cid as int));
                        assert(*patch == pre);
                    }
                    assert forall|ci2: int|
                        #![trigger snap.children@[ci2]]
                        0 <= ci2 < ci + 1 && (forall|kx: int|
                            0 <= kx < kids_seq.len() ==> !(tree.node(
                                (#[trigger] kids_seq[kx]) as int,
                            ).class_name@ == snap.children@[ci2].class_name@ && tree.node(
                                kids_seq[kx] as int,
                            ).name@ == snap.children@[ci2].name@)) implies exists|ax: int|
                        0 <= ax < patch.added_instances@.len() && (
                        #[trigger] patch.added_instances@[ax]).parent_id == id
                            && crate::instance::snap_equiv(
                            snap.children@[ci2],
                            patch.added_instances@[ax].snapshot,
                        ) by {
                        if ci2 < ci {
                            let ax0 = choose|ax0: int|
                                0 <= ax0 < pre.added_instances@.len() && (
                                #[trigger] pre.added_instances@[ax0]).parent_id == id
                                    && crate::instance::snap_equiv(
                                    snap.children@[ci2],
                                    pre.added_instances@[ax0].snapshot,
                                );
                            assert(patch.added_instances@[ax0] == pre.added_instances@[ax0]);
                        } else {
                            let kxw = choose|kxw: int|
                                0 <= kxw < kid_count as int && #[trigger] tree.kids(id as int)[
                                    kxw
                                ] == cid && tree.node(cid as int).class_name@
                                    == snap.children@[ci as int].class_name@ && tree.node(
                                    cid as int,
                                ).name@ == snap.children@[ci as int].name@;
                            assert(false);
                        }
                    }
                }
            },
            None => {
                proof {
                    if snap_matches(*tree, *snap, id as int) {
                        assert(kid_count as int == snap.children@.len());
                        assert((ci as int) < kid_count as int);
                        assert(false);
                    }
                }
                let ghost pre = *patch;
                let copy = child.duplicate();
                patch.added_instances.push(
                    AddedInstance { parent_id: id, snapshot: copy },
                );
                proof {
                    assert(patch_extends(pre, *patch, *tree, id as int));
                    lemma_patch_extends_trans(after_root, pre, *patch, *tree, id as int);
                    assert(patch.added_instances@.last().parent_id == id);
                    assert(crate::instance::snap_equiv(
                        snap.children@[ci as int],
                        patch.added_instances@.last().snapshot,
                    ));
                    assert forall|ci2: int|
                        #![trigger snap.children@[ci2]]
                        0 <= ci2 < ci + 1 && (forall|kx: int|
                            0 <= kx < kids_seq.len() ==> !(tree.node(
                                (#[trigger] kids_seq[kx]) as int,
                            ).class_name@ == snap.children@[ci2].class_name@ && tree.node(
                                kids_seq[kx] as int,
                            ).name@ == snap.children@[ci2].name@)) implies exists|ax: int|
                        0 <= ax < patch.added_instances@.len() && (
                        #[trigger] patch.added_instances@[ax]).parent_id == id
                            && crate::instance::snap_equiv(
                            snap.children@[ci2],
                            patch.added_instances@[ax].snapshot,
                        ) by {
                        if ci2 < ci {
                            let ax0 = choose|ax0: int|
                                0 <= ax0 < pre.added_instances@.len() && (
                                #[trigger] pre.added_instances@[ax0]).parent_id == id
                                    && crate::instance::snap_equiv(
                                    snap.children@[ci2],
                                    pre.added_instances@[ax0].snapshot,
                                );
                            assert(patch.added_instances@[ax0] == pre.added_instances@[ax0]);
                        } else {
                            assert(patch.added_instances@[patch.added_instances@.len() - 1]
                                .parent_id == id);
                        }
                    }
                }
            },
        }
        ci = ci + 1;
    }
    let mut kr: usize = 0;
    while kr < kid_count
        invariant
            tree.wf(),
            tree.is_live(id as int),
            *node == tree.node(id as int),
            kid_count == node.children@.len(),
            used@.len() == kid_count,
            kr <= kid_count,
            patch_applicable(*patch),
            patch_extends(after_root, *patch, *tree, id as int),
            forall|i: int|
                after_root.updated_instances@.len() <= i < patch.updated_instances@.len()
                    ==> (#[trigger] patch.updated_instances@[i]).id as int > id as int,
            snap_matches(*tree, *snap, id as int) ==> *patch == after_root && (forall|x: int|
                0 <= x < kid_count ==> used@[x]),
            forall|kx: int|
                0 <= kx < kid_count as int && #[trigger] used@[kx] ==> exists|ci2: int|
                    0 <= ci2 < snap.children@.len() && (#[trigger] snap.children@[ci2]).class_name@
                        == tree.node(tree.kids(id as int)[kx] as int).class_name@
                        && snap.children@[ci2].name@ == tree.node(
                        tree.kids(id as int)[kx] as int,
                    ).name@,
            forall|ci2: int|
                #![trigger snap.children@[ci2]]
                0 <= ci2 < snap.children@.len() && (forall|kx: int|
                    0 <= kx < tree.kids(id as int).len() ==> !(tree.node(
                        (#[trigger] tree.kids(id as int)[kx]) as int,
                    ).class_name@ == snap.children@[ci2].class_name@ && tree.node(
                        tree.kids(id as int)[kx] as int,
                    ).name@ == snap.children@[ci2].name@)) ==> exists|ax: int|
                    0 <= ax < patch.added_instances@.len() && (#[trigger] patch.added_instances@[
                        ax
                    ]).parent_id == id && crate::instance::snap_equiv(
                        snap.children@[ci2],
                        patch.added_instances@[ax].snapshot,
                    ),
            forall|kx: int|
                0 <= kx < kr as int && !used@[kx] && !tree.node(
                    tree.kids(id as int)[kx] as int,
                ).metadata.ignore_unknown_instances ==> patch.removed_instances@.contains(
                    #[trigger] tree.kids(id as int)[kx],
                ),
        decreases kid_count - kr,
    {
        let ghost kids_seq = tree.kids(id as int);
        if !used[kr] {
            proof {
                if snap_matches(*tree, *snap, id as int) {
                    assert(used@[kr as int]);
                }
            }
            let cid = node.children[kr];
            proof {
                assert(tree.kids(id as int)[kr as int] == cid);
                assert(tree.is_live(cid as int));
            }
            match tree.get(cid) {
                Some(cnode) => {
                    if !cnode.metadata.ignore_unknown_instances {
                        let ghost pre = *patch;
                        patch.removed_instances.push(cid);
                        proof {
                            assert(patch_extends(pre, *patch, *tree, id as int));
                            lemma_patch_extends_trans(after_root, pre, *patch, *tree, id as int);
                            assert(patch.removed_instances@.last() == cid);
                            assert forall|kx: int|
                                0 <= kx < kr as int + 1 && !used@[kx] && !tree.node(
                                    kids_seq[kx] as int,
                                ).metadata.ignore_unknown_instances implies
                                patch.removed_instances@.contains(
                                #[trigger] kids_seq[kx],
                            ) by {
                                if kx < kr as int {
                                    let w = choose|w: int|
                                        0 <= w < pre.removed_instances@.len()
                                            && pre.removed_instances@[w] == kids_seq[kx];
                                    assert(patch.removed_instances@[w] == kids_seq[kx]);
                                } else {
                                    assert(patch.removed_instances@[
                                        patch.removed_instances@.len() - 1
                                    ] == kids_seq[kx]);
                                }
                            }
                        }
                    } else {
                        proof {
                            assert(tree.node(kids_seq[kr as int] as int)
                                .metadata.ignore_unknown_instances);
                        }
                    }
                },
                None => {
                    proof {
                        assert(false);
                    }
                },
            }
        }
        kr = kr + 1;
    }
    proof {
        assert forall|kx: int|
            0 <= kx < tree.kids(id as int).len() && !tree.node(
                tree.kids(id as int)[kx] as int,
            ).metadata.ignore_unknown_instances && (forall|ci2: int|
                0 <= ci2 < snap.children@.len() ==> !((#[trigger] snap.children@[ci2]).class_name@
                    == tree.node(tree.kids(id as int)[kx] as int).class_name@
                    && snap.children@[ci2].name@ == tree.node(
                    tree.kids(id as int)[kx] as int,
                ).name@)) implies patch.removed_instances@.contains(
            #[trigger] tree.kids(id as int)[kx],
        ) by {
            if used@[kx] {
                let ci2 = choose|ci2: int|
                    0 <= ci2 < snap.children@.len() && (#[trigger] snap.children@[
                        ci2
                    ]).class_name@ == tree.node(tree.kids(id as int)[kx] as int).class_name@
                        && snap.children@[ci2].name@ == tree.node(
                        tree.kids(id as int)[kx] as int,
                    ).name@;
                assert(false);
            }
        }
    }
    proof {
        lemma_patch_extends_trans(base, after_root, *patch, *tree, id as int);
        if snap_matches(*tree, *snap, id as int) {
            assert(*patch == after_root && after_root == base);
        }
        let bl = base.updated_instances@.len() as int;
        if forall|k: Seq<char>|
            props_agree_at(snap.properties@, tree.node(id as int).properties@, k) {
            assert forall|i: int|
                bl <= i < patch.updated_instances@.len() implies (
            #[trigger] patch.updated_instances@[i]).id != id by {
                assert(after_root.updated_instances@.len() == bl);
                assert(patch.updated_instances@[i].id as int > id as int);
            }
        }
        if !(forall|k: Seq<char>|
            props_agree_at(snap.properties@, tree.node(id as int).properties@, k)) && !(
        exists|i: int|
            0 <= i < base.updated_instances@.len() && (#[trigger] base.updated_instances@[i]).id
                == id) {
            assert(bl < after_root.updated_instances@.len());
            assert(patch.updated_instances@[bl] == after_root.updated_instances@[bl]);
        }
    }
}

/// Structurally compares a desired snapshot against the existing subtree at
/// `id` and produces the patch that reconciles them: property deltas for
/// paired instances, `added` subtrees for desired instances with no
/// counterpart, and `removed` entries for existing instances absent from the
/// desired side whose metadata does not tolerate unknown instances. Every
/// removed entry is a live instance strictly below `id` — never the tree
/// root — and every added entry's parent is a live, pre-existing instance,
/// so added entries always come in top-down order. When the desired and
/// existing property maps agree at the walked root, no updated entry names
/// it at all.
pub fn compute_patch_set(snapshot: &InstanceSnapshot, tree: &Tree, id: InstanceId) -> (patch:
    PatchSet)
    requires
        tree.wf(),
        snapshot.wf(),
        tree.is_live(id as int),
    ensures
        patch_applicable(patch),
        forall|i: int|
            0 <= i < patch.updated_instances@.len()
                ==> (#[trigger] patch.updated_instances@[i]).id as int >= id as int
                && tree.is_live(patch.updated_instances@[i].id as int),
        forall|i: int|
            0 <= i < patch.removed_instances@.len() ==> tree.is_live(
                #[trigger] patch.removed_instances@[i] as int,
            ) && patch.removed_instances@[i] as int > id as int,
        forall|i: int|
            0 <= i < patch.added_instances@.len() ==> tree.is_live(
                (#[trigger] patch.added_instances@[i]).parent_id as int,
            ) && patch.added_instances@[i].parent_id as int >= id as int,
        (forall|k: Seq<char>|
            props_agree_at(snapshot.properties@, tree.node(id as int).properties@, k)) ==> forall|
            i: int,
        |
            0 <= i < patch.updated_instances@.len()
                ==> (#[trigger] patch.updated_instances@[i]).id != id,
        snap_matches(*tree, *snapshot, id as int) ==> patch.spec_is_empty(),
        // removal completeness at the diffed root: an untolerated existing
        // child pairing with no desired child is removed
        forall|kx: int|
            0 <= kx < tree.kids(id as int).len() && !tree.node(
                tree.kids(id as int)[kx] as int,
            ).metadata.ignore_unknown_instances && (forall|ci2: int|
                0 <= ci2 < snapshot.children@.len() ==> !((#[trigger] snapshot.children@[
                    ci2
                ]).class_name@ == tree.node(tree.kids(id as int)[kx] as int).class_name@
                    && snapshot.children@[ci2].name@ == tree.node(
                    tree.kids(id as int)[kx] as int,
                ).name@)) ==> patch.removed_instances@.contains(
                #[trigger] tree.kids(id as int)[kx],
            ),
        // add completeness at the diffed root: a desired child pairing with
        // no existing child is added, carrying its full subtree
        forall|ci2: int|
            #![trigger snapshot.children@[ci2]]
            0 <= ci2 < snapshot.children@.len() && (forall|kx: int|
                0 <= kx < tree.kids(id as int).len() ==> !(tree.node(
                    (#[trigger] tree.kids(id as int)[kx]) as int,
                ).class_name@ == snapshot.children@[ci2].class_name@ && tree.node(
                    tree.kids(id as int)[kx] as int,
                ).name@ == snapshot.children@[ci2].name@)) ==> exists|ax: int|
                0 <= ax < patch.added_instances@.len() && (#[trigger] patch.added_instances@[
                    ax
                ]).parent_id == id && crate::instance::snap_equiv(
                    snapshot.children@[ci2],
                    patch.added_instances@[ax].snapshot,
                ),
        (!(forall|k: Seq<char>|
            props_agree_at(snapshot.properties@, tree.node(id as int).properties@, k))) ==> {
            &&& patch.updated_instances@.len() > 0
            &&& patch.updated_instances@[0].id == id
            &&& delta_models(
                patch.updated_instances@[0].changed_properties@,
                snapshot.properties@,
                tree.node(id as int).properties@,
            )
            &&& delta_warranted(
                patch.updated_instances@[0].changed_properties@,
                snapshot.properties@,
                tree.node(id as int).properties@,
            )
        },
{
    let mut patch = PatchSet::new();
    let ghost empty = patch;
    collect_patch(tree, snapshot, id, &mut patch);
    proof {
        if snap_matches(*tree, *snapshot, id as int) {
            assert(patch == empty);
        }
    }
    patch
}

} // verus!
