//! Model-shape handling. A decoded model file arrives as a synthetic root
//! whose children are the file's top-level instances; the single-root
//! contract says a model must hold exactly one, and that one becomes the
//! tree's own root, carrying its class and properties directly.

use vstd::prelude::*;
use crate::FileKind;
use crate::SyncError;
use crate::diff::{lemma_snap_matches_frame, props_agree_at, snap_matches};
use crate::instance::InstanceSnapshot;
use crate::props::{assoc_get, copy_props, lemma_pairwise_assoc_equiv};
use crate::tree::Tree;
use crate::variant::{InstanceId, lemma_vareq_sym, opt_vareq};

verus! {

/// The one top-level instance of a decoded model, enforcing the single-root
/// contract: a top-level count of zero or of two and more is rejected with
/// the unsupported-model-shape error before any further processing.
pub fn extract_model_root(decoded: &InstanceSnapshot) -> (r: Result<
    &InstanceSnapshot,
    SyncError,
>)
    requires
        decoded.wf(),
    ensures
        (decoded.children@.len() == 1) <==> r is Ok,
        r matches Ok(s) ==> *s == decoded.children@[0] && s.wf(),
        r matches Err(e) ==> e == SyncError::UnsupportedModelShape,
{
    if decoded.children.len() == 1 {
        let child = &decoded.children[0];
        proof {
            assert(decoded.children@[0].wf());
        }
        Ok(child)
    } else {
        Err(SyncError::UnsupportedModelShape)
    }
}

/// A tree whose root carries the snapshot root's class, name and properties
/// directly, with the snapshot's children inserted beneath it in order; the
/// whole snapshot corresponds to the whole tree, node for node, so the
/// result is already in the matched state a re-diff finds nothing in.
pub fn tree_from_snapshot(snap: &InstanceSnapshot) -> (t: Tree)
    requires
        snap.wf(),
    ensures
        t.wf(),
        t.node(0).class_name@ == snap.class_name@,
        t.node(0).name@ == snap.name@,
        forall|k: Seq<char>| #[trigger] opt_vareq(
            assoc_get(t.node(0).properties@, k),
            assoc_get(snap.properties@, k),
        ),
        t.kids(0).len() == snap.children@.len(),
        snap_matches(t, *snap, 0),
{
    let props = copy_props(&snap.properties);
    proof {
        assert forall|i2: int, j2: int| 0 <= i2 < j2 < props@.len() implies props@[i2].0@
            != props@[j2].0@ by {
            assert(props@[i2].0@ == snap.properties@[i2].0@);
            assert(props@[j2].0@ == snap.properties@[j2].0@);
        }
        lemma_pairwise_assoc_equiv(props@, snap.properties@);
    }
    let mut t = Tree::new(
        snap.class_name.clone(),
        snap.name.clone(),
        props,
        snap.metadata.duplicate(),
    );
    let ghost base = t;
    let mut i: usize = 0;
    while i < snap.children.len()
        invariant
            snap.wf(),
            t.wf(),
            base.wf(),
            i <= snap.children@.len(),
            t.is_live(0),
            t.kids(0).len() == i,
            Tree::same_but_children(t.node(0), base.node(0)),
            base.node(0).class_name@ == snap.class_name@,
            base.node(0).name@ == snap.name@,
            forall|k: Seq<char>| #[trigger] opt_vareq(
                assoc_get(base.node(0).properties@, k),
                assoc_get(snap.properties@, k),
            ),
            forall|j: int|
                0 <= j < i ==> snap_matches(
                    t,
                    #[trigger] snap.children@[j],
                    t.kids(0)[j] as int,
                ),
        decreases snap.children@.len() - i,
    {
        let child = &snap.children[i];
        proof {
            assert(snap.children@[i as int].wf());
        }
        let ghost pre = t;
        let r = t.insert_subtree(0, child);
        match r {
            Ok(cnew) => {
                proof {
                    assert(t.kids(0) == pre.kids(0).push(cnew));
                    assert(snap_matches(t, snap.children@[i as int], cnew as int));
                    assert forall|j: int|
                        0 <= j < i + 1 implies snap_matches(
                        t,
                        #[trigger] snap.children@[j],
                        t.kids(0)[j] as int,
                    ) by {
                        if j < i {
                            let cj = pre.kids(0)[j] as int;
                            assert(t.kids(0)[j] == pre.kids(0)[j]);
                            assert(pre.is_live(cj) && cj > 0);
                            assert forall|m: int| cj <= m < pre.spec_len() implies t.slots@[m]
                                == pre.slots@[m] by {
                                assert(m != 0);
                            }
                            lemma_snap_matches_frame(pre, t, snap.children@[j], cj);
                        } else {
                            assert(t.kids(0)[j] == cnew);
                        }
                    }
                }
            },
            Err(_) => {
                proof {
                    assert(false);
                }
            },
        }
        i = i + 1;
    }
    proof {
        assert forall|k: Seq<char>| #[trigger] opt_vareq(
            assoc_get(t.node(0).properties@, k),
            assoc_get(snap.properties@, k),
        ) by {
            assert(t.node(0).properties == base.node(0).properties);
            assert(opt_vareq(
                assoc_get(base.node(0).properties@, k),
                assoc_get(snap.properties@, k),
            ));
        }
        assert forall|k: Seq<char>| props_agree_at(
            snap.properties@,
            t.node(0).properties@,
            k,
        ) by {
            assert(opt_vareq(
                assoc_get(t.node(0).properties@, k),
                assoc_get(snap.properties@, k),
            ));
            match assoc_get(snap.properties@, k) {
                Some(dv) => {
                    let nv = assoc_get(t.node(0).properties@, k)->Some_0;
                    lemma_vareq_sym(nv, dv);
                },
                None => {},
            }
        }
        assert(snap_matches(t, *snap, 0));
    }
    t
}

/// Builds a tree from a decoded model, enforcing the single-root contract:
/// with exactly one top-level instance the result's root carries that
/// instance's class and properties directly; any other count fails with the
/// unsupported-model-shape error.
pub fn tree_from_model(decoded: &InstanceSnapshot) -> (r: Result<Tree, SyncError>)
    requires
        decoded.wf(),
    ensures
        (decoded.children@.len() == 1) <==> r is Ok,
        r matches Ok(t) ==> {
            &&& t.wf()
            &&& t.node(0).class_name@ == decoded.children@[0].class_name@
            &&& t.node(0).name@ == decoded.children@[0].name@
            &&& forall|k: Seq<char>| #[trigger] opt_vareq(
                assoc_get(t.node(0).properties@, k),
                assoc_get(decoded.children@[0].properties@, k),
            )
            &&& t.kids(0).len() == decoded.children@[0].children@.len()
            &&& snap_matches(t, decoded.children@[0], 0)
        },
        r matches Err(e) ==> e == SyncError::UnsupportedModelShape,
{
    let root = match extract_model_root(decoded) {
        Ok(s) => s,
        Err(e) => {
            return Err(e);
        },
    };
    Ok(tree_from_snapshot(root))
}

/// The set of instances the codec serializes for a format: a model format
/// writes the tree's root itself; a place format writes the root's
/// children as top-level instances.
pub fn serialize_roots(tree: &Tree, kind: FileKind) -> (r: Vec<InstanceId>)
    requires
        tree.wf(),
    ensures
        kind.is_model_spec() ==> r@ == seq![0 as InstanceId],
        !kind.is_model_spec() ==> r@ == tree.kids(0),
{
    let mut out: Vec<InstanceId> = Vec::new();
    match kind {
        FileKind::Rbxm | FileKind::Rbxmx => {
            out.push(0);
            proof {
                assert(out@ =~= seq![0 as InstanceId]);
            }
        },
        FileKind::Rbxl | FileKind::Rbxlx => {
            let root = match tree.get(0) {
                Some(inst) => inst,
                None => {
                    proof {
                        assert(false);
                    }
                    return out;
                },
            };
            let mut i: usize = 0;
            while i < root.children.len()
                invariant
                    tree.wf(),
                    tree.is_live(0),
                    *root == tree.node(0),
                    i <= root.children@.len(),
                    out@.len() == i,
                    forall|j: int| 0 <= j < i ==> out@[j] == root.children@[j],
                decreases root.children@.len() - i,
            {
                out.push(root.children[i]);
                i = i + 1;
            }
            proof {
                assert(out@ =~= tree.kids(0));
            }
        },
    }
    out
}

} // verus!
