use rojo_sync::{
    apply_patch_set, compute_patch_set, diff_properties, extract_model_root,
    filter_patch_for_sync, serialize_roots, sync_merge, tree_from_model, tree_from_snapshot,
    variant_eq, AddedInstance, FileKind, InstanceMetadata, InstanceSnapshot, MessageQueue,
    PatchSet, PropertyDelta, RefResolver, ServeSession, SyncError, Tree, Variant,
};

fn meta() -> InstanceMetadata {
    InstanceMetadata::new()
}

fn snap(
    class: &str,
    name: &str,
    props: Vec<(String, Variant)>,
    children: Vec<InstanceSnapshot>,
) -> InstanceSnapshot {
    InstanceSnapshot {
        class_name: class.to_string(),
        name: name.to_string(),
        properties: props,
        children,
        metadata: meta(),
    }
}

fn prop(name: &str, v: Variant) -> (String, Variant) {
    (name.to_string(), v)
}

fn lookup<'a>(tree: &'a Tree, id: usize, key: &str) -> Option<&'a Variant> {
    let inst = tree.get(id).expect("instance should be live");
    rojo_sync::assoc_lookup(&inst.properties, &key.to_string())
}

#[test]
fn file_kind_from_extension() {
    assert_eq!(FileKind::from_extension("rbxl"), Some(FileKind::Rbxl));
    assert_eq!(FileKind::from_extension("rbxlx"), Some(FileKind::Rbxlx));
    assert_eq!(FileKind::from_extension("rbxm"), Some(FileKind::Rbxm));
    assert_eq!(FileKind::from_extension("rbxmx"), Some(FileKind::Rbxmx));
    assert_eq!(FileKind::from_extension("txt"), None);
    assert_eq!(FileKind::from_extension(""), None);
}

#[test]
fn variant_equality_is_structural() {
    assert!(variant_eq(&Variant::Bool(true), &Variant::Bool(true)));
    assert!(!variant_eq(&Variant::Bool(true), &Variant::Bool(false)));
    assert!(!variant_eq(&Variant::Bool(true), &Variant::Number(1)));
    assert!(variant_eq(
        &Variant::Str("a".to_string()),
        &Variant::Str("a".to_string())
    ));
    assert!(!variant_eq(
        &Variant::Str("a".to_string()),
        &Variant::Str("b".to_string())
    ));
    assert!(variant_eq(
        &Variant::Transform(vec![1, 2, 3]),
        &Variant::Transform(vec![1, 2, 3])
    ));
    assert!(!variant_eq(
        &Variant::Transform(vec![1, 2, 3]),
        &Variant::Transform(vec![1, 2])
    ));
    assert!(variant_eq(
        &Variant::Reference(None),
        &Variant::Reference(None)
    ));
    assert!(!variant_eq(
        &Variant::Reference(Some(1)),
        &Variant::Reference(Some(2))
    ));
}

#[test]
fn diff_properties_exact_deltas() {
    let desired = vec![
        prop("Kept", Variant::Bool(true)),
        prop("Changed", Variant::Number(2)),
        prop("New", Variant::EnumItem(7)),
    ];
    let existing = vec![
        prop("Kept", Variant::Bool(true)),
        prop("Changed", Variant::Number(1)),
        prop("Gone", Variant::Str("x".to_string())),
    ];
    let delta = diff_properties(&desired, &existing);
    assert_eq!(delta.len(), 3);
    let mut saw_changed = false;
    let mut saw_new = false;
    let mut saw_gone = false;
    for (k, d) in &delta {
        match (k.as_str(), d) {
            ("Changed", PropertyDelta::Overwrite(Variant::Number(2))) => saw_changed = true,
            ("New", PropertyDelta::Overwrite(Variant::EnumItem(7))) => saw_new = true,
            ("Gone", PropertyDelta::Clear) => saw_gone = true,
            other => panic!("unexpected delta entry: {:?}", other.0),
        }
    }
    assert!(saw_changed && saw_new && saw_gone);
}

#[test]
fn diff_of_agreeing_maps_is_empty() {
    let a = vec![prop("A", Variant::Bool(true)), prop("B", Variant::Number(4))];
    let b = vec![prop("B", Variant::Number(4)), prop("A", Variant::Bool(true))];
    assert_eq!(diff_properties(&a, &b).len(), 0);
}

#[test]
fn rediff_after_apply_is_empty() {
    // Idempotence: a second diff against an unchanged desired snapshot
    // produces an empty patch.
    let existing = snap(
        "DataModel",
        "Game",
        vec![prop("Old", Variant::Bool(false))],
        vec![snap(
            "Folder",
            "Scripts",
            vec![prop("Keep", Variant::Number(1))],
            vec![],
        )],
    );
    let mut tree = tree_from_snapshot(&existing);
    let desired = snap(
        "DataModel",
        "Game",
        vec![prop("Fresh", Variant::Number(9))],
        vec![
            snap(
                "Folder",
                "Scripts",
                vec![prop("Keep", Variant::Number(2))],
                vec![],
            ),
            snap("Folder", "Assets", vec![], vec![]),
        ],
    );
    let patch = compute_patch_set(&desired, &tree, tree.get_root_id());
    assert!(!patch.is_empty());
    let errs = apply_patch_set(&mut tree, &patch);
    assert!(errs.is_empty());
    let second = compute_patch_set(&desired, &tree, tree.get_root_id());
    assert!(second.is_empty());
}

#[test]
fn sync_merge_preserves_foreign_instance() {
    // X lives in the input file but in no project file: sync keeps it.
    let existing = snap(
        "DataModel",
        "Game",
        vec![],
        vec![snap("Part", "ForeignX", vec![], vec![])],
    );
    let mut tree = tree_from_snapshot(&existing);
    let foreign_id = tree.get(0).unwrap().children[0];
    let desired = snap(
        "DataModel",
        "Game",
        vec![],
        vec![snap("Folder", "Managed", vec![], vec![])],
    );
    let errs = sync_merge(&desired, &mut tree);
    assert!(errs.is_empty());
    assert!(tree.get(foreign_id).is_some(), "sync must keep foreign content");
    // The foreign instance is wholly untouched, and the managed child the
    // project introduces is actually inserted.
    let foreign = tree.get(foreign_id).unwrap();
    assert_eq!(foreign.class_name.as_str(), "Part");
    assert_eq!(foreign.name.as_str(), "ForeignX");
    assert!(foreign.properties.is_empty());
    assert!(foreign.children.is_empty());
    let root = tree.get(0).unwrap();
    assert_eq!(root.children.len(), 2);
    let managed = tree.get(root.children[1]).unwrap();
    assert_eq!(managed.name.as_str(), "Managed");
}

#[test]
fn sync_merge_preserves_foreign_property() {
    // P exists on Y but not in the desired snapshot: sync must not clear it.
    let existing = snap(
        "DataModel",
        "Game",
        vec![],
        vec![snap(
            "Folder",
            "Y",
            vec![prop("ForeignP", Variant::Str("keep me".to_string()))],
            vec![],
        )],
    );
    let mut tree = tree_from_snapshot(&existing);
    let y = tree.get(0).unwrap().children[0];
    let desired = snap(
        "DataModel",
        "Game",
        vec![],
        vec![snap(
            "Folder",
            "Y",
            vec![prop("Managed", Variant::Bool(true))],
            vec![],
        )],
    );
    let errs = sync_merge(&desired, &mut tree);
    assert!(errs.is_empty());
    let kept = lookup(&tree, y, "ForeignP").expect("foreign property must survive sync");
    assert!(variant_eq(kept, &Variant::Str("keep me".to_string())));
    let managed = lookup(&tree, y, "Managed").expect("managed property must be set");
    assert!(variant_eq(managed, &Variant::Bool(true)));
}

#[test]
fn build_policy_replaces_fully() {
    // The same scenario under build: X is removed and P is cleared.
    let existing = snap(
        "DataModel",
        "Game",
        vec![],
        vec![
            snap("Part", "ForeignX", vec![], vec![]),
            snap(
                "Folder",
                "Y",
                vec![prop("ForeignP", Variant::Str("gone".to_string()))],
                vec![],
            ),
        ],
    );
    let mut tree = tree_from_snapshot(&existing);
    let x = tree.get(0).unwrap().children[0];
    let y = tree.get(0).unwrap().children[1];
    let desired = snap(
        "DataModel",
        "Game",
        vec![],
        vec![snap("Folder", "Y", vec![], vec![])],
    );
    let patch = compute_patch_set(&desired, &tree, tree.get_root_id());
    let errs = apply_patch_set(&mut tree, &patch);
    assert!(errs.is_empty());
    assert!(tree.get(x).is_none(), "build must remove foreign instances");
    assert!(tree.get(y).is_some());
    assert!(
        lookup(&tree, y, "ForeignP").is_none(),
        "build must clear foreign properties"
    );
}

#[test]
fn sync_policy_filter_drops_removals_and_clears() {
    let existing = vec![prop("Gone", Variant::Bool(true)), prop("Changed", Variant::Number(1))];
    let desired = vec![prop("Changed", Variant::Number(2))];
    let delta = diff_properties(&desired, &existing);
    let patch = PatchSet {
        added_instances: vec![],
        removed_instances: vec![3, 4],
        updated_instances: vec![rojo_sync::UpdatedInstance {
            id: 0,
            changed_properties: delta,
        }],
    };
    let filtered = filter_patch_for_sync(patch);
    assert_eq!(filtered.removed_instances.len(), 0);
    assert_eq!(filtered.updated_instances.len(), 1);
    for (k, d) in &filtered.updated_instances[0].changed_properties {
        match d {
            PropertyDelta::Overwrite(_) => assert_eq!(k.as_str(), "Changed"),
            PropertyDelta::Clear => panic!("sync filter must drop Clear deltas"),
        }
    }
}

#[test]
fn model_single_root_enforced() {
    let none = snap("DataModel", "ROOT", vec![], vec![]);
    assert!(matches!(
        tree_from_model(&none),
        Err(SyncError::UnsupportedModelShape)
    ));
    let two = snap(
        "DataModel",
        "ROOT",
        vec![],
        vec![
            snap("Folder", "A", vec![], vec![]),
            snap("Folder", "B", vec![], vec![]),
        ],
    );
    assert!(matches!(
        tree_from_model(&two),
        Err(SyncError::UnsupportedModelShape)
    ));
    let one = snap(
        "DataModel",
        "ROOT",
        vec![],
        vec![snap(
            "Model",
            "TheRoot",
            vec![prop("Pinned", Variant::Bool(true))],
            vec![snap("Part", "Leaf", vec![], vec![])],
        )],
    );
    let tree = tree_from_model(&one).expect("a single-root model must decode");
    let root = tree.get(0).unwrap();
    assert_eq!(root.class_name.as_str(), "Model");
    assert_eq!(root.name.as_str(), "TheRoot");
    assert!(variant_eq(
        lookup(&tree, 0, "Pinned").unwrap(),
        &Variant::Bool(true)
    ));
    assert_eq!(root.children.len(), 1);
}

#[test]
fn extract_model_root_returns_the_instance() {
    let one = snap(
        "DataModel",
        "ROOT",
        vec![],
        vec![snap("Model", "Only", vec![], vec![])],
    );
    let root = extract_model_root(&one).unwrap();
    assert_eq!(root.name.as_str(), "Only");
}

#[test]
fn reference_stability_across_resyncs() {
    // Syncing a path twice resolves to the same identifier both times.
    let mut resolver = RefResolver::new();
    let path = "src/shared/util.lua".to_string();
    let first = resolver.get_or_insert(&path, 5);
    let second = resolver.get_or_insert(&path, 99);
    assert_eq!(first, 5);
    assert_eq!(second, 5, "a re-synced path must keep its identifier");
    assert_eq!(resolver.resolve(&path), Some(5));
    match resolver.resolve_reference(&path) {
        Variant::Reference(target) => assert_eq!(target, Some(5)),
        other => panic!("expected a reference, got {:?}", other),
    }
    match resolver.resolve_reference(&"never/synced.lua".to_string()) {
        Variant::Reference(target) => assert_eq!(target, None, "dangling refs become unset"),
        other => panic!("expected a reference, got {:?}", other),
    }
}

#[test]
fn added_child_before_parent_fails_alone() {
    // An added entry naming an unknown parent fails for that entry only;
    // siblings already applied stay.
    let existing = snap("DataModel", "Game", vec![], vec![]);
    let mut tree = tree_from_snapshot(&existing);
    let sibling = AddedInstance {
        parent_id: 0,
        snapshot: snap("Folder", "GoodSibling", vec![], vec![]),
    };
    let orphan = AddedInstance {
        parent_id: 999,
        snapshot: snap("Folder", "Orphan", vec![], vec![]),
    };
    let patch = PatchSet {
        added_instances: vec![sibling, orphan],
        removed_instances: vec![],
        updated_instances: vec![],
    };
    let errs = apply_patch_set(&mut tree, &patch);
    assert_eq!(errs, vec![SyncError::UnknownParentOnInsert]);
    let root = tree.get(0).unwrap();
    assert_eq!(root.children.len(), 1);
    let child = tree.get(root.children[0]).unwrap();
    assert_eq!(child.name.as_str(), "GoodSibling");
}

#[test]
fn removing_a_subtree_removes_descendants() {
    let existing = snap(
        "DataModel",
        "Game",
        vec![],
        vec![snap(
            "Folder",
            "Top",
            vec![],
            vec![snap("Part", "Inner", vec![], vec![])],
        )],
    );
    let mut tree = tree_from_snapshot(&existing);
    let top = tree.get(0).unwrap().children[0];
    let inner = tree.get(top).unwrap().children[0];
    let patch = PatchSet {
        added_instances: vec![],
        removed_instances: vec![top],
        updated_instances: vec![],
    };
    apply_patch_set(&mut tree, &patch);
    assert!(tree.get(top).is_none());
    assert!(tree.get(inner).is_none(), "descendants are implied removed");
    assert!(tree.get(0).is_some());
}

#[test]
fn cursor_delivery_exactly_once_in_order() {
    // An observer that reconnects with cursor C receives every patch with a
    // higher cursor, in order, exactly once.
    let mut q = MessageQueue::new();
    let c1 = q.push(PatchSet::new());
    let c2 = q.push(PatchSet::new());
    let c3 = q.push(PatchSet::new());
    assert_eq!((c1, c2, c3), (1, 2, 3));
    assert_eq!(q.since(0).len(), 3);
    assert_eq!(q.since(1).len(), 2);
    assert_eq!(q.since(3).len(), 0);
    assert_eq!(q.since(7).len(), 0);
    let mut seen = q.since(1);
    let again = q.since(1);
    assert_eq!(seen.len(), again.len());
    seen.clear();
}

#[test]
fn serve_session_queues_each_cycle() {
    let existing = snap("DataModel", "Game", vec![], vec![]);
    let tree = tree_from_snapshot(&existing);
    let mut session = ServeSession::new(tree);
    let desired1 = snap(
        "DataModel",
        "Game",
        vec![],
        vec![snap("Folder", "A", vec![], vec![])],
    );
    let c1 = session.sync_once(&desired1);
    let desired2 = snap(
        "DataModel",
        "Game",
        vec![],
        vec![
            snap("Folder", "A", vec![], vec![]),
            snap("Folder", "B", vec![], vec![]),
        ],
    );
    let c2 = session.sync_once(&desired2);
    assert_eq!((c1, c2), (1, 2));
    assert_eq!(session.patches_since(0).len(), 2);
    assert_eq!(session.patches_since(c1).len(), 1);
    let root = session.tree.get(0).unwrap();
    assert_eq!(root.children.len(), 2);
}

#[test]
fn serialize_roots_by_format() {
    let existing = snap(
        "DataModel",
        "Game",
        vec![],
        vec![
            snap("Workspace", "Workspace", vec![], vec![]),
            snap("Lighting", "Lighting", vec![], vec![]),
        ],
    );
    let tree = tree_from_snapshot(&existing);
    assert_eq!(serialize_roots(&tree, FileKind::Rbxm), vec![0]);
    assert_eq!(serialize_roots(&tree, FileKind::Rbxmx), vec![0]);
    let place_roots = serialize_roots(&tree, FileKind::Rbxl);
    assert_eq!(place_roots.len(), 2);
    assert_eq!(place_roots, serialize_roots(&tree, FileKind::Rbxlx));
}

#[test]
fn unknown_instance_tolerance_blocks_removal() {
    // Metadata marking an instance as tolerated keeps the diff engine from
    // proposing its removal even under build.
    let mut tolerated = snap("Part", "ServerOnly", vec![], vec![]);
    tolerated.metadata = InstanceMetadata {
        ignore_unknown_instances: true,
        source_path: None,
    };
    let existing = snap("DataModel", "Game", vec![], vec![tolerated]);
    let mut tree = tree_from_snapshot(&existing);
    let kept = tree.get(0).unwrap().children[0];
    let desired = snap("DataModel", "Game", vec![], vec![]);
    let patch = compute_patch_set(&desired, &tree, 0);
    assert!(patch.removed_instances.is_empty());
    apply_patch_set(&mut tree, &patch);
    assert!(tree.get(kept).is_some());
}

#[test]
fn syncback_plan_is_exact() {
    let desired = vec![
        ("src/a.lua".to_string(), b"print(1)".to_vec()),
        ("src/b.lua".to_string(), b"print(2)".to_vec()),
        ("src/new.lua".to_string(), b"print(3)".to_vec()),
    ];
    let existing = vec![
        ("src/a.lua".to_string(), b"print(1)".to_vec()),
        ("src/b.lua".to_string(), b"old".to_vec()),
        ("src/stale.lua".to_string(), b"gone".to_vec()),
    ];
    let plan = rojo_sync::plan_syncback(&desired, &existing);
    assert!(!plan.is_empty());
    let mut writes: Vec<&str> = plan
        .write_files
        .iter()
        .map(|(p, _)| p.as_str())
        .collect();
    writes.sort();
    assert_eq!(writes, vec!["src/b.lua", "src/new.lua"]);
    assert_eq!(plan.remove_files, vec!["src/stale.lua".to_string()]);
    assert_eq!(plan.affected_paths().len(), 3);

    // A plan computed after executing the previous one is empty.
    let plan2 = rojo_sync::plan_syncback(&desired, &desired);
    assert!(plan2.is_empty());
}

#[test]
fn fresh_tree_rediffs_to_empty_patch() {
    // A tree built from a snapshot is already in the matched state, so
    // diffing the same snapshot against it finds nothing at all.
    let desired = snap(
        "DataModel",
        "Game",
        vec![prop("A", Variant::Number(1))],
        vec![
            snap(
                "Folder",
                "Scripts",
                vec![prop("B", Variant::Bool(true))],
                vec![snap("Part", "Leaf", vec![], vec![])],
            ),
            snap("Folder", "Assets", vec![], vec![]),
        ],
    );
    let tree = tree_from_snapshot(&desired);
    let patch = compute_patch_set(&desired, &tree, tree.get_root_id());
    assert!(patch.is_empty());
}

#[test]
fn snapshot_wf_check_flags_duplicate_keys() {
    let good = snap(
        "Folder",
        "A",
        vec![prop("X", Variant::Bool(true)), prop("Y", Variant::Bool(false))],
        vec![],
    );
    assert!(good.check_wf());
    let bad = snap(
        "Folder",
        "A",
        vec![],
        vec![snap(
            "Part",
            "B",
            vec![prop("X", Variant::Bool(true)), prop("X", Variant::Bool(false))],
            vec![],
        )],
    );
    assert!(!bad.check_wf());
}

#[test]
fn sync_merge_inserts_new_subtree_fully() {
    // A desired child with no counterpart arrives whole: grandchildren and
    // their properties included.
    let existing = snap("DataModel", "Game", vec![], vec![]);
    let mut tree = tree_from_snapshot(&existing);
    let desired = snap(
        "DataModel",
        "Game",
        vec![],
        vec![snap(
            "Folder",
            "Scripts",
            vec![prop("Kind", Variant::EnumItem(2))],
            vec![snap(
                "Part",
                "Leaf",
                vec![prop("Anchored", Variant::Bool(true))],
                vec![],
            )],
        )],
    );
    let errs = sync_merge(&desired, &mut tree);
    assert!(errs.is_empty());
    let root = tree.get(0).unwrap();
    assert_eq!(root.children.len(), 1);
    let scripts = tree.get(root.children[0]).unwrap();
    assert_eq!(scripts.name.as_str(), "Scripts");
    assert!(variant_eq(
        lookup(&tree, root.children[0], "Kind").unwrap(),
        &Variant::EnumItem(2)
    ));
    assert_eq!(scripts.children.len(), 1);
    let leaf = tree.get(scripts.children[0]).unwrap();
    assert_eq!(leaf.name.as_str(), "Leaf");
    assert!(variant_eq(
        lookup(&tree, scripts.children[0], "Anchored").unwrap(),
        &Variant::Bool(true)
    ));
}
