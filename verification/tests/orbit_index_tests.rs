use orbit_index::{
    create_my_orbit, create_orbit, delete_orbit, derive_prefix, get_all_my_sphere_orbits,
    get_my_orbit, get_orbit, get_orbit_hierarchy_json, resolve_latest, update_orbit,
    EdgeTag, IndexError, Orbit, OrbitHierarchyInput, Record, SphereOrbitsQueryParams, Store,
    Stored, UpdateOrbitInput, _get_all_my_historic_orbit_records, build_tree, collect_descendants,
};

fn orbit(name: &str, parent_hash: Option<usize>, sphere_hash: usize) -> Orbit {
    Orbit { name: String::from(name), parent_hash, sphere_hash }
}

#[test]
fn created_entity_resolves_to_its_own_record() {
    let mut s = Store::new();
    let rec = create_my_orbit(&mut s, orbit("Root", None, 500)).unwrap();
    let got = resolve_latest(&s, rec.id).unwrap();
    assert_eq!(got.id, rec.id);
    assert_eq!(got.entry_hash, rec.entry_hash);
    assert_eq!(got.orbit.name, rec.orbit.name);
    assert!(got.successor.is_none());
}

#[test]
fn plain_create_resolves_too() {
    let mut s = Store::new();
    let rec = create_orbit(&mut s, orbit("Solo", None, 7));
    let got = get_my_orbit(&s, rec.id).unwrap();
    assert_eq!(got.id, rec.id);
    assert_eq!(got.orbit.name, "Solo");
}

#[test]
fn chain_of_three_updates_resolves_to_last() {
    let mut s = Store::new();
    let first = create_my_orbit(&mut s, orbit("Planet", None, 100)).unwrap();
    let second = update_orbit(
        &mut s,
        UpdateOrbitInput {
            original_orbit_hash: first.id,
            previous_orbit_hash: first.id,
            updated_orbit: orbit("Planet two", None, 100),
        },
    )
    .unwrap();
    let third = update_orbit(
        &mut s,
        UpdateOrbitInput {
            original_orbit_hash: first.id,
            previous_orbit_hash: second.id,
            updated_orbit: orbit("Planet three", None, 100),
        },
    )
    .unwrap();
    let got = resolve_latest(&s, first.id).unwrap();
    assert_eq!(got.id, third.id);
    assert_eq!(got.orbit.name, "Planet three");
    // resolving from the middle of the chain lands on the same record
    let mid = get_orbit(&s, second.id).unwrap();
    assert_eq!(mid.id, third.id);
}

#[test]
fn updating_a_superseded_record_is_rejected() {
    let mut s = Store::new();
    let first = create_my_orbit(&mut s, orbit("Planet", None, 100)).unwrap();
    let _second = update_orbit(
        &mut s,
        UpdateOrbitInput {
            original_orbit_hash: first.id,
            previous_orbit_hash: first.id,
            updated_orbit: orbit("Planet two", None, 100),
        },
    )
    .unwrap();
    let err = update_orbit(
        &mut s,
        UpdateOrbitInput {
            original_orbit_hash: first.id,
            previous_orbit_hash: first.id,
            updated_orbit: orbit("Planet three", None, 100),
        },
    )
    .unwrap_err();
    assert_eq!(err, IndexError::MalformedChain);
}

#[test]
fn resolve_unknown_identifier_is_not_found() {
    let s = Store::new();
    assert_eq!(resolve_latest(&s, 9999).unwrap_err(), IndexError::NotFound);
}

#[test]
fn resolve_content_identifier_is_malformed_chain() {
    let mut s = Store::new();
    let rec = create_my_orbit(&mut s, orbit("Root", None, 1)).unwrap();
    // the content entry is not record-shaped
    let err = resolve_latest(&s, rec.entry_hash).unwrap_err();
    assert_eq!(err, IndexError::MalformedChain);
}

#[test]
fn collect_is_idempotent() {
    let mut s = Store::new();
    s.create_edge(1, 2, EdgeTag::OrbitParentToChild, String::new());
    s.create_edge(2, 3, EdgeTag::OrbitParentToChild, String::new());
    s.create_edge(1, 4, EdgeTag::OrbitParentToChild, String::new());
    let mut a = collect_descendants(&s, 1);
    let mut b = collect_descendants(&s, 1);
    a.sort();
    b.sort();
    assert_eq!(a, b);
}

#[test]
fn collect_on_a_cycle_terminates_with_exactly_the_cycle() {
    let mut s = Store::new();
    s.create_edge(1, 2, EdgeTag::OrbitParentToChild, String::new());
    s.create_edge(2, 3, EdgeTag::OrbitParentToChild, String::new());
    s.create_edge(3, 1, EdgeTag::OrbitParentToChild, String::new());
    let mut got = collect_descendants(&s, 1);
    got.sort();
    assert_eq!(got, vec![1, 2, 3]);
}

#[test]
fn collect_ignores_edges_of_other_kinds() {
    let mut s = Store::new();
    s.create_edge(1, 2, EdgeTag::SphereToOrbit, String::new());
    s.create_edge(1, 3, EdgeTag::OrbitsPrefixPath, String::new());
    let got = collect_descendants(&s, 1);
    assert_eq!(got, vec![1]);
}

#[test]
fn hierarchy_round_trip_keeps_input_order() {
    let mut s = Store::new();
    let root = create_my_orbit(&mut s, orbit("Root", None, 500)).unwrap();
    let c1 = create_my_orbit(&mut s, orbit("Moon A", Some(root.entry_hash), 500)).unwrap();
    let c2 = create_my_orbit(&mut s, orbit("Moon B", Some(root.entry_hash), 500)).unwrap();
    let json = get_orbit_hierarchy_json(&s, OrbitHierarchyInput { orbit_entry_hash: root.entry_hash })
        .unwrap();
    let expected = format!(
        "{{\"id\":{},\"name\":\"Root\",\"children\":[{{\"id\":{},\"name\":\"Moon A\",\"children\":[]}},{{\"id\":{},\"name\":\"Moon B\",\"children\":[]}}]}}",
        root.entry_hash, c1.entry_hash, c2.entry_hash
    );
    assert_eq!(json, expected);
}

#[test]
fn hierarchy_json_parses_as_json() {
    let mut s = Store::new();
    let root = create_my_orbit(&mut s, orbit("Root", None, 500)).unwrap();
    let _c1 = create_my_orbit(&mut s, orbit("Moon A", Some(root.entry_hash), 500)).unwrap();
    let _c2 = create_my_orbit(&mut s, orbit("Moon B", Some(root.entry_hash), 500)).unwrap();
    let json = get_orbit_hierarchy_json(&s, OrbitHierarchyInput { orbit_entry_hash: root.entry_hash })
        .unwrap();
    let value: serde_json::Value = serde_json::from_str(&json).unwrap();
    assert_eq!(value["name"], "Root");
    assert_eq!(value["id"], root.entry_hash as u64);
    assert_eq!(value["children"].as_array().unwrap().len(), 2);
    assert_eq!(value["children"][0]["name"], "Moon A");
    assert_eq!(value["children"][1]["name"], "Moon B");
}

#[test]
fn hierarchy_escapes_names() {
    let mut s = Store::new();
    let root = create_my_orbit(&mut s, orbit("Say \"hi\"", None, 1)).unwrap();
    let json = get_orbit_hierarchy_json(&s, OrbitHierarchyInput { orbit_entry_hash: root.entry_hash })
        .unwrap();
    let expected = format!("{{\"id\":{},\"name\":\"Say \\\"hi\\\"\",\"children\":[]}}", root.entry_hash);
    assert_eq!(json, expected);
    let value: serde_json::Value = serde_json::from_str(&json).unwrap();
    assert_eq!(value["name"], "Say \"hi\"");
}

#[test]
fn dangling_parent_fails_the_build() {
    let records = vec![Record {
        id: 1,
        entry_hash: 10,
        supersedes: None,
        successor: None,
        orbit: orbit("Lost child", Some(99), 0),
    }];
    let err = build_tree(&records).unwrap_err();
    assert_eq!(err, IndexError::DanglingParent);
}

#[test]
fn hierarchy_of_unknown_root_is_not_found() {
    let s = Store::new();
    let err = get_orbit_hierarchy_json(&s, OrbitHierarchyInput { orbit_entry_hash: 5 }).unwrap_err();
    assert_eq!(err, IndexError::NotFound);
}

#[test]
fn cyclic_parent_declarations_are_index_corrupt() {
    let mut s = Store::new();
    // the first entity declares the second's future content identifier
    let a = create_my_orbit(&mut s, orbit("Cycle A", Some(3), 9)).unwrap();
    assert_eq!(a.entry_hash, 1);
    let b = create_my_orbit(&mut s, orbit("Cycle B", Some(a.entry_hash), 9)).unwrap();
    assert_eq!(b.entry_hash, 3);
    let err = get_orbit_hierarchy_json(&s, OrbitHierarchyInput { orbit_entry_hash: a.entry_hash })
        .unwrap_err();
    assert_eq!(err, IndexError::IndexCorrupt);
}

#[test]
fn container_relocation_moves_the_listing() {
    let mut s = Store::new();
    let first = create_my_orbit(&mut s, orbit("Planet", None, 100)).unwrap();
    let old_list = get_all_my_sphere_orbits(&s, SphereOrbitsQueryParams { sphere_hash: 100 }).unwrap();
    assert_eq!(old_list.len(), 1);
    let updated = update_orbit(
        &mut s,
        UpdateOrbitInput {
            original_orbit_hash: first.id,
            previous_orbit_hash: first.id,
            updated_orbit: orbit("Planet", None, 200),
        },
    )
    .unwrap();
    let old_list = get_all_my_sphere_orbits(&s, SphereOrbitsQueryParams { sphere_hash: 100 }).unwrap();
    assert!(old_list.is_empty());
    let new_list = get_all_my_sphere_orbits(&s, SphereOrbitsQueryParams { sphere_hash: 200 }).unwrap();
    assert_eq!(new_list.len(), 1);
    assert_eq!(new_list[0].id, updated.id);
    assert_eq!(new_list[0].orbit.sphere_hash, 200);
}

#[test]
fn listing_resolves_to_latest_versions() {
    let mut s = Store::new();
    let first = create_my_orbit(&mut s, orbit("Planet", None, 100)).unwrap();
    let updated = update_orbit(
        &mut s,
        UpdateOrbitInput {
            original_orbit_hash: first.id,
            previous_orbit_hash: first.id,
            updated_orbit: orbit("Planet two", None, 100),
        },
    )
    .unwrap();
    let list = get_all_my_sphere_orbits(&s, SphereOrbitsQueryParams { sphere_hash: 100 }).unwrap();
    assert_eq!(list.len(), 1);
    assert_eq!(list[0].id, updated.id);
    assert_eq!(list[0].orbit.name, "Planet two");
}

#[test]
fn too_short_name_is_invalid() {
    let mut s = Store::new();
    let err = create_my_orbit(&mut s, orbit("Ab", None, 1)).unwrap_err();
    assert_eq!(err, IndexError::InvalidName);
    assert_eq!(derive_prefix(&String::from("Ab")).unwrap_err(), IndexError::InvalidName);
}

#[test]
fn prefix_is_first_three_lowercased_characters() {
    assert_eq!(derive_prefix(&String::from("Abcdef")).unwrap(), "abc");
    assert_eq!(derive_prefix(&String::from("ABCdef")).unwrap(), "abc");
    assert_eq!(derive_prefix(&String::from("xyz")).unwrap(), "xyz");
}

#[test]
fn created_prefix_key_is_interned_lowercased() {
    let mut s = Store::new();
    let _rec = create_my_orbit(&mut s, orbit("ABCdef", None, 1)).unwrap();
    let mut keys: Vec<String> = Vec::new();
    for it in &s.items {
        if let Stored::PathKey(k) = it {
            keys.push(k.clone());
        }
    }
    assert_eq!(keys, vec![String::from("abc")]);
}

#[test]
fn delete_appends_a_tombstone() {
    let mut s = Store::new();
    let rec = create_my_orbit(&mut s, orbit("Doomed", None, 1)).unwrap();
    let marker = delete_orbit(&mut s, rec.id).unwrap();
    assert!(marker > rec.id);
    assert!(matches!(s.items[marker], Stored::Tombstone(t) if t == rec.id));
    assert_eq!(delete_orbit(&mut s, 9999).unwrap_err(), IndexError::NotFound);
}

#[test]
fn historic_records_lists_every_record_in_order() {
    let mut s = Store::new();
    let first = create_my_orbit(&mut s, orbit("Planet", None, 100)).unwrap();
    let other = create_my_orbit(&mut s, orbit("Comet", None, 100)).unwrap();
    let updated = update_orbit(
        &mut s,
        UpdateOrbitInput {
            original_orbit_hash: first.id,
            previous_orbit_hash: first.id,
            updated_orbit: orbit("Planet two", None, 100),
        },
    )
    .unwrap();
    let all = _get_all_my_historic_orbit_records(&s);
    let ids: Vec<usize> = all.iter().map(|r| r.id).collect();
    assert_eq!(ids, vec![first.id, other.id, updated.id]);
}

#[test]
fn content_addressing_reuses_identical_content() {
    let mut s = Store::new();
    let a = create_orbit(&mut s, orbit("Twin", None, 4));
    let b = create_orbit(&mut s, orbit("Twin", None, 4));
    assert_ne!(a.id, b.id);
    assert_eq!(a.entry_hash, b.entry_hash);
    let c = create_orbit(&mut s, orbit("Twin", None, 5));
    assert_ne!(a.entry_hash, c.entry_hash);
}

#[test]
fn error_messages_name_each_failure() {
    assert!(IndexError::NotFound.message().contains("not found"));
    assert!(IndexError::MalformedChain.message().contains("chain"));
    assert!(IndexError::InvalidName.message().contains("name"));
    assert!(IndexError::DanglingParent.message().contains("parent"));
    assert!(IndexError::IndexCorrupt.message().contains("index"));
}

#[test]
fn deleting_an_edge_removes_it_from_the_listing() {
    let mut s = Store::new();
    let eid = s.create_edge(1, 2, EdgeTag::OrbitParentToChild, String::new());
    assert_eq!(s.get_edges(1, EdgeTag::OrbitParentToChild).len(), 1);
    s.delete_edge(eid);
    assert!(s.get_edges(1, EdgeTag::OrbitParentToChild).is_empty());
    // deleting an absent edge is tolerated
    s.delete_edge(eid);
    assert!(s.get_edges(1, EdgeTag::OrbitParentToChild).is_empty());
}

#[test]
fn successor_pointer_appears_on_update() {
    let mut s = Store::new();
    let first = create_my_orbit(&mut s, orbit("Planet", None, 100)).unwrap();
    assert_eq!(s.get_successor(first.id), None);
    let updated = update_orbit(
        &mut s,
        UpdateOrbitInput {
            original_orbit_hash: first.id,
            previous_orbit_hash: first.id,
            updated_orbit: orbit("Planet two", None, 100),
        },
    )
    .unwrap();
    assert_eq!(s.get_successor(first.id), Some(updated.id));
    assert_eq!(s.get_successor(updated.id), None);
}

#[test]
fn listing_fails_when_a_container_edge_points_nowhere() {
    let mut s = Store::new();
    s.create_edge(100, 12345, EdgeTag::SphereToOrbit, String::new());
    let err = get_all_my_sphere_orbits(&s, SphereOrbitsQueryParams { sphere_hash: 100 }).unwrap_err();
    assert_eq!(err, IndexError::NotFound);
}
