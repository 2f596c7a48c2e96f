//! Scene normalization behaviour on concrete hierarchies.

use scene_bench::scene::{add_no_frustum_culling, proc_scene, LightKind, MaterialTable, Scene};

/// A sample freshly-loaded asset: a pending root over a mix of meshes,
/// asset-embedded lights and cameras, and one host-owned light.
///
/// Indices (children spawned before parents):
///   0: mesh referencing material 0
///   1: asset-embedded point light
///   2: camera node owning the subtree { 0 }
///   3: host-owned directional light
///   4: mesh referencing material 1
///   5: pending root with children [1, 2, 3, 4]
fn sample_scene() -> (Scene, MaterialTable) {
    let mut s = Scene::new();
    let mats = MaterialTable::with_materials(2);
    let n0 = s.add_node(vec![], Some(0), None, false, false, false);
    let n1 = s.add_node(vec![], None, Some(LightKind::Point), false, false, false);
    let n2 = s.add_node(vec![n0], None, None, true, false, false);
    let n3 = s.add_node(vec![], None, Some(LightKind::Directional), false, true, false);
    let n4 = s.add_node(vec![], Some(1), None, false, false, false);
    let root = s.add_node(vec![n1, n2, n3, n4], None, None, false, false, true);
    assert_eq!(root, 5);
    (s, mats)
}

#[test]
fn normalization_removes_stray_lights_and_cameras() {
    let (mut s, mut mats) = sample_scene();
    proc_scene(&mut s, &mut mats);
    // No surviving descendant carries an asset-embedded light or a camera.
    assert!(!s.alive[1], "asset light must be despawned");
    assert!(!s.alive[2], "asset camera must be despawned");
    assert!(!s.alive[0], "camera subtree is removed whole");
    // The meshes and the root itself survive.
    assert!(s.alive[4]);
    assert!(s.alive[5]);
    // The root's pending tag is consumed by the successful pass.
    assert!(!s.pending[5]);
}

#[test]
fn normalization_flips_descendant_materials() {
    let (mut s, mut mats) = sample_scene();
    proc_scene(&mut s, &mut mats);
    // Material 0 is referenced by a node inside the despawned camera
    // subtree: it was still visited (children before parents) and fixed.
    assert!(mats.flip_normal_map_y[0]);
    assert!(mats.flip_normal_map_y[1]);
}

#[test]
fn normalization_is_idempotent() {
    let (mut s, mut mats) = sample_scene();
    proc_scene(&mut s, &mut mats);
    let pending1 = s.pending.clone();
    let alive1 = s.alive.clone();
    let flips1 = mats.flip_normal_map_y.clone();
    proc_scene(&mut s, &mut mats);
    assert_eq!(s.pending, pending1, "second pass must not change tags");
    assert_eq!(s.alive, alive1, "second pass must not despawn anything");
    assert_eq!(mats.flip_normal_map_y, flips1, "second pass must not flip anything");
}

#[test]
fn shared_material_flip_propagates() {
    let mut s = Scene::new();
    let mut mats = MaterialTable::with_materials(1);
    // One mesh inside a pending subtree, one mesh far outside it, both
    // referencing the same material table entry.
    let inside = s.add_node(vec![], Some(0), None, false, false, false);
    let _root = s.add_node(vec![inside], None, None, false, false, true);
    let outside = s.add_node(vec![], Some(0), None, false, false, false);
    proc_scene(&mut s, &mut mats);
    // The shared entry was flipped, so the outside node reads the
    // flipped flag too.
    let outside_mat = s.nodes[outside].material.unwrap();
    assert!(mats.flip_normal_map_y[outside_mat]);
    assert!(s.alive[outside]);
}

#[test]
fn host_owned_light_survives() {
    let mut s = Scene::new();
    let mut mats = MaterialTable::with_materials(0);
    let host_light = s.add_node(vec![], None, Some(LightKind::Spot), false, true, false);
    let asset_light = s.add_node(vec![], None, Some(LightKind::Spot), false, false, false);
    let _root = s.add_node(vec![host_light, asset_light], None, None, false, false, true);
    proc_scene(&mut s, &mut mats);
    assert!(s.alive[host_light], "host-owned light survives normalization");
    assert!(!s.alive[asset_light], "asset light of the same kind is despawned");
}

#[test]
fn incomplete_hierarchy_defers() {
    let mut s = Scene::new();
    let mut mats = MaterialTable::with_materials(0);
    // The loader resolved the root, but no children are attached yet.
    let root = s.add_node(vec![], None, None, false, false, true);
    proc_scene(&mut s, &mut mats);
    assert!(s.pending[root], "pending tag must remain until children resolve");
    assert!(s.alive[root]);
}

#[test]
fn deferred_root_is_processed_once_children_resolve() {
    let mut s = Scene::new();
    let mut mats = MaterialTable::with_materials(0);
    let camera = s.add_node(vec![], None, None, true, false, false);
    // Children resolve only now, under a root spawned after them.
    let root = s.add_node(vec![camera], None, None, false, false, true);
    proc_scene(&mut s, &mut mats);
    assert!(!s.pending[root]);
    assert!(!s.alive[camera]);
}

#[test]
fn nested_pending_roots_are_both_processed() {
    let mut s = Scene::new();
    let mut mats = MaterialTable::with_materials(0);
    let light = s.add_node(vec![], None, Some(LightKind::Point), false, false, false);
    let inner_root = s.add_node(vec![light], None, None, false, false, true);
    let camera = s.add_node(vec![inner_root], None, None, true, false, false);
    let outer_root = s.add_node(vec![camera], None, None, false, false, true);
    proc_scene(&mut s, &mut mats);
    // The inner root was processed, and then deleted with the camera
    // subtree of the outer root.
    assert!(!s.pending[inner_root]);
    assert!(!s.pending[outer_root]);
    assert!(!s.alive[light]);
    assert!(!s.alive[inner_root]);
    assert!(!s.alive[camera]);
    assert!(s.alive[outer_root]);
}

#[test]
fn untagged_subtrees_are_left_alone() {
    let mut s = Scene::new();
    let mut mats = MaterialTable::with_materials(1);
    let light = s.add_node(vec![], None, Some(LightKind::Point), false, false, false);
    let mesh = s.add_node(vec![], Some(0), None, false, false, false);
    // A complete subtree that was never tagged pending.
    let _plain_root = s.add_node(vec![light, mesh], None, None, false, false, false);
    proc_scene(&mut s, &mut mats);
    assert!(s.alive[light], "nothing outside pending subtrees is touched");
    assert!(!mats.flip_normal_map_y[0]);
}

#[test]
fn no_frustum_culling_marks_material_nodes() {
    let mut s = Scene::new();
    let mesh = s.add_node(vec![], Some(7), None, false, false, false);
    let empty = s.add_node(vec![], None, None, false, false, false);
    let light = s.add_node(vec![], None, Some(LightKind::Point), false, true, false);
    add_no_frustum_culling(&mut s);
    assert!(s.culling_disabled[mesh]);
    assert!(!s.culling_disabled[empty]);
    assert!(!s.culling_disabled[light]);
    // Running it again changes nothing.
    add_no_frustum_culling(&mut s);
    assert!(s.culling_disabled[mesh]);
    assert!(!s.culling_disabled[empty]);
}

#[test]
fn scene_len_counts_spawned_nodes() {
    let mut s = Scene::new();
    assert_eq!(s.len(), 0);
    s.add_node(vec![], None, None, false, false, false);
    s.add_node(vec![0], None, None, false, false, true);
    assert_eq!(s.len(), 2);
}

#[test]
fn deep_chain_loses_only_the_doomed_leaf() {
    let mut s = Scene::new();
    let mut mats = MaterialTable::with_materials(3);
    // root -> a -> b -> light: only the leaf light is deletable.
    let light = s.add_node(vec![], None, Some(LightKind::Point), false, false, false);
    let b = s.add_node(vec![light], Some(2), None, false, false, false);
    let a = s.add_node(vec![b], Some(1), None, false, false, false);
    let root = s.add_node(vec![a], Some(0), None, false, false, true);
    proc_scene(&mut s, &mut mats);
    assert!(!s.alive[light]);
    assert!(s.alive[b]);
    assert!(s.alive[a]);
    assert!(s.alive[root]);
    // Every descendant's material was fixed; the root's own material is
    // not touched (the traversal visits descendants only).
    assert!(mats.flip_normal_map_y[1]);
    assert!(mats.flip_normal_map_y[2]);
    assert!(!mats.flip_normal_map_y[0]);
}
