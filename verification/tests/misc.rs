use rogue::common::set::{AttributeSet, AttributeSetImpl};
use rogue::common::util::{byte_unit, ByteUnit};
use rogue::engine::asset::repr::collider::{ColliderRegistryAsset, ColliderType};
use rogue::engine::asset::repr::game_entity::WorldGameComponentAsset;
use rogue::common::dyn_vec::{TypeInfo, TypeInfoCloneable};
use rogue::engine::editor::ui::asset_browser::{contents_from_listing, EditorAssetBrowserNode, EditorAssetBrowserState};
use rogue::engine::editor::ui::entity_properties::collider_type_to_str;
use std::collections::HashSet;

#[derive(Clone)]
struct Settings {
    a: u32,
    b: u32,
}

impl AttributeSetImpl for Settings {
    type E = u8;

    fn aggregate_updates(&self, last: &Self) -> HashSet<u8> {
        let mut s = HashSet::new();
        if self.a != last.a {
            s.insert(0);
        }
        if self.b != last.b {
            s.insert(1);
        }
        s
    }

    fn aggregate_all_fields(&self) -> HashSet<u8> {
        [0, 1].into_iter().collect()
    }
}

#[test]
fn attribute_set_tracks_changes() {
    let mut set: AttributeSet<Settings> = AttributeSet::new();
    assert!(set.updates().is_empty());
    set.refresh_updates(&Settings { a: 1, b: 2 });
    assert!(set.updates().is_empty());
    set.refresh_updates(&Settings { a: 1, b: 3 });
    assert_eq!(set.updates().iter().copied().collect::<Vec<_>>(), vec![1]);
    set.refresh_updates(&Settings { a: 1, b: 3 });
    assert!(set.updates().is_empty());
}

#[test]
fn byte_units() {
    assert_eq!(byte_unit(0), ByteUnit::B);
    assert_eq!(byte_unit(1023), ByteUnit::B);
    assert_eq!(byte_unit(1024), ByteUnit::KiB);
    assert_eq!(byte_unit(1 << 20), ByteUnit::MiB);
    assert_eq!(byte_unit((1 << 30) - 1), ByteUnit::MiB);
    assert_eq!(byte_unit(1 << 30), ByteUnit::GiB);
}

#[test]
fn collider_registry_groups_by_kind() {
    let mut reg = ColliderRegistryAsset::new();
    let ty = TypeInfoCloneable::new(1, 2, 1);
    reg.register_collider(ColliderType::Box, ty, &[1, 2]);
    reg.register_collider(ColliderType::Capsule, ty, &[3, 4]);
    reg.register_collider(ColliderType::Box, ty, &[5, 6]);
    assert_eq!(reg.colliders.len(), 2);
    assert_eq!(reg.colliders[0].1.len(), 2);
    assert_eq!(reg.colliders[0].1.get_bytes(1), &[5, 6]);
}

#[test]
fn component_data_is_taken_once() {
    let mut c = WorldGameComponentAsset::new(TypeInfo::new(1, 1, 1), vec![9]);
    assert_eq!(c.take_data(), vec![9]);
}

#[test]
fn asset_browser_starts_unloaded() {
    let state = EditorAssetBrowserState::new();
    assert!(state.needs_reload);
    assert!(!state.root_asset_folder.is_loaded());
    assert_eq!(state.root_asset_folder.sub_path(), "");
    let leaf = EditorAssetBrowserNode::Folder { asset_sub_path: "x".to_string(), contents: Some(vec![]), collapsed: true };
    assert!(leaf.is_loaded());
}

#[test]
fn collider_type_labels() {
    assert_eq!(collider_type_to_str(ColliderType::Null), "Null (oops)");
    assert_eq!(collider_type_to_str(ColliderType::Capsule), "Capsule");
    assert_eq!(collider_type_to_str(ColliderType::Plane), "Plane");
    assert_eq!(collider_type_to_str(ColliderType::Box), "Box");
}

#[test]
fn listing_keeps_expanded_folders_expanded() {
    let prev = Some(vec![
        (
            "a".to_string(),
            EditorAssetBrowserNode::Folder { asset_sub_path: "a".to_string(), contents: None, collapsed: false },
        ),
        (
            "b".to_string(),
            EditorAssetBrowserNode::Folder { asset_sub_path: "b".to_string(), contents: None, collapsed: true },
        ),
    ]);
    let listing = vec![("a".to_string(), true), ("b".to_string(), true), ("c".to_string(), true), ("d.json".to_string(), false)];
    let out = contents_from_listing(listing, &prev);
    assert_eq!(out.len(), 4);
    let collapsed: Vec<Option<bool>> = out
        .iter()
        .map(|(_, n)| match n {
            EditorAssetBrowserNode::Folder { collapsed, .. } => Some(*collapsed),
            EditorAssetBrowserNode::Asset(_) => None,
        })
        .collect();
    assert_eq!(collapsed, vec![Some(false), Some(true), Some(true), None]);
    assert_eq!(out[3].1.sub_path(), "d.json");
}

#[test]
fn applying_a_reload_clears_the_flag() {
    let mut state = EditorAssetBrowserState::new();
    assert!(state.needs_reload);
    let contents = vec![(
        "a.json".to_string(),
        EditorAssetBrowserNode::Asset(rogue::engine::editor::ui::asset_browser::EditorAssetBrowserAsset {
            file_sub_path: "a.json".to_string(),
        }),
    )];
    state.apply_reload("/proj/assets".to_string(), contents);
    assert!(!state.needs_reload);
    assert_eq!(state.project_assets_dir, "/proj/assets");
    match &state.root_asset_folder {
        EditorAssetBrowserNode::Folder { contents: Some(c), collapsed, .. } => {
            assert_eq!(c.len(), 1);
            assert!(!*collapsed);
        }
        _ => panic!("root should be a loaded folder"),
    }
}
