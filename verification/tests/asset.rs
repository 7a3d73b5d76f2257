use rogue::engine::asset::asset::{
    split_double_colon, AssetData, AssetFile, AssetLoadError, AssetPath, AssetStatus, AssetTask,
    AssetTaskKind, Assets, ProcessingPoll,
};

#[test]
fn split_on_double_colons() {
    assert_eq!(split_double_colon("a::b::c"), vec!["a", "b", "c"]);
    assert_eq!(split_double_colon("abc"), vec!["abc"]);
    assert_eq!(split_double_colon("a:::b"), vec!["a", ":b"]);
    assert_eq!(split_double_colon("::"), vec!["", ""]);
}

#[test]
fn binary_dir_paths() {
    let p = AssetPath::new_binary_dir("shaders::main::wgsl");
    assert_eq!(p.asset_path.as_deref(), Some("shaders::main::wgsl"));
    assert_eq!(p.path(), "./assets/shaders/main.wgsl");
    assert_eq!(p.extension(), "wgsl");
    assert_eq!(p.into_fetch_url(), "TODO!!!");
}

#[test]
fn invalid_paths_are_refused() {
    assert!(AssetPath::try_new_binary_dir("bad path::x").is_none());
    assert!(AssetPath::try_new_binary_dir("good_one::json").is_some());
    assert!(AssetPath::is_valid_path("a::b"));
    assert!(AssetPath::is_valid_path("A-z_09::b::c"));
    assert!(!AssetPath::is_valid_path("a::"));
    assert!(!AssetPath::is_valid_path("a.b"));
    assert!(!AssetPath::is_valid_path(""));
    assert!(!AssetPath::is_valid_path("a:::b"));
    assert!(!AssetPath::is_valid_path("::a"));
    assert!(!AssetPath::is_valid_path("a::b\n"));
}

#[test]
fn project_dir_paths() {
    let p = AssetPath::new_project_dir("/proj", "models::tree::vxl".to_string());
    assert_eq!(p.path(), "/proj/assets/models/tree.vxl");
    let q = AssetPath::from_project_dir_path("/proj", "/proj/assets/models/tree.vxl");
    assert_eq!(q.asset_path.as_deref(), Some("models::tree::vxl"));
    assert_eq!(q.path(), "/proj/assets/models/tree.vxl");
    assert!(AssetPath::try_from_project_dir_path("/proj", "/proj/assets/a b.json").is_none());
}

#[test]
fn into_file_path_uses_last_part_as_extension() {
    assert_eq!(AssetPath::into_file_path("a::b::c::json", "./assets/"), "./assets/a/b/c.json");
    assert_eq!(AssetPath::new_user_dir("settings::json").path(), "./rogue_user_data/settings.json");
}

#[test]
fn asset_file_extension() {
    let f = AssetFile::from_path(&AssetPath::new("dir/file.txt".to_string()));
    assert_eq!(f.extension(), "txt");
    assert_eq!(f.file_handle().file_path(), "dir/file.txt");
}

#[test]
fn load_then_update_runs_three_at_a_time() {
    let mut assets = Assets::new();
    let handles: Vec<_> = (0..5)
        .map(|i| assets.load_asset(1, AssetPath::new(format!("f{}.json", i))))
        .collect();
    assert_eq!(handles[0].id(), 0);
    assert_eq!(handles[4].id(), 4);
    assert!(matches!(assets.get_asset_status(&handles[0]), AssetStatus::InProgress));
    let started = assets.update_assets_impl(None, vec![]);
    assert_eq!(
        started,
        vec![
            AssetTask { id: 0, kind: AssetTaskKind::Load },
            AssetTask { id: 1, kind: AssetTaskKind::Load },
            AssetTask { id: 2, kind: AssetTaskKind::Load },
        ]
    );
    let polls = vec![
        ProcessingPoll::LoadDone(Ok((AssetPath::new("f0.json".to_string()), 77))),
        ProcessingPoll::Pending,
        ProcessingPoll::LoadDone(Err(AssetLoadError::NotFound { path: None })),
    ];
    let started = assets.update_assets_impl(None, polls);
    assert_eq!(
        started,
        vec![AssetTask { id: 3, kind: AssetTaskKind::Load }, AssetTask { id: 4, kind: AssetTaskKind::Load }]
    );
    assert!(matches!(assets.get_asset_status(&handles[0]), AssetStatus::Loaded));
    assert!(matches!(assets.get_asset_status(&handles[1]), AssetStatus::InProgress));
    assert!(matches!(assets.get_asset_status(&handles[2]), AssetStatus::NotFound));
    assert!(!assets.is_asset_loading(&handles[0]));
    assert!(assets.is_asset_loading(&handles[1]));
    assert!(!assets.is_asset_touched(&handles[0], 77));
    assert!(assets.is_asset_touched(&handles[0], 78));
    assert!(assets.is_asset_touched(&handles[0], 77));
    let data: AssetData = assets.take_asset(&handles[0]).unwrap();
    assert_eq!(data.last_hash, Some(78));
    assert!(assets.take_asset(&handles[0]).is_none());
}

#[test]
fn finished_save_becomes_saved() {
    let mut assets = Assets::new();
    let h = assets.save_asset(2, AssetPath::new("out.json".to_string()));
    assets.update_assets_impl(None, vec![]);
    assert!(assets.is_asset_loading(&h));
    assets.update_assets_impl(None, vec![ProcessingPoll::SaveDone(Ok(()))]);
    assert!(assets.get_asset_status(&h).is_saved());
    assert!(!assets.is_asset_loading(&h));
}

#[test]
fn disconnected_task_leaves_status() {
    let mut assets = Assets::new();
    let h = assets.load_asset(1, AssetPath::new("x.json".to_string()));
    assets.update_assets_impl(None, vec![]);
    assets.update_assets_impl(None, vec![ProcessingPoll::Disconnected]);
    assert!(matches!(assets.get_asset_status(&h), AssetStatus::InProgress));
    assert!(!assets.is_asset_loading(&h));
}

#[test]
fn load_error_becomes_error_status() {
    let mut assets = Assets::new();
    let h = assets.load_asset(1, AssetPath::new("x.json".to_string()));
    assets.update_assets_impl(None, vec![]);
    let err = AssetLoadError::from_error(anyhow::Error::msg("broken"));
    assets.update_assets_impl(None, vec![ProcessingPoll::LoadDone(Err(err))]);
    assert!(matches!(assets.get_asset_status(&h), AssetStatus::Error(_)));
}

#[test]
fn assets_dir_modification_marks_touched() {
    let mut assets = Assets::new();
    assets.update_assets_impl(Some(5), vec![]);
    assert!(!assets.is_assets_dir_modified());
    assets.update_assets_impl(Some(5), vec![]);
    assert!(!assets.is_assets_dir_modified());
    assets.update_assets_impl(Some(9), vec![]);
    assert!(assets.is_assets_dir_modified());
    assets.update_assets_impl(None, vec![]);
    assert!(!assets.is_assets_dir_modified());
}

#[test]
fn unknown_path_has_no_handle() {
    let assets = Assets::new();
    assert!(assets.get_asset_handle(1, &AssetPath::new("a".to_string())).is_none());
}

#[test]
fn extension_with_separator_is_refused() {
    assert!(!AssetPath::extension_ok("ab::c/d"));
    // On Unix a backslash is no separator.
    assert!(AssetPath::extension_ok("ab::c\\d"));
    assert!(AssetPath::extension_ok("ab/x::cd"));
    assert!(AssetPath::try_new_binary_dir("ab::c/d").is_none());
}

#[test]
fn project_asset_file_must_lie_below_assets() {
    assert!(AssetPath::is_project_asset_file_path("/proj", "/proj/assets/a.json"));
    assert!(!AssetPath::is_project_asset_file_path("/proj", "/other/a.json"));
    assert!(AssetPath::try_from_project_dir_path("/proj", "/other/a.json").is_none());
}

#[test]
fn failed_save_becomes_error_status() {
    let mut assets = Assets::new();
    let h = assets.save_asset(2, AssetPath::new("out.json".to_string()));
    assets.update_assets_impl(None, vec![]);
    assets.update_assets_impl(None, vec![ProcessingPoll::SaveDone(Err(anyhow::Error::msg("disk full")))]);
    assert!(matches!(assets.get_asset_status(&h), AssetStatus::Error(_)));
    assert!(!assets.get_asset_status(&h).is_saved());
    assert!(!assets.is_asset_loading(&h));
}
