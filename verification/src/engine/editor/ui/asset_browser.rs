use vstd::prelude::*;

verus! {

/// A file of the project's assets shown in the browser.
pub struct EditorAssetBrowserAsset {
    pub file_sub_path: String,
}

/// A node of the asset browser's tree: a file, or a folder with its loaded
/// contents.
pub enum EditorAssetBrowserNode {
    Asset(EditorAssetBrowserAsset),
    Folder {
        /// Path starting from `/project_dir/assets/`.
        asset_sub_path: String,
        /// None if contents haven't been loaded yet.
        contents: Option<Vec<(String, EditorAssetBrowserNode)>>,
        collapsed: bool,
    },
}

impl EditorAssetBrowserNode {
    /// The node's path below the assets directory.
    pub open spec fn sub_path_view(&self) -> Seq<char> {
        match self {
            EditorAssetBrowserNode::Asset(a) => a.file_sub_path@,
            EditorAssetBrowserNode::Folder { asset_sub_path, .. } => asset_sub_path@,
        }
    }

    pub fn sub_path(&self) -> (r: &str)
        ensures
            r@ == self.sub_path_view(),
    {
        match self {
            EditorAssetBrowserNode::Asset(editor_asset_browser_asset) => editor_asset_browser_asset.file_sub_path.as_str(),
            EditorAssetBrowserNode::Folder { asset_sub_path, .. } => asset_sub_path.as_str(),
        }
    }

    /// Whether the folder's contents were loaded; only folders can be asked.
    pub fn is_loaded(&self) -> (r: bool)
        requires
            self is Folder,
        ensures
            r == (self->contents is Some),
    {
        match self {
            EditorAssetBrowserNode::Asset(_) => false,
            EditorAssetBrowserNode::Folder { contents, .. } => contents.is_some(),
        }
    }
}

/// Whether the first entry of `prev` at `path` is a folder that is expanded;
/// false when there is no entry at `path`.
pub open spec fn expanded_in(prev: Seq<(String, EditorAssetBrowserNode)>, path: Seq<char>) -> bool
    decreases prev.len(),
{
    if prev.len() == 0 {
        false
    } else if prev[0].0@ == path {
        prev[0].1 is Folder && !prev[0].1->collapsed
    } else {
        expanded_in(prev.drop_first(), path)
    }
}

/// Whether the folder at `path` stays expanded: it was an expanded folder
/// of the contents loaded before.
pub open spec fn stays_expanded(prev: Option<Vec<(String, EditorAssetBrowserNode)>>, path: Seq<char>) -> bool {
    prev is Some && expanded_in(prev.unwrap()@, path)
}

/// No two entries of a folder's contents have the same path.
pub open spec fn keys_unique(contents: Seq<(String, EditorAssetBrowserNode)>) -> bool {
    forall|i: int, j: int| 0 <= i < j < contents.len() ==> contents[i].0@ != contents[j].0@
}

/// No two entries of a listing have the same path.
pub open spec fn listing_unique(listing: Seq<(String, bool)>) -> bool {
    forall|i: int, j: int| 0 <= i < j < listing.len() ==> listing[i].0@ != listing[j].0@
}

/// Whether the first entry of `prev` at `path` is an expanded folder.
fn find_expanded(prev: &Vec<(String, EditorAssetBrowserNode)>, path: &String) -> (r: bool)
    ensures
        r == expanded_in(prev@, path@),
{
    let mut i: usize = 0;
    proof {
        assert(prev@.skip(0) =~= prev@);
    }
    while i < prev.len()
        invariant
            i <= prev@.len(),
            expanded_in(prev@, path@) == expanded_in(prev@.skip(i as int), path@),
        decreases prev@.len() - i,
    {
        proof {
            assert(prev@.skip(i as int)[0] == prev@[i as int]);
            assert(prev@.skip(i as int).drop_first() =~= prev@.skip(i + 1));
        }
        if prev[i].0 == *path {
            return match &prev[i].1 {
                EditorAssetBrowserNode::Folder { collapsed, .. } => !*collapsed,
                EditorAssetBrowserNode::Asset(_) => false,
            };
        }
        i = i + 1;
    }
    proof {
        assert(prev@.skip(i as int).len() == 0);
    }
    false
}

/// The contents of a folder built from a listing of its entries (each the
/// path below the assets directory and whether it is a folder), in listing
/// order: files become assets, folders become unloaded folders, collapsed
/// unless they were expanded folders of the contents loaded before. The
/// caller reloads the folders left expanded.
pub fn contents_from_listing(
    listing: Vec<(String, bool)>,
    prev: &Option<Vec<(String, EditorAssetBrowserNode)>>,
) -> (r: Vec<(String, EditorAssetBrowserNode)>)
    ensures
        r@.len() == listing@.len(),
        keys_unique(r@) == listing_unique(listing@),
        forall|i: int| 0 <= i < listing@.len() ==> {
            let (path, is_dir) = listing@[i];
            &&& (#[trigger] r@[i]).0@ == path@
            &&& r@[i].1.sub_path_view() == path@
            &&& is_dir ==> (r@[i].1 is Folder && r@[i].1->contents is None && r@[i].1->collapsed == !stays_expanded(
                *prev,
                path@,
            ))
            &&& !is_dir ==> r@[i].1 is Asset
        },
{
    let mut out: Vec<(String, EditorAssetBrowserNode)> = Vec::new();
    let mut listing = listing;
    let ghost all = listing@;
    while listing.len() > 0
        invariant
            out@.len() + listing@.len() == all.len(),
            listing@ == all.subrange(out@.len() as int, all.len() as int),
            forall|i: int| 0 <= i < out@.len() ==> {
                let (path, is_dir) = all[i];
                &&& (#[trigger] out@[i]).0@ == path@
                &&& out@[i].1.sub_path_view() == path@
                &&& is_dir ==> (out@[i].1 is Folder && out@[i].1->contents is None && out@[i].1->collapsed == !stays_expanded(
                    *prev,
                    path@,
                ))
                &&& !is_dir ==> out@[i].1 is Asset
            },
        decreases listing@.len(),
    {
        let ghost k = out@.len() as int;
        let (sub, is_dir) = listing.remove(0);
        proof {
            assert(all[k] == (sub, is_dir));
        }
        let node = if is_dir {
            let expanded = match prev {
                Some(p) => find_expanded(p, &sub),
                None => false,
            };
            EditorAssetBrowserNode::Folder { asset_sub_path: sub.clone(), contents: None, collapsed: !expanded }
        } else {
            EditorAssetBrowserNode::Asset(EditorAssetBrowserAsset { file_sub_path: sub.clone() })
        };
        out.push((sub, node));
    }
    proof {
        assert(keys_unique(out@) == listing_unique(all)) by {
            assert forall|i: int, j: int| 0 <= i < j < all.len() implies (out@[i].0@ != out@[j].0@) == (all[i].0@ != all[j].0@) by {
                assert(out@[i].0@ == all[i].0@);
                assert(out@[j].0@ == all[j].0@);
            }
        }
    }
    out
}

/// The asset browser: the tree of the project's assets directory.
pub struct EditorAssetBrowserState {
    pub root_asset_folder: EditorAssetBrowserNode,
    pub project_assets_dir: String,
    pub needs_reload: bool,
}

impl EditorAssetBrowserState {
    /// Takes in a reload of the assets directory `project_assets_dir`: the
    /// root folder's contents become `contents` (its path and collapsed flag
    /// kept), the directory is recorded and no reload is pending any more.
    pub fn apply_reload(&mut self, project_assets_dir: String, contents: Vec<(String, EditorAssetBrowserNode)>)
        requires
            old(self).root_asset_folder is Folder,
        ensures
            !final(self).needs_reload,
            final(self).project_assets_dir@ == project_assets_dir@,
            final(self).root_asset_folder is Folder,
            final(self).root_asset_folder->asset_sub_path == old(self).root_asset_folder->asset_sub_path,
            final(self).root_asset_folder->collapsed == old(self).root_asset_folder->collapsed,
            final(self).root_asset_folder->contents == Some(contents),
    {
        self.needs_reload = false;
        self.project_assets_dir = project_assets_dir;
        match &mut self.root_asset_folder {
            EditorAssetBrowserNode::Folder { contents: root_contents, .. } => {
                *root_contents = Some(contents);
            },
            EditorAssetBrowserNode::Asset(_) => {},
        }
    }

    /// An unloaded, expanded root folder, waiting for a reload.
    pub fn new() -> (r: Self)
        ensures
            r.root_asset_folder is Folder,
            r.root_asset_folder->asset_sub_path@ == Seq::<char>::empty(),
            r.root_asset_folder->contents is None,
            !r.root_asset_folder->collapsed,
            r.project_assets_dir@ == Seq::<char>::empty(),
            r.needs_reload,
    {
        Self {
            root_asset_folder: EditorAssetBrowserNode::Folder {
                asset_sub_path: String::new(),
                contents: None,
                collapsed: false,
            },
            project_assets_dir: String::new(),
            needs_reload: true,
        }
    }
}

/// Whether a folder at `path` counts as expanded in the previous contents is
/// decided by the first entry at `path` alone: it is when that entry is a
/// folder whose collapsed flag is off, whatever contents it had loaded.
pub proof fn law_expanded_in_first_entry(prev: Seq<(String, EditorAssetBrowserNode)>, path: Seq<char>, i: int)
    requires
        0 <= i < prev.len(),
        prev[i].0@ == path,
        forall|j: int| 0 <= j < i ==> prev[j].0@ != path,
    ensures
        expanded_in(prev, path) == (prev[i].1 is Folder && !prev[i].1->collapsed),
    decreases i,
{
    if i > 0 {
        assert(prev[0].0@ != path);
        let d = prev.drop_first();
        assert forall|j: int| 0 <= j < i - 1 implies d[j].0@ != path by {
            assert(d[j] == prev[j + 1]);
        }
        law_expanded_in_first_entry(d, path, i - 1);
    }
}

/// A path that the previous contents do not hold is not expanded.
pub proof fn law_absent_path_not_expanded(prev: Seq<(String, EditorAssetBrowserNode)>, path: Seq<char>)
    requires
        forall|j: int| 0 <= j < prev.len() ==> prev[j].0@ != path,
    ensures
        !expanded_in(prev, path),
    decreases prev.len(),
{
    if prev.len() > 0 {
        let d = prev.drop_first();
        assert forall|j: int| 0 <= j < d.len() implies d[j].0@ != path by {
            assert(d[j] == prev[j + 1]);
        }
        law_absent_path_not_expanded(d, path);
    }
}

} // verus!
