use vstd::prelude::*;
use std::collections::{HashMap, HashSet, VecDeque};

verus! {

/// `part` joined onto the path `base` (std's `Path::join`).
pub uninterp spec fn joined_path(base: Seq<char>, part: Seq<char>) -> Seq<char>;

/// `path` with the extension of its file name set to `extension` (std's
/// `PathBuf::set_extension`).
pub uninterp spec fn path_with_extension(path: Seq<char>, extension: Seq<char>) -> Seq<char>;

/// The extension of the file name of `path`, if it has one (std's
/// `Path::extension`).
pub uninterp spec fn path_extension(path: Seq<char>) -> Option<Seq<char>>;

/// `path` with the leading components of `prefix` removed, if `prefix` leads
/// it (std's `Path::strip_prefix`).
pub uninterp spec fn stripped_path(path: Seq<char>, prefix: Seq<char>) -> Option<Seq<char>>;

/// The components of `path`, in order (std's `Path::iter`).
pub uninterp spec fn path_components(path: Seq<char>) -> Seq<Seq<char>>;

/// Compiles `pattern` with `regex::Regex::new` and tells whether
/// `Regex::is_match` finds it in `text`; nothing when the pattern does not
/// compile. Only the asset path pattern is admitted. It compiles, and since it
/// is anchored at both ends (`^` and `$` match only at the ends of the text
/// unless multi-line mode is set), it matches exactly the texts of
/// `is_valid_asset_path`.
#[verifier::external_body]
fn regex_is_match(pattern: &str, text: &str) -> (r: Option<bool>)
    requires
        pattern@ == asset_path_pattern(),
    ensures
        r == Some(is_valid_asset_path(text@)),
{
    match regex::Regex::new(pattern) {
        Ok(re) => Some(re.is_match(text)),
        Err(_) => None,
    }
}

/// `std::path::Path::join`, the paths taken and given as text.
#[verifier::external_body]
fn path_join(base: &str, part: &str) -> (r: String)
    ensures
        r@ == joined_path(base@, part@),
{
    std::path::Path::new(base).join(part).to_string_lossy().into_owned()
}

/// The text holds no path separator (on Unix, where this library runs,
/// `/` is the only one).
pub open spec fn no_separator(s: Seq<char>) -> bool {
    !s.contains('/')
}

/// Whether the text holds a path separator, `/`.
pub fn contains_separator(s: &str) -> (r: bool)
    ensures
        r == !no_separator(s@),
{
    let n = s.unicode_len();
    let mut i: usize = 0;
    while i < n
        invariant
            i <= n,
            n == s@.len(),
            forall|k: int| 0 <= k < i ==> s@[k] != '/',
        decreases n - i,
    {
        let c = s.get_char(i);
        if c == '/' {
            proof {
                assert(s@[i as int] == c);
                assert(s@.contains(c));
            }
            return true;
        }
        i = i + 1;
    }
    false
}

/// `std::path::PathBuf::set_extension`, the path taken and given as text.
/// The call panics when the extension holds a path separator, so such an
/// extension is not admitted.
#[verifier::external_body]
fn path_set_extension(path: &str, extension: &str) -> (r: String)
    requires
        no_separator(extension@),
    ensures
        r@ == path_with_extension(path@, extension@),
{
    let mut p = std::path::PathBuf::from(path);
    p.set_extension(extension);
    p.to_string_lossy().into_owned()
}

/// `std::path::Path::extension`, the path taken and the extension given as text.
#[verifier::external_body]
fn path_extension_of(path: &str) -> (r: Option<String>)
    ensures
        match r {
            Some(e) => path_extension(path@) == Some(e@),
            None => path_extension(path@) is None,
        },
{
    std::path::Path::new(path).extension().map(|e| e.to_string_lossy().into_owned())
}

/// `std::path::Path::strip_prefix`, the paths taken and given as text.
#[verifier::external_body]
fn path_strip_prefix(path: &str, prefix: &str) -> (r: Option<String>)
    ensures
        match r {
            Some(s) => stripped_path(path@, prefix@) == Some(s@),
            None => stripped_path(path@, prefix@) is None,
        },
{
    std::path::Path::new(path).strip_prefix(prefix).ok().map(|p| p.to_string_lossy().into_owned())
}

/// `std::path::Path::iter`, the path taken and the components given as text.
#[verifier::external_body]
fn path_iter(path: &str) -> (r: Vec<String>)
    ensures
        r@.map_values(|s: String| s@) == path_components(path@),
{
    std::path::Path::new(path).iter().map(|c| c.to_string_lossy().into_owned()).collect()
}


/// The pieces of `s` between the separators "::", scanning from index `i`
/// with `cur` the piece begun so far and `acc` the pieces done (each
/// separator is the leftmost "::" not overlapping an earlier one, as
/// `str::split` finds them).
pub open spec fn split_acc(s: Seq<char>, i: int, cur: Seq<char>, acc: Seq<Seq<char>>) -> Seq<Seq<char>>
    decreases s.len() - i,
{
    if i >= s.len() {
        acc.push(cur)
    } else if i + 1 < s.len() && s[i] == ':' && s[i + 1] == ':' {
        split_acc(s, i + 2, Seq::empty(), acc.push(cur))
    } else {
        split_acc(s, i + 1, cur.push(s[i]), acc)
    }
}

/// The pieces of `s` between the separators "::".
pub open spec fn split_parts(s: Seq<char>) -> Seq<Seq<char>> {
    split_acc(s, 0, Seq::empty(), Seq::empty())
}

proof fn lemma_split_acc_nonempty(s: Seq<char>, i: int, cur: Seq<char>, acc: Seq<Seq<char>>)
    requires
        0 <= i,
    ensures
        split_acc(s, i, cur, acc).len() >= acc.len() + 1,
    decreases s.len() - i,
{
    if i >= s.len() {
    } else if i + 1 < s.len() && s[i] == ':' && s[i + 1] == ':' {
        lemma_split_acc_nonempty(s, i + 2, Seq::empty(), acc.push(cur));
    } else {
        lemma_split_acc_nonempty(s, i + 1, cur.push(s[i]), acc);
    }
}

/// Splits `s` at every "::".
pub fn split_double_colon(s: &str) -> (r: Vec<String>)
    ensures
        r@.map_values(|p: String| p@) == split_parts(s@),
        r@.len() >= 1,
{
    let n = s.unicode_len();
    let mut acc: Vec<String> = Vec::new();
    let mut cur = String::new();
    let mut i: usize = 0;
    proof {
        assert(acc@.map_values(|p: String| p@) =~= Seq::<Seq<char>>::empty());
        assert(cur@ =~= Seq::<char>::empty());
    }
    while i < n
        invariant
            i <= n,
            n == s@.len(),
            split_parts(s@) == split_acc(s@, i as int, cur@, acc@.map_values(|p: String| p@)),
        decreases n - i,
    {
        let c = s.get_char(i);
        if c == ':' && i + 1 < n && s.get_char(i + 1) == ':' {
            let ghost before = acc@.map_values(|p: String| p@);
            let done = cur;
            acc.push(done);
            cur = String::new();
            proof {
                assert(acc@.map_values(|p: String| p@) =~= before.push(done@));
                assert(cur@ =~= Seq::<char>::empty());
            }
            i = i + 2;
        } else {
            let piece = s.substring_char(i, i + 1);
            let ghost before = cur@;
            cur.append(piece);
            proof {
                assert(piece@ =~= seq![s@[i as int]]);
                assert(cur@ =~= before.push(s@[i as int]));
            }
            i = i + 1;
        }
    }
    let ghost before = acc@.map_values(|p: String| p@);
    let last = cur;
    acc.push(last);
    proof {
        assert(acc@.map_values(|p: String| p@) =~= before.push(last@));
        lemma_split_acc_nonempty(s@, 0, Seq::empty(), Seq::empty());
    }
    acc
}

/// The last part of an asset path, which becomes the file extension, holds no
/// path separator.
pub open spec fn extension_part_ok(path: Seq<char>) -> bool {
    no_separator(split_parts(path).last())
}

/// The file path that `parts` name below `prefix`: each part but the last is
/// joined on as a directory, and the last one becomes the extension.
pub open spec fn file_path_of(prefix: Seq<char>, parts: Seq<Seq<char>>) -> Seq<char>
    decreases parts.len(),
{
    if parts.len() == 0 {
        prefix
    } else if parts.len() == 1 {
        path_with_extension(prefix, parts[0])
    } else {
        file_path_of(joined_path(prefix, parts[0]), parts.drop_first())
    }
}

/// The pattern an asset path must match: names of letters, digits, `_` and
/// `-`, separated by "::".
pub open spec fn asset_path_pattern() -> Seq<char> {
    "^[a-zA-Z0-9_-]+(::[a-zA-Z0-9_-]+)*$"@
}

/// A character allowed in a name of an asset path: an ASCII letter or
/// digit, `_` or `-`.
pub open spec fn asset_name_char(c: char) -> bool {
    ('a' <= c && c <= 'z') || ('A' <= c && c <= 'Z') || ('0' <= c && c <= '9') || c == '_' || c == '-'
}

/// A name of an asset path: not empty, and made of allowed characters only.
pub open spec fn is_asset_name(n: Seq<char>) -> bool {
    n.len() > 0 && forall|j: int| 0 <= j < n.len() ==> asset_name_char(#[trigger] n[j])
}

/// An asset path that passes validation: names separated by "::" (the text
/// that `asset_path_pattern` matches).
pub open spec fn is_valid_asset_path(path: Seq<char>) -> bool {
    forall|i: int| 0 <= i < split_parts(path).len() ==> is_asset_name(#[trigger] split_parts(path)[i])
}

/// A valid asset path has no separator in its last part, so that part can
/// become a file extension.
pub proof fn lemma_valid_extension_part_ok(path: Seq<char>)
    requires
        is_valid_asset_path(path),
    ensures
        extension_part_ok(path),
{
    lemma_split_acc_nonempty(path, 0, Seq::empty(), Seq::empty());
    let parts = split_parts(path);
    let last = parts.last();
    assert(is_asset_name(parts[parts.len() - 1]));
    if last.contains('/') {
        let j = choose|j: int| 0 <= j < last.len() && last[j] == '/';
        assert(asset_name_char(last[j]));
    }
}

/// The index of the first `c` in `p` at or after `from`, or the length of
/// `p` when there is none.
pub open spec fn index_of_from(p: Seq<char>, c: char, from: int) -> int
    decreases p.len() - from,
{
    if from >= p.len() {
        p.len() as int
    } else if p[from] == c {
        from
    } else {
        index_of_from(p, c, from + 1)
    }
}

/// The asset path piece of one path component: a file name `stem.ext...`
/// becomes `stem::ext` (the text up to the first dot, and from there to the
/// next dot); a name without a dot stays as it is.
pub open spec fn component_asset_piece(p: Seq<char>) -> Seq<char> {
    let j = index_of_from(p, '.', 0);
    if j < p.len() {
        let k = index_of_from(p, '.', j + 1);
        p.subrange(0, j) + "::"@ + p.subrange(j + 1, k)
    } else {
        p
    }
}

/// The asset path made of the components from index `i` on, their pieces
/// separated by "::".
pub open spec fn asset_path_of_components(cs: Seq<Seq<char>>, i: int) -> Seq<char>
    decreases cs.len() - i,
{
    if i >= cs.len() {
        Seq::empty()
    } else if i == cs.len() - 1 {
        component_asset_piece(cs[i])
    } else {
        component_asset_piece(cs[i]) + "::"@ + asset_path_of_components(cs, i + 1)
    }
}

/// The asset path of the file `path` of the project in `project_dir`: the
/// components of `path` below the project's assets directory, as pieces
/// separated by "::".
pub open spec fn project_asset_path(project_dir: Seq<char>, path: Seq<char>) -> Seq<char> {
    asset_path_of_components(
        path_components(stripped_path(path, joined_path(project_dir, "assets"@)).unwrap()),
        0,
    )
}

/// The file lies below the project's assets directory, with at least one
/// component there.
pub open spec fn is_project_asset_file(project_dir: Seq<char>, path: Seq<char>) -> bool {
    &&& stripped_path(path, joined_path(project_dir, "assets"@)) is Some
    &&& path_components(stripped_path(path, joined_path(project_dir, "assets"@)).unwrap()).len() >= 1
}

fn index_of_char(p: &str, c: char, from: usize) -> (r: usize)
    requires
        from <= p@.len(),
    ensures
        r == index_of_from(p@, c, from as int),
        from <= r <= p@.len(),
{
    let n = p.unicode_len();
    let mut i = from;
    while i < n
        invariant
            from <= i <= n,
            n == p@.len(),
            index_of_from(p@, c, from as int) == index_of_from(p@, c, i as int),
        decreases n - i,
    {
        if p.get_char(i) == c {
            return i;
        }
        i = i + 1;
    }
    i
}

/// Where an asset lives: its `::` separated asset path, for binary and
/// project assets, and the file path.
#[derive(Debug)]
pub struct AssetPath {
    // Only valid for binary and project assets.
    // In the form of (binary|project)::(dirs::)*file_name::extension
    pub asset_path: Option<String>,
    // Change maybe so we can support a giant asset file.
    path: String,
}

impl Clone for AssetPath {
    fn clone(&self) -> (r: Self)
        ensures
            r.asset_path_view() == self.asset_path_view(),
            r.path_view() == self.path_view(),
    {
        let asset_path = match &self.asset_path {
            Some(a) => Some(a.clone()),
            None => None,
        };
        AssetPath { asset_path, path: self.path.clone() }
    }
}

impl AssetPath {
    /// The asset path, as text.
    pub closed spec fn asset_path_view(&self) -> Option<Seq<char>> {
        match self.asset_path {
            Some(a) => Some(a@),
            None => None,
        }
    }

    /// The file path, as text.
    pub closed spec fn path_view(&self) -> Seq<char> {
        self.path@
    }

    /// Whether the last part of `path` (the one that becomes the file
    /// extension) holds no path separator.
    pub fn extension_ok(path: &str) -> (r: bool)
        ensures
            r == extension_part_ok(path@),
    {
        let parts = split_double_colon(path);
        let last = parts.len() - 1;
        proof {
            assert(parts@[last as int]@ == split_parts(path@)[last as int]);
        }
        !contains_separator(parts[last].as_str())
    }

    /// Whether `path` is a valid asset path: names of letters, digits, `_`
    /// and `-`, separated by "::".
    pub fn is_valid_path(path: &str) -> (r: bool)
        ensures
            r == is_valid_asset_path(path@),
    {
        let pattern = "^[a-zA-Z0-9_-]+(::[a-zA-Z0-9_-]+)*$";
        match regex_is_match(pattern, path) {
            Some(b) => b,
            None => false,
        }
    }

    /// A path that is only a file path.
    pub fn new(path: String) -> (r: Self)
        ensures
            r.asset_path_view() is None,
            r.path_view() == path@,
    {
        Self { asset_path: None, path }
    }

    /// Searches in the editor/runtime required assets that are project independent.
    pub fn new_binary_dir(path: &str) -> (r: Self)
        requires
            is_valid_asset_path(path@),
            vstd::utf8::encode_utf8(path@).len() >= 3,
        ensures
            r.asset_path_view() == Some(path@),
            r.path_view() == file_path_of("./assets/"@, split_parts(path@)),
    {
        proof {
            lemma_valid_extension_part_ok(path@);
        }
        let path = String::from_str(path);
        Self { asset_path: Some(path.clone()), path: Self::into_file_path(path.as_str(), "./assets/") }
    }

    /// The binary asset at `path`, or nothing when `path` is not a valid
    /// asset path.
    pub fn try_new_binary_dir(path: &str) -> (r: Option<Self>)
        requires
            vstd::utf8::encode_utf8(path@).len() >= 3,
        ensures
            r is Some == is_valid_asset_path(path@),
            r is Some ==> r.unwrap().asset_path_view() == Some(path@) && r.unwrap().path_view()
                == file_path_of("./assets/"@, split_parts(path@)),
    {
        if Self::is_valid_path(path) {
            Some(Self::new_binary_dir(path))
        } else {
            None
        }
    }

    /// Searches in the projects assets directory for the editor and runtime.
    pub fn new_project_dir(project_dir: &str, path: String) -> (r: Self)
        requires
            is_valid_asset_path(path@),
            vstd::utf8::encode_utf8(path@).len() >= 3,
        ensures
            r.asset_path_view() == Some(path@),
            r.path_view() == file_path_of(joined_path(project_dir@, "assets"@), split_parts(path@)),
    {
        proof {
            lemma_valid_extension_part_ok(path@);
        }
        let assets_dir = path_join(project_dir, "assets");
        let file_path = Self::into_file_path(path.as_str(), assets_dir.as_str());
        Self { asset_path: Some(path), path: file_path }
    }

    /// The project asset at `path` of the project in `project_dir`, or
    /// nothing when `path` is not a valid asset path.
    pub fn try_new_project_dir(project_dir: &str, path: String) -> (r: Option<Self>)
        requires
            vstd::utf8::encode_utf8(path@).len() >= 3,
        ensures
            r is Some == is_valid_asset_path(path@),
            r is Some ==> r.unwrap().asset_path_view() == Some(path@) && r.unwrap().path_view()
                == file_path_of(joined_path(project_dir@, "assets"@), split_parts(path@)),
    {
        if Self::is_valid_path(path.as_str()) {
            Some(Self::new_project_dir(project_dir, path))
        } else {
            None
        }
    }

    /// Whether the file `path` lies below the assets directory of the
    /// project in `project_dir`, with at least one component there.
    pub fn is_project_asset_file_path(project_dir: &str, path: &str) -> (r: bool)
        ensures
            r == is_project_asset_file(project_dir@, path@),
    {
        let assets_dir = path_join(project_dir, "assets");
        match path_strip_prefix(path, assets_dir.as_str()) {
            Some(rel) => {
                let components = path_iter(rel.as_str());
                proof {
                    assert(components@.map_values(|c: String| c@).len() == components@.len());
                }
                components.len() >= 1
            },
            None => false,
        }
    }

    /// The asset path of the file `path` of the project in `project_dir`.
    fn project_asset_path_text(project_dir: &str, path: &str) -> (r: String)
        requires
            is_project_asset_file(project_dir@, path@),
        ensures
            r@ == project_asset_path(project_dir@, path@),
    {
        let assets_dir = path_join(project_dir, "assets");
        let sub_path = match path_strip_prefix(path, assets_dir.as_str()) {
            Some(p) => p,
            None => {
                proof {
                    assert(false);
                }
                String::new()
            },
        };
        let comps = path_iter(sub_path.as_str());
        let ghost cs = comps@.map_values(|c: String| c@);
        let last_i = comps.len() - 1;
        let mut s = String::new();
        let mut i: usize = 0;
        proof {
            assert(s@ =~= Seq::<char>::empty());
        }
        while i < comps.len()
            invariant
                i <= comps@.len(),
                comps@.len() >= 1,
                last_i == comps@.len() - 1,
                cs == comps@.map_values(|c: String| c@),
                cs == path_components(stripped_path(path@, joined_path(project_dir@, "assets"@)).unwrap()),
                s@ + asset_path_of_components(cs, i as int) == asset_path_of_components(cs, 0),
            decreases comps@.len() - i,
        {
            let p = comps[i].as_str();
            let ghost before = s@;
            let n = p.unicode_len();
            let j = index_of_char(p, '.', 0);
            if j < n {
                let k = index_of_char(p, '.', j + 1);
                s.append(p.substring_char(0, j));
                s.append("::");
                s.append(p.substring_char(j + 1, k));
            } else {
                s.append(p);
            }
            let ghost piece = component_asset_piece(cs[i as int]);
            proof {
                assert(p@ == cs[i as int]);
                assert(s@ =~= before + piece);
            }
            if i < last_i {
                s.append("::");
                proof {
                    assert(asset_path_of_components(cs, i as int) == piece + "::"@ + asset_path_of_components(cs, i + 1));
                    assert(s@ + asset_path_of_components(cs, i + 1) =~= before + asset_path_of_components(cs, i as int));
                }
            } else {
                proof {
                    assert(asset_path_of_components(cs, i as int) == piece);
                    assert(asset_path_of_components(cs, i + 1) =~= Seq::<char>::empty());
                    assert(s@ + asset_path_of_components(cs, i + 1) =~= before + asset_path_of_components(cs, i as int));
                }
            }
            i = i + 1;
        }
        proof {
            assert(asset_path_of_components(cs, i as int) =~= Seq::<char>::empty());
            assert(s@ =~= asset_path_of_components(cs, 0));
        }
        s
    }

    /// The asset of the project in `project_dir` stored at the file `path`:
    /// its asset path is built from the components of `path` below the
    /// project's assets directory, and must be valid.
    pub fn from_project_dir_path(project_dir: &str, path: &str) -> (r: Self)
        requires
            is_project_asset_file(project_dir@, path@),
            is_valid_asset_path(project_asset_path(project_dir@, path@)),
        ensures
            r.asset_path_view() == Some(project_asset_path(project_dir@, path@)),
            r.path_view() == path@,
    {
        let s = Self::project_asset_path_text(project_dir, path);
        Self { asset_path: Some(s), path: String::from_str(path) }
    }

    /// The asset of the project in `project_dir` stored at the file `path`,
    /// or nothing when the file is not below the project's assets directory
    /// or its asset path is not valid.
    pub fn try_from_project_dir_path(project_dir: &str, path: &str) -> (r: Option<Self>)
        ensures
            r is Some == (is_project_asset_file(project_dir@, path@) && is_valid_asset_path(
                project_asset_path(project_dir@, path@),
            )),
            r is Some ==> r.unwrap().asset_path_view() == Some(project_asset_path(project_dir@, path@))
                && r.unwrap().path_view() == path@,
    {
        if !Self::is_project_asset_file_path(project_dir, path) {
            return None;
        }
        let s = Self::project_asset_path_text(project_dir, path);
        if Self::is_valid_path(s.as_str()) {
            Some(Self { asset_path: Some(s), path: String::from_str(path) })
        } else {
            None
        }
    }

    /// The file path that the asset path `path` names below `prefix`.
    pub fn into_file_path(path: &str, prefix: &str) -> (r: String)
        requires
            vstd::utf8::encode_utf8(path@).len() >= 3,
            extension_part_ok(path@),
        ensures
            r@ == file_path_of(prefix@, split_parts(path@)),
    {
        let parts = split_double_colon(path);
        let ghost views = parts@.map_values(|p: String| p@);
        let extension_index = parts.len() - 1;
        let mut result = String::from_str(prefix);
        let mut i: usize = 0;
        proof {
            assert(views.subrange(0, views.len() as int) =~= views);
        }
        while i < parts.len()
            invariant
                i <= parts@.len(),
                parts@.len() >= 1,
                extension_index == parts@.len() - 1,
                views == parts@.map_values(|p: String| p@),
                views == split_parts(path@),
                extension_part_ok(path@),
                file_path_of(prefix@, views) == file_path_of(result@, views.subrange(i as int, views.len() as int)),
            decreases parts@.len() - i,
        {
            let ghost rest = views.subrange(i as int, views.len() as int);
            proof {
                assert(rest[0] == parts@[i as int]@);
                assert(rest.drop_first() =~= views.subrange(i + 1, views.len() as int));
            }
            if i == extension_index {
                proof {
                    assert(parts@[i as int]@ == views[views.len() - 1]);
                }
                result = path_set_extension(result.as_str(), parts[i].as_str());
            } else {
                result = path_join(result.as_str(), parts[i].as_str());
            }
            i = i + 1;
        }
        proof {
            assert(views.subrange(views.len() as int, views.len() as int) =~= Seq::<Seq<char>>::empty());
        }
        result
    }

    pub fn into_fetch_url(&self) -> (r: String)
        ensures
            r@ == "TODO!!!"@,
    {
        String::from_str("TODO!!!")
    }

    /// The file path.
    pub fn path(&self) -> (r: &str)
        ensures
            r@ == self.path_view(),
    {
        self.path.as_str()
    }

    /// The file path, as text.
    pub fn path_str(&self) -> (r: &str)
        ensures
            r@ == self.path_view(),
    {
        self.path.as_str()
    }

    /// The extension of the file path, which must have one.
    pub fn extension(&self) -> (r: String)
        requires
            path_extension(self.path_view()) is Some,
        ensures
            Some(r@) == path_extension(self.path_view()),
    {
        match path_extension_of(self.path.as_str()) {
            Some(e) => e,
            None => {
                proof {
                    assert(false);
                }
                String::new()
            },
        }
    }

    /// The extension of the file path, if it has one.
    pub fn try_extension(&self) -> (r: Option<String>)
        ensures
            match r {
                Some(e) => path_extension(self.path_view()) == Some(e@),
                None => path_extension(self.path_view()) is None,
            },
    {
        match path_extension_of(self.path.as_str()) {
            Some(_) => Some(self.extension()),
            None => None,
        }
    }
}


impl AssetPath {
    /// A path below the user data directory.
    pub fn new_user_dir(sub_path: &str) -> (r: Self)
        requires
            vstd::utf8::encode_utf8(sub_path@).len() >= 3,
            extension_part_ok(sub_path@),
        ensures
            r.asset_path_view() is None,
            r.path_view() == file_path_of("./rogue_user_data"@, split_parts(sub_path@)),
    {
        let path = Self::into_file_path(sub_path, "./rogue_user_data");
        Self { asset_path: None, path }
    }
}

#[verifier::external_type_specification]
#[verifier::external_body]
pub struct ExAnyhowError(anyhow::Error);

pub type AssetId = u64;

pub enum AssetStatus {
    // Still loading or saving.
    InProgress,
    // Saved successfully.
    Saved,
    // Loaded successfully.
    Loaded,
    // Asset path could not be found.
    NotFound,
    // Asset errored while loading.
    Error(anyhow::Error),
}

impl AssetStatus {
    pub fn is_saved(&self) -> (r: bool)
        ensures
            r == (*self is Saved),
    {
        match &self {
            Self::Saved => true,
            _ => false,
        }
    }
}

#[derive(Debug)]
pub enum AssetLoadError {
    NotFound { path: Option<AssetPath> },
    Other(anyhow::Error),
}

impl AssetLoadError {
    pub fn from_error(value: anyhow::Error) -> (r: Self)
        ensures
            r == AssetLoadError::Other(value),
    {
        AssetLoadError::Other(value)
    }
}

/// Names a requested asset: the type asked for, the path and the id under
/// which its status is tracked.
#[derive(Debug)]
pub struct AssetHandle {
    asset_type: u64,
    path: AssetPath,
    id: AssetId,
}

impl AssetHandle {
    pub closed spec fn id_spec(&self) -> u64 {
        self.id
    }

    pub closed spec fn asset_type_spec(&self) -> u64 {
        self.asset_type
    }

    pub closed spec fn path_spec(&self) -> AssetPath {
        self.path
    }

    pub fn asset_path(&self) -> (r: &AssetPath)
        ensures
            *r == self.path_spec(),
    {
        &self.path
    }

    pub fn id(&self) -> (r: AssetId)
        ensures
            r == self.id_spec(),
    {
        self.id
    }

    pub fn asset_type(&self) -> (r: u64)
        ensures
            r == self.asset_type_spec(),
    {
        self.asset_type
    }
}

/// What is known of a loaded asset besides its data.
pub struct AssetData {
    pub path: AssetPath,
    // If the asset file has been touched in any way since the
    pub is_touched: bool,
    // Used to check if the asset has been modified since loading.
    pub last_hash: Option<u64>,
    pub dependencies: u32,
}

/// Whether a queued or running asset task loads or saves.
#[derive(Clone, Copy, PartialEq, Eq, Debug, Structural)]
pub enum AssetTaskKind {
    Load,
    Save,
}

/// An asset task waiting in the queue or running: the asset's id and what
/// the task does.
#[derive(Clone, Copy, PartialEq, Eq, Debug, Structural)]
pub struct AssetTask {
    pub id: AssetId,
    pub kind: AssetTaskKind,
}

/// What polling a running task gave.
pub enum ProcessingPoll {
    /// Not finished yet.
    Pending,
    /// The worker went away without an answer.
    Disconnected,
    /// A load finished: the loaded asset's path and file hash, or the error.
    LoadDone(Result<(AssetPath, u64), AssetLoadError>),
    /// A save finished: with success, or with the error it failed with.
    SaveDone(Result<(), anyhow::Error>),
}

/// The statuses after taking in one poll of a running task.
pub open spec fn status_after_poll(statuses: Map<u64, AssetStatus>, task: AssetTask, poll: ProcessingPoll) -> Map<u64, AssetStatus> {
    match task.kind {
        AssetTaskKind::Load => match poll {
            ProcessingPoll::LoadDone(Ok(_)) => statuses.insert(task.id, AssetStatus::Loaded),
            ProcessingPoll::LoadDone(Err(AssetLoadError::NotFound { .. })) => statuses.insert(task.id, AssetStatus::NotFound),
            ProcessingPoll::LoadDone(Err(AssetLoadError::Other(e))) => statuses.insert(task.id, AssetStatus::Error(e)),
            _ => statuses,
        },
        AssetTaskKind::Save => match poll {
            ProcessingPoll::Pending => statuses,
            ProcessingPoll::Disconnected => statuses,
            ProcessingPoll::SaveDone(Err(e)) => statuses.insert(task.id, AssetStatus::Error(e)),
            _ => statuses.insert(task.id, AssetStatus::Saved),
        },
    }
}

/// The loaded asset records after taking in one poll: a finished load
/// records the asset's path and hash, untouched and without dependencies.
pub open spec fn records_after_poll(records: Map<u64, AssetData>, task: AssetTask, poll: ProcessingPoll) -> Map<u64, AssetData> {
    match task.kind {
        AssetTaskKind::Load => match poll {
            ProcessingPoll::LoadDone(Ok((path, hash))) => records.insert(
                task.id,
                AssetData { path, is_touched: false, last_hash: Some(hash), dependencies: 0 },
            ),
            _ => records,
        },
        AssetTaskKind::Save => records,
    }
}

/// The statuses after taking in the polls of the tasks, in order.
pub open spec fn statuses_after_polls(statuses: Map<u64, AssetStatus>, tasks: Seq<AssetTask>, polls: Seq<ProcessingPoll>) -> Map<u64, AssetStatus>
    decreases tasks.len(),
{
    if tasks.len() == 0 || polls.len() == 0 {
        statuses
    } else {
        statuses_after_polls(status_after_poll(statuses, tasks[0], polls[0]), tasks.drop_first(), polls.drop_first())
    }
}

/// The records after taking in the polls of the tasks, in order.
pub open spec fn records_after_polls(records: Map<u64, AssetData>, tasks: Seq<AssetTask>, polls: Seq<ProcessingPoll>) -> Map<u64, AssetData>
    decreases tasks.len(),
{
    if tasks.len() == 0 || polls.len() == 0 {
        records
    } else {
        records_after_polls(records_after_poll(records, tasks[0], polls[0]), tasks.drop_first(), polls.drop_first())
    }
}

/// The ids of the tasks whose poll is not pending.
pub open spec fn finished_ids(tasks: Seq<AssetTask>, polls: Seq<ProcessingPoll>) -> Set<u64> {
    Set::new(|id: u64| exists|i: int| 0 <= i < tasks.len() && i < polls.len() && tasks[i].id == id && !(polls[i] is Pending))
}

/// How many queued tasks may run at once.
pub open spec fn processing_threshold() -> nat {
    3
}

/// Tracks every requested asset: its status, the queue of tasks waiting to
/// run, the tasks running, the assets being loaded or saved, and what is
/// known of loaded assets. The work itself (the reading and writing of files
/// on worker threads) is done by the caller, which tells the tracker how its
/// tasks went and runs the tasks it is told to start.
pub struct Assets {
    path_id_map: Vec<(AssetPath, AssetId)>,
    saved_assets_path: HashMap<AssetId, AssetPath>,
    assets: HashMap<AssetId, AssetData>,
    asset_statuses: HashMap<AssetId, AssetStatus>,
    queued_assets: VecDeque<AssetTask>,
    processing_assets: Vec<AssetTask>,
    currently_loading_assets: HashSet<AssetId>,
    currently_saving_assets: HashSet<AssetId>,
    id_counter: u64,
    assets_dir_touched: bool,
    assets_dir_modified: Option<u64>,
}


impl AssetPath {
    /// Both the asset path and the file path are the same.
    pub fn same_as(&self, other: &AssetPath) -> (r: bool)
        ensures
            r == (self.asset_path_view() == other.asset_path_view() && self.path_view() == other.path_view()),
    {
        let same_asset_path = match (&self.asset_path, &other.asset_path) {
            (Some(a), Some(b)) => *a == *b,
            (None, None) => true,
            _ => false,
        };
        same_asset_path && self.path == other.path
    }
}

impl Assets {
    pub closed spec fn statuses(&self) -> Map<u64, AssetStatus> {
        self.asset_statuses@
    }

    pub closed spec fn records(&self) -> Map<u64, AssetData> {
        self.assets@
    }

    pub closed spec fn saved_paths(&self) -> Map<u64, AssetPath> {
        self.saved_assets_path@
    }

    /// The tasks waiting to run, first to run first.
    pub closed spec fn queue(&self) -> Seq<AssetTask> {
        self.queued_assets@
    }

    /// The tasks running.
    pub closed spec fn processing(&self) -> Seq<AssetTask> {
        self.processing_assets@
    }

    pub closed spec fn loading(&self) -> Set<u64> {
        self.currently_loading_assets@
    }

    pub closed spec fn saving(&self) -> Set<u64> {
        self.currently_saving_assets@
    }

    pub closed spec fn counter(&self) -> u64 {
        self.id_counter
    }

    pub closed spec fn dir_touched(&self) -> bool {
        self.assets_dir_touched
    }

    pub closed spec fn dir_modified(&self) -> Option<u64> {
        self.assets_dir_modified
    }

    /// The assets known by path, with their ids.
    pub closed spec fn known_paths(&self) -> Seq<(AssetPath, u64)> {
        self.path_id_map@
    }

    /// No more tasks run than the threshold allows.
    pub closed spec fn wf(&self) -> bool {
        &&& self.processing_assets@.len() <= processing_threshold()
        &&& forall|i: int, j: int|
            0 <= i < j < self.path_id_map@.len() ==> !(self.path_id_map@[i].0.asset_path_view()
                == self.path_id_map@[j].0.asset_path_view() && self.path_id_map@[i].0.path_view()
                == self.path_id_map@[j].0.path_view())
    }

    /// No asset path is known twice.
    pub proof fn lemma_known_paths_unique(&self)
        requires
            self.wf(),
        ensures
            forall|i: int, j: int|
                0 <= i < j < self.known_paths().len() ==> !(self.known_paths()[i].0.asset_path_view()
                    == self.known_paths()[j].0.asset_path_view() && self.known_paths()[i].0.path_view()
                    == self.known_paths()[j].0.path_view()),
    {
    }

    pub fn new() -> (r: Self)
        ensures
            r.wf(),
            r.statuses() == Map::<u64, AssetStatus>::empty(),
            r.records() == Map::<u64, AssetData>::empty(),
            r.saved_paths() == Map::<u64, AssetPath>::empty(),
            r.queue() == Seq::<AssetTask>::empty(),
            r.processing() == Seq::<AssetTask>::empty(),
            r.loading() == Set::<u64>::empty(),
            r.saving() == Set::<u64>::empty(),
            r.counter() == 0,
            !r.dir_touched(),
            r.dir_modified() is None,
            r.known_paths() == Seq::<(AssetPath, u64)>::empty(),
    {
        Self {
            path_id_map: Vec::new(),
            saved_assets_path: HashMap::new(),
            assets: HashMap::new(),
            asset_statuses: HashMap::new(),
            queued_assets: VecDeque::new(),
            processing_assets: Vec::new(),
            currently_loading_assets: HashSet::new(),
            currently_saving_assets: HashSet::new(),
            id_counter: 0,
            assets_dir_touched: false,
            assets_dir_modified: None,
        }
    }

    /// Hands out the next asset id.
    pub fn next_id(&mut self) -> (r: AssetId)
        requires
            old(self).counter() < u64::MAX,
        ensures
            r == old(self).counter(),
            final(self).counter() == old(self).counter() + 1,
            final(self).statuses() == old(self).statuses(),
            final(self).records() == old(self).records(),
            final(self).saved_paths() == old(self).saved_paths(),
            final(self).queue() == old(self).queue(),
            final(self).processing() == old(self).processing(),
            final(self).loading() == old(self).loading(),
            final(self).saving() == old(self).saving(),
            final(self).dir_touched() == old(self).dir_touched(),
            final(self).dir_modified() == old(self).dir_modified(),
            final(self).known_paths() == old(self).known_paths(),
            final(self).wf() == old(self).wf(),
    {
        let id = self.id_counter;
        self.id_counter = self.id_counter + 1;
        id
    }

    /// Enqueues the asset to the loading queue. Status on the asset can be queried using the
    /// returned `AssetHandle`.
    pub fn load_asset(&mut self, asset_type: u64, path: AssetPath) -> (r: AssetHandle)
        requires
            old(self).counter() < u64::MAX,
        ensures
            r.id_spec() == old(self).counter(),
            r.asset_type_spec() == asset_type,
            r.path_spec().asset_path_view() == path.asset_path_view(),
            r.path_spec().path_view() == path.path_view(),
            final(self).counter() == old(self).counter() + 1,
            final(self).loading() == old(self).loading().insert(r.id_spec()),
            final(self).queue() == old(self).queue().push(AssetTask { id: r.id_spec(), kind: AssetTaskKind::Load }),
            final(self).statuses() == old(self).statuses().insert(r.id_spec(), AssetStatus::InProgress),
            final(self).records() == old(self).records(),
            final(self).saved_paths() == old(self).saved_paths(),
            final(self).processing() == old(self).processing(),
            final(self).saving() == old(self).saving(),
            final(self).dir_touched() == old(self).dir_touched(),
            final(self).dir_modified() == old(self).dir_modified(),
            final(self).known_paths() == old(self).known_paths(),
            final(self).wf() == old(self).wf(),
    {
        let id = self.next_id();
        let handle = AssetHandle { asset_type, path: path.clone(), id };
        self.currently_loading_assets.insert(id);
        self.queued_assets.push_back(AssetTask { id, kind: AssetTaskKind::Load });
        self.asset_statuses.insert(id, AssetStatus::InProgress);
        handle
    }

    /// Enqueues a save of an asset to `path`; the path is remembered for the
    /// asset's id.
    pub fn save_asset(&mut self, asset_type: u64, path: AssetPath) -> (r: AssetHandle)
        requires
            old(self).counter() < u64::MAX,
        ensures
            r.id_spec() == old(self).counter(),
            r.asset_type_spec() == asset_type,
            r.path_spec().asset_path_view() == path.asset_path_view(),
            r.path_spec().path_view() == path.path_view(),
            final(self).counter() == old(self).counter() + 1,
            final(self).saving() == old(self).saving().insert(r.id_spec()),
            final(self).queue() == old(self).queue().push(AssetTask { id: r.id_spec(), kind: AssetTaskKind::Save }),
            final(self).statuses() == old(self).statuses().insert(r.id_spec(), AssetStatus::InProgress),
            final(self).saved_paths().dom() == old(self).saved_paths().dom().insert(r.id_spec()),
            final(self).saved_paths()[r.id_spec()].asset_path_view() == path.asset_path_view(),
            final(self).saved_paths()[r.id_spec()].path_view() == path.path_view(),
            forall|k: u64| k != r.id_spec() && old(self).saved_paths().contains_key(k) ==> #[trigger] final(self).saved_paths()[k] == old(self).saved_paths()[k],
            final(self).records() == old(self).records(),
            final(self).processing() == old(self).processing(),
            final(self).loading() == old(self).loading(),
            final(self).dir_touched() == old(self).dir_touched(),
            final(self).dir_modified() == old(self).dir_modified(),
            final(self).known_paths() == old(self).known_paths(),
            final(self).wf() == old(self).wf(),
    {
        let id = self.next_id();
        let handle = AssetHandle { asset_type, path: path.clone(), id };
        self.currently_saving_assets.insert(id);
        self.queued_assets.push_back(AssetTask { id, kind: AssetTaskKind::Save });
        self.asset_statuses.insert(id, AssetStatus::InProgress);
        self.saved_assets_path.insert(id, path);
        handle
    }

    /// Enqueues a reload of a loaded asset.
    pub fn update_asset(&mut self, handle: &AssetHandle)
        requires
            old(self).records().contains_key(handle.id_spec()),
        ensures
            final(self).loading() == old(self).loading().insert(handle.id_spec()),
            final(self).queue() == old(self).queue().push(AssetTask { id: handle.id_spec(), kind: AssetTaskKind::Load }),
            final(self).statuses() == old(self).statuses(),
            final(self).records() == old(self).records(),
            final(self).saved_paths() == old(self).saved_paths(),
            final(self).processing() == old(self).processing(),
            final(self).saving() == old(self).saving(),
            final(self).counter() == old(self).counter(),
            final(self).dir_touched() == old(self).dir_touched(),
            final(self).dir_modified() == old(self).dir_modified(),
            final(self).known_paths() == old(self).known_paths(),
            final(self).wf() == old(self).wf(),
    {
        self.currently_loading_assets.insert(handle.id);
        self.queued_assets.push_back(AssetTask { id: handle.id, kind: AssetTaskKind::Load });
    }

    /// The status of the asset, which must have been requested.
    pub fn get_asset_status(&self, handle: &AssetHandle) -> (r: &AssetStatus)
        requires
            self.statuses().contains_key(handle.id_spec()),
        ensures
            *r == self.statuses()[handle.id_spec()],
    {
        self.asset_statuses.get(&handle.id).unwrap()
    }

    /// Removes and gives what is known of a loaded asset, if it is loaded.
    pub fn take_asset(&mut self, handle: &AssetHandle) -> (r: Option<AssetData>)
        ensures
            match r {
                Some(d) => old(self).records().contains_key(handle.id_spec()) && d == old(self).records()[handle.id_spec()],
                None => !old(self).records().contains_key(handle.id_spec()),
            },
            final(self).records() == old(self).records().remove(handle.id_spec()),
            final(self).statuses() == old(self).statuses(),
            final(self).saved_paths() == old(self).saved_paths(),
            final(self).queue() == old(self).queue(),
            final(self).processing() == old(self).processing(),
            final(self).loading() == old(self).loading(),
            final(self).saving() == old(self).saving(),
            final(self).counter() == old(self).counter(),
            final(self).dir_touched() == old(self).dir_touched(),
            final(self).dir_modified() == old(self).dir_modified(),
            final(self).known_paths() == old(self).known_paths(),
            final(self).wf() == old(self).wf(),
    {
        self.assets.remove(&handle.id)
    }

    /// The ids of the running tasks, in order.
    pub fn processing_ids(&self) -> (r: Vec<AssetId>)
        ensures
            r@ == self.processing().map_values(|t: AssetTask| t.id),
    {
        let mut r: Vec<AssetId> = Vec::new();
        let mut i: usize = 0;
        while i < self.processing_assets.len()
            invariant
                i <= self.processing_assets@.len(),
                r@ == self.processing_assets@.take(i as int).map_values(|t: AssetTask| t.id),
            decreases self.processing_assets@.len() - i,
        {
            r.push(self.processing_assets[i].id);
            proof {
                assert(self.processing_assets@.take(i + 1) =~= self.processing_assets@.take(i as int).push(self.processing_assets@[i as int]));
            }
            i = i + 1;
        }
        proof {
            assert(self.processing_assets@.take(i as int) =~= self.processing_assets@);
        }
        r
    }

    /// Whether some asset is being saved.
    pub fn is_saving_any(&self) -> (r: bool)
        ensures
            r == !self.saving().is_empty(),
    {
        !self.currently_saving_assets.is_empty()
    }

    /// Loading refers to both loading or saving.
    pub fn is_asset_loading(&self, handle: &AssetHandle) -> (r: bool)
        ensures
            r == (self.loading().contains(handle.id_spec()) || self.saving().contains(handle.id_spec())),
    {
        self.currently_loading_assets.contains(&handle.id) || self.currently_saving_assets.contains(&handle.id)
    }

    pub fn is_assets_dir_modified(&self) -> (r: bool)
        ensures
            r == self.dir_touched(),
    {
        self.assets_dir_touched
    }

    /// Only works for assets loaded through files currently, returns true if
    /// the asset was updated: it was marked touched before, or its file's
    /// hash, now `current_hash`, differs from the one recorded, in which case
    /// the new hash is recorded and the asset marked touched.
    pub fn is_asset_touched(&mut self, handle: &AssetHandle, current_hash: u64) -> (r: bool)
        requires
            old(self).records().contains_key(handle.id_spec()),
        ensures
            ({
                let d = old(self).records()[handle.id_spec()];
                let changed = !d.is_touched && d.last_hash is Some && d.last_hash.unwrap() != current_hash;
                &&& r == (d.is_touched || changed)
                &&& final(self).records().dom() == old(self).records().dom()
                &&& forall|k: u64| k != handle.id_spec() && old(self).records().contains_key(k) ==> #[trigger] final(self).records()[k] == old(self).records()[k]
                &&& changed ==> {
                    let nd = final(self).records()[handle.id_spec()];
                    &&& nd.is_touched
                    &&& nd.last_hash == Some(current_hash)
                    &&& nd.path == d.path
                    &&& nd.dependencies == d.dependencies
                }
                &&& !changed ==> final(self).records()[handle.id_spec()] == d
            }),
            final(self).statuses() == old(self).statuses(),
            final(self).saved_paths() == old(self).saved_paths(),
            final(self).queue() == old(self).queue(),
            final(self).processing() == old(self).processing(),
            final(self).loading() == old(self).loading(),
            final(self).saving() == old(self).saving(),
            final(self).counter() == old(self).counter(),
            final(self).dir_touched() == old(self).dir_touched(),
            final(self).dir_modified() == old(self).dir_modified(),
            final(self).known_paths() == old(self).known_paths(),
            final(self).wf() == old(self).wf(),
    {
        let Some(mut asset_data) = self.assets.remove(&handle.id) else {
            proof {
                assert(false);
            }
            return false;
        };
        if asset_data.is_touched {
            self.assets.insert(handle.id, asset_data);
            proof {
                assert(self.assets@ =~= old(self).assets@);
            }
            return true;
        }
        let touched = match asset_data.last_hash {
            Some(h) => h != current_hash,
            None => false,
        };
        if touched {
            asset_data.last_hash = Some(current_hash);
            asset_data.is_touched = true;
        }
        self.assets.insert(handle.id, asset_data);
        proof {
            if !touched {
                assert(self.assets@ =~= old(self).assets@);
            }
            assert(self.assets@.dom() =~= old(self).assets@.dom());
        }
        touched
    }

    /// The handle of the asset known under `asset_path`, if any.
    #[verifier::spinoff_prover]
    pub fn get_asset_handle(&self, asset_type: u64, asset_path: &AssetPath) -> (r: Option<AssetHandle>)
        ensures
            match r {
                Some(h) => exists|i: int|
                    0 <= i < self.known_paths().len() && #[trigger] self.known_paths()[i].0.asset_path_view() == asset_path.asset_path_view()
                        && self.known_paths()[i].0.path_view() == asset_path.path_view() && h.id_spec() == self.known_paths()[i].1
                        && h.asset_type_spec() == asset_type && h.path_spec().asset_path_view() == asset_path.asset_path_view()
                        && h.path_spec().path_view() == asset_path.path_view(),
                None => forall|i: int|
                    0 <= i < self.known_paths().len() ==> !(#[trigger] self.known_paths()[i].0.asset_path_view() == asset_path.asset_path_view()
                        && self.known_paths()[i].0.path_view() == asset_path.path_view()),
            },
    {
        let mut i: usize = 0;
        while i < self.path_id_map.len()
            invariant
                i <= self.path_id_map@.len(),
                forall|k: int|
                    0 <= k < i ==> !(#[trigger] self.known_paths()[k].0.asset_path_view() == asset_path.asset_path_view()
                        && self.known_paths()[k].0.path_view() == asset_path.path_view()),
            decreases self.path_id_map@.len() - i,
        {
            if self.path_id_map[i].0.same_as(asset_path) {
                let id = self.path_id_map[i].1;
                return Some(AssetHandle { asset_type, path: asset_path.clone(), id });
            }
            i = i + 1;
        }
        None
    }

    /// Takes in the latest modification time found in the assets directory:
    /// a time later than the one recorded marks the directory as touched,
    /// unless none was recorded yet, and is recorded.
    pub fn record_assets_dir_modified(&mut self, last_modified: u64)
        ensures
            final(self).dir_modified() == if old(self).dir_modified() is None || old(self).dir_modified().unwrap() < last_modified {
                Some(last_modified)
            } else {
                old(self).dir_modified()
            },
            final(self).dir_touched() == (old(self).dir_touched() || (old(self).dir_modified() is Some
                && old(self).dir_modified().unwrap() < last_modified)),
            final(self).statuses() == old(self).statuses(),
            final(self).records() == old(self).records(),
            final(self).saved_paths() == old(self).saved_paths(),
            final(self).queue() == old(self).queue(),
            final(self).processing() == old(self).processing(),
            final(self).loading() == old(self).loading(),
            final(self).saving() == old(self).saving(),
            final(self).counter() == old(self).counter(),
            final(self).known_paths() == old(self).known_paths(),
            final(self).wf() == old(self).wf(),
    {
        let newer = match self.assets_dir_modified {
            None => true,
            Some(m) => m < last_modified,
        };
        if newer {
            if self.assets_dir_modified.is_some() {
                self.assets_dir_touched = true;
            }
            self.assets_dir_modified = Some(last_modified);
        }
    }
}


/// The tasks whose id is not in `finished`, in their order.
pub open spec fn unfinished_tasks(tasks: Seq<AssetTask>, finished: Set<u64>) -> Seq<AssetTask>
    decreases tasks.len(),
{
    if tasks.len() == 0 {
        Seq::empty()
    } else if finished.contains(tasks.last().id) {
        unfinished_tasks(tasks.drop_last(), finished)
    } else {
        unfinished_tasks(tasks.drop_last(), finished).push(tasks.last())
    }
}

proof fn lemma_unfinished_len(tasks: Seq<AssetTask>, finished: Set<u64>)
    ensures
        unfinished_tasks(tasks, finished).len() <= tasks.len(),
    decreases tasks.len(),
{
    if tasks.len() > 0 {
        lemma_unfinished_len(tasks.drop_last(), finished);
    }
}

impl Assets {
    /// Takes in one poll of a running task; gives whether the task is over.
    fn apply_poll(&mut self, task: AssetTask, poll: ProcessingPoll) -> (r: bool)
        ensures
            r == !(poll is Pending),
            final(self).statuses() == status_after_poll(old(self).statuses(), task, poll),
            final(self).records() == records_after_poll(old(self).records(), task, poll),
            final(self).saved_paths() == old(self).saved_paths(),
            final(self).queue() == old(self).queue(),
            final(self).processing() == old(self).processing(),
            final(self).loading() == old(self).loading(),
            final(self).saving() == old(self).saving(),
            final(self).counter() == old(self).counter(),
            final(self).dir_touched() == old(self).dir_touched(),
            final(self).dir_modified() == old(self).dir_modified(),
            final(self).known_paths() == old(self).known_paths(),
    {
        let finished = match poll {
            ProcessingPoll::Pending => false,
            _ => true,
        };
        match task.kind {
            AssetTaskKind::Load => match poll {
                ProcessingPoll::LoadDone(Ok((path, hash))) => {
                    self.assets.insert(
                        task.id,
                        AssetData { path, is_touched: false, last_hash: Some(hash), dependencies: 0 },
                    );
                    self.asset_statuses.insert(task.id, AssetStatus::Loaded);
                },
                ProcessingPoll::LoadDone(Err(AssetLoadError::NotFound { .. })) => {
                    self.asset_statuses.insert(task.id, AssetStatus::NotFound);
                },
                ProcessingPoll::LoadDone(Err(AssetLoadError::Other(e))) => {
                    self.asset_statuses.insert(task.id, AssetStatus::Error(e));
                },
                _ => {},
            },
            AssetTaskKind::Save => match poll {
                ProcessingPoll::Pending => {},
                ProcessingPoll::Disconnected => {},
                ProcessingPoll::SaveDone(Err(e)) => {
                    self.asset_statuses.insert(task.id, AssetStatus::Error(e));
                },
                _ => {
                    self.asset_statuses.insert(task.id, AssetStatus::Saved);
                },
            },
        }
        finished
    }

    /// One update of the asset tracker. `assets_dir_last_modified` is the
    /// latest modification time in the assets directory when the caller's
    /// check timer fired, and `polls` tells how each running task went (in
    /// the order of the running tasks). The polls are taken in: finished
    /// loads record the asset, statuses change, and the finished tasks stop
    /// running and leave the loading and saving sets. Then queued tasks start,
    /// first queued first, until the threshold of running tasks is reached;
    /// they are given back for the caller to run.
    pub fn update_assets_impl(&mut self, assets_dir_last_modified: Option<u64>, polls: Vec<ProcessingPoll>) -> (spawned: Vec<AssetTask>)
        requires
            old(self).wf(),
            polls@.len() == old(self).processing().len(),
        ensures
            final(self).wf(),
            ({
                let fin = finished_ids(old(self).processing(), polls@);
                let kept = unfinished_tasks(old(self).processing(), fin);
                let room = processing_threshold() - kept.len();
                let k = if room < old(self).queue().len() { room } else { old(self).queue().len() as int };
                &&& final(self).statuses() == statuses_after_polls(old(self).statuses(), old(self).processing(), polls@)
                &&& final(self).records() == records_after_polls(old(self).records(), old(self).processing(), polls@)
                &&& final(self).loading() == old(self).loading().difference(fin)
                &&& final(self).saving() == old(self).saving().difference(fin)
                &&& spawned@ == old(self).queue().take(k)
                &&& final(self).queue() == old(self).queue().skip(k)
                &&& final(self).processing() == kept + old(self).queue().take(k)
            }),
            match assets_dir_last_modified {
                Some(t) => {
                    &&& final(self).dir_modified() == if old(self).dir_modified() is None || old(self).dir_modified().unwrap() < t {
                        Some(t)
                    } else {
                        old(self).dir_modified()
                    }
                    &&& final(self).dir_touched() == (old(self).dir_modified() is Some && old(self).dir_modified().unwrap() < t)
                },
                None => final(self).dir_modified() == old(self).dir_modified() && !final(self).dir_touched(),
            },
            final(self).saved_paths() == old(self).saved_paths(),
            final(self).counter() == old(self).counter(),
            final(self).known_paths() == old(self).known_paths(),
    {
        self.assets_dir_touched = false;
        match assets_dir_last_modified {
            Some(t) => self.record_assets_dir_modified(t),
            None => {},
        }
        let ghost tasks = self.processing_assets@;
        let ghost polls0 = polls@;
        let ghost statuses0 = self.asset_statuses@;
        let ghost records0 = self.assets@;
        let ghost fin = finished_ids(tasks, polls0);
        let ghost dir_touched1 = self.assets_dir_touched;
        let ghost dir_modified1 = self.assets_dir_modified;
        let mut polls = polls;
        let n = self.processing_assets.len();
        let mut finished: Vec<AssetId> = Vec::new();
        let mut i: usize = 0;
        proof {
            assert(polls0.skip(0) =~= polls0);
            assert(tasks.skip(0) =~= tasks);
        }
        while i < n
            invariant
                i <= n,
                n == tasks.len(),
                tasks.len() == polls0.len(),
                self.processing_assets@ == tasks,
                polls@ == polls0.skip(i as int),
                self.queued_assets@ == old(self).queued_assets@,
                self.currently_loading_assets@ == old(self).currently_loading_assets@,
                self.currently_saving_assets@ == old(self).currently_saving_assets@,
                self.saved_assets_path@ == old(self).saved_assets_path@,
                self.id_counter == old(self).id_counter,
                self.path_id_map@ == old(self).path_id_map@,
                self.assets_dir_touched == dir_touched1,
                self.assets_dir_modified == dir_modified1,
                statuses_after_polls(statuses0, tasks, polls0) == statuses_after_polls(self.asset_statuses@, tasks.skip(i as int), polls0.skip(i as int)),
                records_after_polls(records0, tasks, polls0) == records_after_polls(self.assets@, tasks.skip(i as int), polls0.skip(i as int)),
                forall|id: u64| finished@.contains(id) <==> exists|j: int| 0 <= j < i && #[trigger] tasks[j].id == id && !(polls0[j] is Pending),
            decreases n - i,
        {
            let task = self.processing_assets[i];
            let poll = polls.remove(0);
            let ghost sk = tasks.skip(i as int);
            let ghost pk = polls0.skip(i as int);
            proof {
                assert(sk[0] == task);
                assert(pk[0] == poll);
                assert(sk.drop_first() =~= tasks.skip(i + 1));
                assert(pk.drop_first() =~= polls0.skip(i + 1));
                assert(polls@ =~= polls0.skip(i + 1));
            }
            let ghost fin_before = finished@;
            let ended = self.apply_poll(task, poll);
            if ended {
                finished.push(task.id);
            }
            proof {
                broadcast use vstd::seq_lib::lemma_seq_contains_after_push;
                assert(ended ==> finished@ == fin_before.push(task.id));
                assert(!ended ==> finished@ == fin_before);
                assert(tasks[i as int] == task && polls0[i as int] == poll);
                assert forall|id: u64| finished@.contains(id) <==> exists|j: int| 0 <= j < i + 1 && #[trigger] tasks[j].id == id && !(polls0[j] is Pending) by {
                    if finished@.contains(id) && !fin_before.contains(id) {
                        assert(tasks[i as int].id == id && !(polls0[i as int] is Pending));
                    }
                    if exists|j: int| 0 <= j < i + 1 && #[trigger] tasks[j].id == id && !(polls0[j] is Pending) {
                        let j = choose|j: int| 0 <= j < i + 1 && #[trigger] tasks[j].id == id && !(polls0[j] is Pending);
                        if j < i as int {
                            assert(fin_before.contains(id));
                        }
                    }
                }
            }
            i = i + 1;
        }
        proof {
            assert(tasks.skip(n as int) =~= Seq::<AssetTask>::empty());
            assert forall|id: u64| finished@.contains(id) <==> fin.contains(id) by {}
        }
        // Remove the finished assets from the statuses.
        let mut j: usize = 0;
        while j < finished.len()
            invariant
                j <= finished@.len(),
                self.processing_assets@ == tasks,
                self.queued_assets@ == old(self).queued_assets@,
                self.asset_statuses@ == statuses_after_polls(statuses0, tasks, polls0),
                self.assets@ == records_after_polls(records0, tasks, polls0),
                self.saved_assets_path@ == old(self).saved_assets_path@,
                self.id_counter == old(self).id_counter,
                self.path_id_map@ == old(self).path_id_map@,
                self.assets_dir_touched == dir_touched1,
                self.assets_dir_modified == dir_modified1,
                forall|x: u64| #[trigger] self.currently_loading_assets@.contains(x) <==> old(self).currently_loading_assets@.contains(x) && !finished@.take(j as int).contains(x),
                forall|x: u64| #[trigger] self.currently_saving_assets@.contains(x) <==> old(self).currently_saving_assets@.contains(x) && !finished@.take(j as int).contains(x),
            decreases finished@.len() - j,
        {
            let id = finished[j];
            self.currently_saving_assets.remove(&id);
            self.currently_loading_assets.remove(&id);
            proof {
                broadcast use vstd::seq_lib::lemma_seq_contains_after_push;
                assert(finished@.take(j + 1) =~= finished@.take(j as int).push(id));
            }
            j = j + 1;
        }
        proof {
            assert(finished@.take(finished@.len() as int) =~= finished@);
            assert(self.currently_loading_assets@ =~= old(self).currently_loading_assets@.difference(fin));
            assert(self.currently_saving_assets@ =~= old(self).currently_saving_assets@.difference(fin));
        }
        let mut kept: Vec<AssetTask> = Vec::new();
        let mut q: usize = 0;
        proof {
            assert(tasks.take(0) =~= Seq::<AssetTask>::empty());
        }
        while q < n
            invariant
                q <= n,
                n == tasks.len(),
                self.processing_assets@ == tasks,
                forall|id: u64| finished@.contains(id) <==> fin.contains(id),
                kept@ == unfinished_tasks(tasks.take(q as int), fin),
                self.queued_assets@ == old(self).queued_assets@,
                self.asset_statuses@ == statuses_after_polls(statuses0, tasks, polls0),
                self.assets@ == records_after_polls(records0, tasks, polls0),
                self.saved_assets_path@ == old(self).saved_assets_path@,
                self.id_counter == old(self).id_counter,
                self.path_id_map@ == old(self).path_id_map@,
                self.assets_dir_touched == dir_touched1,
                self.assets_dir_modified == dir_modified1,
                self.currently_loading_assets@ == old(self).currently_loading_assets@.difference(fin),
                self.currently_saving_assets@ == old(self).currently_saving_assets@.difference(fin),

            decreases n - q,
        {
            let t = self.processing_assets[q];
            let mut is_finished = false;
            let mut f: usize = 0;
            while f < finished.len()
                invariant
                    f <= finished@.len(),
                    is_finished == finished@.take(f as int).contains(t.id),
                decreases finished@.len() - f,
            {
                if finished[f] == t.id {
                    is_finished = true;
                }
                proof {
                    broadcast use vstd::seq_lib::lemma_seq_contains_after_push;
                    assert(finished@.take(f + 1) =~= finished@.take(f as int).push(finished@[f as int]));
                }
                f = f + 1;
            }
            proof {
                assert(finished@.take(finished@.len() as int) =~= finished@);
                assert(tasks.take(q + 1).drop_last() =~= tasks.take(q as int));
                assert(tasks.take(q + 1).last() == t);
            }
            if !is_finished {
                kept.push(t);
            }
            q = q + 1;
        }
        proof {
            assert(tasks.take(n as int) =~= tasks);
            lemma_unfinished_len(tasks, fin);
        }
        self.processing_assets = kept;
        // Push queued asset requests to the threads to get processed.
        let take_count = 3 - self.processing_assets.len();
        let ghost queue0 = self.queued_assets@;
        let ghost kept0 = self.processing_assets@;
        let mut spawned: Vec<AssetTask> = Vec::new();
        let mut c: usize = 0;
        proof {
            assert(queue0.take(0) =~= Seq::<AssetTask>::empty());
            assert(queue0.skip(0) =~= queue0);
            assert(kept0 + queue0.take(0) =~= kept0);
        }
        while c < take_count
            invariant_except_break
                c <= take_count,
            invariant
                self.asset_statuses@ == statuses_after_polls(statuses0, tasks, polls0),
                self.assets@ == records_after_polls(records0, tasks, polls0),
                self.saved_assets_path@ == old(self).saved_assets_path@,
                self.id_counter == old(self).id_counter,
                self.path_id_map@ == old(self).path_id_map@,
                self.assets_dir_touched == dir_touched1,
                self.assets_dir_modified == dir_modified1,
                self.currently_loading_assets@ == old(self).currently_loading_assets@.difference(fin),
                self.currently_saving_assets@ == old(self).currently_saving_assets@.difference(fin),
                take_count == 3 - kept0.len(),
                c <= queue0.len(),
                c <= take_count,
                spawned@ == queue0.take(c as int),
                self.queued_assets@ == queue0.skip(c as int),
                self.processing_assets@ == kept0 + queue0.take(c as int),
            ensures
                c == (if take_count < queue0.len() { take_count as int } else { queue0.len() as int }),
            decreases take_count - c,
        {
            let Some(task) = self.queued_assets.pop_front() else {
                break;
            };
            proof {
                assert(task == queue0[c as int]);
                assert(queue0.take(c + 1) =~= queue0.take(c as int).push(task));
                assert(self.queued_assets@ =~= queue0.skip(c + 1));
            }
            self.processing_assets.push(task);
            spawned.push(task);
            proof {
                assert(self.processing_assets@ =~= kept0 + queue0.take(c + 1));
            }
            c = c + 1;
        }
        spawned
    }
}


/// The file behind an asset, named by its path as text.
pub struct FileHandle(String);

impl FileHandle {
    pub closed spec fn view(&self) -> Seq<char> {
        self.0@
    }

    pub fn from_path(path: &AssetPath) -> (r: Self)
        ensures
            r@ == path.path_view(),
    {
        FileHandle(path.path.clone())
    }

    /// The path of the file.
    pub fn file_path(&self) -> (r: &str)
        ensures
            r@ == self@,
    {
        self.0.as_str()
    }
}

/// An asset's path together with the handle of its file.
pub struct AssetFile {
    path: AssetPath,
    file_handle: FileHandle,
}

impl AssetFile {
    pub closed spec fn asset_path_spec(&self) -> AssetPath {
        self.path
    }

    pub closed spec fn file_spec(&self) -> Seq<char> {
        self.file_handle@
    }

    pub fn from_path(path: &AssetPath) -> (r: Self)
        ensures
            r.asset_path_spec().asset_path_view() == path.asset_path_view(),
            r.asset_path_spec().path_view() == path.path_view(),
            r.file_spec() == path.path_view(),
    {
        Self { path: path.clone(), file_handle: FileHandle::from_path(path) }
    }

    pub fn asset_path(&self) -> (r: &AssetPath)
        ensures
            *r == self.asset_path_spec(),
    {
        &self.path
    }

    pub fn file_handle(&self) -> (r: &FileHandle)
        ensures
            r@ == self.file_spec(),
    {
        &self.file_handle
    }

    /// The extension of the asset's file path, which must have one.
    pub fn extension(&self) -> (r: String)
        requires
            path_extension(self.asset_path_spec().path_view()) is Some,
        ensures
            Some(r@) == path_extension(self.asset_path_spec().path_view()),
    {
        self.path.extension()
    }

    /// The extension of the asset's file path, if it has one.
    pub fn try_extension(&self) -> (r: Option<String>)
        ensures
            match r {
                Some(e) => path_extension(self.asset_path_spec().path_view()) == Some(e@),
                None => path_extension(self.asset_path_spec().path_view()) is None,
            },
    {
        match self.path.try_extension() {
            Some(_) => Some(self.extension()),
            None => None,
        }
    }
}

/// A poll of a task that has not answered yet, or whose worker went away,
/// changes neither the status nor the record of any asset, for a save task as
/// for a load task.
pub proof fn law_unanswered_poll_changes_nothing(
    statuses: Map<u64, AssetStatus>,
    records: Map<u64, AssetData>,
    task: AssetTask,
    poll: ProcessingPoll,
)
    requires
        poll is Pending || poll is Disconnected,
    ensures
        status_after_poll(statuses, task, poll) == statuses,
        records_after_poll(records, task, poll) == records,
{
}

/// A poll changes at most the status of its own task's asset; a finished
/// save leaves that asset saved or failed with the save's error, and a
/// finished load leaves it loaded, not found, or failed with the load's
/// error.
pub proof fn law_answered_poll_sets_status(statuses: Map<u64, AssetStatus>, task: AssetTask, poll: ProcessingPoll)
    ensures
        ({
            let r = status_after_poll(statuses, task, poll);
            &&& forall|k: u64| k != task.id ==> (#[trigger] r.contains_key(k) == statuses.contains_key(k) && r[k] == statuses[k])
            &&& (task.kind == AssetTaskKind::Save && poll is SaveDone && poll->SaveDone_0 is Ok) ==> (r.contains_key(task.id)
                && r[task.id] == AssetStatus::Saved)
            &&& (task.kind == AssetTaskKind::Save && poll is SaveDone && poll->SaveDone_0 is Err) ==> (r.contains_key(task.id)
                && r[task.id] == AssetStatus::Error(poll->SaveDone_0->Err_0))
            &&& (task.kind == AssetTaskKind::Load && poll is LoadDone && poll->LoadDone_0 is Ok) ==> (r.contains_key(task.id)
                && r[task.id] == AssetStatus::Loaded)
            &&& (task.kind == AssetTaskKind::Load && poll is LoadDone && poll->LoadDone_0 is Err
                && poll->LoadDone_0->Err_0 is NotFound) ==> (r.contains_key(task.id) && r[task.id] == AssetStatus::NotFound)
            &&& (task.kind == AssetTaskKind::Load && poll is LoadDone && poll->LoadDone_0 is Err
                && poll->LoadDone_0->Err_0 is Other) ==> (r.contains_key(task.id) && r[task.id] == AssetStatus::Error(
                poll->LoadDone_0->Err_0->Other_0,
            ))
        }),
{
}

/// A finished load leaves a fresh record of its asset, whether or not the
/// asset had a record before (a reload replaces it): the loaded path, not
/// touched, the new hash, no dependencies. The records of other assets stay.
pub proof fn law_finished_load_leaves_fresh_record(
    records: Map<u64, AssetData>,
    task: AssetTask,
    path: AssetPath,
    hash: u64,
)
    requires
        task.kind == AssetTaskKind::Load,
    ensures
        ({
            let r = records_after_poll(records, task, ProcessingPoll::LoadDone(Ok((path, hash))));
            &&& r.contains_key(task.id)
            &&& r[task.id].path == path
            &&& !r[task.id].is_touched
            &&& r[task.id].last_hash == Some(hash)
            &&& r[task.id].dependencies == 0
            &&& forall|k: u64| k != task.id ==> (#[trigger] r.contains_key(k) == records.contains_key(k) && r[k] == records[k])
        }),
{
}

/// Each of `dirs` joined onto `base` as a directory, first to last.
pub open spec fn join_dirs(base: Seq<char>, dirs: Seq<Seq<char>>) -> Seq<char>
    decreases dirs.len(),
{
    if dirs.len() == 0 {
        base
    } else {
        joined_path(join_dirs(base, dirs.drop_last()), dirs.last())
    }
}

proof fn lemma_join_dirs_first(base: Seq<char>, dirs: Seq<Seq<char>>)
    requires
        dirs.len() >= 1,
    ensures
        join_dirs(base, dirs) == join_dirs(joined_path(base, dirs[0]), dirs.drop_first()),
    decreases dirs.len(),
{
    if dirs.len() == 1 {
        assert(dirs.drop_last() =~= Seq::<Seq<char>>::empty());
        assert(dirs.drop_first() =~= Seq::<Seq<char>>::empty());
        assert(join_dirs(base, dirs.drop_last()) == base);
        assert(dirs.last() == dirs[0]);
        assert(join_dirs(base, dirs) == joined_path(base, dirs[0]));
        assert(join_dirs(joined_path(base, dirs[0]), dirs.drop_first()) == joined_path(base, dirs[0]));
    } else {
        let dl = dirs.drop_last();
        let df = dirs.drop_first();
        lemma_join_dirs_first(base, dl);
        assert(dl.drop_first() =~= df.drop_last());
        assert(df.last() == dirs.last());
        assert(dl[0] == dirs[0]);
        assert(join_dirs(base, dl) == join_dirs(joined_path(base, dirs[0]), df.drop_last()));
        assert(join_dirs(base, dirs) == joined_path(join_dirs(base, dl), dirs.last()));
        assert(join_dirs(joined_path(base, dirs[0]), df) == joined_path(
            join_dirs(joined_path(base, dirs[0]), df.drop_last()),
            df.last(),
        ));
    }
}

/// The file path of an asset path below `prefix`: every part but the last is
/// joined onto the prefix as a directory, in order, however many parts there
/// are, and the last part becomes the extension.
pub proof fn law_file_path_joins_every_directory(prefix: Seq<char>, parts: Seq<Seq<char>>)
    requires
        parts.len() >= 1,
    ensures
        file_path_of(prefix, parts) == path_with_extension(join_dirs(prefix, parts.drop_last()), parts.last()),
    decreases parts.len(),
{
    if parts.len() == 1 {
        assert(parts.drop_last() =~= Seq::<Seq<char>>::empty());
    } else {
        let rest = parts.drop_first();
        law_file_path_joins_every_directory(joined_path(prefix, parts[0]), rest);
        lemma_join_dirs_first(prefix, parts.drop_last());
        assert(parts.drop_last().drop_first() =~= rest.drop_last());
        assert(parts.drop_last()[0] == parts[0]);
        assert(rest.last() == parts.last());
    }
}

proof fn lemma_index_of_skip(p: Seq<char>, c: char, from: int, to: int)
    requires
        0 <= from <= to <= p.len(),
        forall|k: int| from <= k < to ==> p[k] != c,
    ensures
        index_of_from(p, c, from) == index_of_from(p, c, to),
    decreases to - from,
{
    if from < to {
        lemma_index_of_skip(p, c, from + 1, to);
    }
}

/// The piece of a file name `stem.ext` (stem and extension without dots) is
/// `stem::ext`.
pub proof fn law_dotted_name_piece(stem: Seq<char>, ext: Seq<char>)
    requires
        !stem.contains('.'),
        !ext.contains('.'),
    ensures
        component_asset_piece(stem + "."@ + ext) == stem + "::"@ + ext,
{
    reveal_strlit(".");
    reveal_strlit("::");
    let p = stem + "."@ + ext;
    let a = stem.len() as int;
    assert forall|k: int| 0 <= k < a implies p[k] != '.' by {
        assert(p[k] == stem[k]);
        if p[k] == '.' {
            assert(stem.contains('.'));
        }
    }
    lemma_index_of_skip(p, '.', 0, a);
    assert(p[a] == '.');
    assert forall|k: int| a + 1 <= k < p.len() implies p[k] != '.' by {
        assert(p[k] == ext[k - a - 1]);
        if p[k] == '.' {
            assert(ext.contains('.'));
        }
    }
    lemma_index_of_skip(p, '.', a + 1, p.len() as int);
    assert(p.subrange(0, a) =~= stem);
    assert(p.subrange(a + 1, p.len() as int) =~= ext);
}

/// The asset path of the components from `i` on ends with the piece of the
/// last component, and, when there are more, starts with the piece of
/// component `i` followed by "::".
pub proof fn law_asset_path_ends(cs: Seq<Seq<char>>, i: int)
    requires
        0 <= i < cs.len(),
    ensures
        ({
            let r = asset_path_of_components(cs, i);
            let q = component_asset_piece(cs.last());
            &&& r.len() >= q.len()
            &&& r.subrange(r.len() - q.len(), r.len() as int) == q
            &&& i < cs.len() - 1 ==> r.subrange(0, component_asset_piece(cs[i]).len() + 2int) == component_asset_piece(cs[i])
                + "::"@
        }),
    decreases cs.len() - i,
{
    reveal_strlit("::");
    let r = asset_path_of_components(cs, i);
    let q = component_asset_piece(cs.last());
    if i == cs.len() - 1 {
        assert(r.subrange(r.len() - q.len(), r.len() as int) =~= q);
    } else {
        law_asset_path_ends(cs, i + 1);
        let t = asset_path_of_components(cs, i + 1);
        let h = component_asset_piece(cs[i]) + "::"@;
        assert(r == h + t);
        assert(r.subrange(r.len() - q.len(), r.len() as int) =~= t.subrange(t.len() - q.len(), t.len() as int));
        assert(r.subrange(0, h.len() as int) =~= h);
    }
}

/// A file `stem.ext` lying directly in the project's assets directory has
/// the asset path `stem::ext`.
pub proof fn law_file_in_assets_dir(project_dir: Seq<char>, path: Seq<char>, stem: Seq<char>, ext: Seq<char>)
    requires
        stripped_path(path, joined_path(project_dir, "assets"@)) is Some,
        path_components(stripped_path(path, joined_path(project_dir, "assets"@)).unwrap()) == seq![stem + "."@ + ext],
        !stem.contains('.'),
        !ext.contains('.'),
    ensures
        project_asset_path(project_dir, path) == stem + "::"@ + ext,
{
    law_dotted_name_piece(stem, ext);
    let cs = seq![stem + "."@ + ext];
    assert(asset_path_of_components(cs, 0) == component_asset_piece(cs[0]));
}

/// Only a successful load changes the records: any other poll (a failed
/// load, a save, or a task that has not answered) leaves them as they were.
pub proof fn law_only_loads_change_records(records: Map<u64, AssetData>, task: AssetTask, poll: ProcessingPoll)
    requires
        !(task.kind == AssetTaskKind::Load && poll is LoadDone && poll->LoadDone_0 is Ok),
    ensures
        records_after_poll(records, task, poll) == records,
{
}

/// The pieces of the components `cs` separated by "::", built from the last
/// component back.
pub open spec fn joined_pieces(cs: Seq<Seq<char>>) -> Seq<char>
    decreases cs.len(),
{
    if cs.len() <= 1 {
        if cs.len() == 1 {
            component_asset_piece(cs[0])
        } else {
            Seq::empty()
        }
    } else {
        joined_pieces(cs.drop_last()) + "::"@ + component_asset_piece(cs.last())
    }
}

proof fn lemma_joined_pieces_front(cs: Seq<Seq<char>>)
    requires
        cs.len() >= 2,
    ensures
        joined_pieces(cs) == component_asset_piece(cs[0]) + "::"@ + joined_pieces(cs.drop_first()),
    decreases cs.len(),
{
    let dl = cs.drop_last();
    let df = cs.drop_first();
    if cs.len() == 2 {
        assert(dl =~= seq![cs[0]]);
        assert(df =~= seq![cs[1]]);
        assert(joined_pieces(dl) == component_asset_piece(cs[0]));
        assert(joined_pieces(df) == component_asset_piece(cs[1]));
    } else {
        lemma_joined_pieces_front(dl);
        assert(dl.drop_first() =~= df.drop_last());
        assert(df.last() == cs.last());
        assert(dl[0] == cs[0]);
        assert(joined_pieces(df) == joined_pieces(df.drop_last()) + "::"@ + component_asset_piece(df.last()));
        assert(joined_pieces(cs) =~= component_asset_piece(cs[0]) + "::"@ + joined_pieces(df));
    }
}

/// The asset path of the components from `i` on is the piece of every one
/// of them, in order, separated by "::": no component is left out, and each
/// one, the last and a sole one included, becomes its piece.
pub proof fn law_asset_path_joins_every_piece(cs: Seq<Seq<char>>, i: int)
    requires
        0 <= i < cs.len(),
    ensures
        asset_path_of_components(cs, i) == joined_pieces(cs.subrange(i, cs.len() as int)),
    decreases cs.len() - i,
{
    let sub = cs.subrange(i, cs.len() as int);
    if i == cs.len() - 1 {
        assert(sub.len() == 1 && sub[0] == cs[i]);
    } else {
        law_asset_path_joins_every_piece(cs, i + 1);
        lemma_joined_pieces_front(sub);
        assert(sub.drop_first() =~= cs.subrange(i + 1, cs.len() as int));
        assert(sub[0] == cs[i]);
    }
}

} // verus!
