//! Where FlossKeeper keeps its files: the collection file, the file that
//! remembers a moved collection, the first-run marker and the folder that
//! reports are written to.  Paths are put together by `std::path`, whose
//! separators differ between platforms; what is stated here holds on all of
//! them.
use vstd::prelude::*;
use crate::app::FlossKeeperApp;
use crate::backup::{opt_view, opt_string_view};

verus! {

/// A relative path that `std::path` adjoins as it is: not empty, starting
/// with no separator and with no drive prefix (`C:`).
pub open spec fn is_relative_part(s: Seq<char>) -> bool {
    &&& s.len() > 0
    &&& s[0] != '/'
    &&& s[0] != '\\'
    &&& !(s.len() >= 2 && s[1] == ':')
}

/// A Windows verbatim path (`\\?\...`), which `std::path` normalises when
/// something is pushed onto it.
pub open spec fn is_verbatim(s: Seq<char>) -> bool {
    s.len() >= 4 && s[0] == '\\' && s[1] == '\\' && s[2] == '?' && s[3] == '\\'
}

/// A path separator on some platform: `/` everywhere, `\\` on Windows.
pub open spec fn is_sep(c: char) -> bool {
    c == '/' || c == '\\'
}

/// `r` is `base` with `part` adjoined (unless `base` is a verbatim path): no
/// separator after an empty base or one ending in `/`; exactly one, `/` or
/// `\\`, after a base that ends in neither and is not a bare drive `X:`.
pub open spec fn is_joined(r: Seq<char>, base: Seq<char>, part: Seq<char>) -> bool {
    !is_verbatim(base) ==> {
        &&& base.is_prefix_of(r)
        &&& part.is_suffix_of(r)
        &&& base.len() + part.len() <= r.len() <= base.len() + 1 + part.len()
        &&& (base.len() == 0 || base.last() == '/') ==> r == base + part
        &&& (base.len() > 0 && !is_sep(base.last()) && !(base.len() == 2 && base[1] == ':')) ==> {
            &&& r.len() == base.len() + 1 + part.len()
            &&& is_sep(r[base.len() as int])
        }
    }
}

/// The index of the last `/` in `p`, or `-1`.
pub open spec fn last_slash(p: Seq<char>) -> int
    decreases p.len(),
{
    if p.len() == 0 {
        -1
    } else if p.last() == '/' {
        p.len() - 1
    } else {
        last_slash(p.drop_last())
    }
}

/// A path `folder/name` that every platform splits the same way at its last
/// `/`: no backslash, a last name that is not empty, `.` or `..`, a folder that
/// does not end in `/` or `.`, is not a bare drive `X:`, and no leading `//`.
pub open spec fn is_plain_file_path(p: Seq<char>) -> bool {
    let i = last_slash(p);
    &&& i >= 0
    &&& !p.contains('\\')
    &&& p.skip(i + 1).len() > 0
    &&& p.skip(i + 1) != "."@
    &&& p.skip(i + 1) != ".."@
    &&& i > 0 ==> p[i - 1] != '/' && p[i - 1] != '.'
    &&& !(i == 2 && p[1] == ':')
    &&& !(p.len() >= 2 && p[0] == '/' && p[1] == '/')
}

/// The text of a plain file path before its last `/`.
pub open spec fn folder_of(p: Seq<char>) -> Seq<char> {
    p.take(last_slash(p))
}

/// The parent folder of a plain file path: its folder, or `/` for a file at
/// the root.
pub open spec fn parent_of(p: Seq<char>) -> Seq<char> {
    if last_slash(p) == 0 {
        "/"@
    } else {
        folder_of(p)
    }
}

/// `r` is `name` put in place of the last name of the plain file path `p`:
/// `p`'s folder, one separator, then `name`.
pub open spec fn is_sibling(r: Seq<char>, p: Seq<char>, name: Seq<char>) -> bool {
    let f = folder_of(p);
    &&& r.len() == f.len() + 1 + name.len()
    &&& f.is_prefix_of(r)
    &&& is_sep(r[f.len() as int])
    &&& name.is_suffix_of(r)
}

/// `Path::join`: `base` with the relative path `part` adjoined.  Unless `base`
/// is a verbatim path (which std normalises), the result is `base`, then a
/// separator where `base` does not end in one, then `part`.  Which separator
/// (`/` or `\\`) is the platform's; whether `\\` or a drive `X:` counts as
/// ending in one is the platform's too, and then only the bounds are stated.
#[verifier::external_body]
fn path_join(base: &str, part: &str) -> (r: String)
    requires
        is_relative_part(part@),
    ensures
        is_joined(r@, base@, part@),
{
    std::path::Path::new(base).join(part).to_string_lossy().into_owned()
}

/// `PathBuf::set_file_name`: the path with its last component replaced by
/// `name` (or `name` pushed where it has none).  For a plain file path the
/// result is its folder, a separator and `name`; for another path that is not
/// verbatim, only that it ends with `name` is stated (how such a path splits
/// depends on the platform).
#[verifier::external_body]
fn path_with_file_name(path: &str, name: &str) -> (r: String)
    requires
        is_relative_part(name@),
    ensures
        !is_verbatim(path@) ==> name@.is_suffix_of(r@),
        is_plain_file_path(path@) ==> is_sibling(r@, path@, name@),
{
    let mut p = std::path::PathBuf::from(path);
    p.set_file_name(name);
    p.to_string_lossy().into_owned()
}

/// `Path::parent`: the path without its last component, which is a shorter
/// beginning of it; none for the empty path (and for a path that ends in a
/// root or prefix, which is not stated).  For a plain file path it is the
/// folder before the last `/`, or `/` itself for a file at the root.
#[verifier::external_body]
fn path_parent(path: &str) -> (r: Option<String>)
    ensures
        path@.len() == 0 ==> r is None,
        r matches Some(p) ==> p@.len() < path@.len() && p@.is_prefix_of(path@),
        is_plain_file_path(path@) ==> opt_string_view(r) == Some(parent_of(path@)),
{
    std::path::Path::new(path).parent().map(|p| p.to_string_lossy().into_owned())
}

/// The name of the collection file.
pub open spec fn collection_file_name() -> Seq<char> {
    "flosskeeper_collection.tsv"@
}

/// The folder that holds the default save file: `APPDATA` (looked up on
/// Windows only), then `XDG_CONFIG_HOME`, then `HOME`, the first that is set.
pub open spec fn save_base(appdata: Option<Seq<char>>, xdg: Option<Seq<char>>, home: Option<Seq<char>>) -> Option<Seq<char>> {
    if appdata is Some {
        appdata
    } else if xdg is Some {
        xdg
    } else {
        home
    }
}

fn string_from(s: &str) -> (r: String)
    ensures
        r@ == s@,
{
    let mut r = String::new();
    crate::text::push_str(&mut r, s);
    r
}

/// `dir` is the folder for the save file under `base`: `base/FlossKeeper`
/// for `APPDATA`, `base/flosskeeper` for `XDG_CONFIG_HOME`, and
/// `base/.config/flosskeeper` for `HOME`.
pub open spec fn is_save_dir(dir: Seq<char>, base: Seq<char>, from_appdata: bool, from_xdg: bool) -> bool {
    if from_appdata {
        is_joined(dir, base, "FlossKeeper"@)
    } else if from_xdg {
        is_joined(dir, base, "flosskeeper"@)
    } else {
        exists|c: Seq<char>| #[trigger] is_joined(c, base, ".config"@) && is_joined(dir, c, "flosskeeper"@)
    }
}

/// Where a collection is saved when the user has not chosen a place, given
/// the values of `APPDATA` (on Windows), `XDG_CONFIG_HOME` and `HOME`:
/// `APPDATA/FlossKeeper/…`, `XDG_CONFIG_HOME/flosskeeper/…` or
/// `HOME/.config/flosskeeper/…`, and the bare file name when none is set.
pub fn default_save_path(appdata: Option<&str>, xdg_config_home: Option<&str>, home: Option<&str>) -> (r: String)
    ensures
        match save_base(opt_view(appdata), opt_view(xdg_config_home), opt_view(home)) {
            None => r@ == collection_file_name(),
            Some(b) => exists|dir: Seq<char>|
                #[trigger] is_joined(r@, dir, collection_file_name())
                && is_save_dir(dir, b, appdata is Some, xdg_config_home is Some),
        },
{
    proof {
        reveal_strlit("flosskeeper_collection.tsv");
        reveal_strlit("FlossKeeper");
        reveal_strlit("flosskeeper");
        reveal_strlit(".config");
    }
    let file = "flosskeeper_collection.tsv";
    if let Some(a) = appdata {
        let dir = path_join(a, "FlossKeeper");
        let r = path_join(dir.as_str(), file);
        assert(is_joined(r@, dir@, collection_file_name()));
        return r;
    }
    if let Some(x) = xdg_config_home {
        let dir = path_join(x, "flosskeeper");
        let r = path_join(dir.as_str(), file);
        assert(is_joined(r@, dir@, collection_file_name()));
        return r;
    }
    if let Some(h) = home {
        let c = path_join(h, ".config");
        let dir = path_join(c.as_str(), "flosskeeper");
        let r = path_join(dir.as_str(), file);
        assert(is_joined(c@, h@, ".config"@));
        assert(is_joined(r@, dir@, collection_file_name()));
        return r;
    }
    string_from(file)
}

/// The collection file inside the user's configuration folder:
/// `config_dir/flosskeeper/flosskeeper_collection.tsv`.
pub fn default_collection_file(config_dir: &str) -> (r: String)
    ensures
        exists|dir: Seq<char>|
            is_joined(dir, config_dir@, "flosskeeper"@) && #[trigger] is_joined(r@, dir, collection_file_name()),
{
    proof {
        reveal_strlit("flosskeeper_collection.tsv");
        reveal_strlit("flosskeeper");
    }
    let dir = path_join(config_dir, "flosskeeper");
    let r = path_join(dir.as_str(), "flosskeeper_collection.tsv");
    assert(is_joined(r@, dir@, collection_file_name()));
    r
}

/// The file that remembers a moved collection: `stash_path.txt` beside the
/// default collection file.
pub fn stash_path_config_file(collection_file: &str) -> (r: String)
    ensures
        !is_verbatim(collection_file@) ==> "stash_path.txt"@.is_suffix_of(r@),
        is_plain_file_path(collection_file@) ==> is_sibling(r@, collection_file@, "stash_path.txt"@),
{
    proof {
        reveal_strlit("stash_path.txt");
    }
    path_with_file_name(collection_file, "stash_path.txt")
}

/// The marker file whose presence hides the first-run help:
/// `first_run_help_dismissed.txt` beside the save file.
pub fn default_first_run_help_path(save_path: &str) -> (r: String)
    ensures
        !is_verbatim(save_path@) ==> "first_run_help_dismissed.txt"@.is_suffix_of(r@),
        is_plain_file_path(save_path@) ==> is_sibling(r@, save_path@, "first_run_help_dismissed.txt"@),
{
    proof {
        reveal_strlit("first_run_help_dismissed.txt");
    }
    path_with_file_name(save_path, "first_run_help_dismissed.txt")
}

impl FlossKeeperApp {
    /// The folder that reports are written to: the one holding the save file
    /// (the text before its last `/` for a plain file path), or `.` when the
    /// save path has no parent (as when it is empty).
    pub fn export_dir(&self) -> (r: String)
        ensures
            self.save_path@.len() == 0 ==> r@ == "."@,
            is_plain_file_path(self.save_path@) ==> r@ == parent_of(self.save_path@),
            r@ == "."@ || (r@.len() < self.save_path@.len() && r@.is_prefix_of(self.save_path@)),
    {
        proof {
            reveal_strlit(".");
        }
        match path_parent(self.save_path.as_str()) {
            Some(p) => p,
            None => string_from("."),
        }
    }
}

} // verus!
