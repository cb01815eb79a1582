//! Installing into `node_modules`: which packages to download, how to lay
//! out an unpacked tarball, and which command links a package provides.
use vstd::prelude::*;
use crate::lockfile::LockedPackage;
use crate::registry::VersionMetadata;
use crate::strmap::StrMap;
use crate::text::{chars_of, string_from_chars};
use crate::value::JsonValue;

verus! {

/// The directory a package is installed into: `node_modules/<name>`.
pub open spec fn install_path(name: Seq<char>) -> Seq<char> {
    "node_modules/"@ + name
}

/// `node_modules/<name>`.
pub fn install_dir(name: &str) -> (p: String)
    ensures
        p@ == install_path(name@),
{
    let mut r = chars_of("node_modules/");
    let n = chars_of(name);
    let ghost head = r@;
    let mut i: usize = 0;
    while i < n.len()
        invariant
            i <= n@.len(),
            r@ == head + n@.take(i as int),
        decreases n@.len() - i,
    {
        r.push(n[i]);
        i = i + 1;
        assert(r@ =~= head + n@.take(i as int));
    }
    assert(n@.take(n@.len() as int) =~= n@);
    string_from_chars(&r)
}

/// How to move an unpacked tarball into place.
#[derive(PartialEq, Eq, Structural, Clone, Copy)]
pub enum UnpackPlan {
    /// Rename the `package` directory to the destination.
    MovePackageDir,
    /// Rename the only entry, a directory, to the destination.
    MoveSingleDir,
    /// Create the destination and copy every entry into it.
    CopyEntries,
}

/// The layout decision for an unpacked tarball: npm tarballs hold a
/// `package` directory; otherwise a lone directory is taken as the package;
/// otherwise the entries themselves are the package.
pub open spec fn unpack_plan_for(has_package_dir: bool, entry_is_dir: Seq<bool>) -> UnpackPlan {
    if has_package_dir {
        UnpackPlan::MovePackageDir
    } else if entry_is_dir.len() == 1 && entry_is_dir[0] {
        UnpackPlan::MoveSingleDir
    } else {
        UnpackPlan::CopyEntries
    }
}

/// Decides how to move an unpacked tarball into place, given whether it has
/// a `package` directory and, for each top-level entry, whether it is a directory.
pub fn plan_unpacked(has_package_dir: bool, entry_is_dir: &Vec<bool>) -> (p: UnpackPlan)
    ensures
        p == unpack_plan_for(has_package_dir, entry_is_dir@),
{
    if has_package_dir {
        UnpackPlan::MovePackageDir
    } else if entry_is_dir.len() == 1 && entry_is_dir[0] {
        UnpackPlan::MoveSingleDir
    } else {
        UnpackPlan::CopyEntries
    }
}

/// The (name, tarball) pairs of the first `i` resolved packages that are not installed.
pub open spec fn meta_downloads_upto(m: StrMap<VersionMetadata>, installed: Seq<bool>, i: int) -> Seq<(Seq<char>, Seq<char>)>
    decreases i,
{
    if i <= 0 {
        Seq::empty()
    } else {
        let rest = meta_downloads_upto(m, installed, i - 1);
        let k = m.key_order()[i - 1];
        if installed[i - 1] {
            rest
        } else {
            rest.push((k, m@[k].dist.tarball@))
        }
    }
}

/// Views of (name, tarball) pairs.
pub open spec fn pairs_view(v: Seq<(String, String)>) -> Seq<(Seq<char>, Seq<char>)> {
    v.map_values(|p: (String, String)| (p.0@, p.1@))
}

/// The resolved packages to download, in order: those not installed yet.
/// `installed[i]` tells whether the package at position `i` is present.
pub fn plan_meta_downloads(resolved: &StrMap<VersionMetadata>, installed: &Vec<bool>) -> (r: Vec<(String, String)>)
    requires
        installed@.len() == resolved.key_order().len(),
    ensures
        pairs_view(r@) == meta_downloads_upto(*resolved, installed@, installed@.len() as int),
{
    let n = resolved.len();
    let mut r: Vec<(String, String)> = Vec::new();
    let mut i: usize = 0;
    while i < n
        invariant
            n == resolved.key_order().len(),
            n == installed@.len(),
            i <= n,
            pairs_view(r@) == meta_downloads_upto(*resolved, installed@, i as int),
        decreases n - i,
    {
        if !installed[i] {
            let ghost before = r@;
            let k = resolved.key_at(i).clone();
            let t = resolved.value_at(i).dist.tarball.clone();
            r.push((k, t));
            assert(pairs_view(r@) =~= pairs_view(before).push((k@, t@)));
        }
        i = i + 1;
    }
    r
}

/// What installing from a lock file has to do.
pub struct LockInstallPlan {
    /// (name, tarball) of each package that is not installed.
    pub to_download: Vec<(String, String)>,
    /// Installed packages whose command links are missing.
    pub missing_bins: Vec<String>,
}

/// The (name, tarball) pairs of the first `i` locked packages that are not installed.
pub open spec fn lock_downloads_upto(m: StrMap<LockedPackage>, installed: Seq<bool>, i: int) -> Seq<(Seq<char>, Seq<char>)>
    decreases i,
{
    if i <= 0 {
        Seq::empty()
    } else {
        let rest = lock_downloads_upto(m, installed, i - 1);
        let k = m.key_order()[i - 1];
        if installed[i - 1] {
            rest
        } else {
            rest.push((k, m@[k].tarball@))
        }
    }
}

/// The names of the first `i` locked packages that are installed but miss a command link.
pub open spec fn missing_bins_upto(m: StrMap<LockedPackage>, installed: Seq<bool>, bins_missing: Seq<bool>, i: int) -> Seq<Seq<char>>
    decreases i,
{
    if i <= 0 {
        Seq::empty()
    } else {
        let rest = missing_bins_upto(m, installed, bins_missing, i - 1);
        if installed[i - 1] && bins_missing[i - 1] {
            rest.push(m.key_order()[i - 1])
        } else {
            rest
        }
    }
}

impl LockInstallPlan {
    /// Nothing to download and no link to rebuild.
    pub fn is_noop(&self) -> (b: bool)
        ensures
            b == (self.to_download@.len() == 0 && self.missing_bins@.len() == 0),
    {
        self.to_download.len() == 0 && self.missing_bins.len() == 0
    }
}

/// Plans an install from a lock file: a package that is not installed is
/// downloaded; an installed one whose command links are missing is listed
/// for relinking. `installed[i]` and `bins_missing[i]` describe the package
/// at position `i`.
pub fn plan_lock_install(packages: &StrMap<LockedPackage>, installed: &Vec<bool>, bins_missing: &Vec<bool>) -> (p: LockInstallPlan)
    requires
        installed@.len() == packages.key_order().len(),
        bins_missing@.len() == packages.key_order().len(),
    ensures
        pairs_view(p.to_download@) == lock_downloads_upto(*packages, installed@, installed@.len() as int),
        p.missing_bins@.map_values(|s: String| s@) == missing_bins_upto(*packages, installed@, bins_missing@, installed@.len() as int),
{
    let n = packages.len();
    let mut to_download: Vec<(String, String)> = Vec::new();
    let mut missing_bins: Vec<String> = Vec::new();
    let mut i: usize = 0;
    while i < n
        invariant
            n == packages.key_order().len(),
            n == installed@.len(),
            n == bins_missing@.len(),
            i <= n,
            pairs_view(to_download@) == lock_downloads_upto(*packages, installed@, i as int),
            missing_bins@.map_values(|s: String| s@) == missing_bins_upto(*packages, installed@, bins_missing@, i as int),
        decreases n - i,
    {
        let k = packages.key_at(i);
        if !installed[i] {
            let ghost before = to_download@;
            let t = packages.value_at(i).tarball.clone();
            to_download.push((k.clone(), t));
            assert(pairs_view(to_download@) =~= pairs_view(before).push((k@, t@)));
        } else if bins_missing[i] {
            let ghost before = missing_bins@;
            missing_bins.push(k.clone());
            assert(missing_bins@.map_values(|s: String| s@) =~= before.map_values(|s: String| s@).push(k@));
        }
        i = i + 1;
    }
    LockInstallPlan { to_download, missing_bins }
}

/// A command link: `node_modules/.bin/<name>` pointing at `<target>` inside the package.
pub struct BinLink {
    pub name: String,
    pub target: String,
}

/// The command links a manifest (`package.json`) declares. A string `bin`
/// is one command named after the package (its `name`, else
/// `default_name`); an object `bin` maps command names to paths (a
/// non-string path counts as empty). Anything else declares none.
pub open spec fn declared_bins(default_name: Seq<char>, manifest: JsonValue) -> Seq<(Seq<char>, Seq<char>)> {
    match manifest.spec_get("bin"@) {
        Some(JsonValue::String(path)) => {
            let name = match manifest.spec_get("name"@) {
                Some(n) => match n.spec_as_str() {
                    Some(s) => s,
                    None => default_name,
                },
                None => default_name,
            };
            seq![(name, path@)]
        },
        Some(JsonValue::Object(m)) => Seq::new(
            m.key_order().len(),
            |i: int|
                (
                    m.key_order()[i],
                    match m@[m.key_order()[i]].spec_as_str() {
                        Some(s) => s,
                        None => Seq::empty(),
                    },
                ),
        ),
        _ => Seq::empty(),
    }
}

/// Views of command links.
pub open spec fn links_view(v: Seq<BinLink>) -> Seq<(Seq<char>, Seq<char>)> {
    v.map_values(|l: BinLink| (l.name@, l.target@))
}

/// The command links that a package's manifest declares.
pub fn bin_links(default_name: &str, manifest: &JsonValue) -> (r: Vec<BinLink>)
    ensures
        links_view(r@) == declared_bins(default_name@, *manifest),
{
    let mut r: Vec<BinLink> = Vec::new();
    match manifest.get("bin") {
        Some(JsonValue::String(path)) => {
            let name = match manifest.get("name") {
                Some(n) => match n.as_str() {
                    Some(s) => s.clone(),
                    None => default_name.to_owned(),
                },
                None => default_name.to_owned(),
            };
            r.push(BinLink { name, target: path.clone() });
            assert(links_view(r@) =~= declared_bins(default_name@, *manifest));
        },
        Some(JsonValue::Object(m)) => {
            let n = m.len();
            let mut i: usize = 0;
            while i < n
                invariant
                    n == m.key_order().len(),
                    i <= n,
                    links_view(r@) == declared_bins(default_name@, *manifest).take(i as int),
                    manifest.spec_get("bin"@) == Some(JsonValue::Object(*m)),
                decreases n - i,
            {
                let ghost before = r@;
                let name = m.key_at(i).clone();
                let target = match m.value_at(i).as_str() {
                    Some(s) => s.clone(),
                    None => String::new(),
                };
                let ghost pair = (name@, target@);
                r.push(BinLink { name, target });
                proof {
                    let d = declared_bins(default_name@, *manifest);
                    assert(links_view(r@) =~= links_view(before).push(pair));
                    assert(d.len() == n);
                    assert(d[i as int] == pair);
                    assert(d.take(i + 1) =~= d.take(i as int).push(d[i as int]));
                }
                i = i + 1;
            }
            assert(declared_bins(default_name@, *manifest).take(n as int) =~= declared_bins(default_name@, *manifest));
        },
        _ => {
            assert(links_view(r@) =~= declared_bins(default_name@, *manifest));
        },
    }
    r
}

/// Whether a `node_modules` entry is skipped when linking commands: hidden
/// entries (names starting with `.`, `.bin` among them).
pub fn is_hidden_entry(name: &str) -> (b: bool)
    ensures
        b == (name@.len() > 0 && name@[0] == '.'),
{
    let cs = chars_of(name);
    cs.len() > 0 && cs[0] == '.'
}

} // verus!
