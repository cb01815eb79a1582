//! Decisions of the command-line front end that do not touch the disk:
//! which importer reads a lock file, where `install` takes its packages from,
//! and how a script command is run.
use vstd::prelude::*;
use crate::text::{chars_of, has_suffix, string_from_chars, words};

verus! {

/// The lock-file formats that can be imported.
#[derive(PartialEq, Eq, Structural, Clone, Copy)]
pub enum LockfileKind {
    Npm,
    Yarn,
    Pnpm,
    Bun,
}

/// The importer for a configured lock file, chosen by its exact name.
pub open spec fn kind_by_name(path: Seq<char>) -> Option<LockfileKind> {
    if path == "package-lock.json"@ {
        Some(LockfileKind::Npm)
    } else if path == "yarn.lock"@ {
        Some(LockfileKind::Yarn)
    } else if path == "pnpm-lock.yaml"@ {
        Some(LockfileKind::Pnpm)
    } else if path == "bun.lock"@ || path == "bun.lockb"@ {
        Some(LockfileKind::Bun)
    } else {
        None
    }
}

/// The importer for a lock file given on the command line, chosen by how
/// its path ends.
pub open spec fn kind_by_suffix(path: Seq<char>) -> Option<LockfileKind> {
    if "package-lock.json"@.is_suffix_of(path) {
        Some(LockfileKind::Npm)
    } else if "yarn.lock"@.is_suffix_of(path) {
        Some(LockfileKind::Yarn)
    } else if "pnpm-lock.yaml"@.is_suffix_of(path) {
        Some(LockfileKind::Pnpm)
    } else if "bun.lock"@.is_suffix_of(path) || "bun.lockb"@.is_suffix_of(path) {
        Some(LockfileKind::Bun)
    } else {
        None
    }
}

fn same_text(a: &str, b: &str) -> (r: bool)
    ensures
        r == (a@ == b@),
{
    a.to_owned() == b.to_owned()
}

/// The importer for a configured lock file.
pub fn kind_for_configured_path(path: &str) -> (r: Option<LockfileKind>)
    ensures
        r == kind_by_name(path@),
{
    if same_text(path, "package-lock.json") {
        Some(LockfileKind::Npm)
    } else if same_text(path, "yarn.lock") {
        Some(LockfileKind::Yarn)
    } else if same_text(path, "pnpm-lock.yaml") {
        Some(LockfileKind::Pnpm)
    } else if same_text(path, "bun.lock") || same_text(path, "bun.lockb") {
        Some(LockfileKind::Bun)
    } else {
        None
    }
}

/// The importer for a lock file named on the command line.
pub fn kind_for_import_path(path: &str) -> (r: Option<LockfileKind>)
    ensures
        r == kind_by_suffix(path@),
        "package-lock.json"@.is_suffix_of(path@) ==> r == Some(LockfileKind::Npm),
        !"package-lock.json"@.is_suffix_of(path@) && "yarn.lock"@.is_suffix_of(path@) ==> r == Some(
            LockfileKind::Yarn,
        ),
        !"package-lock.json"@.is_suffix_of(path@) && !"yarn.lock"@.is_suffix_of(path@)
            && "pnpm-lock.yaml"@.is_suffix_of(path@) ==> r == Some(LockfileKind::Pnpm),
        !"package-lock.json"@.is_suffix_of(path@) && !"yarn.lock"@.is_suffix_of(path@)
            && !"pnpm-lock.yaml"@.is_suffix_of(path@) && ("bun.lock"@.is_suffix_of(path@)
            || "bun.lockb"@.is_suffix_of(path@)) ==> r == Some(LockfileKind::Bun),
        r is None <==> !"package-lock.json"@.is_suffix_of(path@) && !"yarn.lock"@.is_suffix_of(path@)
            && !"pnpm-lock.yaml"@.is_suffix_of(path@) && !"bun.lock"@.is_suffix_of(path@)
            && !"bun.lockb"@.is_suffix_of(path@),
{
    proof {
        lemma_import_path_kinds(path@);
    }
    let p = chars_of(path);
    if has_suffix(&p, &chars_of("package-lock.json")) {
        Some(LockfileKind::Npm)
    } else if has_suffix(&p, &chars_of("yarn.lock")) {
        Some(LockfileKind::Yarn)
    } else if has_suffix(&p, &chars_of("pnpm-lock.yaml")) {
        Some(LockfileKind::Pnpm)
    } else if has_suffix(&p, &chars_of("bun.lock")) || has_suffix(&p, &chars_of("bun.lockb")) {
        Some(LockfileKind::Bun)
    } else {
        None
    }
}

/// The importer named by how a path ends: `package-lock.json` is npm's,
/// `yarn.lock` Yarn's, `pnpm-lock.yaml` pnpm's, and `bun.lock` or
/// `bun.lockb` Bun's (each checked in that order); any other path has none.
pub proof fn lemma_import_path_kinds(path: Seq<char>)
    ensures
        "package-lock.json"@.is_suffix_of(path) ==> kind_by_suffix(path) == Some(LockfileKind::Npm),
        !"package-lock.json"@.is_suffix_of(path) && "yarn.lock"@.is_suffix_of(path) ==> kind_by_suffix(path)
            == Some(LockfileKind::Yarn),
        !"package-lock.json"@.is_suffix_of(path) && !"yarn.lock"@.is_suffix_of(path)
            && "pnpm-lock.yaml"@.is_suffix_of(path) ==> kind_by_suffix(path) == Some(LockfileKind::Pnpm),
        !"package-lock.json"@.is_suffix_of(path) && !"yarn.lock"@.is_suffix_of(path)
            && !"pnpm-lock.yaml"@.is_suffix_of(path) && ("bun.lock"@.is_suffix_of(path)
            || "bun.lockb"@.is_suffix_of(path)) ==> kind_by_suffix(path) == Some(LockfileKind::Bun),
        kind_by_suffix(path) is None <==> !"package-lock.json"@.is_suffix_of(path)
            && !"yarn.lock"@.is_suffix_of(path) && !"pnpm-lock.yaml"@.is_suffix_of(path)
            && !"bun.lock"@.is_suffix_of(path) && !"bun.lockb"@.is_suffix_of(path),
{
}

/// The lock file to import when none is named: the first of
/// `package-lock.json`, `yarn.lock`, `pnpm-lock.yaml` that exists, else
/// `package-lock.json`.
pub fn default_import_path(npm_exists: bool, yarn_exists: bool, pnpm_exists: bool) -> (p: String)
    ensures
        p@ == if npm_exists {
            "package-lock.json"@
        } else if yarn_exists {
            "yarn.lock"@
        } else if pnpm_exists {
            "pnpm-lock.yaml"@
        } else {
            "package-lock.json"@
        },
{
    if npm_exists {
        "package-lock.json".to_owned()
    } else if yarn_exists {
        "yarn.lock".to_owned()
    } else if pnpm_exists {
        "pnpm-lock.yaml".to_owned()
    } else {
        "package-lock.json".to_owned()
    }
}

/// A script command split at whitespace: the program and its arguments;
/// `None` for a command with no words.
pub fn split_command(cmd: &str) -> (r: Option<(String, Vec<String>)>)
    ensures
        match r {
            Some((program, args)) => {
                &&& words(cmd@).len() > 0
                &&& program@ == words(cmd@)[0]
                &&& args@.map_values(|a: String| a@) == words(cmd@).drop_first()
            },
            None => words(cmd@).len() == 0,
        },
{
    let ws = crate::text::all_words(&chars_of(cmd));
    if ws.len() == 0 {
        return None;
    }
    let program = string_from_chars(&ws[0]);
    let mut args: Vec<String> = Vec::new();
    let mut i: usize = 1;
    while i < ws.len()
        invariant
            1 <= i <= ws@.len(),
            ws@.map_values(|w: Vec<char>| w@) == words(cmd@),
            args@.map_values(|a: String| a@) == words(cmd@).subrange(1, i as int),
        decreases ws@.len() - i,
    {
        let ghost before = args@;
        let a = string_from_chars(&ws[i]);
        args.push(a);
        assert(args@.map_values(|a: String| a@) =~= words(cmd@).subrange(1, i + 1)) by {
            assert(args@.map_values(|a: String| a@) =~= before.map_values(|a: String| a@).push(ws@[i as int]@));
        }
        i = i + 1;
    }
    assert(words(cmd@).subrange(1, ws@.len() as int) =~= words(cmd@).drop_first());
    Some((program, args))
}

/// `PATH` for running a script: `node_modules/.bin` in front when it exists.
pub fn path_with_bin(bin_dir: &str, bin_exists: bool, current: &str) -> (p: String)
    ensures
        p@ == if bin_exists {
            bin_dir@ + ":"@ + current@
        } else {
            current@
        },
{
    if bin_exists {
        let mut r = chars_of(bin_dir);
        r.push(':');
        let c = chars_of(current);
        let ghost head = r@;
        let mut i: usize = 0;
        while i < c.len()
            invariant
                i <= c@.len(),
                r@ == head + c@.take(i as int),
            decreases c@.len() - i,
        {
            r.push(c[i]);
            i = i + 1;
            assert(r@ =~= head + c@.take(i as int));
        }
        proof {
            assert(c@.take(c@.len() as int) =~= c@);
            reveal_strlit(":");
            assert(head =~= bin_dir@ + ":"@);
        }
        string_from_chars(&r)
    } else {
        current.to_owned()
    }
}

/// Where the choice of an install source stands: nothing tried yet, the
/// configured lock file could not be imported, or the offer of other package
/// managers' lock files installed nothing.
#[derive(PartialEq, Eq, Structural, Clone, Copy, Debug)]
pub enum InstallStage {
    Start,
    ConfiguredFailed,
    OfferFailed,
}

/// What `install` tries next.
#[derive(PartialEq, Eq, Structural, Clone, Copy, Debug)]
pub enum InstallStep {
    /// Import the lock file named in the configuration.
    ImportConfigured,
    /// Look for other package managers' lock files and offer one.
    OfferDetected,
    /// Install what `rnpm.lock` lists.
    RnpmLock,
    /// Resolve the dependencies of `package.json`.
    PackageJson,
}

/// The order in which `install` looks for its packages: the configured lock
/// file when the configuration names one that exists; then, while there is
/// no `rnpm.lock`, an offer of the lock files found; then `rnpm.lock`; then
/// `package.json`.
pub open spec fn install_step(stage: InstallStage, configured_exists: bool, rnpm_lock_exists: bool) -> InstallStep {
    match stage {
        InstallStage::Start => if configured_exists {
            InstallStep::ImportConfigured
        } else if !rnpm_lock_exists {
            InstallStep::OfferDetected
        } else {
            InstallStep::RnpmLock
        },
        InstallStage::ConfiguredFailed => if !rnpm_lock_exists {
            InstallStep::OfferDetected
        } else {
            InstallStep::RnpmLock
        },
        InstallStage::OfferFailed => if rnpm_lock_exists {
            InstallStep::RnpmLock
        } else {
            InstallStep::PackageJson
        },
    }
}

/// The next step of `install`, given where it stands, whether the configured
/// lock file exists and whether `rnpm.lock` exists.
pub fn next_install_step(stage: InstallStage, configured_exists: bool, rnpm_lock_exists: bool) -> (s: InstallStep)
    ensures
        s == install_step(stage, configured_exists, rnpm_lock_exists),
{
    match stage {
        InstallStage::Start => {
            if configured_exists {
                InstallStep::ImportConfigured
            } else if !rnpm_lock_exists {
                InstallStep::OfferDetected
            } else {
                InstallStep::RnpmLock
            }
        },
        InstallStage::ConfiguredFailed => {
            if !rnpm_lock_exists {
                InstallStep::OfferDetected
            } else {
                InstallStep::RnpmLock
            }
        },
        InstallStage::OfferFailed => {
            if rnpm_lock_exists {
                InstallStep::RnpmLock
            } else {
                InstallStep::PackageJson
            }
        },
    }
}

} // verus!
