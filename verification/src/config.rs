//! Project configuration (`rnpm.config.json`): which other package manager's
//! lock file to install from.
use vstd::prelude::*;
use crate::text::{chars_of, trim, trim_chars};

verus! {

/// The project configuration.
pub struct RnpmConfig {
    /// `npm`, `yarn`, `pnpm` or `bun` to install from that manager's lock
    /// file; `None` to use rnpm's own lock file.
    pub use_lockfile: Option<String>,
}

impl Default for RnpmConfig {
    fn default() -> (c: Self)
        ensures
            c.use_lockfile is None,
    {
        RnpmConfig { use_lockfile: None }
    }
}

/// Whether `s` holds exactly the text `lit`.
pub fn text_is(s: &String, lit: &str) -> (b: bool)
    ensures
        b == (s@ == lit@),
{
    *s == lit.to_owned()
}

/// The lock file of each package manager. For Bun, `bun.lock` (text) when
/// it exists, else `bun.lockb` (binary).
pub open spec fn lockfile_path_for(manager: Seq<char>, bun_lock_exists: bool) -> Option<Seq<char>> {
    if manager == "npm"@ {
        Some("package-lock.json"@)
    } else if manager == "yarn"@ {
        Some("yarn.lock"@)
    } else if manager == "pnpm"@ {
        Some("pnpm-lock.yaml"@)
    } else if manager == "bun"@ {
        if bun_lock_exists {
            Some("bun.lock"@)
        } else {
            Some("bun.lockb"@)
        }
    } else {
        None
    }
}

impl RnpmConfig {
    /// The lock file to install from, if one is configured and the manager
    /// is known. `bun_lock_exists` tells whether `bun.lock` is present.
    pub fn get_lockfile_path(&self, bun_lock_exists: bool) -> (r: Option<String>)
        ensures
            match self.use_lockfile {
                Some(m) => match r {
                    Some(p) => lockfile_path_for(m@, bun_lock_exists) == Some(p@),
                    None => lockfile_path_for(m@, bun_lock_exists) is None,
                },
                None => r is None,
            },
    {
        match &self.use_lockfile {
            Some(manager) => {
                if text_is(manager, "npm") {
                    Some("package-lock.json".to_owned())
                } else if text_is(manager, "yarn") {
                    Some("yarn.lock".to_owned())
                } else if text_is(manager, "pnpm") {
                    Some("pnpm-lock.yaml".to_owned())
                } else if text_is(manager, "bun") {
                    if bun_lock_exists {
                        Some("bun.lock".to_owned())
                    } else {
                        Some("bun.lockb".to_owned())
                    }
                } else {
                    None
                }
            },
            None => None,
        }
    }
}

/// The (manager, lock file) pairs to offer, in order; `bun.lockb` is
/// offered only when it exists and `bun.lock` does not.
pub open spec fn detection_list(offer_lockb: bool) -> Seq<(Seq<char>, Seq<char>)> {
    let base = seq![
        ("npm"@, "package-lock.json"@),
        ("yarn"@, "yarn.lock"@),
        ("pnpm"@, "pnpm-lock.yaml"@),
        ("bun"@, "bun.lock"@),
    ];
    if offer_lockb {
        base.push(("bun"@, "bun.lockb"@))
    } else {
        base
    }
}

/// The lock files to look for, with their managers, in the order in which
/// the user is asked about them. `offer_lockb` is whether `bun.lockb`
/// exists while `bun.lock` does not.
pub fn detection_candidates(offer_lockb: bool) -> (r: Vec<(String, String)>)
    ensures
        r@.map_values(|p: (String, String)| (p.0@, p.1@)) == detection_list(offer_lockb),
        forall|i: int|
            0 <= i < r@.len() ==> lockfile_path_for(#[trigger] r@[i].0@, r@[i].1@ == "bun.lock"@) == Some(
                r@[i].1@,
            ),
        forall|manager: Seq<char>|
            #[trigger] lockfile_path_for(manager, true) is Some ==> exists|i: int|
                0 <= i < r@.len() && r@[i].0@ == manager && Some(r@[i].1@) == lockfile_path_for(manager, true),
{
    let mut r: Vec<(String, String)> = Vec::new();
    r.push(("npm".to_owned(), "package-lock.json".to_owned()));
    r.push(("yarn".to_owned(), "yarn.lock".to_owned()));
    r.push(("pnpm".to_owned(), "pnpm-lock.yaml".to_owned()));
    r.push(("bun".to_owned(), "bun.lock".to_owned()));
    if offer_lockb {
        r.push(("bun".to_owned(), "bun.lockb".to_owned()));
    }
    assert(r@.map_values(|p: (String, String)| (p.0@, p.1@)) =~= detection_list(offer_lockb));
    proof {
        lemma_detection_names_own_lockfiles(offer_lockb);
        let d = detection_list(offer_lockb);
        assert forall|i: int| 0 <= i < r@.len() implies lockfile_path_for(#[trigger] r@[i].0@, r@[i].1@ == "bun.lock"@)
            == Some(r@[i].1@) by {
            assert(d[i] == (r@[i].0@, r@[i].1@));
            assert(lockfile_path_for(d[i].0, d[i].1 == "bun.lock"@) == Some(d[i].1));
        }
        assert forall|manager: Seq<char>| #[trigger] lockfile_path_for(manager, true) is Some implies exists|i: int|
            0 <= i < r@.len() && r@[i].0@ == manager && Some(r@[i].1@) == lockfile_path_for(manager, true) by {
            let i = choose|i: int| 0 <= i < d.len() && d[i].0 == manager && Some(d[i].1) == lockfile_path_for(manager, true);
            assert(d[i] == (r@[i].0@, r@[i].1@));
        }
    }
    r
}

/// Each offered pair names a manager and that manager's own lock file, as
/// the configuration maps it (`bun.lock` standing for a present `bun.lock`,
/// `bun.lockb` for its absence), and every manager that has a lock file is
/// offered with it.
pub proof fn lemma_detection_names_own_lockfiles(offer_lockb: bool)
    ensures
        forall|i: int|
            0 <= i < detection_list(offer_lockb).len() ==> lockfile_path_for(
                #[trigger] detection_list(offer_lockb)[i].0,
                detection_list(offer_lockb)[i].1 == "bun.lock"@,
            ) == Some(detection_list(offer_lockb)[i].1),
        forall|manager: Seq<char>|
            #[trigger] lockfile_path_for(manager, true) is Some ==> exists|i: int|
                0 <= i < detection_list(offer_lockb).len() && detection_list(offer_lockb)[i].0 == manager
                    && Some(detection_list(offer_lockb)[i].1) == lockfile_path_for(manager, true),
{
    reveal_strlit("npm");
    reveal_strlit("yarn");
    reveal_strlit("pnpm");
    reveal_strlit("bun");
    reveal_strlit("package-lock.json");
    reveal_strlit("yarn.lock");
    reveal_strlit("pnpm-lock.yaml");
    reveal_strlit("bun.lock");
    reveal_strlit("bun.lockb");
    let d = detection_list(offer_lockb);
    assert("npm"@ != "yarn"@ && "npm"@ != "pnpm"@ && "yarn"@ != "bun"@ && "pnpm"@ != "bun"@) by {
        assert("npm"@.len() == 3 && "bun"@.len() == 3 && "yarn"@.len() == 4 && "pnpm"@.len() == 4);
    }
    assert("npm"@ != "bun"@) by {
        assert("npm"@[0] != "bun"@[0]);
    }
    assert("yarn"@ != "pnpm"@) by {
        assert("yarn"@[0] != "pnpm"@[0]);
    }
    assert("package-lock.json"@ != "bun.lock"@ && "yarn.lock"@ != "bun.lock"@
        && "pnpm-lock.yaml"@ != "bun.lock"@ && "bun.lockb"@ != "bun.lock"@) by {
        assert("bun.lock"@.len() == 8 && "bun.lockb"@.len() == 9 && "yarn.lock"@.len() == 9);
    }
    assert(d[0] == ("npm"@, "package-lock.json"@));
    assert(d[1] == ("yarn"@, "yarn.lock"@));
    assert(d[2] == ("pnpm"@, "pnpm-lock.yaml"@));
    assert(d[3] == ("bun"@, "bun.lock"@));
    assert forall|manager: Seq<char>| #[trigger] lockfile_path_for(manager, true) is Some implies exists|i: int|
        0 <= i < d.len() && d[i].0 == manager && Some(d[i].1) == lockfile_path_for(manager, true) by {
        if manager == "npm"@ {
            assert(d[0].0 == manager);
        } else if manager == "yarn"@ {
            assert(d[1].0 == manager);
        } else if manager == "pnpm"@ {
            assert(d[2].0 == manager);
        } else {
            assert(d[3].0 == manager);
        }
    }
}

/// Whether `c` is `w` or, when `w` is a lower-case ASCII letter, its upper-case form.
pub open spec fn same_letter(c: char, w: char) -> bool {
    c == w || ('a' <= w && w <= 'z' && (c as u32) + 32 == (w as u32))
}

/// Whether the text, lower-cased, equals `word` (which is lower case ASCII).
/// Only `A`-`Z` lower-case to `e`, `s` or `y`, so ASCII case folding decides
/// it as `str::to_lowercase` would.
pub open spec fn lower_equals(t: Seq<char>, word: Seq<char>) -> bool {
    t.len() == word.len() && forall|i: int| 0 <= i < t.len() ==> same_letter(#[trigger] t[i], word[i])
}

/// An answer that accepts: `y` or `yes` in any case, around whitespace.
pub open spec fn affirmative(answer: Seq<char>) -> bool {
    lower_equals(trim(answer), "y"@) || lower_equals(trim(answer), "yes"@)
}

fn same_letter_exec(c: char, w: char) -> (b: bool)
    ensures
        b == same_letter(c, w),
{
    c == w || ('a' <= w && w <= 'z' && (c as u32) + 32 == (w as u32))
}

fn lower_eq(t: &[char], word: &[char]) -> (b: bool)
    ensures
        b == lower_equals(t@, word@),
{
    if t.len() != word.len() {
        return false;
    }
    let mut i: usize = 0;
    while i < t.len()
        invariant
            t@.len() == word@.len(),
            i <= t@.len(),
            forall|j: int| 0 <= j < i ==> same_letter(#[trigger] t@[j], word@[j]),
        decreases t@.len() - i,
    {
        if !same_letter_exec(t[i], word[i]) {
            return false;
        }
        i = i + 1;
    }
    true
}

/// Whether a reply to the lock-file question accepts it.
pub fn is_affirmative(answer: &str) -> (b: bool)
    ensures
        b == affirmative(answer@),
{
    let t = trim_chars(&chars_of(answer));
    lower_eq(&t, &chars_of("y")) || lower_eq(&t, &chars_of("yes"))
}

} // verus!
