//! The lock file: for each package name, the exact version, tarball and checksum.
use vstd::prelude::*;
use crate::registry::{VersionMetadata, duplicate_deps};
use crate::strmap::{StrMap, lemma_take_next_set, lemma_skip_next_set};

verus! {

/// One locked package.
pub struct LockedPackage {
    pub version: String,
    pub tarball: String,
    pub shasum: String,
    pub dependencies: Option<StrMap<String>>,
}

/// The contents of a [`LockedPackage`] as plain sequences.
pub struct LockedPackageView {
    pub version: Seq<char>,
    pub tarball: Seq<char>,
    pub shasum: Seq<char>,
    pub dependencies: Option<Map<Seq<char>, Seq<char>>>,
}

/// A string map's contents as character sequences.
pub open spec fn string_map_view(m: StrMap<String>) -> Map<Seq<char>, Seq<char>> {
    m@.map_values(|s: String| s@)
}

/// An optional string map's contents as character sequences.
pub open spec fn deps_view(d: Option<StrMap<String>>) -> Option<Map<Seq<char>, Seq<char>>> {
    match d {
        Some(m) => Some(string_map_view(m)),
        None => None,
    }
}

impl View for LockedPackage {
    type V = LockedPackageView;

    open spec fn view(&self) -> LockedPackageView {
        LockedPackageView {
            version: self.version@,
            tarball: self.tarball@,
            shasum: self.shasum@,
            dependencies: deps_view(self.dependencies),
        }
    }
}

/// The lock entry that records a resolved version.
pub open spec fn locked_from_meta(m: VersionMetadata) -> LockedPackageView {
    LockedPackageView {
        version: m.version@,
        tarball: m.dist.tarball@,
        shasum: m.dist.shasum@,
        dependencies: deps_view(m.dependencies),
    }
}

/// A package map's contents with each entry by its view.
pub open spec fn packages_view(m: StrMap<LockedPackage>) -> Map<Seq<char>, LockedPackageView> {
    m@.map_values(|p: LockedPackage| p@)
}

/// Locked packages by name.
pub struct Lockfile {
    pub packages: StrMap<LockedPackage>,
}

impl View for Lockfile {
    type V = Map<Seq<char>, LockedPackageView>;

    open spec fn view(&self) -> Map<Seq<char>, LockedPackageView> {
        packages_view(self.packages)
    }
}

impl Lockfile {
    /// An empty lock file.
    pub fn new() -> (l: Self)
        ensures
            l@ == Map::<Seq<char>, LockedPackageView>::empty(),
    {
        let l = Lockfile { packages: StrMap::new() };
        assert(l@ =~= Map::<Seq<char>, LockedPackageView>::empty());
        l
    }

    /// The lock file that records each resolved package's version, tarball,
    /// checksum and dependencies.
    pub fn from_resolved(resolved: &StrMap<VersionMetadata>) -> (l: Self)
        ensures
            l@ == resolved@.map_values(|m: VersionMetadata| locked_from_meta(m)),
            l.packages.key_order() == resolved.key_order(),
    {
        let n = resolved.len();
        let mut packages: StrMap<LockedPackage> = StrMap::new();
        let mut i: usize = 0;
        while i < n
            invariant
                n == resolved.key_order().len(),
                resolved.key_order().no_duplicates(),
                resolved@.dom() == resolved.key_order().to_set(),
                i <= n,
                packages.key_order() == resolved.key_order().take(i as int),
                packages_view(packages) == resolved@.restrict(
                    resolved.key_order().take(i as int).to_set(),
                ).map_values(|m: VersionMetadata| locked_from_meta(m)),
            decreases n - i,
        {
            let name = resolved.key_at(i);
            let meta = resolved.value_at(i);
            let entry = LockedPackage {
                version: meta.version.clone(),
                tarball: meta.dist.tarball.clone(),
                shasum: meta.dist.shasum.clone(),
                dependencies: duplicate_deps(&meta.dependencies),
            };
            proof {
                let ks = resolved.key_order();
                if ks.take(i as int).contains(name@) {
                    let j = choose|j: int| 0 <= j < i && ks.take(i as int)[j] == name@;
                    assert(ks[j] == ks[i as int]);
                }
                assert(packages@.dom() =~= packages_view(packages).dom());
                assert(entry@ == locked_from_meta(*meta));
            }
            let ghost pv0 = packages_view(packages);
            let ghost ev = entry@;
            packages.insert(name.clone(), entry);
            proof {
                let ks = resolved.key_order();
                lemma_take_next_set(ks, i as int);
                assert(packages_view(packages) =~= pv0.insert(name@, ev));
                let f = |m: VersionMetadata| locked_from_meta(m);
                assert(resolved@.restrict(ks.take(i + 1).to_set()).map_values(f) =~= resolved@.restrict(
                    ks.take(i as int).to_set(),
                ).map_values(f).insert(ks[i as int], f(resolved@[ks[i as int]])));
                assert(packages_view(packages) =~= resolved@.restrict(ks.take(i + 1).to_set()).map_values(
                    |m: VersionMetadata| locked_from_meta(m),
                ));
            }
            i = i + 1;
        }
        proof {
            let ks = resolved.key_order();
            assert(ks.take(n as int) =~= ks);
            assert(resolved@.restrict(ks.to_set()) =~= resolved@);
        }
        Lockfile { packages }
    }

    /// Adds every package of `other`, replacing entries of the same name.
    pub fn merge(&mut self, other: Lockfile)
        ensures
            final(self)@ == old(self)@.union_prefer_right(other@),
    {
        let n = other.packages.len();
        let ghost ks = other.packages.key_order();
        let ghost om = other@;
        let ghost start = self@;
        let mut i: usize = 0;
        let mut rest = other.packages;
        while i < n
            invariant
                n == ks.len(),
                ks.no_duplicates(),
                om.dom() == ks.to_set(),
                i <= n,
                rest.key_order() == ks.skip(i as int),
                packages_view(rest) == om.restrict(ks.skip(i as int).to_set()),
                self@ == start.union_prefer_right(om.restrict(ks.take(i as int).to_set())),
            decreases n - i,
        {
            let _ = rest.len();
            let name = rest.key_at(0).clone();
            let ghost rv0 = packages_view(rest);
            let taken = rest.remove(name.as_str());
            let entry = match taken {
                Some(e) => e,
                None => {
                    proof {
                        assert(false);
                    }
                    return;
                },
            };
            proof {
                assert(ks.skip(i as int)[0] == ks[i as int]);
                assert(rest.key_order() =~= ks.skip(i + 1)) by {
                    let before = ks.skip(i as int);
                    before.index_of_first_ensures(name@);
                    assert(before.index_of_first(name@) == Some(0int));
                }
            }
            let ghost sv0 = self@;
            let ghost ev = entry@;
            self.packages.insert(name, entry);
            proof {
                assert(self@ =~= sv0.insert(name@, ev));
                assert(ks.skip(i as int)[0] == name@);
                assert(ks.skip(i as int).to_set().contains(name@));
                assert(rv0[name@] == ev);
                assert(ev == om[name@]);
                lemma_take_next_set(ks, i as int);
                lemma_skip_next_set(ks, i as int);
                assert(packages_view(rest) =~= om.restrict(ks.skip(i + 1).to_set())) by {
                    assert(packages_view(rest) =~= rv0.remove(name@));
                    let s1 = ks.skip(i + 1);
                    let s0 = ks.skip(i as int);
                    assert forall|q: Seq<char>| s1.to_set().contains(q) <==> (s0.to_set().contains(q) && q != ks[i as int]) by {
                        if s1.contains(q) {
                            let a = choose|a: int| 0 <= a < s1.len() && s1[a] == q;
                            assert(s0[a + 1] == q);
                            assert(ks[i + 1 + a] == q);
                        }
                        if s0.contains(q) && q != ks[i as int] {
                            let a = choose|a: int| 0 <= a < s0.len() && s0[a] == q;
                            assert(a != 0);
                            assert(s1[a - 1] == q);
                        }
                    }
                }
                assert(self@ =~= start.union_prefer_right(om.restrict(ks.take(i + 1).to_set())));
            }
            i = i + 1;
        }
        proof {
            assert(ks.take(n as int) =~= ks);
            assert(om.restrict(ks.to_set()) =~= om);
        }
    }

    /// Removes the entry for `name`, if any.
    pub fn remove_package(&mut self, name: &str)
        ensures
            final(self)@ == old(self)@.remove(name@),
    {
        let _ = self.packages.remove(name);
        assert(self@ =~= old(self)@.remove(name@));
    }
}

} // verus!
