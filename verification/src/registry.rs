//! Registry metadata and the choice of a version for a requested range.
use vstd::prelude::*;
use crate::strmap::{StrMap, lemma_take_next_set};
use crate::text::{chars_of, string_from_chars, replace_chars, replace_all};

verus! {

/// Where a version's tarball is and its checksum.
pub struct Dist {
    pub tarball: String,
    pub shasum: String,
}

impl Dist {
    /// A copy of this record.
    pub fn duplicate(&self) -> (r: Self)
        ensures
            r == *self,
    {
        Dist { tarball: self.tarball.clone(), shasum: self.shasum.clone() }
    }
}

/// The metadata of one published version of a package.
pub struct VersionMetadata {
    pub name: String,
    pub version: String,
    pub dist: Dist,
    pub dependencies: Option<StrMap<String>>,
}

/// Two optional dependency maps hold the same entries in the same order.
pub open spec fn deps_equiv(a: Option<StrMap<String>>, b: Option<StrMap<String>>) -> bool {
    match (a, b) {
        (Some(x), Some(y)) => x@ == y@ && x.key_order() == y.key_order(),
        (None, None) => true,
        _ => false,
    }
}

/// The (name, range) pairs of a dependency map, in key order.
pub open spec fn dep_entries(d: Option<StrMap<String>>) -> Seq<(Seq<char>, Seq<char>)> {
    match d {
        Some(m) => Seq::new(
            m.key_order().len(),
            |i: int| (m.key_order()[i], m@[m.key_order()[i]]@),
        ),
        None => Seq::empty(),
    }
}

/// A copy of an optional dependency map.
pub fn duplicate_deps(d: &Option<StrMap<String>>) -> (r: Option<StrMap<String>>)
    ensures
        deps_equiv(r, *d),
{
    match d {
        Some(m) => Some(m.duplicate()),
        None => None,
    }
}

impl VersionMetadata {
    /// Same name, version, dist and dependencies.
    pub open spec fn equiv(&self, other: &Self) -> bool {
        &&& self.name == other.name
        &&& self.version == other.version
        &&& self.dist == other.dist
        &&& deps_equiv(self.dependencies, other.dependencies)
    }

    /// A copy of this record.
    pub fn duplicate(&self) -> (r: Self)
        ensures
            r.equiv(self),
    {
        VersionMetadata {
            name: self.name.clone(),
            version: self.version.clone(),
            dist: self.dist.duplicate(),
            dependencies: duplicate_deps(&self.dependencies),
        }
    }
}

/// What the registry publishes about a package: every version and the dist-tags.
pub struct PackageMetadata {
    pub name: String,
    pub versions: StrMap<VersionMetadata>,
    pub dist_tags: StrMap<String>,
}

impl PackageMetadata {
    /// A copy of this record: same keys in the same order, equivalent entries.
    pub fn duplicate(&self) -> (r: Self)
        ensures
            r.name == self.name,
            r.dist_tags@ == self.dist_tags@,
            r.dist_tags.key_order() == self.dist_tags.key_order(),
            r.versions@.dom() == self.versions@.dom(),
            r.versions.key_order() == self.versions.key_order(),
            forall|k: Seq<char>| #[trigger] r.versions@.dom().contains(k) ==> r.versions@[k].equiv(&self.versions@[k]),
    {
        let n = self.versions.len();
        let mut versions: StrMap<VersionMetadata> = StrMap::new();
        let mut i: usize = 0;
        while i < n
            invariant
                n == self.versions.key_order().len(),
                self.versions.key_order().no_duplicates(),
                self.versions@.dom() == self.versions.key_order().to_set(),
                i <= n,
                versions.key_order() == self.versions.key_order().take(i as int),
                versions@.dom() == self.versions.key_order().take(i as int).to_set(),
                forall|k: Seq<char>| #[trigger] versions@.dom().contains(k) ==> versions@[k].equiv(&self.versions@[k]),
            decreases n - i,
        {
            let k = self.versions.key_at(i).clone();
            let v = self.versions.value_at(i).duplicate();
            proof {
                let ks = self.versions.key_order();
                if ks.take(i as int).contains(k@) {
                    let j = choose|j: int| 0 <= j < i && ks.take(i as int)[j] == k@;
                    assert(ks[j] == ks[i as int]);
                }
                lemma_take_next_set(ks, i as int);
            }
            versions.insert(k, v);
            i = i + 1;
        }
        proof {
            assert(self.versions.key_order().take(n as int) =~= self.versions.key_order());
        }
        PackageMetadata { name: self.name.clone(), versions, dist_tags: self.dist_tags.duplicate() }
    }
}

// ---------------------------------------------------------------- semver

/// Whether `semver::Version::parse` accepts the text.
pub uninterp spec fn semver_version_parses(text: Seq<char>) -> bool;

/// Whether `semver::VersionReq::parse` accepts the text.
pub uninterp spec fn semver_req_parses(text: Seq<char>) -> bool;

/// Whether the parsed requirement `req` matches the parsed version `version`
/// (`semver::VersionReq::matches`).
pub uninterp spec fn semver_matches(req: Seq<char>, version: Seq<char>) -> bool;

/// Whether the parsed version `a` is greater than the parsed version `b` in
/// `semver::Version`'s order (`>`).
pub uninterp spec fn semver_greater(a: Seq<char>, b: Seq<char>) -> bool;

/// Calls `semver::Version::parse` and reports whether it succeeded; the
/// contract ties the answer to the name `semver_version_parses` of the text.
#[verifier::external_body]
fn version_parses(text: &str) -> (r: bool)
    ensures
        r == semver_version_parses(text@),
{
    semver::Version::parse(text).is_ok()
}

/// Calls `semver::VersionReq::parse` and reports whether it succeeded. The
/// contract also states that `*` parses (`VersionReq::STAR`).
#[verifier::external_body]
fn req_parses(text: &str) -> (r: bool)
    ensures
        r == semver_req_parses(text@),
        text@ == "*"@ ==> r,
{
    semver::VersionReq::parse(text).is_ok()
}

/// Parses both texts (which the precondition says parse) and calls
/// `semver::VersionReq::matches`; the contract ties the answer to the name
/// `semver_matches` of the two texts.
#[verifier::external_body]
fn req_matches(req: &str, version: &str) -> (r: bool)
    requires
        semver_req_parses(req@),
        semver_version_parses(version@),
    ensures
        r == semver_matches(req@, version@),
{
    semver::VersionReq::parse(req).unwrap().matches(&semver::Version::parse(version).unwrap())
}

/// Parses both texts (which the precondition says parse) and compares them
/// with `semver::Version`'s `>`; the contract ties the answer to the name
/// `semver_greater` of the two texts. It also states that `>` is a strict
/// total order on texts that parse: `Version`'s `Ord` is derived,
/// field by field, from total orders (numbers, and the `Ord` impls of
/// `Prerelease` and `BuildMetadata`, which give `Equal` only on equal text),
/// and two different texts that parse give different versions, since
/// `Display` writes a parsed version back as its text. So a greater answer
/// rules out the converse and carries over to every parsed text below `b` or
/// above `a`, and two different texts are ordered one way or the other.
#[verifier::external_body]
fn version_greater(a: &str, b: &str) -> (r: bool)
    requires
        semver_version_parses(a@),
        semver_version_parses(b@),
    ensures
        r == semver_greater(a@, b@),
        r ==> !semver_greater(b@, a@),
        !r && a@ != b@ ==> semver_greater(b@, a@),
        r ==> forall|x: Seq<char>|
            semver_version_parses(x) && #[trigger] semver_greater(b@, x) ==> semver_greater(a@, x),
        r ==> forall|x: Seq<char>|
            semver_version_parses(x) && #[trigger] semver_greater(x, a@) ==> semver_greater(x, b@),
{
    semver::Version::parse(a).unwrap() > semver::Version::parse(b).unwrap()
}

/// Formats a parsed version with `semver::Version`'s `Display`. The contract
/// states that this gives back the parsed text: the parser accepts only
/// numbers without leading zeros and keeps pre-release and build identifiers
/// as written, and `Display` writes `major.minor.patch[-pre][+build]`.
#[verifier::external_body]
fn version_to_string(text: &str) -> (r: String)
    requires
        semver_version_parses(text@),
    ensures
        r@ == text@,
{
    semver::Version::parse(text).unwrap().to_string()
}

/// Why no version could be chosen.
#[derive(PartialEq, Eq, Structural)]
pub enum ResolveError {
    /// The requested dist-tag names a version that is not published.
    InvalidDistTag,
    /// No published version satisfies the range and there is no usable `latest` tag.
    NoMatchingVersion,
}

/// The range used for matching: the requested one, or `*` when it does not parse.
pub open spec fn effective_range(range: Seq<char>) -> Seq<char> {
    if semver_req_parses(range) {
        range
    } else {
        "*"@
    }
}

/// A published version that parses and satisfies the (effective) range.
pub open spec fn is_candidate(m: PackageMetadata, range: Seq<char>, k: Seq<char>) -> bool {
    &&& m.versions@.dom().contains(k)
    &&& semver_version_parses(k)
    &&& semver_matches(effective_range(range), k)
}

/// A candidate that no other candidate is greater than: the highest match.
pub open spec fn is_highest(m: PackageMetadata, range: Seq<char>, k: Seq<char>) -> bool {
    &&& is_candidate(m, range, k)
    &&& forall|k2: Seq<char>| #[trigger] is_candidate(m, range, k2) && k2 != k ==> !semver_greater(k2, k)
}

/// `r` is a copy of the entry for version `k`.
pub open spec fn copy_of_version(m: PackageMetadata, k: Seq<char>, r: VersionMetadata) -> bool {
    m.versions@.dom().contains(k) && r.equiv(&m.versions@[k])
}

/// The version that `resolve_version` picks, stated case by case: a dist-tag
/// first, then an exact version, then the highest version that satisfies the
/// range (`*` when the range does not parse), then the `latest` tag.
pub open spec fn resolves_to(m: PackageMetadata, range: Seq<char>, r: Result<VersionMetadata, ResolveError>) -> bool {
    if m.dist_tags@.dom().contains(range) {
        let v = m.dist_tags@[range]@;
        match r {
            Ok(meta) => copy_of_version(m, v, meta),
            Err(e) => !m.versions@.dom().contains(v) && e == ResolveError::InvalidDistTag,
        }
    } else if m.versions@.dom().contains(range) {
        r matches Ok(meta) && copy_of_version(m, range, meta)
    } else if exists|k: Seq<char>| is_candidate(m, range, k) {
        r matches Ok(meta) && exists|k: Seq<char>| is_highest(m, range, k) && copy_of_version(m, k, meta)
    } else if m.dist_tags@.dom().contains("latest"@) && m.versions@.dom().contains(
        m.dist_tags@["latest"@]@,
    ) {
        r matches Ok(meta) && copy_of_version(m, m.dist_tags@["latest"@]@, meta)
    } else {
        r == Err::<VersionMetadata, ResolveError>(ResolveError::NoMatchingVersion)
    }
}

/// The position of the highest candidate; `None` when there is no candidate.
fn highest_candidate(m: &PackageMetadata, req: &str, Ghost(range): Ghost<Seq<char>>) -> (r: Option<usize>)
    requires
        req@ == effective_range(range),
        semver_req_parses(req@),
    ensures
        match r {
            Some(b) => b < m.versions.key_order().len() && is_highest(*m, range, m.versions.key_order()[b as int]),
            None => !exists|k: Seq<char>| is_candidate(*m, range, k),
        },
{
    let n = m.versions.len();
    let ghost ks = m.versions.key_order();
    let mut best: Option<usize> = None;
    let mut i: usize = 0;
    while i < n
        invariant
            n == ks.len(),
            ks == m.versions.key_order(),
            ks.no_duplicates(),
            i <= n,
            req@ == effective_range(range),
            semver_req_parses(req@),
            m.versions@.dom() == ks.to_set(),
            match best {
                Some(b) => {
                    &&& b < i
                    &&& is_candidate(*m, range, ks[b as int])
                    &&& forall|j: int|
                        0 <= j < i && #[trigger] is_candidate(*m, range, ks[j]) && ks[j] != ks[b as int]
                            ==> !semver_greater(ks[j], ks[b as int])
                },
                None => forall|j: int| 0 <= j < i ==> !is_candidate(*m, range, #[trigger] ks[j]),
            },
        decreases n - i,
    {
        let k = m.versions.key_at(i);
        if version_parses(k.as_str()) && req_matches(req, k.as_str()) {
            assert(is_candidate(*m, range, ks[i as int]));
            match best {
                Some(b) => {
                    let bk = m.versions.key_at(b);
                    if version_greater(k.as_str(), bk.as_str()) {
                        proof {
                            assert forall|j: int|
                                0 <= j < i + 1 && #[trigger] is_candidate(*m, range, ks[j]) && ks[j] != k@
                                    implies !semver_greater(ks[j], k@) by {
                                if semver_greater(ks[j], k@) {
                                    assert(semver_greater(ks[j], bk@));
                                    assert(ks[j] != bk@);
                                }
                            }
                        }
                        best = Some(i);
                    } else {
                        proof {
                            assert(ks[i as int] != ks[b as int]);
                            assert(semver_greater(bk@, k@));
                        }
                    }
                },
                None => {
                    best = Some(i);
                },
            }
        }
        i = i + 1;
    }
    proof {
        match best {
            Some(b) => {
                assert forall|k2: Seq<char>| #[trigger] is_candidate(*m, range, k2) && k2 != ks[b as int]
                    implies !semver_greater(k2, ks[b as int]) by {
                    assert(ks.to_set().contains(k2));
                    let j = choose|j: int| 0 <= j < ks.len() && ks[j] == k2;
                    assert(is_candidate(*m, range, ks[j]));
                }
            },
            None => {
                assert forall|k: Seq<char>| !is_candidate(*m, range, k) by {
                    if is_candidate(*m, range, k) {
                        assert(ks.to_set().contains(k));
                        let j = choose|j: int| 0 <= j < ks.len() && ks[j] == k;
                        assert(!is_candidate(*m, range, ks[j]));
                    }
                }
            },
        }
    }
    best
}

/// A range that is not a dist-tag but is the exact text of a published
/// version resolves to a copy of that version's metadata, whatever semver
/// would make of it as a range.
pub proof fn lemma_exact_version_pins(m: PackageMetadata, range: Seq<char>)
    ensures
        forall|r: Result<VersionMetadata, ResolveError>|
            #[trigger] resolves_to(m, range, r) && !m.dist_tags@.dom().contains(range)
                && m.versions@.dom().contains(range) ==> (r matches Ok(meta) && meta.equiv(
                &m.versions@[range],
            )),
{
}

/// A range that names a dist-tag resolves to a copy of the tagged version,
/// or fails with `InvalidDistTag` when that version is not published.
pub proof fn lemma_dist_tag_first(m: PackageMetadata, range: Seq<char>)
    ensures
        forall|r: Result<VersionMetadata, ResolveError>|
            #[trigger] resolves_to(m, range, r) && m.dist_tags@.dom().contains(range) ==> if m.versions@.dom().contains(
                m.dist_tags@[range]@,
            ) {
                r matches Ok(meta) && meta.equiv(&m.versions@[m.dist_tags@[range]@])
            } else {
                r == Err::<VersionMetadata, ResolveError>(ResolveError::InvalidDistTag)
            },
{
}

/// A range that is neither a dist-tag nor a published version, when some
/// published version parses and satisfies it (`*` standing for a range that
/// does not parse), resolves to a copy of such a version that no other such
/// version is greater than: the highest match.
pub proof fn lemma_highest_match(m: PackageMetadata, range: Seq<char>)
    ensures
        forall|r: Result<VersionMetadata, ResolveError>|
            #[trigger] resolves_to(m, range, r) && !m.dist_tags@.dom().contains(range)
                && !m.versions@.dom().contains(range) && (exists|k: Seq<char>|
                m.versions@.dom().contains(k) && semver_version_parses(k) && semver_matches(
                    if semver_req_parses(range) { range } else { "*"@ },
                    k,
                )) ==> (r matches Ok(meta) && exists|k: Seq<char>|
                {
                    &&& m.versions@.dom().contains(k)
                    &&& semver_version_parses(k)
                    &&& semver_matches(if semver_req_parses(range) { range } else { "*"@ }, k)
                    &&& meta.equiv(&m.versions@[k])
                    &&& forall|k2: Seq<char>|
                        m.versions@.dom().contains(k2) && semver_version_parses(k2) && semver_matches(
                            if semver_req_parses(range) { range } else { "*"@ },
                            k2,
                        ) && k2 != k ==> !#[trigger] semver_greater(k2, k)
                }),
{
    assert forall|r: Result<VersionMetadata, ResolveError>|
        #[trigger] resolves_to(m, range, r) && !m.dist_tags@.dom().contains(range)
            && !m.versions@.dom().contains(range) && (exists|k: Seq<char>|
            m.versions@.dom().contains(k) && semver_version_parses(k) && semver_matches(
                if semver_req_parses(range) { range } else { "*"@ },
                k,
            )) implies (r matches Ok(meta) && exists|k: Seq<char>|
            {
                &&& m.versions@.dom().contains(k)
                &&& semver_version_parses(k)
                &&& semver_matches(if semver_req_parses(range) { range } else { "*"@ }, k)
                &&& meta.equiv(&m.versions@[k])
                &&& forall|k2: Seq<char>|
                    m.versions@.dom().contains(k2) && semver_version_parses(k2) && semver_matches(
                        if semver_req_parses(range) { range } else { "*"@ },
                        k2,
                    ) && k2 != k ==> !#[trigger] semver_greater(k2, k)
            }) by {
        let k0 = choose|k: Seq<char>|
            m.versions@.dom().contains(k) && semver_version_parses(k) && semver_matches(
                if semver_req_parses(range) { range } else { "*"@ },
                k,
            );
        assert(is_candidate(m, range, k0));
        let meta = r->Ok_0;
        let k = choose|k: Seq<char>| is_highest(m, range, k) && copy_of_version(m, k, meta);
        assert forall|k2: Seq<char>|
            m.versions@.dom().contains(k2) && semver_version_parses(k2) && semver_matches(
                if semver_req_parses(range) { range } else { "*"@ },
                k2,
            ) && k2 != k implies !#[trigger] semver_greater(k2, k) by {
            assert(is_candidate(m, range, k2));
        }
    }
}

/// When no published version matches (and the range is neither a dist-tag
/// nor a published version), the version tagged `latest` is used if it is
/// published; otherwise the answer is `NoMatchingVersion`.
pub proof fn lemma_latest_fallback(m: PackageMetadata, range: Seq<char>)
    ensures
        forall|r: Result<VersionMetadata, ResolveError>|
            #[trigger] resolves_to(m, range, r) && !m.dist_tags@.dom().contains(range)
                && !m.versions@.dom().contains(range) && (forall|k: Seq<char>|
                #[trigger] m.versions@.dom().contains(k) && semver_version_parses(k) ==> !semver_matches(
                    if semver_req_parses(range) { range } else { "*"@ },
                    k,
                )) ==> if m.dist_tags@.dom().contains("latest"@) && m.versions@.dom().contains(
                m.dist_tags@["latest"@]@,
            ) {
                r matches Ok(meta) && meta.equiv(&m.versions@[m.dist_tags@["latest"@]@])
            } else {
                r == Err::<VersionMetadata, ResolveError>(ResolveError::NoMatchingVersion)
            },
{
    assert forall|r: Result<VersionMetadata, ResolveError>|
        #[trigger] resolves_to(m, range, r) && !m.dist_tags@.dom().contains(range)
            && !m.versions@.dom().contains(range) && (forall|k: Seq<char>|
            #[trigger] m.versions@.dom().contains(k) && semver_version_parses(k) ==> !semver_matches(
                if semver_req_parses(range) { range } else { "*"@ },
                k,
            )) implies if m.dist_tags@.dom().contains("latest"@) && m.versions@.dom().contains(
        m.dist_tags@["latest"@]@,
    ) {
        r matches Ok(meta) && meta.equiv(&m.versions@[m.dist_tags@["latest"@]@])
    } else {
        r == Err::<VersionMetadata, ResolveError>(ResolveError::NoMatchingVersion)
    } by {
        assert forall|k: Seq<char>| !is_candidate(m, range, k) by {
            if is_candidate(m, range, k) {
                assert(!semver_matches(if semver_req_parses(range) { range } else { "*"@ }, k));
            }
        }
    }
}

/// The registry's address and the metadata requests made to it.
pub struct RegistryClient {
    pub base_url: String,
}

/// The metadata URL of a package: the registry address, `/`, and the name
/// with each `/` written as `%2f`.
pub open spec fn package_url(base: Seq<char>, name: Seq<char>) -> Seq<char> {
    base + "/"@ + replace_all(name, "/"@, "%2f"@)
}

impl RegistryClient {
    /// A client for the public npm registry.
    pub fn new() -> (c: Self)
        ensures
            c.base_url@ == "https://registry.npmjs.org"@,
    {
        RegistryClient { base_url: "https://registry.npmjs.org".to_owned() }
    }

    /// The URL of a package's metadata document.
    pub fn metadata_url(&self, name: &str) -> (u: String)
        ensures
            u@ == package_url(self.base_url@, name@),
    {
        let mut u = chars_of(self.base_url.as_str());
        u.push('/');
        let escaped = replace_chars(&chars_of(name), &chars_of("/"), &chars_of("%2f"));
        let mut i: usize = 0;
        let ghost head = u@;
        while i < escaped.len()
            invariant
                i <= escaped@.len(),
                u@ == head + escaped@.take(i as int),
            decreases escaped@.len() - i,
        {
            u.push(escaped[i]);
            i = i + 1;
            assert(u@ =~= head + escaped@.take(i as int));
        }
        proof {
            assert(escaped@.take(escaped@.len() as int) =~= escaped@);
            assert(head =~= self.base_url@ + "/"@) by {
                reveal_strlit("/");
            }
        }
        string_from_chars(&u)
    }

    /// Chooses the version of a package for a requested range or tag: a
    /// dist-tag of that name, else a version of that exact text, else the
    /// highest version that satisfies the range (`*` if the range does not
    /// parse), else the version tagged `latest`.
    pub fn resolve_version(&self, metadata: &PackageMetadata, range: &str) -> (r: Result<VersionMetadata, ResolveError>)
        ensures
            resolves_to(*metadata, range@, r),
            !metadata.dist_tags@.dom().contains(range@) && metadata.versions@.dom().contains(range@) ==> (
            r matches Ok(meta) && meta.equiv(&metadata.versions@[range@])),
            metadata.dist_tags@.dom().contains(range@) ==> if metadata.versions@.dom().contains(
                metadata.dist_tags@[range@]@,
            ) {
                r matches Ok(meta) && meta.equiv(&metadata.versions@[metadata.dist_tags@[range@]@])
            } else {
                r == Err::<VersionMetadata, ResolveError>(ResolveError::InvalidDistTag)
            },
    {
        proof {
            lemma_exact_version_pins(*metadata, range@);
            lemma_dist_tag_first(*metadata, range@);
        }
        match metadata.dist_tags.get(range) {
            Some(version) => {
                return match metadata.versions.get(version.as_str()) {
                    Some(meta) => Ok(meta.duplicate()),
                    None => Err(ResolveError::InvalidDistTag),
                };
            },
            None => {},
        }
        match metadata.versions.get(range) {
            Some(meta) => {
                return Ok(meta.duplicate());
            },
            None => {},
        }
        // A range that does not parse is read as `*`.
        let req: &str = if req_parses(range) {
            range
        } else {
            let star = "*";
            let star_parses = req_parses(star);
            assert(star_parses);
            star
        };
        match highest_candidate(metadata, req, Ghost(range@)) {
            Some(b) => {
                let key = metadata.versions.key_at(b);
                let text = version_to_string(key.as_str());
                match metadata.versions.get(text.as_str()) {
                    Some(meta) => {
                        return Ok(meta.duplicate());
                    },
                    None => {
                        assert(false);
                    },
                }
            },
            None => {},
        }
        match metadata.dist_tags.get("latest") {
            Some(latest) => match metadata.versions.get(latest.as_str()) {
                Some(meta) => {
                    return Ok(meta.duplicate());
                },
                None => {},
            },
            None => {},
        }
        Err(ResolveError::NoMatchingVersion)
    }
}

} // verus!
