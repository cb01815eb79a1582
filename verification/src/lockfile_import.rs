//! Reading the lock files of other package managers (npm, Yarn, pnpm, Bun)
//! into a [`Lockfile`].
use vstd::prelude::*;
use crate::lockfile::{Lockfile, LockedPackage, LockedPackageView, packages_view};
use crate::strmap::StrMap;
use crate::registry::duplicate_deps;
use crate::lockfile::deps_view;
use crate::value::{JsonValue, YamlValue, yaml_str, yaml_get, yaml_mapping, mapping_lookup, as_mapping, as_str, get, lookup};
use crate::text::{replace_all, replace_chars, split_acc, rfind, rfind_char, chars_of, string_from_chars, subvec, find, find_char, strip_prefixes, strip_prefixes_chars, trim, trim_chars, lines, lines_of, split_on, second_piece, words, second_word, has_prefix};

verus! {

/// A sequence of (name, entry) writes, applied in order.
pub type Writes = Seq<(Seq<char>, LockedPackageView)>;

/// The map that results from applying `w` to `m` in order (later writes win).
pub open spec fn apply_writes(
    m: Map<Seq<char>, LockedPackageView>,
    w: Writes,
) -> Map<Seq<char>, LockedPackageView>
    decreases w.len(),
{
    if w.len() == 0 {
        m
    } else {
        apply_writes(m, w.drop_last()).insert(w.last().0, w.last().1)
    }
}

/// The lock file that holds exactly what `w` writes.
pub open spec fn written(w: Writes) -> Map<Seq<char>, LockedPackageView> {
    apply_writes(Map::empty(), w)
}

/// Applies `(name, entry)` to a package map.
fn write_entry(packages: &mut StrMap<LockedPackage>, name: String, entry: LockedPackage, Ghost(w): Ghost<Writes>)
    requires
        packages_view(*old(packages)) == written(w),
    ensures
        packages_view(*final(packages)) == written(w.push((name@, entry@))),
{
    let ghost n = name@;
    let ghost e = entry@;
    packages.insert(name, entry);
    proof {
        assert(w.push((n, e)).drop_last() =~= w);
        assert(packages_view(*packages) =~= written(w).insert(n, e));
    }
}

// ---------------------------------------------------------------- names

/// `extract_package_name_from_yarn`: the text before the first `@` that is
/// not the first character (a scoped name such as `@babel/core` keeps its
/// leading `@`); the whole id when there is no such `@`.
pub open spec fn yarn_name(id: Seq<char>) -> Seq<char> {
    if id.len() > 0 {
        match find_char(id.drop_first(), '@') {
            Some(j) => id.take(j + 1),
            None => id,
        }
    } else {
        id
    }
}

fn yarn_name_chars(id: &[char]) -> (r: Vec<char>)
    ensures
        r@ == yarn_name(id@),
{
    if id.len() == 0 {
        return subvec(id, 0, 0);
    }
    let rest = subvec(id, 1, id.len());
    assert(rest@ =~= id@.drop_first());
    match find(&rest, '@') {
        Some(j) => {
            proof {
                lemma_find_char_bound(rest@, '@');
            }
            subvec(id, 0, j + 1)
        },
        None => subvec(id, 0, id.len()),
    }
}

/// A found character lies inside the text.
pub proof fn lemma_find_char_bound(s: Seq<char>, c: char)
    ensures
        match find_char(s, c) {
            Some(i) => 0 <= i < s.len() && s[i] == c,
            None => true,
        },
    decreases s.len(),
{
    if s.len() > 0 && s[0] != c {
        lemma_find_char_bound(s.drop_first(), c);
    }
}

/// A character found from the end lies inside the text.
pub proof fn lemma_rfind_char_bound(s: Seq<char>, c: char)
    ensures
        match rfind_char(s, c) {
            Some(i) => 0 <= i < s.len() && s[i] == c,
            None => true,
        },
    decreases s.len(),
{
    if s.len() > 0 && s.last() != c {
        lemma_rfind_char_bound(s.drop_last(), c);
    }
}

/// Turns a Yarn package id such as `lodash@^4.17.0` into the package name.
pub fn extract_package_name_from_yarn(yarn_id: &str) -> (r: String)
    ensures
        r@ == yarn_name(yarn_id@),
{
    let id = chars_of(yarn_id);
    let name = yarn_name_chars(&id);
    string_from_chars(&name)
}

/// `"node_modules/"`.
pub open spec fn node_modules_prefix() -> Seq<char> {
    seq!['n', 'o', 'd', 'e', '_', 'm', 'o', 'd', 'u', 'l', 'e', 's', '/']
}

fn node_modules_prefix_chars() -> (r: Vec<char>)
    ensures
        r@ == node_modules_prefix(),
{
    let r = vec!['n', 'o', 'd', 'e', '_', 'm', 'o', 'd', 'u', 'l', 'e', 's', '/'];
    assert(r@ =~= node_modules_prefix());
    r
}

/// Turns an npm lock path such as `node_modules/@scope/pkg` into the package
/// name: every leading `node_modules/` is removed.
pub fn extract_package_name(npm_path: &str) -> (r: String)
    ensures
        r@ == strip_prefixes(npm_path@, node_modules_prefix()),
{
    let path = chars_of(npm_path);
    let prefix = node_modules_prefix_chars();
    let name = strip_prefixes_chars(&path, &prefix);
    string_from_chars(&name)
}

// ---------------------------------------------------------------- yarn.lock

/// The package block being read: its ids and the fields seen so far.
pub struct YarnBlock {
    pub ids: Seq<Seq<char>>,
    pub version: Option<Seq<char>>,
    pub resolved: Option<Seq<char>>,
    pub integrity: Option<Seq<char>>,
}

/// A block with nothing read yet.
pub open spec fn empty_block() -> YarnBlock {
    YarnBlock { ids: Seq::empty(), version: None, resolved: None, integrity: None }
}

/// What a finished block writes: an entry for each of its ids, when it has
/// a version, a resolved URL and an integrity hash; nothing otherwise.
pub open spec fn block_writes(b: YarnBlock) -> Writes {
    match (b.version, b.resolved, b.integrity) {
        (Some(v), Some(r), Some(h)) => b.ids.map_values(
            |id: Seq<char>|
                (
                    yarn_name(id),
                    LockedPackageView { version: v, tarball: r, shasum: h, dependencies: None },
                ),
        ),
        _ => Seq::empty(),
    }
}

/// `"version"`.
pub open spec fn kw_version() -> Seq<char> {
    seq!['v', 'e', 'r', 's', 'i', 'o', 'n']
}

/// `"resolved"`.
pub open spec fn kw_resolved() -> Seq<char> {
    seq!['r', 'e', 's', 'o', 'l', 'v', 'e', 'd']
}

/// `"integrity"`.
pub open spec fn kw_integrity() -> Seq<char> {
    seq!['i', 'n', 't', 'e', 'g', 'r', 'i', 't', 'y']
}

/// Whether a raw line is indented (starts with a space or a tab).
pub open spec fn indented(line: Seq<char>) -> bool {
    line.len() > 0 && (line[0] == ' ' || line[0] == '\t')
}

/// The text between the first and second double quote, if there is a first.
pub open spec fn quoted(t: Seq<char>) -> Option<Seq<char>> {
    if split_on(t, '"').len() > 1 {
        Some(split_on(t, '"')[1])
    } else {
        None
    }
}

/// The second whitespace-separated word, if any.
pub open spec fn second_of(t: Seq<char>) -> Option<Seq<char>> {
    if words(t).len() > 1 {
        Some(words(t)[1])
    } else {
        None
    }
}

/// A header id without the double quotes that may surround it.
pub open spec fn unquote(s: Seq<char>) -> Seq<char> {
    if s.len() >= 2 && s[0] == '"' && s.last() == '"' {
        s.subrange(1, s.len() - 1)
    } else {
        s
    }
}

/// One line of a yarn.lock: a blank or comment line ends the block (and
/// writes it); an unindented `id:` line adds the id
/// (without the double quotes that may surround it); an indented `version`,
/// `resolved` or `integrity` line sets that field.
pub open spec fn yarn_line(b: YarnBlock, line: Seq<char>) -> (YarnBlock, Writes) {
    let t = trim(line);
    if t.len() == 0 || t[0] == '#' {
        (empty_block(), block_writes(b))
    } else if !indented(line) {
        if t.last() == ':' {
            (YarnBlock { ids: b.ids.push(unquote(t.drop_last())), ..b }, Seq::empty())
        } else {
            (b, Seq::empty())
        }
    } else if kw_version().is_prefix_of(t) {
        (
            match quoted(t) {
                Some(v) => YarnBlock { version: Some(v), ..b },
                None => b,
            },
            Seq::empty(),
        )
    } else if kw_resolved().is_prefix_of(t) {
        (
            match quoted(t) {
                Some(v) => YarnBlock { resolved: Some(v), ..b },
                None => b,
            },
            Seq::empty(),
        )
    } else if kw_integrity().is_prefix_of(t) {
        (
            match second_of(t) {
                Some(v) => YarnBlock { integrity: Some(v), ..b },
                None => b,
            },
            Seq::empty(),
        )
    } else {
        (b, Seq::empty())
    }
}

/// The block open after `lines` and everything written so far.
pub open spec fn yarn_scan(lines: Seq<Seq<char>>) -> (YarnBlock, Writes)
    decreases lines.len(),
{
    if lines.len() == 0 {
        (empty_block(), Seq::empty())
    } else {
        let (b, w) = yarn_scan(lines.drop_last());
        let (b2, w2) = yarn_line(b, lines.last());
        (b2, w + w2)
    }
}

/// Everything a yarn.lock text writes, the block still open at its end
/// included.
pub open spec fn yarn_writes(content: Seq<char>) -> Writes {
    let (b, w) = yarn_scan(lines_of(content));
    w + block_writes(b)
}

/// Optional character vectors by their contents.
pub open spec fn opt_view(o: Option<Vec<char>>) -> Option<Seq<char>> {
    match o {
        Some(v) => Some(v@),
        None => None,
    }
}

fn has_kw(t: &[char], kw: &[char]) -> (b: bool)
    ensures
        b == kw@.is_prefix_of(t@),
{
    has_prefix(t, kw)
}

fn unquote_chars(s: &[char]) -> (r: Vec<char>)
    ensures
        r@ == unquote(s@),
{
    if s.len() >= 2 && s[0] == '"' && s[s.len() - 1] == '"' {
        subvec(s, 1, s.len() - 1)
    } else {
        subvec(s, 0, s.len())
    }
}

/// Writes the entries of a finished block.
fn flush_block(
    packages: &mut StrMap<LockedPackage>,
    ids: &Vec<Vec<char>>,
    version: &Option<Vec<char>>,
    resolved: &Option<Vec<char>>,
    integrity: &Option<Vec<char>>,
    Ghost(b): Ghost<YarnBlock>,
    Ghost(w0): Ghost<Writes>,
)
    requires
        packages_view(*old(packages)) == written(w0),
        b.ids == ids@.map_values(|v: Vec<char>| v@),
        b.version == opt_view(*version),
        b.resolved == opt_view(*resolved),
        b.integrity == opt_view(*integrity),
    ensures
        packages_view(*final(packages)) == written(w0 + block_writes(b)),
{
    let ghost bw = block_writes(b);
    match (version, resolved, integrity) {
        (Some(v), Some(r), Some(h)) => {
            let m = ids.len();
            let mut j: usize = 0;
            proof {
                assert(w0 + bw.take(0) =~= w0);
            }
            while j < m
                invariant
                    m == ids@.len(),
                    j <= m,
                    b.ids == ids@.map_values(|v: Vec<char>| v@),
                    b.version == Some(v@),
                    b.resolved == Some(r@),
                    b.integrity == Some(h@),
                    bw == block_writes(b),
                    packages_view(*packages) == written(w0 + bw.take(j as int)),
                decreases m - j,
            {
                let name = yarn_name_chars(&ids[j]);
                let entry = LockedPackage {
                    version: string_from_chars(v),
                    tarball: string_from_chars(r),
                    shasum: string_from_chars(h),
                    dependencies: None,
                };
                let ns = string_from_chars(&name);
                proof {
                    assert(bw[j as int] == (ns@, entry@));
                    assert(w0 + bw.take(j + 1) =~= (w0 + bw.take(j as int)).push(bw[j as int]));
                }
                write_entry(packages, ns, entry, Ghost(w0 + bw.take(j as int)));
                j = j + 1;
            }
            proof {
                assert(bw.take(m as int) =~= bw);
            }
        },
        _ => {
            proof {
                assert(bw =~= Seq::<(Seq<char>, LockedPackageView)>::empty());
                assert(w0 + bw =~= w0);
            }
        },
    }
}

/// Reads a yarn.lock text. A block's header line (without its final `:` and
/// the double quotes that may surround it) is an id, and each id becomes a
/// package name (the text before its first non-leading `@`). A block is written when the next blank or comment
/// line or the end of the text closes it, and a later entry of the same name
/// replaces an earlier one.
pub fn import_yarn_lockfile(content: &str) -> (l: Lockfile)
    ensures
        l@ == written(yarn_writes(content@)),
{
    let text = chars_of(content);
    let ls = lines(&text);
    let ghost lv = ls@.map_values(|l: Vec<char>| l@);
    let kw_v: Vec<char> = vec!['v', 'e', 'r', 's', 'i', 'o', 'n'];
    let kw_r: Vec<char> = vec!['r', 'e', 's', 'o', 'l', 'v', 'e', 'd'];
    let kw_i: Vec<char> = vec!['i', 'n', 't', 'e', 'g', 'r', 'i', 't', 'y'];
    assert(kw_v@ =~= kw_version());
    assert(kw_r@ =~= kw_resolved());
    assert(kw_i@ =~= kw_integrity());
    let mut packages: StrMap<LockedPackage> = StrMap::new();
    let mut ids: Vec<Vec<char>> = Vec::new();
    let mut version: Option<Vec<char>> = None;
    let mut resolved: Option<Vec<char>> = None;
    let mut integrity: Option<Vec<char>> = None;
    let n = ls.len();
    let mut i: usize = 0;
    proof {
        assert(packages_view(packages) =~= written(Seq::empty()));
        assert(ids@.map_values(|v: Vec<char>| v@) =~= Seq::<Seq<char>>::empty());
    }
    while i < n
        invariant
            n == ls@.len(),
            lv == lines_of(content@),
            lv == ls@.map_values(|l: Vec<char>| l@),
            i <= n,
            kw_v@ == kw_version(),
            kw_r@ == kw_resolved(),
            kw_i@ == kw_integrity(),
            ({
                let (b, w) = yarn_scan(lv.take(i as int));
                &&& b.ids == ids@.map_values(|v: Vec<char>| v@)
                &&& b.version == opt_view(version)
                &&& b.resolved == opt_view(resolved)
                &&& b.integrity == opt_view(integrity)
                &&& packages_view(packages) == written(w)
            }),
        decreases n - i,
    {
        let line = &ls[i];
        let ghost b0 = yarn_scan(lv.take(i as int)).0;
        let ghost w0 = yarn_scan(lv.take(i as int)).1;
        proof {
            assert(lv.take(i + 1).drop_last() =~= lv.take(i as int));
            assert(lv.take(i + 1).last() == line@);
        }
        let t = trim_chars(line);
        if t.len() == 0 || t[0] == '#' {
            flush_block(&mut packages, &ids, &version, &resolved, &integrity, Ghost(b0), Ghost(w0));
            ids = Vec::new();
            version = None;
            resolved = None;
            integrity = None;
            proof {
                assert(ids@.map_values(|v: Vec<char>| v@) =~= Seq::<Seq<char>>::empty());
            }
        } else {
            let indented_line = line.len() > 0 && (line[0] == ' ' || line[0] == '\t');
            if !indented_line {
                if t[t.len() - 1] == ':' {
                    let ghost before = ids@;
                    let h = subvec(&t, 0, t.len() - 1);
                    assert(h@ =~= t@.drop_last());
                    let id = unquote_chars(&h);
                    ids.push(id);
                    proof {
                        assert(ids@.map_values(|v: Vec<char>| v@) =~= before.map_values(|v: Vec<char>| v@).push(unquote(t@.drop_last())));
                    }
                }
            } else if has_kw(&t, &kw_v) {
                match second_piece(&t, '"') {
                    Some(v) => {
                        version = Some(v);
                    },
                    None => {},
                }
            } else if has_kw(&t, &kw_r) {
                match second_piece(&t, '"') {
                    Some(v) => {
                        resolved = Some(v);
                    },
                    None => {},
                }
            } else if has_kw(&t, &kw_i) {
                match second_word(&t) {
                    Some(v) => {
                        integrity = Some(v);
                    },
                    None => {},
                }
            }
            proof {
                let w2 = yarn_line(b0, line@).1;
                assert(w2 =~= Seq::<(Seq<char>, LockedPackageView)>::empty());
                assert(w0 + w2 =~= w0);
            }
        }
        i = i + 1;
    }
    proof {
        assert(lv.take(n as int) =~= lv);
    }
    flush_block(
        &mut packages,
        &ids,
        &version,
        &resolved,
        &integrity,
        Ghost(yarn_scan(lv).0),
        Ghost(yarn_scan(lv).1),
    );
    Lockfile { packages }
}

// ---------------------------------------------------------------- package-lock.json

/// One entry of an npm package-lock.json `packages` map.
pub struct NpmPackage {
    pub version: Option<String>,
    pub resolved: Option<String>,
    pub integrity: Option<String>,
    pub dependencies: Option<StrMap<String>>,
}

/// The parts of an npm package-lock.json that are read.
pub struct NpmLockfile {
    pub lockfile_version: u32,
    pub packages: Option<StrMap<NpmPackage>>,
}

/// The text of an optional string, or the empty text.
pub open spec fn text_or_empty(o: Option<String>) -> Seq<char> {
    match o {
        Some(s) => s@,
        None => Seq::empty(),
    }
}

/// What one `packages` entry writes: nothing for the root entry (empty path)
/// or an entry without a version; otherwise an entry named by the path
/// without its leading `node_modules/`.
pub open spec fn npm_entry_writes(path: Seq<char>, p: NpmPackage) -> Writes {
    if path.len() == 0 {
        Seq::empty()
    } else {
        match p.version {
            Some(v) => seq![
                (
                    strip_prefixes(path, node_modules_prefix()),
                    LockedPackageView {
                        version: v@,
                        tarball: text_or_empty(p.resolved),
                        shasum: text_or_empty(p.integrity),
                        dependencies: deps_view(p.dependencies),
                    },
                ),
            ],
            None => Seq::empty(),
        }
    }
}

/// What the first `i` entries of a `packages` map write.
pub open spec fn npm_writes_upto(m: StrMap<NpmPackage>, i: int) -> Writes
    decreases i,
{
    if i <= 0 {
        Seq::empty()
    } else {
        npm_writes_upto(m, i - 1) + npm_entry_writes(m.key_order()[i - 1], m@[m.key_order()[i - 1]])
    }
}

/// Everything an npm package-lock.json writes.
pub open spec fn npm_writes(lock: NpmLockfile) -> Writes {
    match lock.packages {
        Some(m) => npm_writes_upto(m, m.key_order().len() as int),
        None => Seq::empty(),
    }
}

/// A name is in what `w` writes exactly when some write names it, and the
/// entry it ends with is that of one of those writes.
pub proof fn lemma_written_from(w: Writes, n: Seq<char>)
    ensures
        written(w).dom().contains(n) <==> exists|t: int| 0 <= t < w.len() && #[trigger] w[t].0 == n,
        written(w).dom().contains(n) ==> exists|t: int|
            0 <= t < w.len() && #[trigger] w[t].0 == n && w[t].1 == written(w)[n],
    decreases w.len(),
{
    if w.len() > 0 {
        let wd = w.drop_last();
        lemma_written_from(wd, n);
        if n == w.last().0 {
            assert(w[w.len() - 1].0 == n);
        } else {
            if exists|t: int| 0 <= t < w.len() && #[trigger] w[t].0 == n {
                let t = choose|t: int| 0 <= t < w.len() && #[trigger] w[t].0 == n;
                assert(wd[t].0 == n);
            }
            if written(wd).dom().contains(n) {
                let t = choose|t: int| 0 <= t < wd.len() && #[trigger] wd[t].0 == n && wd[t].1 == written(wd)[n];
                assert(w[t] == wd[t]);
            }
        }
    }
}

/// What a package-lock.json entry at `path` becomes in rnpm's lock file,
/// when it is imported: the version, the resolved URL as tarball, the
/// integrity as checksum, and the entry's own dependencies.
pub open spec fn imported_from(path: Seq<char>, p: NpmPackage, name: Seq<char>, entry: LockedPackageView) -> bool {
    &&& path.len() > 0
    &&& name == strip_prefixes(path, node_modules_prefix())
    &&& p.version matches Some(v) && entry == LockedPackageView {
        version: v@,
        tarball: text_or_empty(p.resolved),
        shasum: text_or_empty(p.integrity),
        dependencies: deps_view(p.dependencies),
    }
}

/// Each write of the first `i` entries comes from one of them, and each of
/// them with a path and a version writes its name.
proof fn lemma_npm_upto_sources(m: StrMap<NpmPackage>, i: int)
    requires
        0 <= i <= m.key_order().len(),
    ensures
        forall|t: int|
            0 <= t < npm_writes_upto(m, i).len() ==> exists|j: int|
                0 <= j < i && imported_from(
                    m.key_order()[j],
                    m@[m.key_order()[j]],
                    #[trigger] npm_writes_upto(m, i)[t].0,
                    npm_writes_upto(m, i)[t].1,
                ),
        forall|j: int|
            0 <= j < i && m.key_order()[j].len() > 0 && m@[m.key_order()[j]].version is Some ==> exists|t: int|
                0 <= t < npm_writes_upto(m, i).len() && #[trigger] npm_writes_upto(m, i)[t].0 == strip_prefixes(
                    m.key_order()[j],
                    node_modules_prefix(),
                ),
    decreases i,
{
    if i > 0 {
        lemma_npm_upto_sources(m, i - 1);
        let w0 = npm_writes_upto(m, i - 1);
        let key = m.key_order()[i - 1];
        let e = npm_entry_writes(key, m@[key]);
        let w = npm_writes_upto(m, i);
        assert(w == w0 + e);
        assert forall|t: int| 0 <= t < w.len() implies exists|j: int|
            0 <= j < i && imported_from(m.key_order()[j], m@[m.key_order()[j]], #[trigger] w[t].0, w[t].1) by {
            if t < w0.len() {
                assert(w[t] == w0[t]);
                let j = choose|j: int| 0 <= j < i - 1 && imported_from(m.key_order()[j], m@[m.key_order()[j]], #[trigger] w0[t].0, w0[t].1);
                assert(imported_from(m.key_order()[j], m@[m.key_order()[j]], w[t].0, w[t].1));
            } else {
                assert(w[t] == e[t - w0.len()]);
                assert(imported_from(m.key_order()[i - 1], m@[m.key_order()[i - 1]], w[t].0, w[t].1));
            }
        }
        assert forall|j: int|
            0 <= j < i && m.key_order()[j].len() > 0 && m@[m.key_order()[j]].version is Some implies exists|t: int|
                0 <= t < w.len() && #[trigger] w[t].0 == strip_prefixes(m.key_order()[j], node_modules_prefix()) by {
            if j < i - 1 {
                let t = choose|t: int| 0 <= t < w0.len() && #[trigger] w0[t].0 == strip_prefixes(m.key_order()[j], node_modules_prefix());
                assert(w[t] == w0[t]);
            } else {
                assert(e.len() == 1 && e[0].0 == strip_prefixes(key, node_modules_prefix()));
                assert(w[w0.len() as int] == e[0]);
                assert(w[w0.len() as int].0 == strip_prefixes(m.key_order()[j], node_modules_prefix()));
            }
        }
    }
}

/// An imported package-lock.json: every name in the lock file comes from an
/// entry of the `packages` map (its path without the leading `node_modules/`)
/// and holds that entry's version, resolved URL, integrity and dependencies;
/// every entry with a path and a version is imported under its name.
pub proof fn lemma_npm_import_sources(lock: NpmLockfile)
    ensures
        match lock.packages {
            Some(m) => {
                &&& forall|name: Seq<char>|
                    #[trigger] written(npm_writes(lock)).dom().contains(name) ==> exists|path: Seq<char>|
                        m@.dom().contains(path) && imported_from(
                            path,
                            #[trigger] m@[path],
                            name,
                            written(npm_writes(lock))[name],
                        )
                &&& forall|path: Seq<char>|
                    #[trigger] m@.dom().contains(path) && path.len() > 0 && m@[path].version is Some
                        ==> written(npm_writes(lock)).dom().contains(strip_prefixes(path, node_modules_prefix()))
            },
            None => written(npm_writes(lock)).dom().is_empty(),
        },
{
    match lock.packages {
        Some(m) => {
            let ks = m.key_order();
            let n = ks.len() as int;
            let w = npm_writes(lock);
            m.lemma_dom_is_keys();
            lemma_npm_upto_sources(m, n);
            assert forall|name: Seq<char>| #[trigger] written(w).dom().contains(name) implies exists|path: Seq<char>|
                m@.dom().contains(path) && imported_from(path, #[trigger] m@[path], name, written(w)[name]) by {
                lemma_written_from(w, name);
                let t = choose|t: int| 0 <= t < w.len() && #[trigger] w[t].0 == name && w[t].1 == written(w)[name];
                let j = choose|j: int| 0 <= j < n && imported_from(ks[j], m@[ks[j]], #[trigger] w[t].0, w[t].1);
                assert(m@.dom().contains(ks[j]));
            }
            assert forall|path: Seq<char>|
                #[trigger] m@.dom().contains(path) && path.len() > 0 && m@[path].version is Some implies written(
                w,
            ).dom().contains(strip_prefixes(path, node_modules_prefix())) by {
                assert(ks.to_set().contains(path));
                let j = choose|j: int| 0 <= j < n && ks[j] == path;
                let t = choose|t: int| 0 <= t < w.len() && #[trigger] w[t].0 == strip_prefixes(ks[j], node_modules_prefix());
                lemma_written_from(w, strip_prefixes(path, node_modules_prefix()));
            }
        },
        None => {
            assert(written(npm_writes(lock)).dom() =~= Set::empty());
        },
    }
}

fn text_or_empty_of(o: &Option<String>) -> (r: String)
    ensures
        r@ == text_or_empty(*o),
{
    match o {
        Some(s) => s.clone(),
        None => String::new(),
    }
}

/// Reads the `packages` map of an npm package-lock.json (lockfile version 2
/// and later).
pub fn import_npm_lockfile(npm_lock: &NpmLockfile) -> (l: Lockfile)
    ensures
        l@ == written(npm_writes(*npm_lock)),
        match npm_lock.packages {
            Some(m) => {
                &&& forall|name: Seq<char>|
                    #[trigger] l@.dom().contains(name) ==> exists|path: Seq<char>|
                        m@.dom().contains(path) && imported_from(path, #[trigger] m@[path], name, l@[name])
                &&& forall|path: Seq<char>|
                    #[trigger] m@.dom().contains(path) && path.len() > 0 && m@[path].version is Some
                        ==> l@.dom().contains(strip_prefixes(path, node_modules_prefix()))
            },
            None => l@.dom().is_empty(),
        },
{
    proof {
        lemma_npm_import_sources(*npm_lock);
    }
    let mut packages: StrMap<LockedPackage> = StrMap::new();
    proof {
        assert(packages_view(packages) =~= written(Seq::empty()));
    }
    match &npm_lock.packages {
        Some(m) => {
            let n = m.len();
            let mut i: usize = 0;
            while i < n
                invariant
                    n == m.key_order().len(),
                    i <= n,
                    packages_view(packages) == written(npm_writes_upto(*m, i as int)),
                decreases n - i,
            {
                let path = m.key_at(i);
                let pkg = m.value_at(i);
                let ghost w0 = npm_writes_upto(*m, i as int);
                proof {
                    assert(npm_writes_upto(*m, i + 1) == w0 + npm_entry_writes(path@, *pkg));
                }
                if path.as_str().is_empty() {
                    proof {
                        assert(path@.len() == 0);
                        assert(w0 + npm_entry_writes(path@, *pkg) =~= w0);
                    }
                } else {
                    match &pkg.version {
                        Some(v) => {
                            let name = extract_package_name(path.as_str());
                            let entry = LockedPackage {
                                version: v.clone(),
                                tarball: text_or_empty_of(&pkg.resolved),
                                shasum: text_or_empty_of(&pkg.integrity),
                                dependencies: duplicate_deps(&pkg.dependencies),
                            };
                            proof {
                                assert(npm_entry_writes(path@, *pkg) == seq![(name@, entry@)]);
                                assert(w0 + seq![(name@, entry@)] =~= w0.push((name@, entry@)));
                            }
                            write_entry(&mut packages, name, entry, Ghost(w0));
                        },
                        None => {
                            proof {
                                assert(w0 + npm_entry_writes(path@, *pkg) =~= w0);
                            }
                        },
                    }
                }
                i = i + 1;
            }
        },
        None => {},
    }
    Lockfile { packages }
}

// ---------------------------------------------------------------- bun.lock

/// The parts of a bun.lock (JSON form) that are read.
pub struct BunLockfile {
    pub lockfile_version: Option<u32>,
    pub packages: Option<StrMap<JsonValue>>,
}

/// The tarball URL that the npm registry serves for `name` at `version`.
pub open spec fn registry_tarball(name: Seq<char>, version: Seq<char>) -> Seq<char> {
    "https://registry.npmjs.org/"@ + replace_all(name, "/"@, "%2F"@) + "/-/"@ + split_on(name, '/').last()
        + "-"@ + version + ".tgz"@
}

/// The text of a JSON string value, or the empty text.
pub open spec fn json_text(v: JsonValue) -> Seq<char> {
    match v.spec_as_str() {
        Some(s) => s,
        None => Seq::empty(),
    }
}

/// What one `packages` entry of a bun.lock writes. The entry is an array
/// `[name@version, peer deps, deps, integrity, ..]`; it writes a package
/// named by the text before the last `@` (which must not be the first
/// character) when the version after it is not empty.
pub open spec fn bun_entry_writes(info: JsonValue) -> Writes {
    match info {
        JsonValue::Array(a) => if a@.len() >= 4 {
            let full = json_text(a@[0]);
            let integrity = json_text(a@[3]);
            match rfind_char(full, '@') {
                Some(at) => if at > 0 && full.skip(at + 1).len() > 0 {
                    let name = full.take(at);
                    let version = full.skip(at + 1);
                    seq![
                        (
                            name,
                            LockedPackageView {
                                version,
                                tarball: registry_tarball(name, version),
                                shasum: integrity,
                                dependencies: None,
                            },
                        ),
                    ]
                } else {
                    Seq::empty()
                },
                None => Seq::empty(),
            }
        } else {
            Seq::empty()
        },
        _ => Seq::empty(),
    }
}

/// What the first `i` entries of a bun.lock `packages` map write.
pub open spec fn bun_writes_upto(m: StrMap<JsonValue>, i: int) -> Writes
    decreases i,
{
    if i <= 0 {
        Seq::empty()
    } else {
        bun_writes_upto(m, i - 1) + bun_entry_writes(m@[m.key_order()[i - 1]])
    }
}

/// Everything a bun.lock writes.
pub open spec fn bun_writes(lock: BunLockfile) -> Writes {
    match lock.packages {
        Some(m) => bun_writes_upto(m, m.key_order().len() as int),
        None => Seq::empty(),
    }
}

/// `json_text` on a value.
fn json_text_of(v: &JsonValue) -> (r: Vec<char>)
    ensures
        r@ == json_text(*v),
{
    match v.as_str() {
        Some(s) => chars_of(s.as_str()),
        None => Vec::new(),
    }
}

/// Appends `b` to `a`.
fn push_all(a: &mut Vec<char>, b: &[char])
    ensures
        final(a)@ == old(a)@ + b@,
{
    let mut i: usize = 0;
    while i < b.len()
        invariant
            i <= b@.len(),
            a@ == old(a)@ + b@.take(i as int),
        decreases b@.len() - i,
    {
        a.push(b[i]);
        i = i + 1;
        assert(a@ =~= old(a)@ + b@.take(i as int));
    }
    assert(b@.take(b@.len() as int) =~= b@);
}

/// The last piece of `s` split at `c`.
fn last_piece(s: &[char], c: char) -> (r: Vec<char>)
    ensures
        r@ == split_on(s@, c).last(),
{
    let n = s.len();
    let mut cur: Vec<char> = Vec::new();
    let mut i: usize = 0;
    let ghost done: Seq<Seq<char>> = Seq::empty();
    while i < n
        invariant
            i <= n,
            n == s@.len(),
            split_acc(s@.take(i as int), c) == (done, cur@),
        decreases n - i,
    {
        let x = s[i];
        proof {
            assert(s@.take(i + 1).drop_last() =~= s@.take(i as int));
            assert(s@.take(i + 1).last() == x);
        }
        if x == c {
            proof {
                done = done.push(cur@);
            }
            cur = Vec::new();
        } else {
            cur.push(x);
        }
        i = i + 1;
    }
    assert(s@.take(n as int) =~= s@);
    cur
}

/// `registry_tarball` on characters.
fn registry_tarball_chars(name: &[char], version: &[char]) -> (r: Vec<char>)
    ensures
        r@ == registry_tarball(name@, version@),
{
    let mut r = chars_of("https://registry.npmjs.org/");
    let slash = chars_of("/");
    let escaped = chars_of("%2F");
    push_all(&mut r, &replace_chars(name, &slash, &escaped));
    push_all(&mut r, &chars_of("/-/"));
    push_all(&mut r, &last_piece(name, '/'));
    push_all(&mut r, &chars_of("-"));
    push_all(&mut r, version);
    push_all(&mut r, &chars_of(".tgz"));
    r
}

/// Reads the `packages` map of a bun.lock (JSON form).
pub fn import_bun_lockfile(bun_lock: &BunLockfile) -> (l: Lockfile)
    ensures
        l@ == written(bun_writes(*bun_lock)),
{
    let mut packages: StrMap<LockedPackage> = StrMap::new();
    proof {
        assert(packages_view(packages) =~= written(Seq::empty()));
    }
    match &bun_lock.packages {
        Some(m) => {
            let n = m.len();
            let mut i: usize = 0;
            while i < n
                invariant
                    n == m.key_order().len(),
                    i <= n,
                    packages_view(packages) == written(bun_writes_upto(*m, i as int)),
                decreases n - i,
            {
                let info = m.value_at(i);
                let ghost w0 = bun_writes_upto(*m, i as int);
                let ghost ew = bun_entry_writes(*info);
                proof {
                    assert(bun_writes_upto(*m, i + 1) == w0 + ew);
                }
                let mut wrote = false;
                match info {
                    JsonValue::Array(a) => {
                        if a.len() >= 4 {
                            let full = json_text_of(&a[0]);
                            let integrity = json_text_of(&a[3]);
                            match rfind(&full, '@') {
                                Some(at) => {
                                    proof {
                                        lemma_rfind_char_bound(full@, '@');
                                    }
                                    if at > 0 && at + 1 < full.len() {
                                        let name = subvec(&full, 0, at);
                                        let version = subvec(&full, at + 1, full.len());
                                        let tarball = registry_tarball_chars(&name, &version);
                                        let entry = LockedPackage {
                                            version: string_from_chars(&version),
                                            tarball: string_from_chars(&tarball),
                                            shasum: string_from_chars(&integrity),
                                            dependencies: None,
                                        };
                                        let ns = string_from_chars(&name);
                                        proof {
                                            assert(name@ =~= full@.take(at as int));
                                            assert(version@ =~= full@.skip(at + 1));
                                            assert(ew == seq![(ns@, entry@)]);
                                            assert(w0 + ew =~= w0.push((ns@, entry@)));
                                        }
                                        write_entry(&mut packages, ns, entry, Ghost(w0));
                                        wrote = true;
                                    }
                                },
                                None => {},
                            }
                        }
                    },
                    _ => {},
                }
                proof {
                    if !wrote {
                        assert(ew =~= Seq::<(Seq<char>, LockedPackageView)>::empty());
                        assert(w0 + ew =~= w0);
                    }
                }
                i = i + 1;
            }
        },
        None => {},
    }
    Lockfile { packages }
}

/// `",\n" + k spaces + "}"`: a trailing comma before a closing brace indented by `k`.
pub open spec fn trailing_comma(k: nat) -> Seq<char> {
    seq![',', '\n'] + Seq::new(k, |i: int| ' ') + seq!['}']
}

/// `"\n" + k spaces + "}"`: the same closing brace without the comma.
pub open spec fn no_trailing_comma(k: nat) -> Seq<char> {
    seq!['\n'] + Seq::new(k, |i: int| ' ') + seq!['}']
}

/// A bun.lock text with the trailing commas before closing braces indented
/// by 6, 4, 2 and 0 spaces removed, in that order.
pub open spec fn bun_cleaned(content: Seq<char>) -> Seq<char> {
    let a = replace_all(content, trailing_comma(6), no_trailing_comma(6));
    let b = replace_all(a, trailing_comma(4), no_trailing_comma(4));
    let c = replace_all(b, trailing_comma(2), no_trailing_comma(2));
    replace_all(c, trailing_comma(0), no_trailing_comma(0))
}

fn brace_patterns(k: usize) -> (r: (Vec<char>, Vec<char>))
    ensures
        r.0@ == trailing_comma(k as nat),
        r.1@ == no_trailing_comma(k as nat),
{
    let mut spaces: Vec<char> = Vec::new();
    let mut i: usize = 0;
    while i < k
        invariant
            i <= k,
            spaces@ == Seq::new(i as nat, |j: int| ' '),
        decreases k - i,
    {
        spaces.push(' ');
        i = i + 1;
        assert(spaces@ =~= Seq::new(i as nat, |j: int| ' '));
    }
    let mut with_comma: Vec<char> = vec![',', '\n'];
    push_all(&mut with_comma, &spaces);
    with_comma.push('}');
    let mut without: Vec<char> = vec!['\n'];
    push_all(&mut without, &spaces);
    without.push('}');
    assert(with_comma@ =~= trailing_comma(k as nat));
    assert(without@ =~= no_trailing_comma(k as nat));
    (with_comma, without)
}

/// Removes the trailing commas that Bun writes and JSON does not allow.
pub fn clean_bun_lock_text(content: &str) -> (r: String)
    ensures
        r@ == bun_cleaned(content@),
        (forall|k: nat|
            (k == 0 || k == 2 || k == 4 || k == 6) ==> !occurs_in(content@, #[trigger] (seq![','] + trailing_comma(k))))
            ==> forall|k: nat|
            (k == 0 || k == 2 || k == 4 || k == 6) ==> !occurs_in(r@, #[trigger] trailing_comma(k)),
        (forall|k: nat| (k == 0 || k == 2 || k == 4 || k == 6) ==> !occurs_in(content@, #[trigger] trailing_comma(k)))
            ==> r@ == content@,
{
    proof {
        if forall|k: nat|
            (k == 0 || k == 2 || k == 4 || k == 6) ==> !occurs_in(content@, #[trigger] (seq![','] + trailing_comma(k))) {
            lemma_bun_trailing_commas_removed(content@);
        }
        if forall|k: nat| (k == 0 || k == 2 || k == 4 || k == 6) ==> !occurs_in(content@, #[trigger] trailing_comma(k)) {
            lemma_bun_clean_text_unchanged(content@);
        }
    }
    let text = chars_of(content);
    let (p6, r6) = brace_patterns(6);
    let (p4, r4) = brace_patterns(4);
    let (p2, r2) = brace_patterns(2);
    let (p0, r0) = brace_patterns(0);
    let a = replace_chars(&text, &p6, &r6);
    let b = replace_chars(&a, &p4, &r4);
    let c = replace_chars(&b, &p2, &r2);
    let d = replace_chars(&c, &p0, &r0);
    string_from_chars(&d)
}

/// Whether `x` occurs in `s`, starting at some position.
pub open spec fn occurs_in(s: Seq<char>, x: Seq<char>) -> bool {
    exists|i: int| 0 <= i <= s.len() && x.is_prefix_of(#[trigger] s.skip(i))
}

/// `x` starts at no position of `s`, checked from the front.
spec fn free_of(s: Seq<char>, x: Seq<char>) -> bool
    decreases s.len(),
{
    if s.len() == 0 {
        true
    } else {
        !x.is_prefix_of(s) && free_of(s.drop_first(), x)
    }
}

proof fn lemma_free_of_iff(s: Seq<char>, x: Seq<char>)
    requires
        x.len() > 0,
    ensures
        free_of(s, x) <==> !occurs_in(s, x),
    decreases s.len(),
{
    if s.len() == 0 {
        assert forall|i: int| 0 <= i <= s.len() implies !x.is_prefix_of(#[trigger] s.skip(i)) by {}
    } else {
        let s1 = s.drop_first();
        lemma_free_of_iff(s1, x);
        assert(s.skip(0) =~= s);
        assert forall|i: int| 1 <= i <= s.len() implies #[trigger] s.skip(i) =~= s1.skip(i - 1) by {}
        if occurs_in(s, x) {
            let i = choose|i: int| 0 <= i <= s.len() && x.is_prefix_of(#[trigger] s.skip(i));
            if i > 0 {
                assert(s.skip(i) =~= s1.skip(i - 1));
                assert(occurs_in(s1, x));
            }
        }
        if occurs_in(s1, x) {
            let i = choose|i: int| 0 <= i <= s1.len() && x.is_prefix_of(#[trigger] s1.skip(i));
            assert(s.skip(i + 1) =~= s1.skip(i));
        }
    }
}

proof fn lemma_trailing_comma_shape(k: nat)
    ensures
        trailing_comma(k) == seq![','] + no_trailing_comma(k),
        trailing_comma(k).len() == k + 3,
        no_trailing_comma(k).len() == k + 2,
        no_trailing_comma(k)[0] == '\n',
        forall|i: int| 1 <= i <= k ==> #[trigger] no_trailing_comma(k)[i] == ' ',
        no_trailing_comma(k)[k + 1 as int] == '}',
        forall|i: int| 0 <= i < k + 2 ==> #[trigger] no_trailing_comma(k)[i] != ',',
        forall|i: int| 1 <= i < k + 2 ==> #[trigger] no_trailing_comma(k)[i] != '\n',
{
    assert(trailing_comma(k) =~= seq![','] + no_trailing_comma(k));
}

proof fn lemma_free_of_short(s: Seq<char>, x: Seq<char>)
    requires
        s.len() < x.len(),
    ensures
        free_of(s, x),
    decreases s.len(),
{
    if s.len() > 0 {
        lemma_free_of_short(s.drop_first(), x);
    }
}

proof fn lemma_free_of_skip(s: Seq<char>, x: Seq<char>, n: int)
    requires
        free_of(s, x),
        0 <= n <= s.len(),
    ensures
        free_of(s.skip(n), x),
    decreases n,
{
    if n == 0 {
        assert(s.skip(0) =~= s);
    } else {
        lemma_free_of_skip(s.drop_first(), x, n - 1);
        assert(s.drop_first().skip(n - 1) =~= s.skip(n));
    }
}

proof fn lemma_free_of_prepend(w: Seq<char>, t: Seq<char>, x: Seq<char>)
    requires
        free_of(t, x),
        x.len() > 0,
        forall|i: int| 0 <= i < w.len() ==> #[trigger] w[i] != x[0],
    ensures
        free_of(w + t, x),
    decreases w.len(),
{
    if w.len() > 0 {
        lemma_free_of_prepend(w.drop_first(), t, x);
        assert((w + t).drop_first() =~= w.drop_first() + t);
        if x.is_prefix_of(w + t) {
            assert(x[0] == (w + t)[0]);
            assert(w[0] != x[0]);
        }
    } else {
        assert(w + t =~= t);
    }
}

proof fn lemma_prefix_step(y: Seq<char>, t: Seq<char>)
    requires
        y.len() > 0,
    ensures
        y.is_prefix_of(t) <==> (t.len() > 0 && y[0] == t[0] && y.drop_first().is_prefix_of(t.drop_first())),
{
    if y.is_prefix_of(t) {
        assert(y[0] == t.subrange(0, y.len() as int)[0]);
        assert(y.drop_first() =~= t.drop_first().subrange(0, y.len() - 1));
    }
    if t.len() > 0 && y[0] == t[0] && y.drop_first().is_prefix_of(t.drop_first()) {
        assert forall|i: int| 0 <= i < y.len() implies y[i] == #[trigger] t[i] by {
            if i > 0 {
                assert(y[i] == y.drop_first()[i - 1]);
                assert(y.drop_first()[i - 1] == t.drop_first().subrange(0, y.len() - 1)[i - 1]);
            }
        }
        assert(y =~= t.subrange(0, y.len() as int));
    }
}

/// One pass of removing the comma before `"\n" + k spaces + "}"`.
spec fn drop_pass(s: Seq<char>, k: nat) -> Seq<char> {
    replace_all(s, trailing_comma(k), no_trailing_comma(k))
}

proof fn lemma_drop_pass_unfold(s: Seq<char>, k: nat)
    ensures
        s.len() < k + 3 ==> drop_pass(s, k) == s,
        s.len() >= k + 3 && trailing_comma(k).is_prefix_of(s) ==> drop_pass(s, k) == no_trailing_comma(k)
            + drop_pass(s.skip(k + 3 as int), k),
        s.len() >= k + 3 && !trailing_comma(k).is_prefix_of(s) ==> drop_pass(s, k) == seq![s[0]]
            + drop_pass(s.drop_first(), k),
{
    lemma_trailing_comma_shape(k);
}

/// A prefix of a pass's result free of newlines is a prefix of its input.
proof fn lemma_pass_plain_prefix(t: Seq<char>, k: nat, w: Seq<char>)
    requires
        forall|i: int| 0 <= i < w.len() ==> #[trigger] w[i] != '\n',
        w.is_prefix_of(drop_pass(t, k)),
    ensures
        w.is_prefix_of(t),
    decreases t.len(),
{
    lemma_trailing_comma_shape(k);
    lemma_drop_pass_unfold(t, k);
    let r = drop_pass(t, k);
    if w.len() == 0 {
        assert(w =~= t.subrange(0, 0));
    } else if t.len() < k + 3 {
    } else if trailing_comma(k).is_prefix_of(t) {
        assert(w[0] == r[0]);
        assert(r[0] == no_trailing_comma(k)[0]);
    } else {
        let t1 = t.drop_first();
        let r1 = drop_pass(t1, k);
        assert(r =~= seq![t[0]] + r1);
        assert(r.drop_first() =~= r1);
        lemma_prefix_step(w, r);
        assert forall|i: int| 0 <= i < w.drop_first().len() implies #[trigger] w.drop_first()[i] != '\n' by {
            assert(w.drop_first()[i] == w[i + 1]);
        }
        lemma_pass_plain_prefix(t1, k, w.drop_first());
        lemma_prefix_step(w, t);
    }
}

/// A closing brace at indent `j` that starts a pass's result started its
/// input, or (for the pass's own indent) a trailing comma did.
proof fn lemma_pass_brace_prefix(t: Seq<char>, k: nat, j: nat)
    requires
        no_trailing_comma(j).is_prefix_of(drop_pass(t, k)),
    ensures
        no_trailing_comma(j).is_prefix_of(t) || (j == k && trailing_comma(k).is_prefix_of(t)),
{
    lemma_trailing_comma_shape(k);
    lemma_trailing_comma_shape(j);
    lemma_drop_pass_unfold(t, k);
    let r = drop_pass(t, k);
    let qj = no_trailing_comma(j);
    let qk = no_trailing_comma(k);
    if t.len() < k + 3 {
    } else if trailing_comma(k).is_prefix_of(t) {
        if j != k {
            let m: int = if j < k { j + 1 as int } else { k + 1 as int };
            assert(r[m] == qj[m]);
            assert(r[m] == qk[m]);
            if j < k {
                assert(qj[m] == '}' && qk[m] == ' ');
            } else {
                assert(qk[m] == '}' && qj[m] == ' ');
            }
        }
    } else {
        let t1 = t.drop_first();
        let r1 = drop_pass(t1, k);
        assert(r =~= seq![t[0]] + r1);
        assert(r.drop_first() =~= r1);
        lemma_prefix_step(qj, r);
        let w = qj.drop_first();
        assert forall|i: int| 0 <= i < w.len() implies #[trigger] w[i] != '\n' by {
            assert(w[i] == qj[i + 1]);
        }
        lemma_pass_plain_prefix(t1, k, w);
        lemma_prefix_step(qj, t);
    }
}

/// A trailing comma at another indent that starts a pass's result started
/// its input.
proof fn lemma_pass_comma_prefix(t: Seq<char>, k: nat, j: nat)
    requires
        j != k,
        trailing_comma(j).is_prefix_of(drop_pass(t, k)),
    ensures
        trailing_comma(j).is_prefix_of(t),
{
    lemma_trailing_comma_shape(k);
    lemma_trailing_comma_shape(j);
    lemma_drop_pass_unfold(t, k);
    let r = drop_pass(t, k);
    let pj = trailing_comma(j);
    if t.len() < k + 3 {
    } else if trailing_comma(k).is_prefix_of(t) {
        assert(pj[0] == r[0]);
    } else {
        let t1 = t.drop_first();
        let r1 = drop_pass(t1, k);
        assert(r =~= seq![t[0]] + r1);
        assert(r.drop_first() =~= r1);
        lemma_prefix_step(pj, r);
        assert(pj.drop_first() =~= no_trailing_comma(j));
        lemma_pass_brace_prefix(t1, k, j);
        lemma_prefix_step(pj, t);
    }
}

/// A pass leaves none of its own trailing commas, unless one had a comma
/// just before it.
proof fn lemma_pass_removes_own(s: Seq<char>, k: nat)
    requires
        free_of(s, seq![','] + trailing_comma(k)),
    ensures
        free_of(drop_pass(s, k), trailing_comma(k)),
    decreases s.len(),
{
    lemma_trailing_comma_shape(k);
    lemma_drop_pass_unfold(s, k);
    let p = trailing_comma(k);
    let r = drop_pass(s, k);
    if s.len() < k + 3 {
        lemma_free_of_short(s, p);
    } else if p.is_prefix_of(s) {
        let s2 = s.skip(k + 3 as int);
        lemma_free_of_skip(s, seq![','] + p, k + 3 as int);
        lemma_pass_removes_own(s2, k);
        lemma_free_of_prepend(no_trailing_comma(k), drop_pass(s2, k), p);
    } else {
        let s1 = s.drop_first();
        let r1 = drop_pass(s1, k);
        lemma_pass_removes_own(s1, k);
        assert(r =~= seq![s[0]] + r1);
        assert(r.drop_first() =~= r1);
        if p.is_prefix_of(r) {
            lemma_prefix_step(p, r);
            assert(p.drop_first() =~= no_trailing_comma(k));
            lemma_pass_brace_prefix(s1, k, k);
            lemma_prefix_step(p, s);
            let d = seq![','] + p;
            assert(d.drop_first() =~= p);
            lemma_prefix_step(d, s);
        }
    }
}

/// A pass creates no trailing comma of another indent.
proof fn lemma_pass_keeps_other(s: Seq<char>, k: nat, j: nat)
    requires
        j != k,
        free_of(s, trailing_comma(j)),
    ensures
        free_of(drop_pass(s, k), trailing_comma(j)),
    decreases s.len(),
{
    lemma_trailing_comma_shape(k);
    lemma_trailing_comma_shape(j);
    lemma_drop_pass_unfold(s, k);
    let p = trailing_comma(j);
    let r = drop_pass(s, k);
    if s.len() < k + 3 {
    } else if trailing_comma(k).is_prefix_of(s) {
        let s2 = s.skip(k + 3 as int);
        lemma_free_of_skip(s, p, k + 3 as int);
        lemma_pass_keeps_other(s2, k, j);
        lemma_free_of_prepend(no_trailing_comma(k), drop_pass(s2, k), p);
    } else {
        let s1 = s.drop_first();
        let r1 = drop_pass(s1, k);
        lemma_pass_keeps_other(s1, k, j);
        assert(r =~= seq![s[0]] + r1);
        assert(r.drop_first() =~= r1);
        if p.is_prefix_of(r) {
            lemma_prefix_step(p, r);
            assert(p.drop_first() =~= no_trailing_comma(j));
            lemma_pass_brace_prefix(s1, k, j);
            lemma_prefix_step(p, s);
        }
    }
}

/// A pass creates no doubled trailing comma of another indent.
proof fn lemma_pass_keeps_other_doubled(s: Seq<char>, k: nat, j: nat)
    requires
        j != k,
        free_of(s, seq![','] + trailing_comma(j)),
    ensures
        free_of(drop_pass(s, k), seq![','] + trailing_comma(j)),
    decreases s.len(),
{
    lemma_trailing_comma_shape(k);
    lemma_trailing_comma_shape(j);
    lemma_drop_pass_unfold(s, k);
    let p = seq![','] + trailing_comma(j);
    let r = drop_pass(s, k);
    if s.len() < k + 3 {
    } else if trailing_comma(k).is_prefix_of(s) {
        let s2 = s.skip(k + 3 as int);
        lemma_free_of_skip(s, p, k + 3 as int);
        lemma_pass_keeps_other_doubled(s2, k, j);
        lemma_free_of_prepend(no_trailing_comma(k), drop_pass(s2, k), p);
    } else {
        let s1 = s.drop_first();
        let r1 = drop_pass(s1, k);
        lemma_pass_keeps_other_doubled(s1, k, j);
        assert(r =~= seq![s[0]] + r1);
        assert(r.drop_first() =~= r1);
        if p.is_prefix_of(r) {
            lemma_prefix_step(p, r);
            assert(p.drop_first() =~= trailing_comma(j));
            lemma_pass_comma_prefix(s1, k, j);
            lemma_prefix_step(p, s);
        }
    }
}

/// A pass changes nothing in a text without its trailing comma.
proof fn lemma_pass_identity(s: Seq<char>, k: nat)
    requires
        free_of(s, trailing_comma(k)),
    ensures
        drop_pass(s, k) == s,
    decreases s.len(),
{
    lemma_trailing_comma_shape(k);
    lemma_drop_pass_unfold(s, k);
    if s.len() >= k + 3 {
        lemma_pass_identity(s.drop_first(), k);
        assert(seq![s[0]] + s.drop_first() =~= s);
    }
}

/// Cleaning removes every trailing comma that Bun writes before a closing
/// brace indented by 0, 2, 4 or 6 spaces: the cleaned text holds no
/// `",\n" + k spaces + "}"` for those `k`. (The passes are single, as
/// `str::replace` is, so a comma doubled in front of such a pattern leaves
/// one comma behind; those texts are left out.)
pub proof fn lemma_bun_trailing_commas_removed(content: Seq<char>)
    requires
        forall|k: nat|
            (k == 0 || k == 2 || k == 4 || k == 6) ==> !occurs_in(content, #[trigger] (seq![','] + trailing_comma(k))),
    ensures
        forall|k: nat|
            (k == 0 || k == 2 || k == 4 || k == 6) ==> !occurs_in(bun_cleaned(content), #[trigger] trailing_comma(k)),
{
    let d = |k: nat| seq![','] + trailing_comma(k);
    lemma_free_of_iff(content, d(6));
    lemma_free_of_iff(content, d(4));
    lemma_free_of_iff(content, d(2));
    lemma_free_of_iff(content, d(0));
    assert(!occurs_in(content, seq![','] + trailing_comma(6)));
    assert(!occurs_in(content, seq![','] + trailing_comma(4)));
    assert(!occurs_in(content, seq![','] + trailing_comma(2)));
    assert(!occurs_in(content, seq![','] + trailing_comma(0)));
    let a = drop_pass(content, 6);
    lemma_pass_removes_own(content, 6);
    lemma_pass_keeps_other_doubled(content, 6, 4);
    lemma_pass_keeps_other_doubled(content, 6, 2);
    lemma_pass_keeps_other_doubled(content, 6, 0);
    let b = drop_pass(a, 4);
    lemma_pass_removes_own(a, 4);
    lemma_pass_keeps_other(a, 4, 6);
    lemma_pass_keeps_other_doubled(a, 4, 2);
    lemma_pass_keeps_other_doubled(a, 4, 0);
    let c = drop_pass(b, 2);
    lemma_pass_removes_own(b, 2);
    lemma_pass_keeps_other(b, 2, 6);
    lemma_pass_keeps_other(b, 2, 4);
    lemma_pass_keeps_other_doubled(b, 2, 0);
    let e = drop_pass(c, 0);
    lemma_pass_removes_own(c, 0);
    lemma_pass_keeps_other(c, 0, 6);
    lemma_pass_keeps_other(c, 0, 4);
    lemma_pass_keeps_other(c, 0, 2);
    assert(e == bun_cleaned(content));
    lemma_trailing_comma_shape(0);
    lemma_trailing_comma_shape(2);
    lemma_trailing_comma_shape(4);
    lemma_trailing_comma_shape(6);
    lemma_free_of_iff(e, trailing_comma(0));
    lemma_free_of_iff(e, trailing_comma(2));
    lemma_free_of_iff(e, trailing_comma(4));
    lemma_free_of_iff(e, trailing_comma(6));
}

/// A text with none of these trailing commas is left as it is.
pub proof fn lemma_bun_clean_text_unchanged(content: Seq<char>)
    requires
        forall|k: nat| (k == 0 || k == 2 || k == 4 || k == 6) ==> !occurs_in(content, #[trigger] trailing_comma(k)),
    ensures
        bun_cleaned(content) == content,
{
    lemma_trailing_comma_shape(0);
    lemma_trailing_comma_shape(2);
    lemma_trailing_comma_shape(4);
    lemma_trailing_comma_shape(6);
    assert(!occurs_in(content, trailing_comma(6)));
    assert(!occurs_in(content, trailing_comma(4)));
    assert(!occurs_in(content, trailing_comma(2)));
    assert(!occurs_in(content, trailing_comma(0)));
    lemma_free_of_iff(content, trailing_comma(6));
    lemma_free_of_iff(content, trailing_comma(4));
    lemma_free_of_iff(content, trailing_comma(2));
    lemma_free_of_iff(content, trailing_comma(0));
    lemma_pass_identity(content, 6);
    lemma_pass_identity(content, 4);
    lemma_pass_identity(content, 2);
    lemma_pass_identity(content, 0);
}

// ---------------------------------------------------------------- pnpm-lock.yaml

/// The text of an optional YAML string value, or the empty text.
pub open spec fn yaml_text(v: Option<YamlValue>) -> Seq<char> {
    match v {
        Some(x) => match yaml_str(x) {
            Some(s) => s,
            None => Seq::empty(),
        },
        None => Seq::empty(),
    }
}

/// The string under `resolution.<field>` of a package entry, or the empty text.
pub open spec fn resolution_field(info: Seq<(YamlValue, YamlValue)>, field: Seq<char>) -> Seq<char> {
    match mapping_lookup(info, "resolution"@) {
        Some(r) => yaml_text(yaml_get(r, field)),
        None => Seq::empty(),
    }
}

/// What one entry of the `packages` mapping writes: a package named by the
/// (string) key, when the entry is a mapping with a nonempty `version` and a
/// `resolution` that gives a tarball or an integrity hash. Without a tarball
/// the integrity hash stands in its place.
pub open spec fn pnpm_entry_writes(key: YamlValue, value: YamlValue) -> Writes {
    match (yaml_str(key), yaml_mapping(value)) {
        (Some(name), Some(info)) => {
            let version = yaml_text(mapping_lookup(info, "version"@));
            let tarball = resolution_field(info, "tarball"@);
            let integrity = resolution_field(info, "integrity"@);
            if version.len() == 0 || (tarball.len() == 0 && integrity.len() == 0) {
                Seq::empty()
            } else {
                seq![
                    (
                        name,
                        LockedPackageView {
                            version,
                            tarball: if tarball.len() > 0 {
                                tarball
                            } else {
                                integrity
                            },
                            shasum: integrity,
                            dependencies: None,
                        },
                    ),
                ]
            }
        },
        _ => Seq::empty(),
    }
}

/// What the first `i` entries of the `packages` mapping write.
pub open spec fn pnpm_writes_upto(entries: Seq<(YamlValue, YamlValue)>, i: int) -> Writes
    decreases i,
{
    if i <= 0 {
        Seq::empty()
    } else {
        pnpm_writes_upto(entries, i - 1) + pnpm_entry_writes(entries[i - 1].0, entries[i - 1].1)
    }
}

/// Everything a pnpm-lock.yaml document writes.
pub open spec fn pnpm_writes(doc: YamlValue) -> Writes {
    match yaml_get(doc, "packages"@) {
        Some(p) => match yaml_mapping(p) {
            Some(entries) => pnpm_writes_upto(entries, entries.len() as int),
            None => Seq::empty(),
        },
        None => Seq::empty(),
    }
}

fn yaml_text_of(v: Option<&YamlValue>) -> (r: Vec<char>)
    ensures
        r@ == yaml_text(match v {
            Some(x) => Some(*x),
            None => None,
        }),
{
    match v {
        Some(x) => match as_str(x) {
            Some(s) => chars_of(s.as_str()),
            None => Vec::new(),
        },
        None => Vec::new(),
    }
}

fn resolution_field_of(info: &Vec<(YamlValue, YamlValue)>, field: &str) -> (r: Vec<char>)
    ensures
        r@ == resolution_field(info@, field@),
{
    match lookup(info, "resolution") {
        Some(res) => yaml_text_of(get(res, field)),
        None => Vec::new(),
    }
}

/// Reads the `packages` mapping of a pnpm-lock.yaml document (version 6 and later).
pub fn import_pnpm_lockfile(doc: &YamlValue) -> (l: Lockfile)
    ensures
        l@ == written(pnpm_writes(*doc)),
{
    let mut packages: StrMap<LockedPackage> = StrMap::new();
    proof {
        assert(packages_view(packages) =~= written(Seq::empty()));
    }
    match get(doc, "packages") {
        Some(p) => match as_mapping(p) {
            Some(entries) => {
                let n = entries.len();
                let mut i: usize = 0;
                while i < n
                    invariant
                        n == entries@.len(),
                        i <= n,
                        packages_view(packages) == written(pnpm_writes_upto(entries@, i as int)),
                    decreases n - i,
                {
                    let key = &entries[i].0;
                    let value = &entries[i].1;
                    let ghost w0 = pnpm_writes_upto(entries@, i as int);
                    let ghost ew = pnpm_entry_writes(*key, *value);
                    proof {
                        assert(pnpm_writes_upto(entries@, i + 1) == w0 + ew);
                    }
                    let mut wrote = false;
                    match (as_str(key), as_mapping(value)) {
                        (Some(name), Some(info)) => {
                            let version = yaml_text_of(lookup(info, "version"));
                            let tarball = resolution_field_of(info, "tarball");
                            let integrity = resolution_field_of(info, "integrity");
                            if !(version.len() == 0 || (tarball.len() == 0 && integrity.len() == 0)) {
                                let entry = LockedPackage {
                                    version: string_from_chars(&version),
                                    tarball: if tarball.len() > 0 {
                                        string_from_chars(&tarball)
                                    } else {
                                        string_from_chars(&integrity)
                                    },
                                    shasum: string_from_chars(&integrity),
                                    dependencies: None,
                                };
                                let ns = name.clone();
                                proof {
                                    assert(ew == seq![(ns@, entry@)]);
                                    assert(w0 + ew =~= w0.push((ns@, entry@)));
                                }
                                write_entry(&mut packages, ns, entry, Ghost(w0));
                                wrote = true;
                            }
                        },
                        _ => {},
                    }
                    proof {
                        if !wrote {
                            assert(ew =~= Seq::<(Seq<char>, LockedPackageView)>::empty());
                            assert(w0 + ew =~= w0);
                        }
                    }
                    i = i + 1;
                }
            },
            None => {},
        },
        None => {},
    }
    Lockfile { packages }
}

} // verus!
