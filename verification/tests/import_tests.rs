use rnpm::lockfile_import::{
    clean_bun_lock_text, extract_package_name, extract_package_name_from_yarn, import_bun_lockfile,
    import_npm_lockfile, import_pnpm_lockfile, import_yarn_lockfile, BunLockfile, NpmLockfile, NpmPackage,
};
use rnpm::strmap::StrMap;
use rnpm::value::{JsonValue, YamlValue};

#[test]
fn npm_paths_become_package_names() {
    assert_eq!(extract_package_name("node_modules/lodash"), "lodash");
    assert_eq!(extract_package_name("node_modules/@babel/core"), "@babel/core");
    assert_eq!(extract_package_name("node_modules/node_modules/x"), "x");
    assert_eq!(extract_package_name("node_modules/a/node_modules/b"), "a/node_modules/b");
    assert_eq!(extract_package_name("packages/app"), "packages/app");
}

#[test]
fn yarn_ids_become_package_names() {
    assert_eq!(extract_package_name_from_yarn("lodash@^4.17.21"), "lodash");
    // A leading `@` belongs to a scoped name; the version follows the next `@`.
    assert_eq!(extract_package_name_from_yarn("@babel/core@^7.0.0"), "@babel/core");
    assert_eq!(extract_package_name_from_yarn("@babel/core@7.0.0"), "@babel/core");
    assert_eq!(extract_package_name_from_yarn("@scoped-only"), "@scoped-only");
    assert_eq!(extract_package_name_from_yarn("lodash@npm:^4.17.21"), "lodash");
    assert_eq!(extract_package_name_from_yarn("plain"), "plain");
    assert_eq!(extract_package_name_from_yarn(""), "");
}

const YARN_LOCK: &str = "# THIS IS AN AUTOGENERATED FILE.\n# yarn lockfile v1\n\n\nlodash@^4.17.0, lodash@^4.17.21:\n  version \"4.17.21\"\n  resolved \"https://registry.yarnpkg.com/lodash/-/lodash-4.17.21.tgz#abc\"\n  integrity sha512-v2kDEe57\n\nms@2.1.2:\n  version \"2.1.2\"\n  resolved \"https://registry.yarnpkg.com/ms/-/ms-2.1.2.tgz\"\n  integrity sha512-sGkPx+VjMtmA\n  dependencies:\n    foo \"^1.0.0\"\n\nno-integrity@1.0.0:\n  version \"1.0.0\"\n  resolved \"https://x/no.tgz\"\n\ntrailing@1.0.0:\n  version \"1.0.0\"\n  resolved \"https://x/t.tgz\"\n  integrity sha1-xyz\n";

#[test]
fn yarn_lock_blocks_become_entries() {
    let l = import_yarn_lockfile(YARN_LOCK);
    let lodash = l.packages.get("lodash").unwrap();
    assert_eq!(lodash.version, "4.17.21");
    assert_eq!(lodash.tarball, "https://registry.yarnpkg.com/lodash/-/lodash-4.17.21.tgz#abc");
    assert_eq!(lodash.shasum, "sha512-v2kDEe57");
    assert!(lodash.dependencies.is_none());
    let ms = l.packages.get("ms").unwrap();
    assert_eq!(ms.version, "2.1.2");
    assert_eq!(ms.shasum, "sha512-sGkPx+VjMtmA");
    // A block without an integrity hash is skipped.
    assert!(l.packages.get("no-integrity").is_none());
    // The last block ends with the text and is written too.
    let trailing = l.packages.get("trailing").unwrap();
    assert_eq!(trailing.tarball, "https://x/t.tgz");
    assert_eq!(trailing.shasum, "sha1-xyz");
    // "lodash", "ms" and "trailing": the lodash header is read as one id.
    assert_eq!(l.packages.len(), 3);
}

#[test]
fn yarn_lock_with_crlf_lines() {
    let text = "a@1.0.0:\r\n  version \"1.0.0\"\r\n  resolved \"https://x/a.tgz\"\r\n  integrity sha1-a\r\n\r\n";
    let l = import_yarn_lockfile(text);
    let a = l.packages.get("a").unwrap();
    assert_eq!(a.version, "1.0.0");
    assert_eq!(a.shasum, "sha1-a");
}

#[test]
fn yarn_lock_last_block_without_blank_line() {
    let text = "lodash@^4.17.21:\n  version \"4.17.21\"\n  resolved \"https://r.org/l.tgz\"\n  integrity sha512-abc\n";
    let l = import_yarn_lockfile(text);
    assert_eq!(l.packages.len(), 1);
    let lodash = l.packages.get("lodash").unwrap();
    assert_eq!(lodash.version, "4.17.21");
    assert_eq!(lodash.tarball, "https://r.org/l.tgz");
    assert_eq!(lodash.shasum, "sha512-abc");
    assert!(lodash.dependencies.is_none());
}

#[test]
fn yarn_lock_quoted_header() {
    let text = "\"package@^1.0.0\":\n  version \"1.0.0\"\n  resolved \"https://r.org/p.tgz\"\n  integrity sha512-p\n\n";
    let l = import_yarn_lockfile(text);
    assert_eq!(l.packages.len(), 1);
    assert_eq!(l.packages.get("package").unwrap().version, "1.0.0");
}

#[test]
fn yarn_lock_scoped_quoted_header() {
    let text = "\"@babel/core@^7.0.0\", \"@babel/core@^7.1.0\":\n  version \"7.1.2\"\n  resolved \"https://r.org/core.tgz\"\n  integrity sha512-c\n\nms@2, ms@^2.1.0:\n  version \"2.1.3\"\n  resolved \"https://r.org/m.tgz\"\n  integrity sha512-m\n";
    let l = import_yarn_lockfile(text);
    assert_eq!(l.packages.len(), 2);
    assert_eq!(l.packages.get("@babel/core").unwrap().version, "7.1.2");
    assert_eq!(l.packages.get("ms").unwrap().shasum, "sha512-m");
}

#[test]
fn yarn_lock_header_is_one_id() {
    // The whole header is one id, so only the first name is written.
    let text = "a@^1, b@^2:\n  version \"1.0.0\"\n  resolved \"https://r.org/a.tgz\"\n  integrity sha1-a\n";
    let l = import_yarn_lockfile(text);
    assert_eq!(l.packages.len(), 1);
    assert_eq!(l.packages.get("a").unwrap().version, "1.0.0");
    assert!(l.packages.get("b").is_none());
}

#[test]
fn empty_yarn_lock_has_no_entries() {
    assert_eq!(import_yarn_lockfile("").packages.len(), 0);
}

fn npm_pkg(version: Option<&str>, resolved: Option<&str>, integrity: Option<&str>) -> NpmPackage {
    NpmPackage {
        version: version.map(|s| s.to_string()),
        resolved: resolved.map(|s| s.to_string()),
        integrity: integrity.map(|s| s.to_string()),
        dependencies: None,
    }
}

#[test]
fn npm_lock_packages_become_entries() {
    let mut pkgs = StrMap::new();
    pkgs.insert("".to_string(), npm_pkg(Some("1.0.0"), None, None));
    pkgs.insert("node_modules/@scope/x".to_string(), npm_pkg(Some("2.0.0"), Some("https://r/x.tgz"), Some("sha512-x")));
    pkgs.insert("node_modules/y".to_string(), npm_pkg(Some("3.0.0"), None, None));
    pkgs.insert("node_modules/linked".to_string(), npm_pkg(None, Some("../linked"), None));
    let lock = NpmLockfile { lockfile_version: 3, packages: Some(pkgs) };
    let l = import_npm_lockfile(&lock);
    assert_eq!(l.packages.len(), 2);
    let x = l.packages.get("@scope/x").unwrap();
    assert_eq!(x.version, "2.0.0");
    assert_eq!(x.tarball, "https://r/x.tgz");
    assert_eq!(x.shasum, "sha512-x");
    let y = l.packages.get("y").unwrap();
    assert_eq!(y.tarball, "");
    assert_eq!(y.shasum, "");
}

#[test]
fn npm_lock_without_packages_is_empty() {
    let lock = NpmLockfile { lockfile_version: 1, packages: None };
    assert_eq!(import_npm_lockfile(&lock).packages.len(), 0);
}

fn jstr(s: &str) -> JsonValue {
    JsonValue::String(s.to_string())
}

#[test]
fn bun_lock_entries_get_registry_tarballs() {
    let mut pkgs = StrMap::new();
    pkgs.insert(
        "react".to_string(),
        JsonValue::Array(vec![jstr("react@19.2.4"), jstr(""), JsonValue::Object(StrMap::new()), jstr("sha512-r")]),
    );
    pkgs.insert(
        "@types/node".to_string(),
        JsonValue::Array(vec![jstr("@types/node@20.1.0"), jstr(""), JsonValue::Null, jstr("sha512-t")]),
    );
    pkgs.insert("app".to_string(), JsonValue::Array(vec![jstr("app@"), jstr(""), JsonValue::Null, jstr("")]));
    pkgs.insert("short".to_string(), JsonValue::Array(vec![jstr("short@1.0.0")]));
    pkgs.insert("noat".to_string(), JsonValue::Array(vec![jstr("@noat"), jstr(""), JsonValue::Null, jstr("")]));
    let lock = BunLockfile { lockfile_version: Some(1), packages: Some(pkgs) };
    let l = import_bun_lockfile(&lock);
    assert_eq!(l.packages.len(), 2);
    let r = l.packages.get("react").unwrap();
    assert_eq!(r.version, "19.2.4");
    assert_eq!(r.tarball, "https://registry.npmjs.org/react/-/react-19.2.4.tgz");
    assert_eq!(r.shasum, "sha512-r");
    let t = l.packages.get("@types/node").unwrap();
    assert_eq!(t.tarball, "https://registry.npmjs.org/@types%2Fnode/-/node-20.1.0.tgz");
}

#[test]
fn bun_lock_trailing_commas_are_removed() {
    let text = "{\n  \"lockfileVersion\": 1,\n  \"packages\": {\n    \"a\": [\"a@1.0.0\", \"\", {}, \"sha\"],\n  },\n}";
    assert_eq!(
        clean_bun_lock_text(text),
        "{\n  \"lockfileVersion\": 1,\n  \"packages\": {\n    \"a\": [\"a@1.0.0\", \"\", {}, \"sha\"]\n  }\n}"
    );
    assert_eq!(clean_bun_lock_text("[1,2]"), "[1,2]");
}

fn ystr(s: &str) -> YamlValue {
    YamlValue::String(s.to_string())
}

fn ymap(entries: Vec<(&str, YamlValue)>) -> YamlValue {
    YamlValue::Mapping(entries.into_iter().map(|(k, v)| (ystr(k), v)).collect())
}

#[test]
fn pnpm_lock_packages_become_entries() {
    let packages = ymap(vec![
        (
            "/lodash@4.17.21",
            ymap(vec![
                ("version", ystr("4.17.21")),
                ("resolution", ymap(vec![("integrity", ystr("sha512-l"))])),
            ]),
        ),
        (
            "tarred@1.0.0",
            ymap(vec![
                ("version", ystr("1.0.0")),
                ("resolution", ymap(vec![("tarball", ystr("https://x/t.tgz")), ("integrity", ystr("sha512-t"))])),
            ]),
        ),
        ("noversion@1.0.0", ymap(vec![("resolution", ymap(vec![("integrity", ystr("sha"))]))])),
        ("nores@1.0.0", ymap(vec![("version", ystr("1.0.0"))])),
        (
            "tagged@2.0.0",
            YamlValue::Tagged(
                "!pkg".to_string(),
                Box::new(ymap(vec![
                    ("version", ystr("2.0.0")),
                    ("resolution", ymap(vec![("tarball", ystr("https://x/g.tgz"))])),
                ])),
            ),
        ),
    ]);
    let doc = ymap(vec![("lockfileVersion", ystr("6.0")), ("packages", packages)]);
    let l = import_pnpm_lockfile(&doc);
    assert_eq!(l.packages.len(), 3);
    let lodash = l.packages.get("/lodash@4.17.21").unwrap();
    assert_eq!(lodash.version, "4.17.21");
    assert_eq!(lodash.tarball, "sha512-l");
    assert_eq!(lodash.shasum, "sha512-l");
    let t = l.packages.get("tarred@1.0.0").unwrap();
    assert_eq!(t.tarball, "https://x/t.tgz");
    assert_eq!(t.shasum, "sha512-t");
    let g = l.packages.get("tagged@2.0.0").unwrap();
    assert_eq!(g.tarball, "https://x/g.tgz");
    assert_eq!(g.shasum, "");
}

#[test]
fn pnpm_lock_without_packages_is_empty() {
    let doc = ymap(vec![("lockfileVersion", ystr("6.0"))]);
    assert_eq!(import_pnpm_lockfile(&doc).packages.len(), 0);
    assert_eq!(import_pnpm_lockfile(&YamlValue::Null).packages.len(), 0);
}
