use rnpm::manifest::{add_dependency, remove_dependency, PackageJson};
use rnpm::strmap::StrMap;
use rnpm::value::JsonValue;

fn smap(entries: &[(&str, &str)]) -> StrMap<String> {
    let mut m = StrMap::new();
    for (k, v) in entries {
        m.insert(k.to_string(), v.to_string());
    }
    m
}

#[test]
fn dependencies_then_dev_dependencies_are_resolved() {
    let p = PackageJson {
        name: "app".to_string(),
        version: "1.0.0".to_string(),
        dependencies: Some(smap(&[("react", "^18.0.0"), ("lodash", "4.x")])),
        dev_dependencies: Some(smap(&[("jest", "^29.0.0")])),
        scripts: Some(smap(&[("test", "jest --ci")])),
    };
    let r = p.packages_to_resolve();
    assert_eq!(
        r,
        vec![
            ("react".to_string(), "^18.0.0".to_string()),
            ("lodash".to_string(), "4.x".to_string()),
            ("jest".to_string(), "^29.0.0".to_string()),
        ]
    );
    assert_eq!(p.script("test").unwrap(), "jest --ci");
    assert!(p.script("build").is_none());
}

#[test]
fn manifest_without_sections() {
    let p = PackageJson { name: "x".to_string(), version: "0.0.1".to_string(), dependencies: None, dev_dependencies: None, scripts: None };
    assert!(p.packages_to_resolve().is_empty());
    assert!(p.script("test").is_none());
}

fn section<'a>(doc: &'a JsonValue, key: &str) -> Option<&'a StrMap<JsonValue>> {
    match doc.get(key) {
        Some(JsonValue::Object(m)) => Some(m),
        _ => None,
    }
}

#[test]
fn adding_creates_or_extends_the_section() {
    let mut root = StrMap::new();
    root.insert("name".to_string(), JsonValue::String("app".to_string()));
    let mut doc = JsonValue::Object(root);
    add_dependency(&mut doc, "lodash", "latest", false);
    add_dependency(&mut doc, "jest", "latest", true);
    add_dependency(&mut doc, "lodash", "^4.0.0", false);
    let deps = section(&doc, "dependencies").unwrap();
    assert_eq!(deps.len(), 1);
    assert_eq!(deps.get("lodash").unwrap().as_str().unwrap(), "^4.0.0");
    let dev = section(&doc, "devDependencies").unwrap();
    assert_eq!(dev.get("jest").unwrap().as_str().unwrap(), "latest");
    assert_eq!(doc.get("name").unwrap().as_str().unwrap(), "app");
}

#[test]
fn removing_drops_from_both_sections() {
    let mut doc = JsonValue::Object(StrMap::new());
    add_dependency(&mut doc, "a", "1", false);
    add_dependency(&mut doc, "b", "1", false);
    add_dependency(&mut doc, "a", "1", true);
    remove_dependency(&mut doc, "a");
    let deps = section(&doc, "dependencies").unwrap();
    assert!(deps.get("a").is_none());
    assert!(deps.get("b").is_some());
    assert_eq!(section(&doc, "devDependencies").unwrap().len(), 0);
    let mut empty = JsonValue::Object(StrMap::new());
    remove_dependency(&mut empty, "a");
    assert!(section(&empty, "dependencies").is_none());
}

#[test]
fn adding_then_removing_gives_the_manifest_back() {
    let mut deps = StrMap::new();
    deps.insert("react".to_string(), JsonValue::String("^18.0.0".to_string()));
    let mut root = StrMap::new();
    root.insert("name".to_string(), JsonValue::String("app".to_string()));
    root.insert("dependencies".to_string(), JsonValue::Object(deps));
    let mut doc = JsonValue::Object(root);
    add_dependency(&mut doc, "lodash", "^4.17.21", false);
    assert_eq!(section(&doc, "dependencies").unwrap().len(), 2);
    remove_dependency(&mut doc, "lodash");
    let deps = section(&doc, "dependencies").unwrap();
    assert_eq!(deps.len(), 1);
    assert_eq!(deps.get("react").unwrap().as_str().unwrap(), "^18.0.0");
    assert_eq!(doc.get("name").unwrap().as_str().unwrap(), "app");
    assert!(doc.get("devDependencies").is_none());

    // A section that adding had to create stays, empty.
    add_dependency(&mut doc, "jest", "latest", true);
    remove_dependency(&mut doc, "jest");
    assert_eq!(section(&doc, "devDependencies").unwrap().len(), 0);
    assert_eq!(section(&doc, "dependencies").unwrap().len(), 1);
}
