//! The project manifest (`package.json`): what to resolve, scripts, and
//! adding or removing a dependency.
use vstd::prelude::*;
use crate::registry::dep_entries;
use crate::strmap::StrMap;
use crate::value::JsonValue;

verus! {

/// The fields of `package.json` that are read.
pub struct PackageJson {
    pub name: String,
    pub version: String,
    pub dependencies: Option<StrMap<String>>,
    pub dev_dependencies: Option<StrMap<String>>,
    pub scripts: Option<StrMap<String>>,
}

/// Appends the (name, range) pairs of an optional dependency map.
fn push_entries(out: &mut Vec<(String, String)>, deps: &Option<StrMap<String>>)
    ensures
        final(out)@.map_values(|p: (String, String)| (p.0@, p.1@)) == old(out)@.map_values(
            |p: (String, String)| (p.0@, p.1@),
        ) + dep_entries(*deps),
{
    let ghost start = old(out)@.map_values(|p: (String, String)| (p.0@, p.1@));
    match deps {
        Some(m) => {
            let n = m.len();
            let mut i: usize = 0;
            while i < n
                invariant
                    n == m.key_order().len(),
                    i <= n,
                    out@.map_values(|p: (String, String)| (p.0@, p.1@)) == start + dep_entries(*deps).take(i as int),
                    *deps == Some(*m),
                decreases n - i,
            {
                let ghost before = out@;
                let k = m.key_at(i).clone();
                let v = m.value_at(i).clone();
                let ghost pair = (k@, v@);
                out.push((k, v));
                proof {
                    let d = dep_entries(*deps);
                    assert(out@.map_values(|p: (String, String)| (p.0@, p.1@)) =~= before.map_values(|p: (String, String)| (p.0@, p.1@)).push(pair));
                    assert(d[i as int] == pair);
                    assert(d.take(i + 1) =~= d.take(i as int).push(d[i as int]));
                }
                i = i + 1;
            }
            assert(dep_entries(*deps).take(n as int) =~= dep_entries(*deps));
        },
        None => {
            assert(start + dep_entries(*deps) =~= start);
        },
    }
}

impl PackageJson {
    /// Every dependency to resolve: the `dependencies`, then the `devDependencies`.
    pub fn packages_to_resolve(&self) -> (r: Vec<(String, String)>)
        ensures
            r@.map_values(|p: (String, String)| (p.0@, p.1@)) == dep_entries(self.dependencies)
                + dep_entries(self.dev_dependencies),
    {
        let mut r: Vec<(String, String)> = Vec::new();
        proof {
            assert(r@.map_values(|p: (String, String)| (p.0@, p.1@)) =~= Seq::<(Seq<char>, Seq<char>)>::empty());
        }
        push_entries(&mut r, &self.dependencies);
        push_entries(&mut r, &self.dev_dependencies);
        proof {
            assert(Seq::<(Seq<char>, Seq<char>)>::empty() + dep_entries(self.dependencies) =~= dep_entries(self.dependencies));
        }
        r
    }

    /// The command of script `name`, if the manifest has scripts and that one.
    pub fn script(&self, name: &str) -> (r: Option<String>)
        ensures
            match self.scripts {
                Some(s) => match r {
                    Some(c) => s@.dom().contains(name@) && c@ == s@[name@]@,
                    None => !s@.dom().contains(name@),
                },
                None => r is None,
            },
    {
        match &self.scripts {
            Some(s) => match s.get(name) {
                Some(c) => Some(c.clone()),
                None => None,
            },
            None => None,
        }
    }
}

/// The dependency section a new package goes to.
pub open spec fn dependency_key(dev: bool) -> Seq<char> {
    if dev {
        "devDependencies"@
    } else {
        "dependencies"@
    }
}

/// A manifest that adding to the section `key` can edit: an object whose
/// `key` member, if present, is an object.
pub open spec fn editable_for(doc: JsonValue, key: Seq<char>) -> bool {
    match doc {
        JsonValue::Object(m) => m@.dom().contains(key) ==> m@[key] is Object,
        _ => false,
    }
}

/// `after` is `before` with `name: range` set in the object member `key`
/// (created empty when absent), and nothing else changed.
pub open spec fn added_dependency(before: JsonValue, after: JsonValue, key: Seq<char>, name: Seq<char>, range: Seq<char>) -> bool {
    match (before, after) {
        (JsonValue::Object(m0), JsonValue::Object(m1)) => {
            &&& m1@.dom() == m0@.dom().insert(key)
            &&& forall|k: Seq<char>| #[trigger] m1@.dom().contains(k) && k != key ==> m1@[k] == m0@[k]
            &&& match m1@[key] {
                JsonValue::Object(d1) => {
                    let d0: Map<Seq<char>, JsonValue> = if m0@.dom().contains(key) {
                        match m0@[key] {
                            JsonValue::Object(d) => d@,
                            _ => Map::empty(),
                        }
                    } else {
                        Map::empty()
                    };
                    &&& d1@.dom() == d0.dom().insert(name)
                    &&& forall|k: Seq<char>| #[trigger] d1@.dom().contains(k) && k != name ==> d1@[k] == d0[k]
                    &&& d1@[name].spec_as_str() == Some(range)
                },
                _ => false,
            }
        },
        _ => false,
    }
}

/// Sets `name: range` in `dependencies` (or `devDependencies` when `dev`),
/// creating the section when it is absent.
pub fn add_dependency(doc: &mut JsonValue, name: &str, range: &str, dev: bool)
    requires
        editable_for(*old(doc), dependency_key(dev)),
    ensures
        added_dependency(*old(doc), *final(doc), dependency_key(dev), name@, range@),
{
    let key: &str = if dev {
        "devDependencies"
    } else {
        "dependencies"
    };
    let mut root = JsonValue::Null;
    std::mem::swap(&mut root, doc);
    match root {
        JsonValue::Object(mut m) => {
            let ghost m0 = m@;
            let section = m.remove(key);
            let mut deps: StrMap<JsonValue> = match section {
                Some(JsonValue::Object(d)) => d,
                _ => StrMap::new(),
            };
            let ghost d0 = deps@;
            deps.insert(name.to_owned(), JsonValue::String(range.to_owned()));
            m.insert(key.to_owned(), JsonValue::Object(deps));
            proof {
                assert(m@.dom() =~= m0.dom().insert(key@));
            }
            *doc = JsonValue::Object(m);
        },
        other => {
            *doc = other;
        },
    }
}

/// A manifest that removal can edit: each dependency section present is an object.
pub open spec fn removable(doc: JsonValue) -> bool {
    match doc {
        JsonValue::Object(m) => {
            &&& m@.dom().contains("dependencies"@) ==> m@["dependencies"@] is Object
            &&& m@.dom().contains("devDependencies"@) ==> m@["devDependencies"@] is Object
        },
        _ => true,
    }
}

/// `after` is `before` with `name` removed from the object member `key`, if that member exists.
pub open spec fn removed_from(before: JsonValue, after: JsonValue, key: Seq<char>, name: Seq<char>) -> bool {
    match (before, after) {
        (JsonValue::Object(m0), JsonValue::Object(m1)) => {
            &&& m1@.dom() == m0@.dom()
            &&& forall|k: Seq<char>| #[trigger] m1@.dom().contains(k) && k != key ==> m1@[k] == m0@[k]
            &&& m0@.dom().contains(key) ==> match (m0@[key], m1@[key]) {
                (JsonValue::Object(d0), JsonValue::Object(d1)) => d1@ == d0@.remove(name),
                _ => false,
            }
        },
        _ => before == after,
    }
}

/// Removes `name` from the object member `key`, when present.
fn remove_from_section(doc: &mut JsonValue, key: &str, name: &str)
    requires
        match *old(doc) {
            JsonValue::Object(m) => m@.dom().contains(key@) ==> m@[key@] is Object,
            _ => true,
        },
    ensures
        removed_from(*old(doc), *final(doc), key@, name@),
{
    let mut root = JsonValue::Null;
    std::mem::swap(&mut root, doc);
    match root {
        JsonValue::Object(mut m) => {
            let ghost m0 = m@;
            if m.contains_key(key) {
                let section = m.remove(key);
                match section {
                    Some(JsonValue::Object(mut d)) => {
                        let _ = d.remove(name);
                        m.insert(key.to_owned(), JsonValue::Object(d));
                    },
                    _ => {
                        assert(false);
                    },
                }
                proof {
                    assert(m@.dom() =~= m0.dom());
                }
            }
            *doc = JsonValue::Object(m);
        },
        other => {
            *doc = other;
        },
    }
}

/// Removes `name` from `dependencies` and from `devDependencies`.
pub fn remove_dependency(doc: &mut JsonValue, name: &str)
    requires
        removable(*old(doc)),
    ensures
        exists|mid: JsonValue|
            removed_from(*old(doc), mid, "dependencies"@, name@) && removed_from(
                mid,
                *final(doc),
                "devDependencies"@,
                name@,
            ),
{
    let ghost before = *doc;
    remove_from_section(doc, "dependencies", name);
    let ghost mid = *doc;
    proof {
        match (before, mid) {
            (JsonValue::Object(m0), JsonValue::Object(m1)) => {
                reveal_strlit("dependencies");
                reveal_strlit("devDependencies");
                assert("devDependencies"@ != "dependencies"@) by {
                    assert("devDependencies"@.len() != "dependencies"@.len());
                }
            },
            _ => {},
        }
    }
    remove_from_section(doc, "devDependencies", name);
}

/// The entries of a JSON object (none for any other value).
pub open spec fn object_entries(v: JsonValue) -> Map<Seq<char>, JsonValue> {
    match v {
        JsonValue::Object(d) => d@,
        _ => Map::empty(),
    }
}

/// Whether `k` names one of the two dependency sections.
pub open spec fn is_dependency_section(k: Seq<char>) -> bool {
    k == "dependencies"@ || k == "devDependencies"@
}

/// `name` is listed in neither dependency section of `doc`.
pub open spec fn not_listed(doc: JsonValue, name: Seq<char>) -> bool {
    match doc {
        JsonValue::Object(m) => forall|k: Seq<char>|
            #[trigger] m@.dom().contains(k) && is_dependency_section(k) ==> !object_entries(m@[k]).dom().contains(name),
        _ => true,
    }
}

/// Adding a dependency that neither section lists and then removing it gives
/// the manifest back: every member other than the two sections keeps its
/// value, each section that was there holds the same entries again, and the
/// one difference left is the section that adding had to create, now empty.
pub proof fn lemma_add_then_remove(
    doc0: JsonValue,
    doc1: JsonValue,
    doc2: JsonValue,
    dev: bool,
    name: Seq<char>,
    range: Seq<char>,
)
    requires
        doc0 is Object,
        removable(doc0),
        not_listed(doc0, name),
        added_dependency(doc0, doc1, dependency_key(dev), name, range),
        exists|mid: JsonValue|
            removed_from(doc1, mid, "dependencies"@, name) && removed_from(
                mid,
                doc2,
                "devDependencies"@,
                name,
            ),
    ensures
        match (doc0, doc2) {
            (JsonValue::Object(m0), JsonValue::Object(m2)) => {
                &&& m2@.dom() == m0@.dom().insert(dependency_key(dev))
                &&& forall|k: Seq<char>|
                    #[trigger] m0@.dom().contains(k) && !is_dependency_section(k) ==> m2@[k] == m0@[k]
                &&& forall|k: Seq<char>|
                    #[trigger] m0@.dom().contains(k) && is_dependency_section(k) ==> {
                        &&& m2@[k] is Object
                        &&& object_entries(m2@[k]) == object_entries(m0@[k])
                    }
                &&& !m0@.dom().contains(dependency_key(dev)) ==> {
                    &&& m2@[dependency_key(dev)] is Object
                    &&& object_entries(m2@[dependency_key(dev)]) == Map::<Seq<char>, JsonValue>::empty()
                }
            },
            _ => false,
        },
{
    reveal_strlit("dependencies");
    reveal_strlit("devDependencies");
    assert("devDependencies"@ != "dependencies"@) by {
        assert("devDependencies"@.len() != "dependencies"@.len());
    }
    let key = dependency_key(dev);
    let mid = choose|mid: JsonValue|
        removed_from(doc1, mid, "dependencies"@, name) && removed_from(mid, doc2, "devDependencies"@, name);
    match (doc0, doc1, mid, doc2) {
        (JsonValue::Object(m0), JsonValue::Object(m1), JsonValue::Object(mm), JsonValue::Object(m2)) => {
            assert(m2@.dom() =~= m0@.dom().insert(key));
            assert forall|k: Seq<char>|
                #[trigger] m0@.dom().contains(k) && is_dependency_section(k) implies {
                    &&& m2@[k] is Object
                    &&& object_entries(m2@[k]) == object_entries(m0@[k])
                } by {
                let e0 = object_entries(m0@[k]);
                assert(m0@[k] is Object);
                assert(m1@.dom().contains(k));
                if k == key {
                    assert(m1@[k] is Object);
                    assert(object_entries(m1@[k]).remove(name) =~= e0);
                } else {
                    assert(m1@[k] == m0@[k]);
                    assert(e0.remove(name) =~= e0);
                }
                let e1 = object_entries(m1@[k]);
                assert(m1@[k] is Object);
                assert(mm@.dom().contains(k));
                if k == "dependencies"@ {
                    assert(mm@[k] is Object && object_entries(mm@[k]) == e1.remove(name));
                    assert(m2@[k] == mm@[k]);
                } else {
                    assert(k == "devDependencies"@);
                    assert(mm@[k] == m1@[k]);
                    assert(m2@[k] is Object && object_entries(m2@[k]) == e1.remove(name));
                }
            }
            assert forall|k: Seq<char>|
                #[trigger] m0@.dom().contains(k) && !is_dependency_section(k) implies m2@[k] == m0@[k] by {
                assert(m1@.dom().contains(k) && mm@.dom().contains(k));
            }
            if !m0@.dom().contains(key) {
                let e1 = object_entries(m1@[key]);
                assert(m1@[key] is Object);
                assert(e1.dom() =~= set![name]);
                assert(m1@.dom().contains(key) && mm@.dom().contains(key));
                if key == "dependencies"@ {
                    assert(m2@[key] == mm@[key]);
                } else {
                    assert(mm@[key] == m1@[key]);
                }
                assert(object_entries(m2@[key]) =~= Map::<Seq<char>, JsonValue>::empty());
            }
        },
        _ => {},
    }
}

} // verus!
