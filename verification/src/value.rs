//! Parsed JSON and YAML documents as plain data, with the accessors that the
//! lock-file and manifest readers use.
use vstd::prelude::*;
use crate::strmap::StrMap;

verus! {

/// A JSON value. Object members keep the order in which they were read.
pub enum JsonValue {
    Null,
    Bool(bool),
    Number(String),
    String(String),
    Array(Vec<JsonValue>),
    Object(StrMap<JsonValue>),
}

impl JsonValue {
    /// The text of a string value (`serde_json::Value::as_str`).
    pub open spec fn spec_as_str(&self) -> Option<Seq<char>> {
        match self {
            JsonValue::String(s) => Some(s@),
            _ => None,
        }
    }

    /// The member `key` of an object value (`serde_json::Value::get` with a
    /// string key); `None` for other values.
    pub open spec fn spec_get(&self, key: Seq<char>) -> Option<JsonValue> {
        match self {
            JsonValue::Object(m) => if m@.dom().contains(key) {
                Some(m@[key])
            } else {
                None
            },
            _ => None,
        }
    }

    /// The text of a string value.
    pub fn as_str(&self) -> (r: Option<&String>)
        ensures
            match r {
                Some(s) => self.spec_as_str() == Some(s@),
                None => self.spec_as_str() is None,
            },
    {
        match self {
            JsonValue::String(s) => Some(s),
            _ => None,
        }
    }

    /// The member `key` of an object value.
    pub fn get(&self, key: &str) -> (r: Option<&JsonValue>)
        ensures
            match r {
                Some(v) => self.spec_get(key@) == Some(*v),
                None => self.spec_get(key@) is None,
            },
    {
        match self {
            JsonValue::Object(m) => m.get(key),
            _ => None,
        }
    }
}

/// A YAML value. Mapping entries keep the order in which they were read.
pub enum YamlValue {
    Null,
    Bool(bool),
    Number(String),
    String(String),
    Sequence(Vec<YamlValue>),
    Mapping(Vec<(YamlValue, YamlValue)>),
    Tagged(String, Box<YamlValue>),
}

/// The value under any tags.
pub open spec fn untag(v: YamlValue) -> YamlValue
    decreases v,
{
    match v {
        YamlValue::Tagged(_, inner) => untag(*inner),
        _ => v,
    }
}

/// The value of the first entry whose key is the (untagged) string `key`.
pub open spec fn mapping_lookup(entries: Seq<(YamlValue, YamlValue)>, key: Seq<char>) -> Option<
    YamlValue,
>
    decreases entries.len(),
{
    if entries.len() == 0 {
        None
    } else {
        match entries[0].0 {
            YamlValue::String(s) => if s@ == key {
                Some(entries[0].1)
            } else {
                mapping_lookup(entries.drop_first(), key)
            },
            _ => mapping_lookup(entries.drop_first(), key),
        }
    }
}

/// The entries of a mapping value, looking through tags (`as_mapping`).
pub open spec fn yaml_mapping(v: YamlValue) -> Option<Seq<(YamlValue, YamlValue)>> {
    match untag(v) {
        YamlValue::Mapping(entries) => Some(entries@),
        _ => None,
    }
}

/// The text of a string value, looking through tags (`as_str`).
pub open spec fn yaml_str(v: YamlValue) -> Option<Seq<char>> {
    match untag(v) {
        YamlValue::String(s) => Some(s@),
        _ => None,
    }
}

/// The value under string key `key` of a mapping value, looking through
/// tags (`get` with a string key).
pub open spec fn yaml_get(v: YamlValue, key: Seq<char>) -> Option<YamlValue> {
    match yaml_mapping(v) {
        Some(entries) => mapping_lookup(entries, key),
        None => None,
    }
}

/// `untag` on a value.
pub fn untag_ref(v: &YamlValue) -> (r: &YamlValue)
    ensures
        *r == untag(*v),
    decreases v,
{
    match v {
        YamlValue::Tagged(_, inner) => untag_ref(&**inner),
        _ => v,
    }
}

/// `yaml_mapping` on a value.
pub fn as_mapping(v: &YamlValue) -> (r: Option<&Vec<(YamlValue, YamlValue)>>)
    ensures
        match r {
            Some(e) => yaml_mapping(*v) == Some(e@),
            None => yaml_mapping(*v) is None,
        },
{
    match untag_ref(v) {
        YamlValue::Mapping(entries) => Some(entries),
        _ => None,
    }
}

/// `yaml_str` on a value.
pub fn as_str(v: &YamlValue) -> (r: Option<&String>)
    ensures
        match r {
            Some(s) => yaml_str(*v) == Some(s@),
            None => yaml_str(*v) is None,
        },
{
    match untag_ref(v) {
        YamlValue::String(s) => Some(s),
        _ => None,
    }
}

/// `mapping_lookup` on mapping entries.
pub fn lookup<'a>(entries: &'a Vec<(YamlValue, YamlValue)>, key: &str) -> (r: Option<&'a YamlValue>)
    ensures
        match r {
            Some(v) => mapping_lookup(entries@, key@) == Some(*v),
            None => mapping_lookup(entries@, key@) is None,
        },
{
    let k = key.to_owned();
    let n = entries.len();
    let mut i: usize = 0;
    assert(entries@.skip(0) =~= entries@);
    while i < n
        invariant
            n == entries@.len(),
            i <= n,
            k@ == key@,
            mapping_lookup(entries@, key@) == mapping_lookup(entries@.skip(i as int), key@),
        decreases n - i,
    {
        assert(entries@.skip(i as int).drop_first() =~= entries@.skip(i + 1));
        assert(entries@.skip(i as int)[0] == entries@[i as int]);
        match &entries[i].0 {
            YamlValue::String(s) => {
                if *s == k {
                    return Some(&entries[i].1);
                }
            },
            _ => {},
        }
        i = i + 1;
    }
    None
}

/// `yaml_get` on a value.
pub fn get<'a>(v: &'a YamlValue, key: &str) -> (r: Option<&'a YamlValue>)
    ensures
        match r {
            Some(x) => yaml_get(*v, key@) == Some(*x),
            None => yaml_get(*v, key@) is None,
        },
{
    match as_mapping(v) {
        Some(entries) => lookup(entries, key),
        None => None,
    }
}

} // verus!
