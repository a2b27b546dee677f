//! The YAML documents the runner reads (test commands and hosts), as plain values:
//! a mapping keeps its entries in document order, a number keeps its printed form and,
//! where it has one, its value as an unsigned 64-bit integer.
use vstd::prelude::*;

verus! {

/// A YAML number: how it prints, and its value when it is an unsigned 64-bit integer.
#[derive(Clone, Debug)]
pub struct YamlNumber {
    pub text: String,
    pub unsigned: Option<u64>,
}

/// A YAML value.
#[derive(Debug)]
pub enum YamlValue {
    Null,
    Bool(bool),
    Num(YamlNumber),
    Str(String),
    List(Vec<YamlValue>),
    Dict(Vec<(YamlValue, YamlValue)>),
    /// A value with an explicit `!tag`.
    Tagged(String, Box<YamlValue>),
}

/// A YAML mapping: its entries in document order.
pub type YamlMapping = Vec<(YamlValue, YamlValue)>;

/// The value under any number of tags.
pub open spec fn untag(v: YamlValue) -> YamlValue
    decreases v,
{
    match v {
        YamlValue::Tagged(_, inner) => untag(*inner),
        _ => v,
    }
}

/// The entry key is exactly the (untagged) string `key`.
pub open spec fn key_is(k: YamlValue, key: Seq<char>) -> bool {
    k matches YamlValue::Str(s) && s@ == key
}

/// The value stored under the string key `key` (the first such entry).
pub open spec fn lookup(m: Seq<(YamlValue, YamlValue)>, key: Seq<char>) -> Option<YamlValue>
    decreases m.len(),
{
    if m.len() == 0 {
        None
    } else if key_is(m[0].0, key) {
        Some(m[0].1)
    } else {
        lookup(m.skip(1), key)
    }
}

/// The string a value holds, looking through tags.
pub open spec fn as_str(v: YamlValue) -> Option<Seq<char>> {
    match untag(v) {
        YamlValue::Str(s) => Some(s@),
        _ => None,
    }
}

/// The mapping a value holds, looking through tags.
pub open spec fn as_mapping(v: YamlValue) -> Option<Seq<(YamlValue, YamlValue)>> {
    match untag(v) {
        YamlValue::Dict(m) => Some(m@),
        _ => None,
    }
}

/// The sequence a value holds, looking through tags.
pub open spec fn as_sequence(v: YamlValue) -> Option<Seq<YamlValue>> {
    match untag(v) {
        YamlValue::List(s) => Some(s@),
        _ => None,
    }
}

/// The unsigned integer a value holds, looking through tags.
pub open spec fn as_u64(v: YamlValue) -> Option<u64> {
    match untag(v) {
        YamlValue::Num(n) => n.unsigned,
        _ => None,
    }
}

/// The string stored under `key`, if there is one.
pub open spec fn lookup_str(m: Seq<(YamlValue, YamlValue)>, key: Seq<char>) -> Option<Seq<char>> {
    match lookup(m, key) {
        Some(v) => as_str(v),
        None => None,
    }
}

/// The mapping stored under `key`, if there is one.
pub open spec fn lookup_mapping(m: Seq<(YamlValue, YamlValue)>, key: Seq<char>) -> Option<
    Seq<(YamlValue, YamlValue)>,
> {
    match lookup(m, key) {
        Some(v) => as_mapping(v),
        None => None,
    }
}

/// The sequence stored under `key`, if there is one.
pub open spec fn lookup_sequence(m: Seq<(YamlValue, YamlValue)>, key: Seq<char>) -> Option<
    Seq<YamlValue>,
> {
    match lookup(m, key) {
        Some(v) => as_sequence(v),
        None => None,
    }
}

/// The value under its tags.
pub fn untag_ref(v: &YamlValue) -> (r: &YamlValue)
    ensures
        *r == untag(*v),
    decreases v,
{
    match v {
        YamlValue::Tagged(_, inner) => untag_ref(inner),
        _ => v,
    }
}

/// The string a value holds (`serde_yaml::Value::as_str`).
pub fn value_as_str(v: &YamlValue) -> (r: Option<&String>)
    ensures
        match r {
            Some(s) => as_str(*v) == Some(s@),
            None => as_str(*v) is None,
        },
{
    match untag_ref(v) {
        YamlValue::Str(s) => Some(s),
        _ => None,
    }
}

/// The mapping a value holds (`serde_yaml::Value::as_mapping`).
pub fn value_as_mapping(v: &YamlValue) -> (r: Option<&YamlMapping>)
    ensures
        match r {
            Some(m) => as_mapping(*v) == Some(m@),
            None => as_mapping(*v) is None,
        },
{
    match untag_ref(v) {
        YamlValue::Dict(m) => Some(m),
        _ => None,
    }
}

/// The sequence a value holds (`serde_yaml::Value::as_sequence`).
pub fn value_as_sequence(v: &YamlValue) -> (r: Option<&Vec<YamlValue>>)
    ensures
        match r {
            Some(s) => as_sequence(*v) == Some(s@),
            None => as_sequence(*v) is None,
        },
{
    match untag_ref(v) {
        YamlValue::List(s) => Some(s),
        _ => None,
    }
}

/// The unsigned integer a value holds (`serde_yaml::Value::as_u64`).
pub fn value_as_u64(v: &YamlValue) -> (r: Option<u64>)
    ensures
        r == as_u64(*v),
{
    match untag_ref(v) {
        YamlValue::Num(n) => n.unsigned,
        _ => None,
    }
}

/// Whether an entry key is the string `key`.
pub fn key_is_exec(k: &YamlValue, key: &String) -> (r: bool)
    ensures
        r == key_is(*k, key@),
{
    match k {
        YamlValue::Str(s) => *s == *key,
        _ => false,
    }
}

/// The value stored under the string key `key` (`serde_yaml::Mapping::get`).
pub fn mapping_get<'a>(m: &'a YamlMapping, key: &str) -> (r: Option<&'a YamlValue>)
    ensures
        match r {
            Some(v) => lookup(m@, key@) == Some(*v),
            None => lookup(m@, key@) is None,
        },
{
    let k = key.to_owned();
    let mut i: usize = 0;
    assert(m@.skip(0) =~= m@);
    while i < m.len()
        invariant
            i <= m.len(),
            k@ == key@,
            lookup(m@, key@) == lookup(m@.skip(i as int), key@),
        decreases m.len() - i,
    {
        assert(m@.skip(i as int).skip(1) =~= m@.skip(i + 1));
        assert(m@.skip(i as int)[0] == m@[i as int]);
        if key_is_exec(&m[i].0, &k) {
            return Some(&m[i].1);
        }
        i += 1;
    }
    None
}

/// Whether the mapping has an entry under the string key `key`
/// (`serde_yaml::Mapping::contains_key`).
pub fn mapping_contains(m: &YamlMapping, key: &str) -> (r: bool)
    ensures
        r == lookup(m@, key@) is Some,
{
    mapping_get(m, key).is_some()
}

/// The string stored under `key`, if there is one.
pub fn get_str<'a>(m: &'a YamlMapping, key: &str) -> (r: Option<&'a String>)
    ensures
        match r {
            Some(s) => lookup_str(m@, key@) == Some(s@),
            None => lookup_str(m@, key@) is None,
        },
{
    match mapping_get(m, key) {
        Some(v) => value_as_str(v),
        None => None,
    }
}

/// The mapping stored under `key`, if there is one.
pub fn get_mapping<'a>(m: &'a YamlMapping, key: &str) -> (r: Option<&'a YamlMapping>)
    ensures
        match r {
            Some(x) => lookup_mapping(m@, key@) == Some(x@),
            None => lookup_mapping(m@, key@) is None,
        },
{
    match mapping_get(m, key) {
        Some(v) => value_as_mapping(v),
        None => None,
    }
}

/// The sequence stored under `key`, if there is one.
pub fn get_sequence<'a>(m: &'a YamlMapping, key: &str) -> (r: Option<&'a Vec<YamlValue>>)
    ensures
        match r {
            Some(x) => lookup_sequence(m@, key@) == Some(x@),
            None => lookup_sequence(m@, key@) is None,
        },
{
    match mapping_get(m, key) {
        Some(v) => value_as_sequence(v),
        None => None,
    }
}

/// The string stored under `key`; the key must be present and hold a string.
pub fn map_str2val(data: &YamlMapping, key: &str) -> (r: String)
    requires
        lookup_str(data@, key@) is Some,
    ensures
        r@ == lookup_str(data@, key@).unwrap(),
{
    get_str(data, key).unwrap().clone()
}

} // verus!
