//! The calls into outside crates, each behind a trusted item whose contract is stated here.
use vstd::prelude::*;
use crate::bytes::occurs_at;
use crate::google::{spec_form_urlencode, GoogleJson, JsonSegment};

verus! {

/// A set of byte strings held in a `rustc_hash::FxHashSet`.
#[verifier::external_body]
pub struct FxByteSet {
    set: rustc_hash::FxHashSet<Vec<u8>>,
}

/// The byte strings that an `FxByteSet` holds.
pub uninterp spec fn fx_byte_set_contents(s: FxByteSet) -> Set<Seq<u8>>;

/// `FxHashSet::default()`: a new set holds nothing.
#[verifier::external_body]
pub fn fx_byte_set_new() -> (r: FxByteSet)
    ensures
        fx_byte_set_contents(r) == Set::<Seq<u8>>::empty(),
{
    FxByteSet { set: rustc_hash::FxHashSet::default() }
}

/// `FxHashSet::insert`: adds `value`; returns whether it was absent before.
#[verifier::external_body]
pub fn fx_byte_set_insert(s: &mut FxByteSet, value: Vec<u8>) -> (r: bool)
    ensures
        fx_byte_set_contents(*final(s)) == fx_byte_set_contents(*old(s)).insert(value@),
        r == !fx_byte_set_contents(*old(s)).contains(value@),
{
    s.set.insert(value)
}

/// A map from `u64` to `u64` held in a `rustc_hash::FxHashMap`.
#[verifier::external_body]
pub struct FxU64Table {
    map: rustc_hash::FxHashMap<u64, u64>,
}

/// The entries that an `FxU64Table` holds.
pub uninterp spec fn fx_u64_table_contents(m: FxU64Table) -> Map<u64, u64>;

/// `FxHashMap::default()`: a new map holds nothing.
#[verifier::external_body]
pub fn fx_u64_table_new() -> (r: FxU64Table)
    ensures
        fx_u64_table_contents(r).dom().is_empty(),
{
    FxU64Table { map: rustc_hash::FxHashMap::default() }
}

/// `FxHashMap::insert`: `key` maps to `value` afterwards, other keys are unchanged.
#[verifier::external_body]
pub fn fx_u64_table_insert(m: &mut FxU64Table, key: u64, value: u64)
    ensures
        fx_u64_table_contents(*final(m)) == fx_u64_table_contents(*old(m)).insert(key, value),
{
    m.map.insert(key, value);
}

/// `FxHashMap::get`: the value that `key` maps to, if any.
#[verifier::external_body]
pub fn fx_u64_table_get(m: &FxU64Table, key: u64) -> (r: Option<u64>)
    ensures
        r == (if fx_u64_table_contents(*m).contains_key(key) {
            Some(fx_u64_table_contents(*m)[key])
        } else {
            None
        }),
{
    m.map.get(&key).copied()
}

/// `twoway::find_bytes`: the first position at which `pattern` occurs in `text`.
#[verifier::external_body]
pub fn find_bytes(text: &[u8], pattern: &[u8]) -> (r: Option<usize>)
    ensures
        match r {
            Some(i) => occurs_at(text@, pattern@, i as int)
                && forall|j: int| 0 <= j < i ==> !occurs_at(text@, pattern@, j),
            None => forall|j: int| !occurs_at(text@, pattern@, j),
        },
{
    twoway::find_bytes(text, pattern)
}

/// `twoway::rfind_bytes`: the last position at which `pattern` occurs in `text`.
#[verifier::external_body]
pub fn rfind_bytes(text: &[u8], pattern: &[u8]) -> (r: Option<usize>)
    ensures
        match r {
            Some(i) => occurs_at(text@, pattern@, i as int)
                && forall|j: int| i < j ==> !occurs_at(text@, pattern@, j),
            None => forall|j: int| !occurs_at(text@, pattern@, j),
        },
{
    twoway::rfind_bytes(text, pattern)
}

/// The SHA-1 digest of a byte string.
pub uninterp spec fn spec_sha1(data: Seq<u8>) -> Seq<u8>;

/// `sha1::Sha1::digest`: the 20-byte SHA-1 digest of `data`, a function of `data` alone.
#[verifier::external_body]
pub fn sha1_digest(data: &[u8]) -> (r: [u8; 20])
    ensures
        r@ == spec_sha1(data@),
{
    <sha1::Sha1 as sha1::Digest>::digest(data).into()
}

/// A map from byte strings to byte strings held in a `rustc_hash::FxHashMap`.
#[verifier::external_body]
pub struct FxBytesMap {
    map: rustc_hash::FxHashMap<Vec<u8>, Vec<u8>>,
}

/// The entries that an `FxBytesMap` holds.
pub uninterp spec fn fx_bytes_map_contents(m: FxBytesMap) -> Map<Seq<u8>, Seq<u8>>;

/// `FxHashMap::default()`: a new map holds nothing.
#[verifier::external_body]
pub fn fx_bytes_map_new() -> (r: FxBytesMap)
    ensures
        fx_bytes_map_contents(r).dom().is_empty(),
{
    FxBytesMap { map: rustc_hash::FxHashMap::default() }
}

/// `FxHashMap::insert`: `key` maps to `value` afterwards, other keys are unchanged.
#[verifier::external_body]
pub fn fx_bytes_map_insert(m: &mut FxBytesMap, key: Vec<u8>, value: Vec<u8>)
    ensures
        fx_bytes_map_contents(*final(m)) == fx_bytes_map_contents(*old(m)).insert(key@, value@),
{
    m.map.insert(key, value);
}

/// `FxHashMap::get`: the value that `key` maps to, if any.
#[verifier::external_body]
pub fn fx_bytes_map_get<'a>(m: &'a FxBytesMap, key: &[u8]) -> (r: Option<&'a Vec<u8>>)
    ensures
        match r {
            Some(v) => fx_bytes_map_contents(*m).contains_key(key@) && v@ == fx_bytes_map_contents(*m)[key@],
            None => !fx_bytes_map_contents(*m).contains_key(key@),
        },
{
    m.map.get(key)
}

/// The Google Japanese Input answer that `json::parse` reads from `text` (see `GoogleJson`),
/// a function of `text` alone; `None` where `text` is not JSON.
pub uninterp spec fn spec_google_json(text: Seq<u8>) -> Option<(bool, Seq<(bool, nat, Option<Seq<u8>>, Seq<Option<Seq<u8>>>)>)>;

/// `json::parse` on `text` (which must be UTF-8), the value taken apart as `GoogleJson` holds
/// it: whether it is an array; for each element (`members`) whether it is an array and its
/// `len`, its element 0 by `as_str`, and the members of its element 1 by `as_str`.
#[verifier::external_body]
pub fn parse_google_json(text: &[u8]) -> (r: Option<GoogleJson>)
    ensures
        match r {
            Some(j) => spec_google_json(text@) == Some(j@),
            None => spec_google_json(text@) is None,
        },
{
    let value = json::parse(std::str::from_utf8(text).ok()?).ok()?;
    let segments = value.members().map(|s| JsonSegment {
        is_array: s.is_array(),
        len: s.len(),
        head: s[0].as_str().map(|x| x.as_bytes().to_vec()),
        members: s[1].members().map(|u| u.as_str().map(|x| x.as_bytes().to_vec())).collect(),
    }).collect();
    Some(GoogleJson { is_array: value.is_array(), segments })
}

/// `url::form_urlencoded::byte_serialize`, collected: each byte of `input` as the
/// `application/x-www-form-urlencoded` serializer writes it (see `urlencode_byte`).
#[verifier::external_body]
pub fn form_urlencode(input: &[u8]) -> (r: Vec<u8>)
    ensures
        r@ == spec_form_urlencode(input@),
{
    url::form_urlencoded::byte_serialize(input).collect::<String>().into_bytes()
}

/// `std::str::from_utf8(s).is_ok()`: whether `s` is well-formed UTF-8, as vstd defines it.
#[verifier::external_body]
pub fn is_valid_utf8(s: &[u8]) -> (r: bool)
    ensures
        r == vstd::utf8::valid_utf8(s@),
{
    std::str::from_utf8(s).is_ok()
}

/// The length of `bincode::serialize` of an empty `BTreeMap<Vec<u8>, Vec<Vec<u8>>>`: with the
/// fixed-width integers that `bincode::serialize` writes, a map is its `u64` length and then
/// its entries, so 8 bytes.
#[verifier::external_body]
pub fn serialized_empty_cache_length() -> (r: Option<usize>)
    ensures
        r == Some(8usize),
{
    bincode::serialize(&std::collections::BTreeMap::<Vec<u8>, Vec<Vec<u8>>>::new()).ok().map(|v| v.len())
}


/// The entries, in key order, of the `BTreeMap<Vec<u8>, Vec<Vec<u8>>>` that `bincode::deserialize`
/// reads from `payload`; none where it fails. A function of the bytes alone.
pub uninterp spec fn spec_cache_decode(payload: Seq<u8>) -> Option<Seq<(Seq<u8>, Seq<Seq<u8>>)>>;

/// The bytes that `bincode::serialize` writes for the `BTreeMap<Vec<u8>, Vec<Vec<u8>>>` collected
/// from `entries`. A function of the entries alone.
pub uninterp spec fn spec_cache_encode(entries: Seq<(Seq<u8>, Seq<Seq<u8>>)>) -> Seq<u8>;

/// `bincode::deserialize` of a `BTreeMap<Vec<u8>, Vec<Vec<u8>>>` from `payload`, its entries taken
/// in key order: the entries that `spec_cache_decode` names, or none where the bytes do not
/// read as such a map.
#[verifier::external_body]
pub fn bincode_deserialize_cache(payload: &[u8]) -> (r: Option<Vec<(Vec<u8>, Vec<Vec<u8>>)>>)
    ensures
        match spec_cache_decode(payload@) {
            Some(es) => r matches Some(v) && crate::google_cache::entries_view(v@) == es,
            None => r is None,
        },
{
    bincode::deserialize::<std::collections::BTreeMap<Vec<u8>, Vec<Vec<u8>>>>(payload).ok().map(|m| m.into_iter().collect())
}

/// `bincode::serialize` of the `BTreeMap<Vec<u8>, Vec<Vec<u8>>>` collected from `entries`: the
/// bytes that `spec_cache_encode` names, at least the 8 bytes of the map's `u64` length that
/// come first, and, where the keys are in strictly increasing order (the order the map keeps),
/// bytes that `bincode::deserialize` reads back as the same entries. Nothing is claimed of
/// when it fails.
#[verifier::external_body]
pub fn bincode_serialize_cache(entries: &Vec<(Vec<u8>, Vec<Vec<u8>>)>) -> (r: Option<Vec<u8>>)
    ensures
        r matches Some(v) ==> {
            &&& v@ == spec_cache_encode(crate::google_cache::entries_view(entries@))
            &&& v@.len() >= 8
            &&& crate::google_cache::sorted_keys(crate::google_cache::entries_view(entries@))
                ==> spec_cache_decode(v@) == Some(crate::google_cache::entries_view(entries@))
        },
{
    let map: std::collections::BTreeMap<Vec<u8>, Vec<Vec<u8>>> = entries.iter().cloned().collect();
    bincode::serialize(&map).ok()
}
} // verus!
