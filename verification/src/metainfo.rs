//! The info hash of a torrent: the SHA-1 of the bencoded `info` dictionary of
//! its metadata file.

use vstd::prelude::*;
use serde_bencode::value::Value;
use crate::io_primitives::bytes_equal;

verus! {

#[verifier::external_type_specification]
#[verifier::external_body]
pub struct ExBencodeValue(serde_bencode::value::Value);

#[verifier::external_type_specification]
#[verifier::external_body]
pub struct ExBencodeError(serde_bencode::Error);

/// Why the info hash of a metadata file could not be computed.
#[derive(Debug, Clone, Copy, PartialEq, Eq)]
pub enum InfoHashError {
    /// The file is not bencode.
    Decode,
    /// The file's top value is not a dictionary.
    NotADictionary,
    /// The top dictionary has no `info` key.
    InfoNotFound,
    /// The `info` value could not be bencoded again.
    Encode,
}

/// A bencode value: a byte string, an integer, a list, or a dictionary whose
/// entries are (key, value) pairs.
#[derive(Debug)]
pub enum Bencode {
    Bytes(Vec<u8>),
    Int(i64),
    List(Vec<Bencode>),
    Dict(Vec<(Vec<u8>, Bencode)>),
}

/// What a bencode value stands for. A dictionary maps each key to its value; where
/// a key is given twice, the later entry counts.
pub enum BencodeView {
    Bytes(Seq<u8>),
    Int(i64),
    List(Seq<BencodeView>),
    Dict(Map<Seq<u8>, BencodeView>),
}

/// What the bencode value `b` stands for.
pub open spec fn bencode_view(b: Bencode) -> BencodeView
    decreases b, 1int,
{
    match b {
        Bencode::Bytes(v) => BencodeView::Bytes(v@),
        Bencode::Int(i) => BencodeView::Int(i),
        Bencode::List(items) => BencodeView::List(list_view(items@)),
        Bencode::Dict(entries) => BencodeView::Dict(dict_view(entries@)),
    }
}

/// What the items of a list stand for.
pub open spec fn list_view(items: Seq<Bencode>) -> Seq<BencodeView>
    decreases items, 0int,
{
    if items.len() == 0 {
        Seq::empty()
    } else {
        list_view(items.subrange(0, items.len() - 1)).push(bencode_view(items[items.len() - 1]))
    }
}

/// What the entries of a dictionary stand for: each key mapped to the value of its
/// last entry.
pub open spec fn dict_view(entries: Seq<(Vec<u8>, Bencode)>) -> Map<Seq<u8>, BencodeView>
    decreases entries, 0int,
{
    if entries.len() == 0 {
        Map::empty()
    } else {
        let last = entries[entries.len() - 1];
        dict_view(entries.subrange(0, entries.len() - 1)).insert(last.0@, bencode_view(last.1))
    }
}

impl View for Bencode {
    type V = BencodeView;

    open spec fn view(&self) -> BencodeView {
        bencode_view(*self)
    }
}

/// What `serde_bencode::from_bytes` decodes `data` into as a bencode value, or
/// `None` where it reports an error.
pub uninterp spec fn bencode_decoding(data: Seq<u8>) -> Option<BencodeView>;

/// Calls `serde_bencode::from_bytes` for a `serde_bencode` value and takes it over
/// into a `Bencode` (see `value_into_bencode`). The contract claims that the call
/// fails or succeeds, and with which value, as a function of the bytes alone.
#[verifier::external_body]
fn decode_bencode(data: &[u8]) -> (r: Result<Bencode, serde_bencode::Error>)
    ensures
        r is Ok <==> bencode_decoding(data@) is Some,
        r matches Ok(b) ==> bencode_decoding(data@) == Some(b@),
{
    serde_bencode::from_bytes::<Value>(data).map(value_into_bencode)
}

/// Takes a `serde_bencode` value over into a `Bencode`, node for node; the entries
/// of a dictionary come in the order in which its `HashMap` yields them, each key
/// once. Nothing is claimed of it here: `decode_bencode` states what it gives.
#[verifier::external_body]
fn value_into_bencode(value: Value) -> Bencode {
    match value {
        Value::Bytes(bytes) => Bencode::Bytes(bytes),
        Value::Int(i) => Bencode::Int(i),
        Value::List(items) => Bencode::List(items.into_iter().map(value_into_bencode).collect()),
        Value::Dict(entries) => Bencode::Dict(entries.into_iter().map(|(k, v)| (k, value_into_bencode(v))).collect()),
    }
}

/// What `serde_bencode::to_bytes` encodes a bencode value into, or `None` where it
/// reports an error.
pub uninterp spec fn bencode_encoding(value: BencodeView) -> Option<Seq<u8>>;

/// Takes `value` over into a `serde_bencode` value (see `bencode_into_value`) and
/// calls `serde_bencode::to_bytes` on it. The encoder writes a dictionary's entries
/// sorted by key, so the bytes depend on what the value stands for alone.
#[verifier::external_body]
fn encode_bencode(value: &Bencode) -> (r: Result<Vec<u8>, serde_bencode::Error>)
    ensures
        r is Ok <==> bencode_encoding(value@) is Some,
        r matches Ok(bytes) ==> bencode_encoding(value@) == Some(bytes@),
{
    serde_bencode::to_bytes(&bencode_into_value(value))
}

/// Takes a `Bencode` over into a `serde_bencode` value, node for node; a
/// dictionary's entries are collected into a `HashMap`, where a later entry with
/// the same key replaces an earlier one. Nothing is claimed of it here:
/// `encode_bencode` states what its caller gets.
#[verifier::external_body]
fn bencode_into_value(value: &Bencode) -> Value {
    match value {
        Bencode::Bytes(bytes) => Value::Bytes(bytes.clone()),
        Bencode::Int(i) => Value::Int(*i),
        Bencode::List(items) => Value::List(items.iter().map(bencode_into_value).collect()),
        Bencode::Dict(entries) => Value::Dict(entries.iter().map(|(k, v)| (k.clone(), bencode_into_value(v))).collect()),
    }
}

/// The value that the entries of a dictionary give for `key`: that of the last
/// entry with that key, if there is one.
pub fn dict_get<'a>(entries: &'a Vec<(Vec<u8>, Bencode)>, key: &Vec<u8>) -> (r: Option<&'a Bencode>)
    ensures
        r is Some <==> dict_view(entries@).contains_key(key@),
        r matches Some(v) ==> dict_view(entries@)[key@] == v@,
{
    let mut i: usize = entries.len();
    assert(entries@.subrange(0, i as int) =~= entries@);
    while i > 0
        invariant
            i <= entries@.len(),
            dict_view(entries@).contains_key(key@) == dict_view(entries@.subrange(0, i as int)).contains_key(key@),
            dict_view(entries@).contains_key(key@) ==> dict_view(entries@)[key@] == dict_view(entries@.subrange(0, i as int))[key@],
        decreases i,
    {
        let entry = &entries[i - 1];
        assert(entries@.subrange(0, i as int).subrange(0, i - 1) =~= entries@.subrange(0, i - 1));
        if bytes_equal(entry.0.as_slice(), key.as_slice()) {
            return Some(&entry.1);
        }
        i = i - 1;
    }
    None
}

/// The key of the `info` entry of a metadata file.
pub open spec fn info_key() -> Seq<u8> {
    seq![105u8, 110, 102, 111]
}

/// The `info` value of a decoded metadata file whose top value is `top`.
pub open spec fn info_value_spec(top: BencodeView) -> Result<BencodeView, InfoHashError> {
    match top {
        BencodeView::Dict(m) => if m.contains_key(info_key()) {
            Ok(m[info_key()])
        } else {
            Err(InfoHashError::InfoNotFound)
        },
        _ => Err(InfoHashError::NotADictionary),
    }
}

/// The info hash of a metadata file holding `data`, or why there is none.
pub open spec fn info_hash_spec(data: Seq<u8>) -> Result<Seq<u8>, InfoHashError> {
    match bencode_decoding(data) {
        None => Err(InfoHashError::Decode),
        Some(top) => info_hash_of_top_spec(top),
    }
}

/// The info hash of a metadata file whose decoded top value is `top`, or why
/// there is none.
pub open spec fn info_hash_of_top_spec(top: BencodeView) -> Result<Seq<u8>, InfoHashError> {
    match info_value_spec(top) {
        Err(e) => Err(e),
        Ok(info) => match bencode_encoding(info) {
            None => Err(InfoHashError::Encode),
            Some(bytes) => Ok(ring_sha1_digest(bytes)),
        },
    }
}

/// The `info` value of a decoded metadata file: the entry with key `info` of its
/// top dictionary.
pub fn info_value(top: &Bencode) -> (r: Result<&Bencode, InfoHashError>)
    ensures
        match r {
            Ok(v) => info_value_spec(top@) == Ok::<BencodeView, InfoHashError>(v@),
            Err(e) => info_value_spec(top@) == Err::<BencodeView, InfoHashError>(e),
        },
{
    match top {
        Bencode::Dict(entries) => {
            let key: Vec<u8> = vec![105u8, 110, 102, 111];
            assert(key@ =~= info_key());
            match dict_get(entries, &key) {
                Some(v) => Ok(v),
                None => Err(InfoHashError::InfoNotFound),
            }
        },
        _ => Err(InfoHashError::NotADictionary),
    }
}

/// The SHA-1 digest of `data`, as `ring` computes it.
pub uninterp spec fn ring_sha1_digest(data: Seq<u8>) -> Seq<u8>;

/// Calls `ring::digest::digest` with `SHA1_FOR_LEGACY_USE_ONLY` on `data`; its
/// output length is 20 bytes.
#[verifier::external_body]
fn ring_sha1(data: &[u8]) -> (r: Vec<u8>)
    ensures
        r@ == ring_sha1_digest(data@),
        r@.len() == 20,
{
    ring::digest::digest(&ring::digest::SHA1_FOR_LEGACY_USE_ONLY, data).as_ref().to_vec()
}

/// The info hash of a torrent whose bencoded `info` dictionary is `info`.
pub fn info_hash_of_info(info: &Vec<u8>) -> (r: Vec<u8>)
    ensures
        r@ == ring_sha1_digest(info@),
        r@.len() == 20,
{
    ring_sha1(info.as_slice())
}

/// The info hash of a metadata file whose decoded top value is `top`: its `info`
/// value is bencoded again and hashed.
pub fn info_hash_of_decoded(top: &Bencode) -> (r: Result<Vec<u8>, InfoHashError>)
    ensures
        match r {
            Ok(h) => info_hash_of_top_spec(top@) == Ok::<Seq<u8>, InfoHashError>(h@),
            Err(e) => info_hash_of_top_spec(top@) == Err::<Seq<u8>, InfoHashError>(e),
        },
{
    let info = match info_value(top) {
        Ok(v) => v,
        Err(e) => {
            return Err(e);
        },
    };
    let bytes = match encode_bencode(info) {
        Ok(b) => b,
        Err(_) => {
            return Err(InfoHashError::Encode);
        },
    };
    Ok(info_hash_of_info(&bytes))
}

/// The info hash of the torrent whose metadata file holds `data`: the top value is
/// decoded, its `info` entry is taken and bencoded again, and that is hashed.
pub fn get_info_hash(data: &[u8]) -> (r: Result<Vec<u8>, InfoHashError>)
    ensures
        match r {
            Ok(h) => info_hash_spec(data@) == Ok::<Seq<u8>, InfoHashError>(h@),
            Err(e) => info_hash_spec(data@) == Err::<Seq<u8>, InfoHashError>(e),
        },
{
    match decode_bencode(data) {
        Ok(top) => info_hash_of_decoded(&top),
        Err(_) => Err(InfoHashError::Decode),
    }
}

} // verus!
