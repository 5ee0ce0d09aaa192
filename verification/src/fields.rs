//! The fields of a bencoded dictionary.

use vstd::prelude::*;
use vstd::utf8::{encode_utf8, encode_utf8_decode_utf8};

use crate::bencode_parser::{lemma_list_value, value_of, values_of, Bencode, Value};
use crate::dict::Dict;

verus! {

/// The field of a key, if there is one.
pub open spec fn field(map: Map<Seq<u8>, Value>, key: Seq<char>) -> Option<Value> {
    if map.contains_key(encode_utf8(key)) {
        Some(map[encode_utf8(key)])
    } else {
        None
    }
}

/// The byte string in the field of a key, if there is one.
pub open spec fn bytes_field(map: Map<Seq<u8>, Value>, key: Seq<char>) -> Option<Seq<u8>> {
    match field(map, key) {
        Some(Value::Bytes(bytes)) => Some(bytes),
        _ => None,
    }
}

/// The number in the field of a key, if there is one.
pub open spec fn number_field(map: Map<Seq<u8>, Value>, key: Seq<char>) -> Option<int> {
    match field(map, key) {
        Some(Value::Number(number)) => Some(number),
        _ => None,
    }
}

/// The list in the field of a key, if there is one.
pub open spec fn list_field(map: Map<Seq<u8>, Value>, key: Seq<char>) -> Option<Seq<Value>> {
    match field(map, key) {
        Some(Value::List(items)) => Some(items),
        _ => None,
    }
}

/// Whether two maps differ in no other field than that of `key`.
pub open spec fn others_kept(
    before: Map<Seq<u8>, Value>,
    after: Map<Seq<u8>, Value>,
    key: Seq<char>,
) -> bool {
    forall|k: Seq<char>| k != key ==> #[trigger] field(after, k) == field(before, k)
}

/// Takes the field of `key` out.
pub(crate) fn take_field(dict: &mut Dict, key: &str) -> (value: Option<Bencode>)
    ensures
        match value {
            Some(value) => field(old(dict).map(), key@) == Some(value_of(value)),
            None => field(old(dict).map(), key@) is None,
        },
        others_kept(old(dict).map(), final(dict).map(), key@),
{
    let ghost before = dict.map();
    let value = dict.remove(key.as_bytes());
    proof {
        assert forall|k: Seq<char>| k != key@ implies #[trigger] field(dict.map(), k) == field(
            before,
            k,
        ) by {
            encode_utf8_decode_utf8(k);
            encode_utf8_decode_utf8(key@);
        }
    }
    value
}

/// Takes the byte string in the field of `key` out.
pub(crate) fn take_bytes(dict: &mut Dict, key: &str) -> (bytes: Option<Vec<u8>>)
    ensures
        match bytes {
            Some(bytes) => bytes_field(old(dict).map(), key@) == Some(bytes@),
            None => bytes_field(old(dict).map(), key@) is None,
        },
        others_kept(old(dict).map(), final(dict).map(), key@),
{
    match take_field(dict, key) {
        Some(value) => value.byte_string(),
        None => None,
    }
}

/// Takes the number in the field of `key` out.
pub(crate) fn take_number(dict: &mut Dict, key: &str) -> (number: Option<i64>)
    ensures
        match number {
            Some(number) => number_field(old(dict).map(), key@) == Some(number as int),
            None => number_field(old(dict).map(), key@) is None,
        },
        others_kept(old(dict).map(), final(dict).map(), key@),
{
    match take_field(dict, key) {
        Some(value) => value.number(),
        None => None,
    }
}

/// Takes the list in the field of `key` out.
pub(crate) fn take_list(dict: &mut Dict, key: &str) -> (list: Option<Vec<Bencode>>)
    ensures
        match list {
            Some(list) => list_field(old(dict).map(), key@) == Some(values_of(list@)),
            None => list_field(old(dict).map(), key@) is None,
        },
        others_kept(old(dict).map(), final(dict).map(), key@),
{
    match take_field(dict, key) {
        Some(value) => {
            proof {
                if value is List {
                    lemma_list_value(value->List_0);
                }
            }
            value.list()
        },
        None => None,
    }
}

} // verus!
