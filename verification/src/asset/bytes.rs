//! The byte codec: fixed-width little-endian integers, and sets of ids as a
//! count followed by length-prefixed items.

use vstd::prelude::*;
use vstd::bytes::{
    lemma_auto_spec_u64_to_from_le_bytes, spec_u64_from_le_bytes, spec_u64_to_le_bytes,
    u64_from_le_bytes, u64_to_le_bytes,
};
use vstd::slice::slice_subrange;
use vstd::utf8::{encode_utf8, valid_utf8};
use crate::asset::AssetId;
use crate::asset::set::IdSet;

verus! {

/// `String::from_utf8`: the text whose UTF-8 form the bytes are, or `None`
/// where the bytes are no UTF-8.
#[verifier::external_body]
pub(crate) fn text_of_utf8(bytes: Vec<u8>) -> (text: Option<String>)
    ensures
        text is Some <==> valid_utf8(bytes@),
        text matches Some(t) ==> encode_utf8(t@) == bytes@,
{
    String::from_utf8(bytes).ok()
}

/// A value with a byte encoding. The encoding is stated over the value's
/// view: `encode` gives the bytes of a view, `decode` reads a view back.
pub trait IntoBytes: Sized + View {
    /// The views that have an encoding.
    spec fn encodable(value: Self::V) -> bool;

    /// The bytes that stand for `value`.
    spec fn encode(value: Self::V) -> Seq<u8>;

    /// The value that `bytes` stand for, if any.
    spec fn decode(bytes: Seq<u8>) -> Option<Self::V>;

    fn into_bytes(&self) -> (bytes: Vec<u8>)
        requires
            Self::encodable(self@),
        ensures
            bytes@ == Self::encode(self@),
    ;

    fn from_bytes(bytes: &[u8]) -> (value: Option<Self>)
        ensures
            match value {
                Some(v) => Self::decode(bytes@) == Some(v@) && Self::encodable(v@),
                None => Self::decode(bytes@) is None,
            },
    ;

    /// Decoding the encoding of a value gives the value back.
    proof fn lemma_round_trip(value: Self::V)
        requires
            Self::encodable(value),
        ensures
            Self::decode(Self::encode(value)) == Some(value),
    ;
}

/// The eight little-endian bytes of `x`.
pub open spec fn le_bytes(x: u64) -> Seq<u8> {
    spec_u64_to_le_bytes(x)
}

/// The number that eight little-endian bytes stand for.
pub open spec fn le_value(bytes: Seq<u8>) -> u64
    recommends
        bytes.len() == 8,
{
    spec_u64_from_le_bytes(bytes)
}

/// `le_bytes` gives eight bytes, and `le_value` undoes it; on eight bytes
/// `le_bytes` undoes `le_value`.
pub proof fn lemma_le_bytes(x: u64)
    ensures
        le_bytes(x).len() == 8,
        le_value(le_bytes(x)) == x,
{
    lemma_auto_spec_u64_to_from_le_bytes();
}

impl IntoBytes for u64 {
    open spec fn encodable(value: u64) -> bool {
        true
    }

    open spec fn encode(value: u64) -> Seq<u8> {
        le_bytes(value)
    }

    open spec fn decode(bytes: Seq<u8>) -> Option<u64> {
        if bytes.len() == 8 {
            Some(le_value(bytes))
        } else {
            None
        }
    }

    fn into_bytes(&self) -> (bytes: Vec<u8>) {
        u64_to_le_bytes(*self)
    }

    fn from_bytes(bytes: &[u8]) -> (value: Option<u64>) {
        if bytes.len() == 8 {
            Some(u64_from_le_bytes(bytes))
        } else {
            None
        }
    }

    proof fn lemma_round_trip(value: u64) {
        lemma_le_bytes(value);
    }
}

impl IntoBytes for usize {
    open spec fn encodable(value: usize) -> bool {
        true
    }

    open spec fn encode(value: usize) -> Seq<u8> {
        le_bytes(value as u64)
    }

    open spec fn decode(bytes: Seq<u8>) -> Option<usize> {
        if bytes.len() == 8 && le_value(bytes) <= usize::MAX {
            Some(le_value(bytes) as usize)
        } else {
            None
        }
    }

    fn into_bytes(&self) -> (bytes: Vec<u8>) {
        u64_to_le_bytes(*self as u64)
    }

    fn from_bytes(bytes: &[u8]) -> (value: Option<usize>) {
        if bytes.len() == 8 {
            let wide = u64_from_le_bytes(bytes);
            if wide <= usize::MAX as u64 {
                Some(wide as usize)
            } else {
                None
            }
        } else {
            None
        }
    }

    proof fn lemma_round_trip(value: usize) {
        lemma_le_bytes(value as u64);
    }
}

impl View for AssetId {
    type V = AssetId;

    open spec fn view(&self) -> AssetId {
        *self
    }
}

impl IntoBytes for AssetId {
    open spec fn encodable(value: AssetId) -> bool {
        true
    }

    open spec fn encode(value: AssetId) -> Seq<u8> {
        le_bytes(value.0)
    }

    open spec fn decode(bytes: Seq<u8>) -> Option<AssetId> {
        if bytes.len() == 8 {
            Some(AssetId(le_value(bytes)))
        } else {
            None
        }
    }

    fn into_bytes(&self) -> (bytes: Vec<u8>) {
        u64_to_le_bytes(self.0)
    }

    fn from_bytes(bytes: &[u8]) -> (value: Option<AssetId>) {
        if bytes.len() == 8 {
            Some(AssetId(u64_from_le_bytes(bytes)))
        } else {
            None
        }
    }

    proof fn lemma_round_trip(value: AssetId) {
        lemma_le_bytes(value.0);
    }
}

/// The items of an encoded set: each id as the length 8 and its eight bytes.
pub open spec fn encode_items(ids: Seq<AssetId>) -> Seq<u8>
    decreases ids.len(),
{
    if ids.len() == 0 {
        Seq::empty()
    } else {
        le_bytes(8) + le_bytes(ids[0].0) + encode_items(ids.drop_first())
    }
}

/// `ids` with `id` at its end, unless `ids` holds it already.
pub open spec fn push_new(ids: Seq<AssetId>, id: AssetId) -> Seq<AssetId> {
    if ids.contains(id) {
        ids
    } else {
        ids.push(id)
    }
}

/// Reads `count` items from the front of `bytes` and adds each to `seen`.
/// An item is sixteen bytes: the length 8, then the id. Fewer bytes than that,
/// or another length, give `None`. What follows the last item is not read.
pub open spec fn decode_items(bytes: Seq<u8>, count: nat, seen: Seq<AssetId>) -> Option<
    Seq<AssetId>,
>
    decreases count,
{
    if count == 0 {
        Some(seen)
    } else if bytes.len() < 16 || le_value(bytes.subrange(0, 8)) != 8 {
        None
    } else {
        decode_items(
            bytes.skip(16),
            (count - 1) as nat,
            push_new(seen, AssetId(le_value(bytes.subrange(8, 16)))),
        )
    }
}

/// The bytes of a set: the number of ids, then the items.
pub open spec fn encode_ids(ids: Seq<AssetId>) -> Seq<u8> {
    le_bytes(ids.len() as u64) + encode_items(ids)
}

/// The set that `bytes` stand for: a count, then that many items. An id that
/// occurs twice is taken once, where it first stands.
pub open spec fn decode_ids(bytes: Seq<u8>) -> Option<Seq<AssetId>> {
    if bytes.len() < 8 {
        None
    } else {
        decode_items(bytes.skip(8), le_value(bytes.subrange(0, 8)) as nat, Seq::empty())
    }
}

/// The items of `ids` take sixteen bytes each.
pub proof fn lemma_encode_items_len(ids: Seq<AssetId>)
    ensures
        encode_items(ids).len() == 16 * ids.len(),
    decreases ids.len(),
{
    if ids.len() > 0 {
        lemma_le_bytes(8);
        lemma_le_bytes(ids[0].0);
        lemma_encode_items_len(ids.drop_first());
    }
}

/// Reading the items of `ids` after `seen` gives `seen` followed by `ids`,
/// when no id occurs twice in the two together. Bytes after the items do not matter.
pub proof fn lemma_decode_items(ids: Seq<AssetId>, seen: Seq<AssetId>, tail: Seq<u8>)
    requires
        (seen + ids).no_duplicates(),
    ensures
        decode_items(encode_items(ids) + tail, ids.len(), seen) == Some(seen + ids),
    decreases ids.len(),
{
    if ids.len() == 0 {
        assert(seen + ids == seen);
    } else {
        let first = ids[0];
        let rest = ids.drop_first();
        let bytes = encode_items(ids) + tail;
        lemma_le_bytes(8);
        lemma_le_bytes(first.0);
        lemma_encode_items_len(rest);
        assert(bytes.subrange(0, 8) == le_bytes(8));
        assert(bytes.subrange(8, 16) == le_bytes(first.0));
        assert(bytes.skip(16) == encode_items(rest) + tail);
        assert(!seen.contains(first)) by {
            if seen.contains(first) {
                let j = choose|j: int| 0 <= j < seen.len() && seen[j] == first;
                assert((seen + ids)[j] == (seen + ids)[seen.len() as int]);
            }
        }
        assert(seen.push(first) + rest == seen + ids);
        lemma_decode_items(rest, seen.push(first), tail);
    }
}

/// What `decode_items` returns holds no id twice, when `seen` holds none twice.
pub proof fn lemma_decode_items_distinct(bytes: Seq<u8>, count: nat, seen: Seq<AssetId>)
    requires
        seen.no_duplicates(),
    ensures
        decode_items(bytes, count, seen) matches Some(ids) ==> ids.no_duplicates(),
    decreases count,
{
    if count > 0 && !(bytes.len() < 16 || le_value(bytes.subrange(0, 8)) != 8) {
        let id = AssetId(le_value(bytes.subrange(8, 16)));
        if !seen.contains(id) {
            crate::asset::set::lemma_push_distinct(seen, id);
        }
        lemma_decode_items_distinct(bytes.skip(16), (count - 1) as nat, push_new(seen, id));
    }
}

/// A set survives encoding and decoding, whatever bytes follow it.
pub proof fn lemma_ids_round_trip(ids: Seq<AssetId>, tail: Seq<u8>)
    requires
        ids.no_duplicates(),
        ids.len() <= u64::MAX,
    ensures
        decode_ids(encode_ids(ids) + tail) == Some(ids),
{
    let bytes = encode_ids(ids) + tail;
    lemma_le_bytes(ids.len() as u64);
    assert(bytes.subrange(0, 8) == le_bytes(ids.len() as u64));
    assert(bytes.skip(8) == encode_items(ids) + tail);
    assert(Seq::<AssetId>::empty() + ids == ids);
    lemma_decode_items(ids, Seq::empty(), tail);
}

impl IntoBytes for IdSet {
    open spec fn encodable(value: Seq<AssetId>) -> bool {
        value.no_duplicates() && value.len() <= u64::MAX
    }

    open spec fn encode(value: Seq<AssetId>) -> Seq<u8> {
        encode_ids(value)
    }

    open spec fn decode(bytes: Seq<u8>) -> Option<Seq<AssetId>> {
        decode_ids(bytes)
    }

    fn into_bytes(&self) -> (bytes: Vec<u8>) {
        let mut bytes = u64_to_le_bytes(self.len() as u64);
        let mut i: usize = 0;
        proof {
            assert(self@.skip(0) == self@);
        }
        while i < self.len()
            invariant
                i <= self@.len(),
                bytes@ + encode_items(self@.skip(i as int)) == encode_ids(self@),
            decreases self@.len() - i,
        {
            let id = self.get(i);
            let mut width = u64_to_le_bytes(8);
            let mut item = u64_to_le_bytes(id.0);
            proof {
                let rest = self@.skip(i as int);
                assert(rest[0] == id);
                assert(rest.drop_first() == self@.skip(i + 1));
                assert(bytes@ + le_bytes(8) + le_bytes(id.0) + encode_items(rest.drop_first())
                    == bytes@ + encode_items(rest));
            }
            bytes.append(&mut width);
            bytes.append(&mut item);
            i += 1;
        }
        proof {
            assert(encode_items(self@.skip(i as int)) == Seq::<u8>::empty());
            assert(bytes@ + Seq::<u8>::empty() == bytes@);
        }
        bytes
    }

    fn from_bytes(bytes: &[u8]) -> (value: Option<IdSet>)
        ensures
            value matches Some(v) ==> 8 + 16 * v@.len() <= bytes@.len(),
    {
        if bytes.len() < 8 {
            return None;
        }
        let count = u64_from_le_bytes(slice_subrange(bytes, 0, 8));
        let mut set = IdSet::new();
        let mut at: usize = 8;
        let mut read: u64 = 0;
        while read < count
            invariant
                8 <= at <= bytes@.len(),
                read <= count,
                set.wf(),
                set@.len() <= read,
                8 + 16 * set@.len() <= at,
                decode_ids(bytes@) == decode_items(
                    bytes@.skip(at as int),
                    (count - read) as nat,
                    set@,
                ),
            decreases count - read,
        {
            let ghost rest = bytes@.skip(at as int);
            if bytes.len() - at < 16 {
                return None;
            }
            let width = u64_from_le_bytes(slice_subrange(bytes, at, at + 8));
            proof {
                assert(bytes@.subrange(at as int, at + 8) == rest.subrange(0, 8));
                assert(bytes@.subrange(at + 8, at + 16) == rest.subrange(8, 16));
                assert(bytes@.skip(at + 16) == rest.skip(16));
            }
            if width != 8 {
                return None;
            }
            let id = AssetId(u64_from_le_bytes(slice_subrange(bytes, at + 8, at + 16)));
            set.insert(id);
            at += 16;
            read += 1;
        }
        Some(set)
    }

    proof fn lemma_round_trip(value: Seq<AssetId>) {
        lemma_ids_round_trip(value, Seq::empty());
        assert(encode_ids(value) + Seq::<u8>::empty() == encode_ids(value));
    }
}

} // verus!
