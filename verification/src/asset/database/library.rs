//! The library index: which source has which id.

use vstd::prelude::*;
use vstd::bytes::{u64_from_le_bytes, u64_to_le_bytes};
use vstd::slice::{slice_subrange, slice_to_vec};
use vstd::string::{StrSliceExecFns, StringSliceAdditionalSpecFns};
use vstd::utf8::{decode_utf8, encode_utf8, valid_utf8};
use crate::asset::bytes::{le_bytes, le_value, lemma_le_bytes, text_of_utf8, IntoBytes};
use crate::asset::path::same_text;
use crate::asset::AssetId;

verus! {

/// The index of the sources of a project: a one-to-one relation between
/// paths and ids.
pub struct AssetLibrary {
    entries: Vec<(AssetId, String)>,
}

/// The entries as plain values.
pub open spec fn entry_views(entries: Seq<(AssetId, String)>) -> Seq<(AssetId, Seq<char>)> {
    entries.map_values(|entry: (AssetId, String)| (entry.0, entry.1@))
}

/// The entries of `entries` that have neither the id `id` nor the path `path`.
pub open spec fn without(entries: Seq<(AssetId, Seq<char>)>, id: AssetId, path: Seq<char>) -> Seq<
    (AssetId, Seq<char>),
>
    decreases entries.len(),
{
    if entries.len() == 0 {
        entries
    } else {
        let front = without(entries.drop_last(), id, path);
        if entries.last().0 == id || entries.last().1 == path {
            front
        } else {
            front.push(entries.last())
        }
    }
}

/// No id and no path occurs in two entries.
pub open spec fn one_to_one(entries: Seq<(AssetId, Seq<char>)>) -> bool {
    forall|i: int, j: int|
        0 <= i < entries.len() && 0 <= j < entries.len() && i != j ==> entries[i].0 != entries[j].0
            && entries[i].1 != entries[j].1
}

/// The path that `entries` gives for `id`.
pub open spec fn path_of(entries: Seq<(AssetId, Seq<char>)>, id: AssetId) -> Option<Seq<char>> {
    if exists|i: int| 0 <= i < entries.len() && entries[i].0 == id {
        Some(entries[choose|i: int| 0 <= i < entries.len() && entries[i].0 == id].1)
    } else {
        None
    }
}

/// The id that `entries` gives for `path`.
pub open spec fn id_of(entries: Seq<(AssetId, Seq<char>)>, path: Seq<char>) -> Option<AssetId> {
    if exists|i: int| 0 <= i < entries.len() && entries[i].1 == path {
        Some(entries[choose|i: int| 0 <= i < entries.len() && entries[i].1 == path].0)
    } else {
        None
    }
}

/// `without` keeps the entries that share nothing with the pair, in their
/// order, and with them the one-to-one relation.
pub proof fn lemma_without(entries: Seq<(AssetId, Seq<char>)>, id: AssetId, path: Seq<char>)
    ensures
        forall|i: int|
            0 <= i < without(entries, id, path).len() ==> (#[trigger] without(
                entries,
                id,
                path,
            )[i]).0 != id && without(entries, id, path)[i].1 != path && entries.contains(
                without(entries, id, path)[i],
            ),
        forall|e: (AssetId, Seq<char>)|
            entries.contains(e) && e.0 != id && e.1 != path ==> #[trigger] without(
                entries,
                id,
                path,
            ).contains(e),
        one_to_one(entries) ==> one_to_one(without(entries, id, path)),
        without(entries, id, path).len() <= entries.len(),
    decreases entries.len(),
{
    if entries.len() > 0 {
        let front = entries.drop_last();
        let last = entries.last();
        lemma_without(front, id, path);
        let kept_front = without(front, id, path);
        let kept = without(entries, id, path);
        assert forall|i: int| 0 <= i < kept.len() implies (#[trigger] kept[i]).0 != id && kept[i].1
            != path && entries.contains(kept[i]) by {
            if i < kept_front.len() {
                assert(kept[i] == kept_front[i]);
                let j = choose|j: int| 0 <= j < front.len() && front[j] == kept_front[i];
                assert(entries[j] == kept[i]);
            } else {
                assert(entries[entries.len() - 1] == kept[i]);
            }
        }
        assert forall|e: (AssetId, Seq<char>)|
            entries.contains(e) && e.0 != id && e.1 != path implies #[trigger] kept.contains(e) by {
            let j = choose|j: int| 0 <= j < entries.len() && entries[j] == e;
            if j < front.len() {
                assert(front[j] == e);
                assert(kept_front.contains(e));
                let k = choose|k: int| 0 <= k < kept_front.len() && kept_front[k] == e;
                assert(kept[k] == e);
            } else {
                assert(kept[kept.len() - 1] == e);
            }
        }
        if one_to_one(entries) {
            assert(one_to_one(front)) by {
                assert forall|i: int, j: int|
                    0 <= i < front.len() && 0 <= j < front.len() && i != j implies front[i].0
                    != front[j].0 && front[i].1 != front[j].1 by {
                    assert(front[i] == entries[i] && front[j] == entries[j]);
                }
            }
            assert forall|i: int, j: int|
                0 <= i < kept.len() && 0 <= j < kept.len() && i != j implies kept[i].0 != kept[j].0
                && kept[i].1 != kept[j].1 by {
                if i < kept_front.len() && j < kept_front.len() {
                    assert(kept[i] == kept_front[i] && kept[j] == kept_front[j]);
                } else {
                    let low = if i < j { i } else { j };
                    assert(kept[low] == kept_front[low]);
                    let k = choose|k: int| 0 <= k < front.len() && front[k] == kept_front[low];
                    assert(entries[k] == kept[low]);
                    assert(entries[entries.len() - 1] == last);
                }
            }
        }
    }
}

impl View for AssetLibrary {
    type V = Seq<(AssetId, Seq<char>)>;

    closed spec fn view(&self) -> Seq<(AssetId, Seq<char>)> {
        entry_views(self.entries@)
    }
}

impl AssetLibrary {
    /// Paths and ids stand in a one-to-one relation.
    pub open spec fn wf(&self) -> bool {
        one_to_one(self@)
    }

    pub fn new() -> (library: AssetLibrary)
        ensures
            library.wf(),
            library@ == Seq::<(AssetId, Seq<char>)>::empty(),
    {
        let library = AssetLibrary { entries: Vec::new() };
        assert(library@ =~= Seq::<(AssetId, Seq<char>)>::empty());
        library
    }

    /// The number of sources in the index.
    pub fn len(&self) -> (len: usize)
        ensures
            len == self@.len(),
    {
        self.entries.len()
    }

    /// Enters the source at `path` under `id`. What the index held for the id
    /// or for the path leaves it, so that the relation stays one-to-one;
    /// returned are the id that the path had and the path that the id had.
    pub fn insert(&mut self, id: AssetId, path: String) -> (previous: (
        Option<AssetId>,
        Option<String>,
    ))
        requires
            old(self).wf(),
        ensures
            final(self).wf(),
            final(self)@ == without(old(self)@, id, path@).push((id, path@)),
            previous.0 == id_of(old(self)@, path@),
            match previous.1 {
                Some(p) => path_of(old(self)@, id) == Some(p@),
                None => path_of(old(self)@, id) is None,
            },
            path_of(final(self)@, id) == Some(path@),
            id_of(final(self)@, path@) == Some(id),
    {
        let mut kept: Vec<(AssetId, String)> = Vec::new();
        let mut old_id: Option<AssetId> = None;
        let mut old_path: Option<String> = None;
        let ghost before = self@;
        let mut i: usize = 0;
        while i < self.entries.len()
            invariant
                i <= self.entries@.len(),
                self.entries@ == old(self).entries@,
                before == entry_views(self.entries@),
                one_to_one(before),
                entry_views(kept@) == without(before.take(i as int), id, path@),
                match old_id {
                    Some(x) => exists|j: int|
                        0 <= j < i && before[j].1 == path@ && before[j].0 == x,
                    None => forall|j: int| 0 <= j < i ==> before[j].1 != path@,
                },
                match old_path {
                    Some(p) => exists|j: int|
                        0 <= j < i && before[j].0 == id && before[j].1 == p@,
                    None => forall|j: int| 0 <= j < i ==> before[j].0 != id,
                },
            decreases self.entries@.len() - i,
        {
            let entry_id = self.entries[i].0;
            let same_path = self.entries[i].1 == path;
            proof {
                assert(before.take(i + 1).drop_last() == before.take(i as int));
                assert(before[i as int] == (self.entries@[i as int].0, self.entries@[i as int].1@));
            }
            if same_path {
                old_id = Some(entry_id);
            }
            if entry_id == id {
                old_path = Some(self.entries[i].1.clone());
            }
            if !(same_path || entry_id == id) {
                let ghost shorter = kept@;
                kept.push((entry_id, self.entries[i].1.clone()));
                proof {
                    assert(entry_views(kept@) =~= entry_views(shorter).push(before[i as int]));
                }
            }
            i += 1;
        }
        proof {
            assert(before.take(before.len() as int) == before);
            lemma_without(before, id, path@);
        }
        let ghost rest = entry_views(kept@);
        kept.push((id, path));
        self.entries = kept;
        proof {
            let after = self@;
            assert(after =~= rest.push((id, path@)));
            assert forall|a: int, b: int|
                0 <= a < after.len() && 0 <= b < after.len() && a != b implies after[a].0
                != after[b].0 && after[a].1 != after[b].1 by {
                if a < rest.len() {
                    assert(after[a] == rest[a]);
                }
                if b < rest.len() {
                    assert(after[b] == rest[b]);
                }
            }
            assert(after[rest.len() as int] == (id, path@));
            let found = choose|k: int| 0 <= k < after.len() && after[k].0 == id;
            assert(found == rest.len());
            let found_path = choose|k: int| 0 <= k < after.len() && after[k].1 == path@;
            assert(found_path == rest.len());
            if old_id is Some {
                let x = old_id.unwrap();
                let j = choose|j: int|
                    0 <= j < before.len() && before[j].1 == path@ && before[j].0 == x;
                let c = choose|c: int| 0 <= c < before.len() && before[c].1 == path@;
                assert(c == j);
            }
            if old_path is Some {
                let p = old_path.unwrap();
                let j = choose|j: int|
                    0 <= j < before.len() && before[j].0 == id && before[j].1 == p@;
                let c = choose|c: int| 0 <= c < before.len() && before[c].0 == id;
                assert(c == j);
            }
        }
        (old_id, old_path)
    }

    /// The path of the source with the id `id`.
    pub fn id_path(&self, id: &AssetId) -> (path: Option<&String>)
        requires
            self.wf(),
        ensures
            match path {
                Some(p) => path_of(self@, *id) == Some(p@),
                None => path_of(self@, *id) is None,
            },
    {
        let mut i: usize = 0;
        while i < self.entries.len()
            invariant
                i <= self.entries@.len(),
                self.wf(),
                forall|j: int| 0 <= j < i ==> self@[j].0 != *id,
            decreases self.entries@.len() - i,
        {
            proof {
                assert(self@[i as int] == (self.entries@[i as int].0, self.entries@[i as int].1@));
            }
            if self.entries[i].0 == *id {
                proof {
                    assert(self@[i as int].0 == *id);
                    let c = choose|c: int| 0 <= c < self@.len() && self@[c].0 == *id;
                    assert(c == i);
                }
                return Some(&self.entries[i].1);
            }
            i += 1;
        }
        None
    }

    /// The id of the source at `path`.
    pub fn path_id(&self, path: &str) -> (id: Option<&AssetId>)
        requires
            self.wf(),
        ensures
            match id {
                Some(x) => id_of(self@, path@) == Some(*x),
                None => id_of(self@, path@) is None,
            },
    {
        let mut i: usize = 0;
        while i < self.entries.len()
            invariant
                i <= self.entries@.len(),
                self.wf(),
                forall|j: int| 0 <= j < i ==> self@[j].1 != path@,
            decreases self.entries@.len() - i,
        {
            proof {
                assert(self@[i as int] == (self.entries@[i as int].0, self.entries@[i as int].1@));
            }
            if same_text(self.entries[i].1.as_str(), path) {
                proof {
                    assert(self@[i as int].1 == path@);
                    let c = choose|c: int| 0 <= c < self@.len() && self@[c].1 == path@;
                    assert(c == i);
                }
                return Some(&self.entries[i].0);
            }
            i += 1;
        }
        None
    }
}

/// In a well-formed library a path has the id under which it was entered,
/// and that id has the path: the two lookups undo each other.
pub proof fn lemma_library_bijection(
    entries: Seq<(AssetId, Seq<char>)>,
    id: AssetId,
    path: Seq<char>,
)
    requires
        one_to_one(entries),
    ensures
        path_of(entries, id) == Some(path) <==> id_of(entries, path) == Some(id),
{
    if path_of(entries, id) == Some(path) {
        let i = choose|i: int| 0 <= i < entries.len() && entries[i].0 == id;
        let c = choose|c: int| 0 <= c < entries.len() && entries[c].1 == path;
        assert(c == i);
    }
    if id_of(entries, path) == Some(id) {
        let i = choose|i: int| 0 <= i < entries.len() && entries[i].1 == path;
        let c = choose|c: int| 0 <= c < entries.len() && entries[c].0 == id;
        assert(c == i);
    }
}

/// The bytes of one entry: the length of what follows, the id, and the path
/// as UTF-8.
pub open spec fn encode_entry(entry: (AssetId, Seq<char>)) -> Seq<u8> {
    le_bytes((8 + encode_utf8(entry.1).len()) as u64) + le_bytes(entry.0.0) + encode_utf8(entry.1)
}

/// The entries of an encoded library, one after the other.
pub open spec fn encode_entries(entries: Seq<(AssetId, Seq<char>)>) -> Seq<u8>
    decreases entries.len(),
{
    if entries.len() == 0 {
        Seq::empty()
    } else {
        encode_entry(entries[0]) + encode_entries(entries.drop_first())
    }
}

/// The bytes of a library: the number of entries, then the entries.
pub open spec fn encode_library(entries: Seq<(AssetId, Seq<char>)>) -> Seq<u8> {
    le_bytes(entries.len() as u64) + encode_entries(entries)
}

/// `entries` with the pair of `id` and `path` at its end, in place of what
/// it held for either.
pub open spec fn entered(entries: Seq<(AssetId, Seq<char>)>, id: AssetId, path: Seq<char>) -> Seq<
    (AssetId, Seq<char>),
> {
    without(entries, id, path).push((id, path))
}

/// Reads `count` entries from the front of `bytes` and enters each into
/// `seen`. An entry is a length, an id and a path: a length under 8 or
/// beyond the bytes, or a path that is no UTF-8, gives `None`.
pub open spec fn decode_entries(
    bytes: Seq<u8>,
    count: nat,
    seen: Seq<(AssetId, Seq<char>)>,
) -> Option<Seq<(AssetId, Seq<char>)>>
    decreases count,
{
    if count == 0 {
        Some(seen)
    } else if bytes.len() < 16 {
        None
    } else {
        let len = le_value(bytes.subrange(0, 8));
        if len < 8 || len - 8 > bytes.len() - 16 {
            None
        } else {
            let id = AssetId(le_value(bytes.subrange(8, 16)));
            let text = bytes.subrange(16, 8 + len);
            if valid_utf8(text) {
                decode_entries(
                    bytes.skip(8 + len),
                    (count - 1) as nat,
                    entered(seen, id, decode_utf8(text)),
                )
            } else {
                None
            }
        }
    }
}

/// The library that `bytes` stand for.
pub open spec fn decode_library(bytes: Seq<u8>) -> Option<Seq<(AssetId, Seq<char>)>> {
    if bytes.len() < 8 {
        None
    } else {
        decode_entries(bytes.skip(8), le_value(bytes.subrange(0, 8)) as nat, Seq::empty())
    }
}

/// The libraries that have an encoding: one-to-one, with a number of
/// entries and lengths of paths that fit in 64 bits.
pub open spec fn library_encodable(entries: Seq<(AssetId, Seq<char>)>) -> bool {
    &&& one_to_one(entries)
    &&& entries.len() <= u64::MAX
    &&& forall|i: int|
        0 <= i < entries.len() ==> 8 + encode_utf8((#[trigger] entries[i]).1).len() <= u64::MAX
}

/// Entering a pair that shares nothing with the entries puts it at their end.
pub proof fn lemma_entered_new(entries: Seq<(AssetId, Seq<char>)>, id: AssetId, path: Seq<char>)
    requires
        forall|i: int| 0 <= i < entries.len() ==> entries[i].0 != id && entries[i].1 != path,
    ensures
        entered(entries, id, path) == entries.push((id, path)),
    decreases entries.len(),
{
    if entries.len() > 0 {
        let front = entries.drop_last();
        assert forall|i: int| 0 <= i < front.len() implies front[i].0 != id && front[i].1
            != path by {
            assert(front[i] == entries[i]);
        }
        lemma_entered_new(front, id, path);
        assert(without(front, id, path) == front) by {
            assert(entered(front, id, path).drop_last() == without(front, id, path));
            assert(front.push((id, path)).drop_last() == front);
        }
        assert(entries.last() == entries[entries.len() - 1]);
        assert(front.push(entries.last()) == entries);
    }
}

/// Entering a pair keeps the entries one-to-one.
pub proof fn lemma_entered_one_to_one(
    entries: Seq<(AssetId, Seq<char>)>,
    id: AssetId,
    path: Seq<char>,
)
    requires
        one_to_one(entries),
    ensures
        one_to_one(entered(entries, id, path)),
{
    lemma_without(entries, id, path);
    let rest = without(entries, id, path);
    let after = entered(entries, id, path);
    assert forall|a: int, b: int|
        0 <= a < after.len() && 0 <= b < after.len() && a != b implies after[a].0 != after[b].0
        && after[a].1 != after[b].1 by {
        if a < rest.len() {
            assert(after[a] == rest[a]);
        }
        if b < rest.len() {
            assert(after[b] == rest[b]);
        }
    }
}

/// What `decode_entries` returns is one-to-one, when `seen` is.
pub proof fn lemma_decode_entries_one_to_one(
    bytes: Seq<u8>,
    count: nat,
    seen: Seq<(AssetId, Seq<char>)>,
)
    requires
        one_to_one(seen),
    ensures
        decode_entries(bytes, count, seen) matches Some(entries) ==> one_to_one(entries),
    decreases count,
{
    if count > 0 && bytes.len() >= 16 {
        let len = le_value(bytes.subrange(0, 8));
        if !(len < 8 || len - 8 > bytes.len() - 16) {
            let id = AssetId(le_value(bytes.subrange(8, 16)));
            let text = bytes.subrange(16, 8 + len);
            if valid_utf8(text) {
                lemma_entered_one_to_one(seen, id, decode_utf8(text));
                lemma_decode_entries_one_to_one(
                    bytes.skip(8 + len),
                    (count - 1) as nat,
                    entered(seen, id, decode_utf8(text)),
                );
            }
        }
    }
}

/// Reading the encoded `entries` after `seen` gives `seen` followed by
/// `entries`, when the two together are one-to-one. Bytes after the entries
/// do not matter.
pub proof fn lemma_decode_entries(
    entries: Seq<(AssetId, Seq<char>)>,
    seen: Seq<(AssetId, Seq<char>)>,
    tail: Seq<u8>,
)
    requires
        one_to_one(seen + entries),
        forall|i: int|
            0 <= i < entries.len() ==> 8 + encode_utf8((#[trigger] entries[i]).1).len() <= u64::MAX,
    ensures
        decode_entries(encode_entries(entries) + tail, entries.len(), seen) == Some(seen + entries),
    decreases entries.len(),
{
    if entries.len() == 0 {
        assert(seen + entries == seen);
    } else {
        let first = entries[0];
        let rest = entries.drop_first();
        let text = encode_utf8(first.1);
        let bytes = encode_entries(entries) + tail;
        let len = (8 + text.len()) as u64;
        lemma_le_bytes(len);
        lemma_le_bytes(first.0.0);
        vstd::utf8::encode_utf8_valid_utf8(first.1);
        vstd::utf8::encode_utf8_decode_utf8(first.1);
        assert(bytes.subrange(0, 8) == le_bytes(len));
        assert(bytes.subrange(8, 16) == le_bytes(first.0.0));
        assert(bytes.subrange(16, 8 + len) == text);
        assert(bytes.skip(8 + len) == encode_entries(rest) + tail);
        let whole = seen + entries;
        assert forall|i: int| 0 <= i < seen.len() implies seen[i].0 != first.0 && seen[i].1
            != first.1 by {
            assert(whole[i] == seen[i]);
            assert(whole[seen.len() as int] == first);
        }
        lemma_entered_new(seen, first.0, first.1);
        assert(seen.push(first) + rest == whole);
        assert forall|i: int| 0 <= i < rest.len() implies 8 + encode_utf8(
            (#[trigger] rest[i]).1,
        ).len() <= u64::MAX by {
            assert(rest[i] == entries[i + 1]);
        }
        lemma_decode_entries(rest, seen.push(first), tail);
    }
}

/// A library survives encoding and decoding.
pub proof fn lemma_library_round_trip(entries: Seq<(AssetId, Seq<char>)>)
    requires
        library_encodable(entries),
    ensures
        decode_library(encode_library(entries)) == Some(entries),
{
    let bytes = encode_library(entries);
    lemma_le_bytes(entries.len() as u64);
    assert(bytes.subrange(0, 8) == le_bytes(entries.len() as u64));
    assert(bytes.skip(8) == encode_entries(entries) + Seq::<u8>::empty());
    assert(Seq::<(AssetId, Seq<char>)>::empty() + entries == entries);
    lemma_decode_entries(entries, Seq::empty(), Seq::empty());
}

impl IntoBytes for AssetLibrary {
    open spec fn encodable(value: Seq<(AssetId, Seq<char>)>) -> bool {
        library_encodable(value)
    }

    open spec fn encode(value: Seq<(AssetId, Seq<char>)>) -> Seq<u8> {
        encode_library(value)
    }

    open spec fn decode(bytes: Seq<u8>) -> Option<Seq<(AssetId, Seq<char>)>> {
        decode_library(bytes)
    }

    fn into_bytes(&self) -> (bytes: Vec<u8>) {
        let mut bytes = u64_to_le_bytes(self.entries.len() as u64);
        let mut i: usize = 0;
        proof {
            assert(self@.skip(0) == self@);
        }
        while i < self.entries.len()
            invariant
                i <= self.entries@.len(),
                library_encodable(self@),
                bytes@ + encode_entries(self@.skip(i as int)) == encode_library(self@),
            decreases self.entries@.len() - i,
        {
            let mut text = self.entries[i].1.as_str().as_bytes_vec();
            proof {
                let rest = self@.skip(i as int);
                assert(self@[i as int] == (self.entries@[i as int].0, self.entries@[i as int].1@));
                assert(rest[0] == self@[i as int]);
                assert(rest.drop_first() == self@.skip(i + 1));
                assert(bytes@ + encode_entry(rest[0]) + encode_entries(rest.drop_first()) == bytes@
                    + encode_entries(rest));
            }
            let mut len = u64_to_le_bytes(8 + text.len() as u64);
            let mut id = u64_to_le_bytes(self.entries[i].0.0);
            bytes.append(&mut len);
            bytes.append(&mut id);
            bytes.append(&mut text);
            i += 1;
        }
        proof {
            assert(encode_entries(self@.skip(i as int)) == Seq::<u8>::empty());
            assert(bytes@ + Seq::<u8>::empty() == bytes@);
        }
        bytes
    }

    fn from_bytes(bytes: &[u8]) -> (value: Option<AssetLibrary>) {
        if bytes.len() < 8 {
            return None;
        }
        let count = u64_from_le_bytes(slice_subrange(bytes, 0, 8));
        let mut library = AssetLibrary::new();
        let mut at: usize = 8;
        let mut read: u64 = 0;
        while read < count
            invariant
                8 <= at <= bytes@.len(),
                read <= count,
                library.wf(),
                library@.len() <= read,
                forall|i: int|
                    0 <= i < library@.len() ==> 8 + encode_utf8((#[trigger] library@[i]).1).len()
                        <= bytes@.len(),
                decode_library(bytes@) == decode_entries(
                    bytes@.skip(at as int),
                    (count - read) as nat,
                    library@,
                ),
            decreases count - read,
        {
            let ghost rest = bytes@.skip(at as int);
            let ghost seen = library@;
            if bytes.len() - at < 16 {
                return None;
            }
            let len = u64_from_le_bytes(slice_subrange(bytes, at, at + 8));
            proof {
                assert(bytes@.subrange(at as int, at + 8) == rest.subrange(0, 8));
                assert(bytes@.subrange(at + 8, at + 16) == rest.subrange(8, 16));
            }
            if len < 8 || len - 8 > (bytes.len() - at - 16) as u64 {
                return None;
            }
            let end: usize = at + 8 + len as usize;
            let id = AssetId(u64_from_le_bytes(slice_subrange(bytes, at + 8, at + 16)));
            proof {
                assert(bytes@.subrange(at + 16, end as int) == rest.subrange(16, 8 + len));
                assert(bytes@.skip(end as int) == rest.skip(8 + len));
            }
            let path = match text_of_utf8(slice_to_vec(slice_subrange(bytes, at + 16, end))) {
                Some(path) => path,
                None => {
                    return None;
                },
            };
            proof {
                vstd::utf8::encode_utf8_decode_utf8(path@);
                lemma_without(seen, id, path@);
            }
            library.insert(id, path);
            proof {
                let shorter = without(seen, id, path@);
                assert forall|i: int| 0 <= i < library@.len() implies 8 + encode_utf8(
                    (#[trigger] library@[i]).1,
                ).len() <= bytes@.len() by {
                    if i < shorter.len() {
                        assert(library@[i] == shorter[i]);
                        let j = choose|j: int| 0 <= j < seen.len() && seen[j] == shorter[i];
                        assert(seen[j] == library@[i]);
                    }
                }
            }
            at = end;
            read += 1;
        }
        Some(library)
    }

    proof fn lemma_round_trip(value: Seq<(AssetId, Seq<char>)>) {
        lemma_library_round_trip(value);
    }
}

impl AssetLibrary {
    /// Whether the library can be encoded: it can unless a path is longer
    /// than a 64-bit length can say.
    pub fn is_encodable(&self) -> (fits: bool)
        requires
            self.wf(),
        ensures
            fits == library_encodable(self@),
    {
        let mut i: usize = 0;
        while i < self.entries.len()
            invariant
                i <= self.entries@.len(),
                forall|j: int|
                    0 <= j < i ==> 8 + encode_utf8((#[trigger] self@[j]).1).len() <= u64::MAX,
            decreases self.entries@.len() - i,
        {
            proof {
                assert(self@[i as int] == (self.entries@[i as int].0, self.entries@[i as int].1@));
            }
            let len = self.entries[i].1.as_str().as_bytes().len();
            proof {
                assert(len == encode_utf8(self@[i as int].1).len());
            }
            if len as u64 > u64::MAX - 8 {
                return false;
            }
            i += 1;
        }
        true
    }
}

} // verus!
