//! The reverse-dependency index: for each asset, the assets that depend on
//! it, kept in one file per asset and brought up to date batch by batch.

use vstd::prelude::*;
use crate::asset::bytes::{decode_ids, encode_ids, push_new, IntoBytes};
use crate::asset::config::dependents_path;
use crate::asset::io::{AssetFileSystem, AssetIoError, FileSystem};
use crate::asset::set::{lemma_seq_difference, lemma_seq_union, seq_difference, seq_union, IdSet};
use crate::asset::AssetId;
use crate::dense::DenseMap;

verus! {

/// The ids that come to and go from the dependents of one asset, as plain values.
pub ghost struct UpdatesView {
    pub added: Seq<AssetId>,
    pub removed: Seq<AssetId>,
}

/// What a batch has found for the dependents of one asset: the assets that
/// depend on it now, and those that do so no longer.
pub struct DependentUpdates {
    added: IdSet,
    removed: IdSet,
}

impl View for DependentUpdates {
    type V = UpdatesView;

    closed spec fn view(&self) -> UpdatesView {
        UpdatesView { added: self.added@, removed: self.removed@ }
    }
}

/// The dependents after an update: those before and the added ones, without
/// the removed ones.
pub open spec fn updated_dependents(
    before: Seq<AssetId>,
    added: Seq<AssetId>,
    removed: Seq<AssetId>,
) -> Seq<AssetId> {
    seq_difference(seq_union(before, added), removed)
}

/// The dependents that the file at `place` records: none where there is no
/// file, or where its bytes are no set of ids.
pub open spec fn stored_dependents(files: Map<Seq<char>, Seq<u8>>, place: Seq<char>) -> Seq<
    AssetId,
> {
    if files.contains_key(place) {
        match decode_ids(files[place]) {
            Some(ids) => ids,
            None => Seq::empty(),
        }
    } else {
        Seq::empty()
    }
}

/// `files` with `ids` recorded at `place`: an empty set has no file.
pub open spec fn with_dependents(
    files: Map<Seq<char>, Seq<u8>>,
    place: Seq<char>,
    ids: Seq<AssetId>,
) -> Map<Seq<char>, Seq<u8>> {
    if ids.len() > 0 {
        files.insert(place, encode_ids(ids))
    } else {
        files.remove(place)
    }
}

/// The dependents that a file records hold no id twice.
pub proof fn lemma_stored_distinct(files: Map<Seq<char>, Seq<u8>>, place: Seq<char>)
    ensures
        stored_dependents(files, place).no_duplicates(),
{
    if files.contains_key(place) && files[place].len() >= 8 {
        crate::asset::bytes::lemma_decode_items_distinct(
            files[place].skip(8),
            crate::asset::bytes::le_value(files[place].subrange(0, 8)) as nat,
            Seq::empty(),
        );
    }
}

/// An updated set of dependents holds an id when it was there or was added,
/// and was not removed.
pub proof fn lemma_updated_dependents(
    before: Seq<AssetId>,
    added: Seq<AssetId>,
    removed: Seq<AssetId>,
)
    requires
        before.no_duplicates(),
    ensures
        updated_dependents(before, added, removed).no_duplicates(),
        forall|id: AssetId| #[trigger]
            updated_dependents(before, added, removed).contains(id) <==> (before.contains(id)
                || added.contains(id)) && !removed.contains(id),
{
    lemma_seq_union(before, added);
    lemma_seq_difference(seq_union(before, added), removed);
}

/// The reverse index stays the transpose of the dependencies over the save
/// of one asset. Let the asset `a` have had the dependencies `previous` and
/// have the dependencies `current` now, and let `a` have been among the
/// dependents of `b` exactly when `b` was among `previous`. After the
/// update that the save calls for, `a` is among the dependents of `b`
/// exactly when `b` is among `current`.
pub proof fn lemma_transpose_step(
    a: AssetId,
    b: AssetId,
    previous: Seq<AssetId>,
    current: Seq<AssetId>,
    dependents: Seq<AssetId>,
)
    requires
        dependents.no_duplicates(),
        previous.no_duplicates(),
        dependents.contains(a) <==> previous.contains(b),
    ensures
        updated_dependents(
            dependents,
            if current.contains(b) {
                seq![a]
            } else {
                Seq::empty()
            },
            if seq_difference(previous, current).contains(b) {
                seq![a]
            } else {
                Seq::empty()
            },
        ).contains(a) <==> current.contains(b),
{
    let added = if current.contains(b) {
        seq![a]
    } else {
        Seq::empty()
    };
    let removed = if seq_difference(previous, current).contains(b) {
        seq![a]
    } else {
        Seq::empty()
    };
    lemma_updated_dependents(dependents, added, removed);
    lemma_seq_difference(previous, current);
    assert(seq![a][0] == a);
}

impl DependentUpdates {
    /// Neither set holds an id twice.
    pub open spec fn wf(&self) -> bool {
        self@.added.no_duplicates() && self@.removed.no_duplicates()
    }

    pub fn new() -> (updates: DependentUpdates)
        ensures
            updates.wf(),
            updates@.added == Seq::<AssetId>::empty(),
            updates@.removed == Seq::<AssetId>::empty(),
    {
        DependentUpdates { added: IdSet::new(), removed: IdSet::new() }
    }

    /// Notes that the asset `id` depends on the asset at hand.
    pub fn add(&mut self, id: AssetId)
        requires
            old(self).wf(),
        ensures
            final(self).wf(),
            final(self)@.added == push_new(old(self)@.added, id),
            final(self)@.removed == old(self)@.removed,
    {
        self.added.insert(id);
    }

    /// Notes that the asset `id` no longer depends on the asset at hand.
    pub fn remove(&mut self, id: AssetId)
        requires
            old(self).wf(),
        ensures
            final(self).wf(),
            final(self)@.removed == push_new(old(self)@.removed, id),
            final(self)@.added == old(self)@.added,
    {
        self.removed.insert(id);
    }

    pub fn added(&self) -> (added: &IdSet)
        ensures
            added@ == self@.added,
    {
        &self.added
    }

    pub fn removed(&self) -> (removed: &IdSet)
        ensures
            removed@ == self@.removed,
    {
        &self.removed
    }

    /// The dependents after the update.
    pub fn apply(&self, dependents: IdSet) -> (after: IdSet)
        requires
            dependents.wf(),
        ensures
            after.wf(),
            after@ == updated_dependents(dependents@, self@.added, self@.removed),
    {
        let mut all = dependents;
        all.extend(&self.added);
        let after = all.difference(&self.removed);
        after
    }
}

/// The dependents that a read of their file gives: a file that is not
/// there, or whose bytes are no set of ids, gives none.
pub fn dependents_of_bytes(bytes: Option<Vec<u8>>) -> (dependents: IdSet)
    ensures
        dependents.wf(),
        dependents@ == match bytes {
            Some(b) => match decode_ids(b@) {
                Some(ids) => ids,
                None => Seq::empty(),
            },
            None => Seq::empty(),
        },
{
    match bytes {
        Some(bytes) => match IdSet::from_bytes(bytes.as_slice()) {
            Some(dependents) => dependents,
            None => IdSet::new(),
        },
        None => IdSet::new(),
    }
}

/// Reads the dependents that the files record for `id`: none where there is
/// no file, or where its bytes are no set of ids. Where there is no file,
/// nothing is read and nothing fails; a reliable store does not fail.
pub fn load_dependents<F: FileSystem>(id: AssetId, fs: &AssetFileSystem<F>) -> (dependents: Result<
    IdSet,
    AssetIoError,
>)
    ensures
        dependents matches Ok(ids) ==> ids.wf() && ids@ == recorded_dependents(
            fs.files(),
            fs.root(),
            id,
        ),
        !fs.files().contains_key(dependents_path(fs.root(), id)) ==> dependents is Ok,
        fs.reliable() ==> dependents is Ok,
{
    let place = fs.config().dependents(&id);
    if !fs.is_file(place.as_str()) {
        return Ok(IdSet::new());
    }
    match fs.read(place.as_str()) {
        Ok(bytes) => Ok(dependents_of_bytes(Some(bytes))),
        Err(error) => Err(error),
    }
}

/// The ids that an update newly records: those of the updated set that the
/// set before did not hold.
pub open spec fn newly_recorded(
    before: Seq<AssetId>,
    added: Seq<AssetId>,
    removed: Seq<AssetId>,
) -> Seq<AssetId> {
    seq_difference(updated_dependents(before, added, removed), before)
}

/// Brings the file of the dependents of `id` up to date: what it holds, and
/// the added ids, without the removed ones. A set that comes out empty has
/// no file. Returned are the ids that the file newly records. An error of
/// the store leaves the files as they were. Where there is no file and none
/// is due, the store is not asked to change and nothing fails; a reliable
/// store does not fail.
pub fn update_dependents<F: FileSystem>(
    id: AssetId,
    fs: &mut AssetFileSystem<F>,
    updates: &DependentUpdates,
) -> (done: Result<IdSet, AssetIoError>)
    ensures
        final(fs).root() == old(fs).root(),
        match done {
            Ok(fresh) => {
                &&& final(fs).files() == with_dependents(
                    old(fs).files(),
                    dependents_path(old(fs).root(), id),
                    updated_dependents(
                        stored_dependents(old(fs).files(), dependents_path(old(fs).root(), id)),
                        updates@.added,
                        updates@.removed,
                    ),
                )
                &&& fresh.wf()
                &&& fresh@ == newly_recorded(
                    stored_dependents(old(fs).files(), dependents_path(old(fs).root(), id)),
                    updates@.added,
                    updates@.removed,
                )
            },
            Err(_) => final(fs).files() == old(fs).files(),
        },
        done is Ok ==> stored_dependents(final(fs).files(), dependents_path(old(fs).root(), id))
            == updated_dependents(
            stored_dependents(old(fs).files(), dependents_path(old(fs).root(), id)),
            updates@.added,
            updates@.removed,
        ),
        final(fs).reliable() == old(fs).reliable(),
        old(fs).reliable() ==> done is Ok,
        !old(fs).files().contains_key(dependents_path(old(fs).root(), id)) && updated_dependents(
            Seq::empty(),
            updates@.added,
            updates@.removed,
        ).len() == 0 ==> done is Ok,
{
    let place = fs.config().dependents(&id);
    let present = fs.is_file(place.as_str());
    let bytes = if present {
        match fs.read(place.as_str()) {
            Ok(bytes) => Some(bytes),
            Err(error) => {
                return Err(error);
            },
        }
    } else {
        None
    };
    let before = dependents_of_bytes(bytes);
    let after = updates.apply(before.clone());
    let fresh = after.difference(&before);
    let count = after.len();
    proof {
        if count > 0 {
            crate::asset::bytes::lemma_ids_round_trip(after@, Seq::empty());
            assert(encode_ids(after@) + Seq::<u8>::empty() == encode_ids(after@));
        }
    }
    if count > 0 {
        let bytes = after.into_bytes();
        match fs.write(place.as_str(), bytes.as_slice()) {
            Ok(_) => Ok(fresh),
            Err(error) => Err(error),
        }
    } else if present {
        match fs.remove(place.as_str()) {
            Ok(_) => Ok(fresh),
            Err(error) => Err(error),
        }
    } else {
        proof {
            assert(fs.files().remove(place@) =~= fs.files());
        }
        Ok(fresh)
    }
}

/// What the save of one source means for the reverse index: the id of the
/// asset, the dependencies that it has now, and those that it has no more.
pub struct SavedSummary {
    pub path: String,
    pub id: AssetId,
    pub dependencies: IdSet,
    /// The dependencies of the header that the artifact had before, where
    /// one was read.
    pub previous: Option<IdSet>,
    pub removed: IdSet,
}

/// The dependencies that the asset of a summary had before the save: none
/// where no header was read.
pub open spec fn previous_deps(summary: SavedSummary) -> Seq<AssetId> {
    match summary.previous {
        Some(previous) => previous@,
        None => Seq::empty(),
    }
}

/// The dependencies that the files below `root` record in the header of the
/// artifact of `id`: none where there is no artifact with a readable header.
pub open spec fn header_deps(files: Map<Seq<char>, Seq<u8>>, root: Seq<char>, id: AssetId) -> Seq<
    AssetId,
> {
    let place = crate::asset::config::artifact_path(root, id);
    if files.contains_key(place) {
        match crate::asset::artifact::decode_header(files[place]) {
            Some(meta) => meta.dependencies,
            None => Seq::empty(),
        }
    } else {
        Seq::empty()
    }
}

/// Whether the files below `root` are in step: an asset is among the
/// recorded dependents of another exactly when its header names the other
/// as a dependency.
#[verifier::opaque]
pub open spec fn transposed(files: Map<Seq<char>, Seq<u8>>, root: Seq<char>) -> bool {
    forall|a: AssetId, b: AssetId| #[trigger]
        header_deps(files, root, a).contains(b) <==> recorded_dependents(files, root, b).contains(a)
}

/// An id is in the difference of two sequences when it is in the first and
/// not in the second.
pub proof fn lemma_difference_contains(a: Seq<AssetId>, b: Seq<AssetId>, id: AssetId)
    ensures
        seq_difference(a, b).contains(id) <==> a.contains(id) && !b.contains(id),
    decreases a.len(),
{
    if a.len() > 0 {
        let front = a.drop_last();
        lemma_difference_contains(front, b, id);
        crate::asset::set::lemma_push_contains(seq_difference(front, b), a.last());
        crate::asset::set::lemma_push_contains(front, a.last());
        assert(front.push(a.last()) == a);
    }
}

/// What the table of a batch holds for the dependents of `dep`.
pub open spec fn updates_for(table: Map<u64, DependentUpdates>, dep: AssetId) -> UpdatesView {
    if table.contains_key(dep.0) {
        table[dep.0]@
    } else {
        UpdatesView { added: Seq::empty(), removed: Seq::empty() }
    }
}

/// Every entry of the table is well-formed.
pub open spec fn table_wf(table: Map<u64, DependentUpdates>) -> bool {
    forall|key: u64| #[trigger] table.contains_key(key) ==> table[key].wf()
}

/// Whether one of the first `n` saved assets is `id` and has lost the
/// dependency `dep`.
pub open spec fn dropped(saved: Seq<SavedSummary>, n: int, dep: AssetId, id: AssetId) -> bool {
    exists|i: int| 0 <= i < n && (#[trigger] saved[i]).id == id && saved[i].removed@.contains(dep)
}

/// Whether one of the first `n` saved assets is `id` and depends on `dep`.
pub open spec fn noted(saved: Seq<SavedSummary>, n: int, dep: AssetId, id: AssetId) -> bool {
    exists|i: int|
        0 <= i < n && (#[trigger] saved[i]).id == id && saved[i].dependencies@.contains(dep)
}

/// The ids that a batch asks to import again: those of the saved assets
/// that newly depend on something. An asset newly depends on `dep` when the
/// batch noted the edge and did not drop it, the files before the batch did
/// not record it, and the store did not refuse the file of `dep`.
pub open spec fn requeued(
    before: Map<Seq<char>, Seq<u8>>,
    root: Seq<char>,
    saved: Seq<SavedSummary>,
    unrecorded: Seq<AssetId>,
) -> Set<AssetId> {
    Set::new(
        |id: AssetId|
            exists|dep: AssetId|
                !unrecorded.contains(dep) && #[trigger] noted(saved, saved.len() as int, dep, id)
                    && !dropped(saved, saved.len() as int, dep, id) && !recorded_dependents(
                    before,
                    root,
                    dep,
                ).contains(id),
    )
}

/// Notes in the table that `id` has come to the dependents of `dep`, or,
/// where `add` is not set, that it has left them.
pub fn note(table: &mut DenseMap<u64, DependentUpdates>, dep: AssetId, id: AssetId, add: bool)
    requires
        old(table).wf(),
        table_wf(old(table)@),
    ensures
        final(table).wf(),
        table_wf(final(table)@),
        forall|key: u64| #[trigger]
            final(table)@.contains_key(key) <==> old(table)@.contains_key(key) || key == dep.0,
        forall|other: AssetId|
            other != dep ==> updates_for(final(table)@, other) == updates_for(old(table)@, other),
        updates_for(final(table)@, dep) == if add {
            UpdatesView {
                added: push_new(updates_for(old(table)@, dep).added, id),
                removed: updates_for(old(table)@, dep).removed,
            }
        } else {
            UpdatesView {
                added: updates_for(old(table)@, dep).added,
                removed: push_new(updates_for(old(table)@, dep).removed, id),
            }
        },
{
    if !table.contains_key(&dep.0) {
        table.insert(dep.0, DependentUpdates::new());
    }
    let ghost middle = table@;
    match table.get_mut(&dep.0) {
        Some(updates) => {
            if add {
                updates.add(id);
            } else {
                updates.remove(id);
            }
        },
        None => {},
    }
    proof {
        assert forall|other: AssetId| other != dep implies updates_for(table@, other)
            == updates_for(old(table)@, other) by {
            assert(other.0 != dep.0);
        }
    }
}

/// Notes in the table what the save of one source means: the asset has come
/// to the dependents of each of its dependencies, and has left those of
/// each dependency that it has no more.
pub fn record(table: &mut DenseMap<u64, DependentUpdates>, summary: &SavedSummary)
    requires
        old(table).wf(),
        table_wf(old(table)@),
    ensures
        final(table).wf(),
        table_wf(final(table)@),
        forall|dep: AssetId| #[trigger]
            final(table)@.contains_key(dep.0) <==> old(table)@.contains_key(dep.0)
                || summary.dependencies@.contains(dep) || summary.removed@.contains(dep),
        forall|dep: AssetId|
            (#[trigger] updates_for(final(table)@, dep)).added == if summary.dependencies@.contains(
                dep,
            ) {
                push_new(updates_for(old(table)@, dep).added, summary.id)
            } else {
                updates_for(old(table)@, dep).added
            },
        forall|dep: AssetId|
            (#[trigger] updates_for(final(table)@, dep)).removed == if summary.removed@.contains(
                dep,
            ) {
                push_new(updates_for(old(table)@, dep).removed, summary.id)
            } else {
                updates_for(old(table)@, dep).removed
            },
{
    let id = summary.id;
    let mut i: usize = 0;
    while i < summary.dependencies.len()
        invariant
            i <= summary.dependencies@.len(),
            table.wf(),
            table_wf(table@),
            id == summary.id,
            forall|dep: AssetId| #[trigger]
                table@.contains_key(dep.0) <==> old(table)@.contains_key(dep.0)
                    || summary.dependencies@.take(i as int).contains(dep),
            forall|dep: AssetId|
                (#[trigger] updates_for(table@, dep)).added == if summary.dependencies@.take(
                    i as int,
                ).contains(dep) {
                    push_new(updates_for(old(table)@, dep).added, id)
                } else {
                    updates_for(old(table)@, dep).added
                },
            forall|dep: AssetId|
                (#[trigger] updates_for(table@, dep)).removed == updates_for(
                    old(table)@,
                    dep,
                ).removed,
        decreases summary.dependencies@.len() - i,
    {
        let dep = summary.dependencies.get(i);
        let ghost before = table@;
        let ghost seen = summary.dependencies@.take(i as int);
        note(table, dep, id, true);
        proof {
            let next = summary.dependencies@.take(i + 1);
            assert(next == seen.push(dep));
            crate::asset::set::lemma_push_contains(seen, dep);
            assert forall|other: AssetId| #[trigger]
                table@.contains_key(other.0) <==> old(table)@.contains_key(other.0)
                    || next.contains(other) by {
                assert(other.0 == dep.0 <==> other == dep);
                assert(table@.contains_key(other.0) <==> before.contains_key(other.0) || other.0
                    == dep.0);
                assert(before.contains_key(other.0) <==> old(table)@.contains_key(other.0)
                    || seen.contains(other));
            }
            assert forall|other: AssetId|
                (#[trigger] updates_for(table@, other)).added == if next.contains(other) {
                    push_new(updates_for(old(table)@, other).added, id)
                } else {
                    updates_for(old(table)@, other).added
                } by {
                if other == dep {
                    if seen.contains(dep) {
                        let already = push_new(updates_for(old(table)@, dep).added, id);
                        crate::asset::set::lemma_push_contains(
                            updates_for(old(table)@, dep).added,
                            id,
                        );
                        assert(already.contains(id));
                    }
                } else {
                    assert(updates_for(table@, other) == updates_for(before, other));
                }
            }
            assert forall|other: AssetId|
                (#[trigger] updates_for(table@, other)).removed == updates_for(
                    old(table)@,
                    other,
                ).removed by {
                if other != dep {
                    assert(updates_for(table@, other) == updates_for(before, other));
                }
            }
        }
        i += 1;
    }
    proof {
        assert(summary.dependencies@.take(summary.dependencies@.len() as int)
            == summary.dependencies@);
    }
    let ghost half = table@;
    let mut j: usize = 0;
    while j < summary.removed.len()
        invariant
            j <= summary.removed@.len(),
            table.wf(),
            table_wf(table@),
            id == summary.id,
            forall|dep: AssetId| #[trigger]
                table@.contains_key(dep.0) <==> half.contains_key(dep.0) || summary.removed@.take(
                    j as int,
                ).contains(dep),
            forall|dep: AssetId|
                (#[trigger] updates_for(table@, dep)).removed == if summary.removed@.take(
                    j as int,
                ).contains(dep) {
                    push_new(updates_for(half, dep).removed, id)
                } else {
                    updates_for(half, dep).removed
                },
            forall|dep: AssetId|
                (#[trigger] updates_for(table@, dep)).added == updates_for(half, dep).added,
        decreases summary.removed@.len() - j,
    {
        let dep = summary.removed.get(j);
        let ghost before = table@;
        let ghost seen = summary.removed@.take(j as int);
        note(table, dep, id, false);
        proof {
            let next = summary.removed@.take(j + 1);
            assert(next == seen.push(dep));
            crate::asset::set::lemma_push_contains(seen, dep);
            assert forall|other: AssetId| #[trigger]
                table@.contains_key(other.0) <==> half.contains_key(other.0) || next.contains(
                    other,
                ) by {
                assert(other.0 == dep.0 <==> other == dep);
                assert(table@.contains_key(other.0) <==> before.contains_key(other.0) || other.0
                    == dep.0);
                assert(before.contains_key(other.0) <==> half.contains_key(other.0)
                    || seen.contains(other));
            }
            assert forall|other: AssetId|
                (#[trigger] updates_for(table@, other)).removed == if next.contains(other) {
                    push_new(updates_for(half, other).removed, id)
                } else {
                    updates_for(half, other).removed
                } by {
                if other == dep {
                    if seen.contains(dep) {
                        let already = push_new(updates_for(half, dep).removed, id);
                        crate::asset::set::lemma_push_contains(
                            updates_for(half, dep).removed,
                            id,
                        );
                        assert(already.contains(id));
                    }
                } else {
                    assert(updates_for(table@, other) == updates_for(before, other));
                }
            }
            assert forall|other: AssetId|
                (#[trigger] updates_for(table@, other)).added == updates_for(half, other).added by {
                if other != dep {
                    assert(updates_for(table@, other) == updates_for(before, other));
                }
            }
        }
        j += 1;
    }
    proof {
        assert(summary.removed@.take(summary.removed@.len() as int) == summary.removed@);
    }
}

/// Whether two stores hold the same at `path`: both nothing, or both the same bytes.
pub open spec fn same_at(
    a: Map<Seq<char>, Seq<u8>>,
    b: Map<Seq<char>, Seq<u8>>,
    path: Seq<char>,
) -> bool {
    a.contains_key(path) == b.contains_key(path) && (a.contains_key(path) ==> a[path] == b[path])
}

/// The dependents that the files below `root` record for `dep`.
pub open spec fn recorded_dependents(
    files: Map<Seq<char>, Seq<u8>>,
    root: Seq<char>,
    dep: AssetId,
) -> Seq<AssetId> {
    stored_dependents(files, dependents_path(root, dep))
}

/// Whether the file of the dependents of `dep` has been brought up to date
/// with `updates`: the recorded dependents are those before and the added
/// ones, without the removed ones; their file holds exactly their encoding,
/// and is not there where they are none.
pub open spec fn brought_up(
    before: Map<Seq<char>, Seq<u8>>,
    after: Map<Seq<char>, Seq<u8>>,
    root: Seq<char>,
    dep: AssetId,
    updates: UpdatesView,
) -> bool {
    let place = dependents_path(root, dep);
    let now = updated_dependents(
        recorded_dependents(before, root, dep),
        updates.added,
        updates.removed,
    );
    &&& recorded_dependents(after, root, dep) == now
    &&& after.contains_key(place) <==> now.len() > 0
    &&& after.contains_key(place) ==> after[place] == encode_ids(now)
}

/// Whether the update of the dependents of `dep` newly records `id`: the
/// updated set holds it, and the set before did not.
pub open spec fn newly(
    before: Map<Seq<char>, Seq<u8>>,
    root: Seq<char>,
    dep: AssetId,
    updates: UpdatesView,
    id: AssetId,
) -> bool {
    updated_dependents(
        recorded_dependents(before, root, dep),
        updates.added,
        updates.removed,
    ).contains(id) && !recorded_dependents(before, root, dep).contains(id)
}

/// Brings the files of the dependents up to date with the table of a batch,
/// entry by entry. Returned are the ids whose file the store refused to
/// change, of which a reliable store has none, and the ids that some file
/// newly records. The file of every other id of the table is brought up to
/// date; the file of a refused id, and every file that is no file of
/// dependents of an id of the table, is as it was.
pub fn apply_table<F: FileSystem>(
    table: &DenseMap<u64, DependentUpdates>,
    fs: &mut AssetFileSystem<F>,
) -> (applied: (Vec<AssetId>, IdSet))
    requires
        table.wf(),
    ensures
        final(fs).root() == old(fs).root(),
        final(fs).reliable() == old(fs).reliable(),
        old(fs).reliable() ==> applied.0@.len() == 0,
        forall|dep: AssetId| #[trigger]
            applied.0@.contains(dep) ==> table@.contains_key(dep.0) && same_at(
                final(fs).files(),
                old(fs).files(),
                dependents_path(old(fs).root(), dep),
            ),
        forall|dep: AssetId|
            table@.contains_key(dep.0) && !applied.0@.contains(dep) ==> #[trigger] brought_up(
                old(fs).files(),
                final(fs).files(),
                old(fs).root(),
                dep,
                table@[dep.0]@,
            ),
        forall|path: Seq<char>|
            (forall|dep: AssetId|
                table@.contains_key(dep.0) ==> path != #[trigger] dependents_path(
                    old(fs).root(),
                    dep,
                )) ==> #[trigger] same_at(final(fs).files(), old(fs).files(), path),
        applied.1.wf(),
        forall|id: AssetId| #[trigger]
            applied.1@.contains(id) <==> exists|dep: AssetId|
                table@.contains_key(dep.0) && !applied.0@.contains(dep) && #[trigger] newly(
                    old(fs).files(),
                    old(fs).root(),
                    dep,
                    table@[dep.0]@,
                    id,
                ),
{
    let ghost root = fs.root();
    let ghost start = fs.files();
    let mut refused: Vec<AssetId> = Vec::new();
    let mut fresh = IdSet::new();
    proof {
        table.lemma_view();
    }
    let count = table.len();
    let mut k: usize = 0;
    while k < count
        invariant
            k <= count,
            count == table.order().len(),
            table.wf(),
            fs.root() == root,
            root == old(fs).root(),
            fs.reliable() == old(fs).reliable(),
            old(fs).reliable() ==> refused@.len() == 0,
            start == old(fs).files(),
            fresh.wf(),
            forall|dep: AssetId| #[trigger]
                refused@.contains(dep) ==> table.order().take(k as int).contains(dep.0) && same_at(
                    fs.files(),
                    start,
                    dependents_path(root, dep),
                ),
            forall|dep: AssetId|
                table.order().take(k as int).contains(dep.0) && !refused@.contains(dep)
                    ==> #[trigger] brought_up(start, fs.files(), root, dep, table@[dep.0]@),
            forall|path: Seq<char>|
                (forall|dep: AssetId|
                    table.order().take(k as int).contains(dep.0) ==> path
                        != #[trigger] dependents_path(root, dep)) ==> #[trigger] same_at(
                    fs.files(),
                    start,
                    path,
                ),
            forall|id: AssetId| #[trigger]
                fresh@.contains(id) <==> exists|dep: AssetId|
                    table.order().take(k as int).contains(dep.0) && !refused@.contains(dep)
                        && #[trigger] newly(start, root, dep, table@[dep.0]@, id),
        decreases count - k,
    {
        proof {
            table.lemma_view();
        }
        let key = table.keys()[k];
        let id = AssetId(key);
        let ghost place = dependents_path(root, id);
        let ghost before = fs.files();
        let ghost seen = table.order().take(k as int);
        let ghost earlier = refused@;
        let ghost found = fresh@;
        proof {
            assert(!seen.contains(key)) by {
                if seen.contains(key) {
                    let j = choose|j: int| 0 <= j < seen.len() && seen[j] == key;
                    assert(table.order()[j] == table.order()[k as int]);
                }
            }
            assert forall|dep: AssetId| seen.contains(dep.0) implies place
                != #[trigger] dependents_path(root, dep) by {
                crate::asset::config::lemma_places_differ(root, id, dep);
            }
            assert(same_at(before, start, place));
            assert(table.order().take(k + 1) == seen.push(key));
            lemma_push_contains_key(seen, key);
        }
        match table.get(&key) {
            Some(updates) => {
                let ghost went;
                let ghost news: Seq<AssetId>;
                match update_dependents(id, fs, updates) {
                    Ok(new) => {
                        proof {
                            went = true;
                            news = new@;
                            lemma_seq_union(found, new@);
                        }
                        fresh.extend(&new);
                    },
                    Err(_) => {
                        proof {
                            went = false;
                            news = Seq::empty();
                        }
                        refused.push(id);
                    },
                }
                proof {
                    crate::asset::set::lemma_push_contains(earlier, id);
                    assert(!earlier.contains(id));
                    let now = updated_dependents(
                        recorded_dependents(start, root, id),
                        updates@.added,
                        updates@.removed,
                    );
                    assert(recorded_dependents(before, root, id) == recorded_dependents(
                        start,
                        root,
                        id,
                    ));
                    assert forall|path: Seq<char>| path != place implies #[trigger] same_at(
                        fs.files(),
                        before,
                        path,
                    ) by {}
                    assert forall|dep: AssetId| #[trigger] refused@.contains(dep) implies seen.push(
                        key,
                    ).contains(dep.0) && same_at(fs.files(), start, dependents_path(root, dep)) by {
                        if dep != id {
                            assert(earlier.contains(dep));
                            crate::asset::config::lemma_places_differ(root, id, dep);
                            assert(same_at(fs.files(), before, dependents_path(root, dep)));
                        }
                    }
                    assert forall|dep: AssetId|
                        seen.push(key).contains(dep.0) && !refused@.contains(
                            dep,
                        ) implies #[trigger] brought_up(
                        start,
                        fs.files(),
                        root,
                        dep,
                        table@[dep.0]@,
                    ) by {
                        if dep != id {
                            crate::asset::config::lemma_places_differ(root, id, dep);
                            assert(same_at(fs.files(), before, dependents_path(root, dep)));
                            assert(!earlier.contains(dep));
                            assert(brought_up(start, before, root, dep, table@[dep.0]@));
                        } else {
                            assert(went);
                        }
                    }
                    assert forall|path: Seq<char>|
                        (forall|dep: AssetId|
                            seen.push(key).contains(dep.0) ==> path != #[trigger] dependents_path(
                                root,
                                dep,
                            )) implies #[trigger] same_at(fs.files(), start, path) by {
                        assert(seen.push(key).contains(id.0));
                        assert(path != dependents_path(root, id));
                        assert(same_at(fs.files(), before, path));
                        assert forall|dep: AssetId| seen.contains(dep.0) implies path
                            != #[trigger] dependents_path(root, dep) by {
                            assert(seen.push(key).contains(dep.0));
                        }
                        assert(same_at(before, start, path));
                    }
                    if went {
                        lemma_difference_contains_all(now, recorded_dependents(start, root, id));
                    }
                    assert forall|x: AssetId| #[trigger]
                        fresh@.contains(x) <==> exists|dep: AssetId|
                            seen.push(key).contains(dep.0) && !refused@.contains(dep)
                                && #[trigger] newly(start, root, dep, table@[dep.0]@, x) by {
                        if fresh@.contains(x) {
                            if found.contains(x) {
                                let dep = choose|dep: AssetId|
                                    seen.contains(dep.0) && !earlier.contains(dep)
                                        && #[trigger] newly(start, root, dep, table@[dep.0]@, x);
                                assert(dep != id);
                                assert(seen.push(key).contains(dep.0) && !refused@.contains(dep)
                                    && newly(start, root, dep, table@[dep.0]@, x));
                            } else {
                                assert(went && news.contains(x));
                                assert(seen.push(key).contains(id.0) && !refused@.contains(id)
                                    && newly(start, root, id, table@[id.0]@, x));
                            }
                        }
                        if exists|dep: AssetId|
                            seen.push(key).contains(dep.0) && !refused@.contains(dep)
                                && #[trigger] newly(start, root, dep, table@[dep.0]@, x) {
                            let dep = choose|dep: AssetId|
                                seen.push(key).contains(dep.0) && !refused@.contains(dep)
                                    && #[trigger] newly(start, root, dep, table@[dep.0]@, x);
                            if dep == id {
                                assert(went);
                                assert(news.contains(x));
                            } else {
                                assert(seen.contains(dep.0) && !earlier.contains(dep) && newly(
                                    start,
                                    root,
                                    dep,
                                    table@[dep.0]@,
                                    x,
                                ));
                                assert(found.contains(x));
                            }
                        }
                    }
                }
            },
            None => {},
        }
        k += 1;
    }
    proof {
        table.lemma_view();
        assert(table.order().take(count as int) == table.order());
    }
    (refused, fresh)
}

/// An id is in the difference of two sequences when it is in the first and
/// not in the second, whatever the id.
pub proof fn lemma_difference_contains_all(a: Seq<AssetId>, b: Seq<AssetId>)
    ensures
        forall|id: AssetId| #[trigger]
            seq_difference(a, b).contains(id) <==> a.contains(id) && !b.contains(id),
{
    assert forall|id: AssetId| #[trigger]
        seq_difference(a, b).contains(id) <==> a.contains(id) && !b.contains(id) by {
        lemma_difference_contains(a, b, id);
    }
}

/// A key is in `keys.push(key)` when it is in `keys` or is `key`.
pub proof fn lemma_push_contains_key(keys: Seq<u64>, key: u64)
    ensures
        forall|other: u64| #[trigger] keys.push(key).contains(other) <==> keys.contains(other)
            || other == key,
{
    assert forall|other: u64| #[trigger] keys.push(key).contains(other) <==> keys.contains(other)
        || other == key by {
        let whole = keys.push(key);
        if keys.contains(other) {
            let j = choose|j: int| 0 <= j < keys.len() && keys[j] == other;
            assert(whole[j] == other);
        }
        if other == key {
            assert(whole[keys.len() as int] == other);
        }
    }
}

} // verus!
