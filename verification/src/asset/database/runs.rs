//! How the outcomes of runs of imports go together: a source after the
//! sources before it, the files of the dependents after the sources, and
//! one run after another.

use vstd::prelude::*;
use crate::asset::AssetId;
use crate::asset::bytes::push_new;
use crate::asset::config::{
    artifact_path, dependents_path, lemma_dependents_apart, lemma_places_differ, metadata_path,
};
use crate::asset::database::batch::{
    all_canonical, all_stand, among, as_made, asked_again, asks_fit, batch_outcome, canonical_at,
    cause_fits, chained_at, explained, first_outcome, first_told, firsts_read, from_paths,
    has_importer, ids_kept, importer_at, index_follows, index_settled, is_first, is_last,
    kept_headers, last_before, last_told, lasts_written, left_alone, lemma_artifact_is_no_sidecar,
    lemma_last_before, lemma_last_before_pushed, made_at, mentioned, others_kept,
    read_what_was_there, removals_fit, reported, run_outcome, sidecar_at_most, sidecar_id,
    sidecars_written, stands, stuck_at, told, touched, unmixed,
};
use crate::asset::database::dependents::{
    brought_up, dropped, header_deps, lemma_stored_distinct, lemma_updated_dependents, newly, noted,
    previous_deps, recorded_dependents, requeued, same_at, updates_for, DependentUpdates,
    SavedSummary,
};
use crate::asset::database::importer::{AssetImporters, ImportError};
use crate::asset::io::FileSystem;
use crate::asset::sidecar::written_for;

verus! {

/// What the sources imported so far have left of the files, before the
/// files of the dependents are brought up to date: a file that no import
/// has touched is as it was, no file is gone, the sidecar of a saved source
/// is there, written for the id of the last summary of the source, and its
/// artifact stands.
#[verifier::opaque]
pub open spec fn imported_so_far(
    before: Map<Seq<char>, Seq<u8>>,
    after: Map<Seq<char>, Seq<u8>>,
    root: Seq<char>,
    saved: Seq<SavedSummary>,
    errors: Seq<ImportError>,
) -> bool {
    &&& forall|path: Seq<char>|
        !touched(root, saved, errors, path) ==> #[trigger] same_at(after, before, path)
    &&& forall|path: Seq<char>| #[trigger] before.contains_key(path) ==> after.contains_key(path)
    &&& forall|k: int|
        0 <= k < saved.len() ==> after.contains_key(metadata_path((#[trigger] saved[k]).path@))
            && stands(after, root, saved[k].id)
    &&& sidecars_written(after, saved, errors)
}

/// What the sources imported so far have left of the headers and of the
/// files of the dependents: the headers are kept, no file of dependents has
/// changed, and with a reliable store every header that was there was read.
#[verifier::opaque]
pub open spec fn headers_so_far(
    before: Map<Seq<char>, Seq<u8>>,
    after: Map<Seq<char>, Seq<u8>>,
    root: Seq<char>,
    saved: Seq<SavedSummary>,
    reliable: bool,
) -> bool {
    &&& kept_headers(before, after, root, saved)
    &&& forall|dep: AssetId| #[trigger] same_at(after, before, dependents_path(root, dep))
    &&& reliable ==> read_what_was_there(before, root, saved)
}

/// Whether the table of a batch follows the summaries: it holds an entry
/// for each asset that a summary mentions, with the noted dependents as
/// added and the dropped ones as removed.
#[verifier::opaque]
pub open spec fn table_follows(table: Map<u64, DependentUpdates>, saved: Seq<SavedSummary>) -> bool {
    &&& forall|dep: AssetId, id: AssetId|
        (#[trigger] updates_for(table, dep).added.contains(id)) <==> noted(
            saved,
            saved.len() as int,
            dep,
            id,
        )
    &&& forall|dep: AssetId, id: AssetId|
        (#[trigger] updates_for(table, dep).removed.contains(id)) <==> dropped(
            saved,
            saved.len() as int,
            dep,
            id,
        )
    &&& forall|dep: AssetId| #[trigger] table.contains_key(dep.0) <==> mentioned(saved, dep)
}

/// Before the first source nothing is imported, and an empty table follows.
pub proof fn lemma_nothing_imported(
    files: Map<Seq<char>, Seq<u8>>,
    root: Seq<char>,
    reliable: bool,
)
    ensures
        imported_so_far(
            files,
            files,
            root,
            Seq::<SavedSummary>::empty(),
            Seq::<ImportError>::empty(),
        ),
        headers_so_far(files, files, root, Seq::<SavedSummary>::empty(), reliable),
        table_follows(Map::<u64, DependentUpdates>::empty(), Seq::<SavedSummary>::empty()),
{
    reveal(read_what_was_there);
    reveal(imported_so_far);
    reveal(headers_so_far);
    reveal(table_follows);
}

/// The table follows the summaries after one more source is on record.
pub proof fn lemma_table_recorded(
    before: Map<u64, DependentUpdates>,
    after: Map<u64, DependentUpdates>,
    saved: Seq<SavedSummary>,
    summary: SavedSummary,
)
    requires
        table_follows(before, saved),
        forall|dep: AssetId| #[trigger]
            after.contains_key(dep.0) <==> before.contains_key(dep.0)
                || summary.dependencies@.contains(dep) || summary.removed@.contains(dep),
        forall|dep: AssetId|
            (#[trigger] updates_for(after, dep)).added == if summary.dependencies@.contains(dep) {
                push_new(updates_for(before, dep).added, summary.id)
            } else {
                updates_for(before, dep).added
            },
        forall|dep: AssetId|
            (#[trigger] updates_for(after, dep)).removed == if summary.removed@.contains(dep) {
                push_new(updates_for(before, dep).removed, summary.id)
            } else {
                updates_for(before, dep).removed
            },
    ensures
        table_follows(after, saved.push(summary)),
{
    reveal(table_follows);
    let whole = saved.push(summary);
    let n = saved.len() as int;
    let id = summary.id;
    assert forall|dep: AssetId, other: AssetId|
        (#[trigger] updates_for(after, dep).added.contains(other)) <==> noted(
            whole,
            whole.len() as int,
            dep,
            other,
        ) by {
        crate::asset::set::lemma_push_contains(updates_for(before, dep).added, id);
        if noted(saved, n, dep, other) {
            let k = choose|k: int|
                0 <= k < n && (#[trigger] saved[k]).id == other && saved[k].dependencies@.contains(
                    dep,
                );
            assert(whole[k] == saved[k]);
        }
        if noted(whole, whole.len() as int, dep, other) {
            let k = choose|k: int|
                0 <= k < whole.len() && (#[trigger] whole[k]).id == other
                    && whole[k].dependencies@.contains(dep);
            if k < n {
                assert(whole[k] == saved[k]);
            }
        }
        assert(whole[n] == summary);
    }
    assert forall|dep: AssetId, other: AssetId|
        (#[trigger] updates_for(after, dep).removed.contains(other)) <==> dropped(
            whole,
            whole.len() as int,
            dep,
            other,
        ) by {
        crate::asset::set::lemma_push_contains(updates_for(before, dep).removed, id);
        if dropped(saved, n, dep, other) {
            let k = choose|k: int|
                0 <= k < n && (#[trigger] saved[k]).id == other && saved[k].removed@.contains(dep);
            assert(whole[k] == saved[k]);
        }
        if dropped(whole, whole.len() as int, dep, other) {
            let k = choose|k: int|
                0 <= k < whole.len() && (#[trigger] whole[k]).id == other
                    && whole[k].removed@.contains(dep);
            if k < n {
                assert(whole[k] == saved[k]);
            }
        }
        assert(whole[n] == summary);
    }
    assert forall|dep: AssetId| #[trigger] after.contains_key(dep.0) <==> mentioned(whole, dep) by {
        lemma_mentioned_push(saved, summary, dep);
    }
}

/// The headers after the import of a source that was saved.
pub proof fn lemma_headers_saved(
    before: Map<Seq<char>, Seq<u8>>,
    middle: Map<Seq<char>, Seq<u8>>,
    after: Map<Seq<char>, Seq<u8>>,
    root: Seq<char>,
    saved: Seq<SavedSummary>,
    summary: SavedSummary,
    reliable: bool,
)
    requires
        headers_so_far(before, middle, root, saved, reliable),
        after.contains_key(metadata_path(summary.path@)),
        after.contains_key(artifact_path(root, summary.id)),
        after == middle.insert(
            metadata_path(summary.path@),
            after[metadata_path(summary.path@)],
        ).insert(artifact_path(root, summary.id), after[artifact_path(root, summary.id)]),
        header_deps(after, root, summary.id) == summary.dependencies@,
        summary.removed@ == crate::asset::set::seq_difference(
            previous_deps(summary),
            summary.dependencies@,
        ),
        summary.previous is Some ==> header_deps(middle, root, summary.id) == previous_deps(
            summary,
        ),
        reliable && summary.previous is None ==> header_deps(middle, root, summary.id).len() == 0,
    ensures
        headers_so_far(before, after, root, saved.push(summary), reliable),
{
    reveal(headers_so_far);
    let whole = saved.push(summary);
    let n = saved.len() as int;
    let id = summary.id;
    let path = summary.path@;
    let place = artifact_path(root, id);
    lemma_artifact_is_no_sidecar(root, id, path);
    assert forall|dep: AssetId| #[trigger]
        same_at(after, before, dependents_path(root, dep)) by {
        lemma_dependents_apart(root, dep, id, path);
        assert(same_at(middle, before, dependents_path(root, dep)));
    }
    assert forall|k: int| 0 <= k < whole.len() implies (#[trigger] whole[k]).removed@
        == crate::asset::set::seq_difference(previous_deps(whole[k]), whole[k].dependencies@) by {
        if k < n {
            assert(whole[k] == saved[k]);
        }
    }
    if reliable {
        reveal(read_what_was_there);
        assert forall|j: int| 0 <= j < whole.len() implies #[trigger] chained_at(whole, j) by {
            lemma_last_before_pushed(saved, summary, j, whole[j].id);
            let p = last_before(saved, j, whole[j].id);
            lemma_last_before(saved, j, whole[j].id);
            if p >= 0 {
                assert(whole[p] == saved[p]);
            }
            if j < n {
                assert(whole[j] == saved[j]);
                assert(chained_at(saved, j));
            } else if p >= 0 {
                assert(whole[j] == summary);
                assert(is_last(saved, p));
                assert(header_deps(middle, root, id) == saved[p].dependencies@);
                if summary.previous is None {
                    assert(header_deps(middle, root, id) =~= Seq::<AssetId>::empty());
                }
            }
        }
        assert forall|k: int|
            0 <= k < whole.len() && is_first(whole, k) && (
            #[trigger] whole[k]).previous is None implies header_deps(before, root, whole[k].id).len()
            == 0 by {
            if k < n {
                assert(whole[k] == saved[k]);
                assert forall|j: int| 0 <= j < k implies (#[trigger] saved[j]).id
                    != saved[k].id by {
                    assert(whole[j] == saved[j]);
                }
            } else {
                assert forall|j: int| 0 <= j < n implies (#[trigger] saved[j]).id != id by {
                    assert(whole[j] == saved[j]);
                }
                assert(same_at(middle, before, place));
            }
        }
    }
    assert forall|k: int|
        0 <= k < whole.len() && is_first(whole, k) && (
        #[trigger] whole[k]).previous is Some implies header_deps(before, root, whole[k].id)
        == previous_deps(whole[k]) by {
        if k < n {
            assert(whole[k] == saved[k]);
            assert forall|j: int| 0 <= j < k implies (#[trigger] saved[j]).id != saved[k].id by {
                assert(whole[j] == saved[j]);
            }
        } else {
            assert forall|j: int| 0 <= j < n implies (#[trigger] saved[j]).id != id by {
                assert(whole[j] == saved[j]);
            }
            assert(same_at(middle, before, place));
        }
    }
    assert forall|k: int| 0 <= k < whole.len() && is_last(whole, k) implies header_deps(
        after,
        root,
        (#[trigger] whole[k]).id,
    ) == whole[k].dependencies@ by {
        if k < n {
            assert(whole[k] == saved[k]);
            assert(whole[n] == summary);
            assert(saved[k].id != id);
            assert forall|j: int| k < j < n implies (#[trigger] saved[j]).id != saved[k].id by {
                assert(whole[j] == saved[j]);
            }
            lemma_places_differ(root, saved[k].id, id);
            lemma_artifact_is_no_sidecar(root, saved[k].id, path);
            assert(same_at(after, middle, artifact_path(root, saved[k].id)));
        }
    }
    assert forall|other: AssetId|
        (forall|k: int| 0 <= k < whole.len() ==> (#[trigger] whole[k]).id != other)
        implies #[trigger] same_at(after, before, artifact_path(root, other)) by {
        assert(whole[n] == summary);
        assert(other != id);
        assert forall|k: int| 0 <= k < n implies (#[trigger] saved[k]).id != other by {
            assert(whole[k] == saved[k]);
        }
        lemma_places_differ(root, other, id);
        lemma_artifact_is_no_sidecar(root, other, path);
        assert(same_at(after, middle, artifact_path(root, other)));
        assert(same_at(middle, before, artifact_path(root, other)));
    }
}

/// The headers after the import of a source that failed.
pub proof fn lemma_headers_failed(
    before: Map<Seq<char>, Seq<u8>>,
    middle: Map<Seq<char>, Seq<u8>>,
    after: Map<Seq<char>, Seq<u8>>,
    root: Seq<char>,
    saved: Seq<SavedSummary>,
    path: Seq<char>,
    reliable: bool,
)
    requires
        headers_so_far(before, middle, root, saved, reliable),
        sidecar_at_most(middle, after, path),
    ensures
        headers_so_far(before, after, root, saved, reliable),
{
    reveal(headers_so_far);
    assert forall|dep: AssetId| #[trigger]
        same_at(after, before, dependents_path(root, dep)) by {
        lemma_dependents_apart(root, dep, dep, path);
        assert(same_at(middle, before, dependents_path(root, dep)));
    }
    assert forall|other: AssetId| #[trigger]
        same_at(after, middle, artifact_path(root, other)) by {
        lemma_artifact_is_no_sidecar(root, other, path);
    }
    assert forall|k: int| 0 <= k < saved.len() && is_last(saved, k) implies header_deps(
        after,
        root,
        (#[trigger] saved[k]).id,
    ) == saved[k].dependencies@ by {
        assert(same_at(after, middle, artifact_path(root, saved[k].id)));
    }
    assert forall|other: AssetId|
        (forall|k: int| 0 <= k < saved.len() ==> (#[trigger] saved[k]).id != other)
        implies #[trigger] same_at(after, before, artifact_path(root, other)) by {
        assert(same_at(after, middle, artifact_path(root, other)));
        assert(same_at(middle, before, artifact_path(root, other)));
    }
}

/// A summary of two runs mentions an asset exactly when one of the runs does.
pub proof fn lemma_mentioned_joins(a: Seq<SavedSummary>, b: Seq<SavedSummary>, dep: AssetId)
    ensures
        mentioned(a + b, dep) <==> mentioned(a, dep) || mentioned(b, dep),
{
    let whole = a + b;
    if mentioned(a, dep) {
        let i = choose|i: int|
            0 <= i < a.len() && ((#[trigger] a[i]).dependencies@.contains(dep)
                || a[i].removed@.contains(dep));
        assert(whole[i] == a[i]);
    }
    if mentioned(b, dep) {
        let i = choose|i: int|
            0 <= i < b.len() && ((#[trigger] b[i]).dependencies@.contains(dep)
                || b[i].removed@.contains(dep));
        assert(whole[a.len() + i] == b[i]);
    }
    if mentioned(whole, dep) {
        let i = choose|i: int|
            0 <= i < whole.len() && ((#[trigger] whole[i]).dependencies@.contains(dep)
                || whole[i].removed@.contains(dep));
        if i < a.len() {
            assert(a[i] == whole[i]);
        } else {
            assert(b[i - a.len()] == whole[i]);
        }
    }
}

/// Two runs note or drop an edge exactly when one of them does.
pub proof fn lemma_edges_join(
    a: Seq<SavedSummary>,
    b: Seq<SavedSummary>,
    dep: AssetId,
    id: AssetId,
)
    ensures
        noted(a + b, (a + b).len() as int, dep, id) <==> noted(a, a.len() as int, dep, id) || noted(
            b,
            b.len() as int,
            dep,
            id,
        ),
        dropped(a + b, (a + b).len() as int, dep, id) <==> dropped(a, a.len() as int, dep, id)
            || dropped(b, b.len() as int, dep, id),
{
    let whole = a + b;
    let n = whole.len() as int;
    if noted(a, a.len() as int, dep, id) {
        let i = choose|i: int|
            0 <= i < a.len() && (#[trigger] a[i]).id == id && a[i].dependencies@.contains(dep);
        assert(whole[i] == a[i]);
    }
    if noted(b, b.len() as int, dep, id) {
        let i = choose|i: int|
            0 <= i < b.len() && (#[trigger] b[i]).id == id && b[i].dependencies@.contains(dep);
        assert(whole[a.len() + i] == b[i]);
    }
    if noted(whole, n, dep, id) {
        let i = choose|i: int|
            0 <= i < n && (#[trigger] whole[i]).id == id && whole[i].dependencies@.contains(dep);
        if i < a.len() {
            assert(a[i] == whole[i]);
        } else {
            assert(b[i - a.len()] == whole[i]);
        }
    }
    if dropped(a, a.len() as int, dep, id) {
        let i = choose|i: int|
            0 <= i < a.len() && (#[trigger] a[i]).id == id && a[i].removed@.contains(dep);
        assert(whole[i] == a[i]);
    }
    if dropped(b, b.len() as int, dep, id) {
        let i = choose|i: int|
            0 <= i < b.len() && (#[trigger] b[i]).id == id && b[i].removed@.contains(dep);
        assert(whole[a.len() + i] == b[i]);
    }
    if dropped(whole, n, dep, id) {
        let i = choose|i: int|
            0 <= i < n && (#[trigger] whole[i]).id == id && whole[i].removed@.contains(dep);
        if i < a.len() {
            assert(a[i] == whole[i]);
        } else {
            assert(b[i - a.len()] == whole[i]);
        }
    }
}

/// Two runs may have touched a file exactly when one of them may have.
pub proof fn lemma_touched_joins(
    root: Seq<char>,
    s1: Seq<SavedSummary>,
    e1: Seq<ImportError>,
    s2: Seq<SavedSummary>,
    e2: Seq<ImportError>,
    path: Seq<char>,
)
    ensures
        touched(root, s1 + s2, e1 + e2, path) <==> touched(root, s1, e1, path) || touched(
            root,
            s2,
            e2,
            path,
        ),
{
    let s = s1 + s2;
    let e = e1 + e2;
    assert forall|dep: AssetId| mentioned(s, dep) <==> mentioned(s1, dep) || mentioned(
        s2,
        dep,
    ) by {
        lemma_mentioned_joins(s1, s2, dep);
    }
    if touched(root, s1, e1, path) {
        if exists|k: int|
            0 <= k < s1.len() && (path == metadata_path((#[trigger] s1[k]).path@) || path
                == artifact_path(root, s1[k].id)) {
            let k = choose|k: int|
                0 <= k < s1.len() && (path == metadata_path((#[trigger] s1[k]).path@) || path
                    == artifact_path(root, s1[k].id));
            assert(s[k] == s1[k]);
        } else if exists|k: int|
            0 <= k < e1.len() && path == metadata_path((#[trigger] e1[k]).path@) && !(
            e1[k].error is NoExtension || e1[k].error is NoImporter) {
            let k = choose|k: int|
                0 <= k < e1.len() && path == metadata_path((#[trigger] e1[k]).path@) && !(
                e1[k].error is NoExtension || e1[k].error is NoImporter);
            assert(e[k] == e1[k]);
        } else {
            let dep = choose|dep: AssetId|
                mentioned(s1, dep) && path == #[trigger] dependents_path(root, dep);
            assert(mentioned(s, dep) && path == dependents_path(root, dep));
        }
    }
    if touched(root, s2, e2, path) {
        if exists|k: int|
            0 <= k < s2.len() && (path == metadata_path((#[trigger] s2[k]).path@) || path
                == artifact_path(root, s2[k].id)) {
            let k = choose|k: int|
                0 <= k < s2.len() && (path == metadata_path((#[trigger] s2[k]).path@) || path
                    == artifact_path(root, s2[k].id));
            assert(s[s1.len() + k] == s2[k]);
        } else if exists|k: int|
            0 <= k < e2.len() && path == metadata_path((#[trigger] e2[k]).path@) && !(
            e2[k].error is NoExtension || e2[k].error is NoImporter) {
            let k = choose|k: int|
                0 <= k < e2.len() && path == metadata_path((#[trigger] e2[k]).path@) && !(
                e2[k].error is NoExtension || e2[k].error is NoImporter);
            assert(e[e1.len() + k] == e2[k]);
        } else {
            let dep = choose|dep: AssetId|
                mentioned(s2, dep) && path == #[trigger] dependents_path(root, dep);
            assert(mentioned(s, dep) && path == dependents_path(root, dep));
        }
    }
    if touched(root, s, e, path) {
        if exists|k: int|
            0 <= k < s.len() && (path == metadata_path((#[trigger] s[k]).path@) || path
                == artifact_path(root, s[k].id)) {
            let k = choose|k: int|
                0 <= k < s.len() && (path == metadata_path((#[trigger] s[k]).path@) || path
                    == artifact_path(root, s[k].id));
            if k < s1.len() {
                assert(s1[k] == s[k]);
            } else {
                assert(s2[k - s1.len()] == s[k]);
            }
        } else if exists|k: int|
            0 <= k < e.len() && path == metadata_path((#[trigger] e[k]).path@) && !(
            e[k].error is NoExtension || e[k].error is NoImporter) {
            let k = choose|k: int|
                0 <= k < e.len() && path == metadata_path((#[trigger] e[k]).path@) && !(
                e[k].error is NoExtension || e[k].error is NoImporter);
            if k < e1.len() {
                assert(e1[k] == e[k]);
            } else {
                assert(e2[k - e1.len()] == e[k]);
            }
        } else {
            let dep = choose|dep: AssetId|
                mentioned(s, dep) && path == #[trigger] dependents_path(root, dep);
            assert(mentioned(s1, dep) || mentioned(s2, dep));
            assert(path == dependents_path(root, dep));
        }
    }
}

/// The import of a source that was saved, after the sources before it.
pub proof fn lemma_import_saved(
    before: Map<Seq<char>, Seq<u8>>,
    middle: Map<Seq<char>, Seq<u8>>,
    after: Map<Seq<char>, Seq<u8>>,
    root: Seq<char>,
    saved: Seq<SavedSummary>,
    errors: Seq<ImportError>,
    summary: SavedSummary,
)
    requires
        imported_so_far(before, middle, root, saved, errors),
        after.contains_key(metadata_path(summary.path@)),
        after.contains_key(artifact_path(root, summary.id)),
        after == middle.insert(
            metadata_path(summary.path@),
            after[metadata_path(summary.path@)],
        ).insert(artifact_path(root, summary.id), after[artifact_path(root, summary.id)]),
        stands(after, root, summary.id),
        written_for(after[metadata_path(summary.path@)], summary.id),
    ensures
        imported_so_far(before, after, root, saved.push(summary), errors),
{
    reveal(imported_so_far);
    let whole = saved.push(summary);
    let n = saved.len() as int;
    let sidecar = metadata_path(summary.path@);
    let place = artifact_path(root, summary.id);
    lemma_artifact_is_no_sidecar(root, summary.id, summary.path@);
    assert forall|i: int| 0 <= i < whole.len() && last_told(whole, errors, i) implies written_for(
        after[metadata_path((#[trigger] whole[i]).path@)],
        whole[i].id,
    ) by {
        if i < n {
            assert(whole[i] == saved[i]);
            assert(whole[n] == summary);
            assert(saved[i].path@ != summary.path@);
            lemma_sidecars_differ(saved[i].path@, summary.path@);
            lemma_artifact_is_no_sidecar(root, summary.id, saved[i].path@);
            assert forall|j: int| i < j < n implies (#[trigger] saved[j]).path@
                != saved[i].path@ by {
                assert(whole[j] == saved[j]);
            }
            assert(last_told(saved, errors, i));
        }
    }
    assert(whole =~= saved + seq![summary]);
    assert(errors =~= errors + Seq::<ImportError>::empty());
    assert forall|path: Seq<char>| !touched(root, whole, errors, path) implies #[trigger] same_at(
        after,
        before,
        path,
    ) by {
        lemma_touched_joins(root, saved, errors, seq![summary], Seq::empty(), path);
        assert(whole[n] == summary);
        assert(same_at(middle, before, path));
    }
    assert forall|k: int| 0 <= k < whole.len() implies after.contains_key(
        metadata_path((#[trigger] whole[k]).path@),
    ) && stands(after, root, whole[k].id) by {
        if k < n {
            assert(whole[k] == saved[k]);
            if saved[k].id != summary.id {
                lemma_places_differ(root, saved[k].id, summary.id);
                lemma_artifact_is_no_sidecar(root, saved[k].id, summary.path@);
            }
        }
    }
}

/// The import of a source that failed, after the sources before it.
pub proof fn lemma_import_failed<F: FileSystem>(
    importers: AssetImporters<F>,
    before: Map<Seq<char>, Seq<u8>>,
    middle: Map<Seq<char>, Seq<u8>>,
    after: Map<Seq<char>, Seq<u8>>,
    root: Seq<char>,
    saved: Seq<SavedSummary>,
    errors: Seq<ImportError>,
    record: ImportError,
)
    requires
        imported_so_far(before, middle, root, saved, errors),
        cause_fits(importers, record),
        sidecar_at_most(middle, after, record.path@),
        !has_importer(importers, record.path@) ==> after == middle,
    ensures
        imported_so_far(before, after, root, saved, errors.push(record)),
{
    reveal(imported_so_far);
    let whole = errors.push(record);
    let n = errors.len() as int;
    assert forall|i: int| 0 <= i < saved.len() && last_told(saved, whole, i) implies written_for(
        after[metadata_path((#[trigger] saved[i]).path@)],
        saved[i].id,
    ) by {
        assert(whole[n] == record);
        assert(record.path@ != saved[i].path@);
        lemma_sidecars_differ(saved[i].path@, record.path@);
        assert forall|j: int| 0 <= j < n implies (#[trigger] errors[j]).path@
            != saved[i].path@ by {
            assert(whole[j] == errors[j]);
        }
        assert(last_told(saved, errors, i));
    }
    assert(whole =~= errors + seq![record]);
    assert(saved =~= saved + Seq::<SavedSummary>::empty());
    assert forall|path: Seq<char>| !touched(root, saved, whole, path) implies #[trigger] same_at(
        after,
        before,
        path,
    ) by {
        lemma_touched_joins(root, saved, errors, Seq::empty(), seq![record], path);
        assert(whole[n] == record);
        assert(same_at(middle, before, path));
    }
    assert forall|k: int| 0 <= k < saved.len() implies after.contains_key(
        metadata_path((#[trigger] saved[k]).path@),
    ) && stands(after, root, saved[k].id) by {
        lemma_artifact_is_no_sidecar(root, saved[k].id, record.path@);
    }
}

/// The files of the dependents brought up to date, after the sources.
pub proof fn lemma_index_applied(
    before: Map<Seq<char>, Seq<u8>>,
    middle: Map<Seq<char>, Seq<u8>>,
    after: Map<Seq<char>, Seq<u8>>,
    root: Seq<char>,
    saved: Seq<SavedSummary>,
    errors: Seq<ImportError>,
    unrecorded: Seq<AssetId>,
)
    requires
        imported_so_far(before, middle, root, saved, errors),
        forall|dep: AssetId| #[trigger] same_at(middle, before, dependents_path(root, dep)),
        batch_outcome(before, after, root, saved, unrecorded),
        forall|dep: AssetId|
            mentioned(saved, dep) && !unrecorded.contains(dep) ==> #[trigger] canonical_at(
                after,
                root,
                dep,
            ),
        forall|dep: AssetId|
            unrecorded.contains(dep) ==> #[trigger] same_at(
                after,
                middle,
                dependents_path(root, dep),
            ),
        forall|path: Seq<char>|
            (forall|dep: AssetId|
                mentioned(saved, dep) ==> path != #[trigger] dependents_path(root, dep))
                ==> #[trigger] same_at(after, middle, path),
    ensures
        run_outcome(before, after, root, saved, errors, unrecorded),
{
    reveal(imported_so_far);
    reveal(run_outcome);
    reveal(batch_outcome);
    assert forall|path: Seq<char>| !touched(root, saved, errors, path) implies #[trigger] same_at(
        after,
        before,
        path,
    ) by {
        assert(same_at(middle, before, path));
        assert(same_at(after, middle, path));
    }
    assert forall|path: Seq<char>|
        before.contains_key(path) && !(#[trigger] after.contains_key(path)) implies exists|
        dep: AssetId,
    | mentioned(saved, dep) && path == #[trigger] dependents_path(root, dep) by {
        assert(middle.contains_key(path));
        if forall|dep: AssetId|
            mentioned(saved, dep) ==> path != #[trigger] dependents_path(root, dep) {
            assert(same_at(after, middle, path));
        }
    }
    assert forall|k: int| 0 <= k < saved.len() implies after.contains_key(
        metadata_path((#[trigger] saved[k]).path@),
    ) && stands(after, root, saved[k].id) by {
        assert forall|dep: AssetId|
            metadata_path(saved[k].path@) != #[trigger] dependents_path(root, dep)
                && artifact_path(root, saved[k].id) != dependents_path(root, dep) by {
            lemma_dependents_apart(root, dep, saved[k].id, saved[k].path@);
        }
        assert(same_at(after, middle, metadata_path(saved[k].path@)));
        assert(same_at(after, middle, artifact_path(root, saved[k].id)));
    }
    assert forall|i: int| 0 <= i < saved.len() && last_told(saved, errors, i) implies written_for(
        after[metadata_path((#[trigger] saved[i]).path@)],
        saved[i].id,
    ) by {
        assert forall|dep: AssetId|
            metadata_path(saved[i].path@) != #[trigger] dependents_path(root, dep) by {
            lemma_dependents_apart(root, dep, saved[i].id, saved[i].path@);
        }
        assert(same_at(after, middle, metadata_path(saved[i].path@)));
    }
    assert forall|dep: AssetId, id: AssetId| #[trigger]
        recorded_dependents(after, root, dep).contains(id) implies recorded_dependents(
        before,
        root,
        dep,
    ).contains(id) || noted(saved, saved.len() as int, dep, id) by {
        if unrecorded.contains(dep) {
            assert(same_at(after, middle, dependents_path(root, dep)));
            assert(same_at(middle, before, dependents_path(root, dep)));
        }
    }
    assert forall|dep: AssetId, id: AssetId|
        recorded_dependents(before, root, dep).contains(id) && !(#[trigger] recorded_dependents(
            after,
            root,
            dep,
        ).contains(id)) implies dropped(saved, saved.len() as int, dep, id) by {
        if unrecorded.contains(dep) {
            assert(same_at(after, middle, dependents_path(root, dep)));
            assert(same_at(middle, before, dependents_path(root, dep)));
        }
    }
}

/// The headers and the recorded dependents after the table of a batch was
/// applied to the files that the imports left.
pub proof fn lemma_batch_law(
    before: Map<Seq<char>, Seq<u8>>,
    middle: Map<Seq<char>, Seq<u8>>,
    after: Map<Seq<char>, Seq<u8>>,
    root: Seq<char>,
    saved: Seq<SavedSummary>,
    table: Map<u64, DependentUpdates>,
    unrecorded: Seq<AssetId>,
    reliable: bool,
)
    requires
        headers_so_far(before, middle, root, saved, reliable),
        table_follows(table, saved),
        forall|dep: AssetId| #[trigger]
            unrecorded.contains(dep) ==> table.contains_key(dep.0) && same_at(
                after,
                middle,
                dependents_path(root, dep),
            ),
        forall|dep: AssetId|
            table.contains_key(dep.0) && !unrecorded.contains(dep) ==> #[trigger] brought_up(
                middle,
                after,
                root,
                dep,
                table[dep.0]@,
            ),
        forall|path: Seq<char>|
            (forall|dep: AssetId|
                table.contains_key(dep.0) ==> path != #[trigger] dependents_path(root, dep))
                ==> #[trigger] same_at(after, middle, path),
    ensures
        batch_outcome(before, after, root, saved, unrecorded),
        reliable ==> read_what_was_there(before, root, saved),
{
    reveal(batch_outcome);
    reveal(headers_so_far);
    reveal(table_follows);
    let n = saved.len() as int;
    assert forall|other: AssetId| #[trigger]
        same_at(after, middle, artifact_path(root, other)) by {
        assert forall|dep: AssetId| table.contains_key(dep.0) implies artifact_path(
            root,
            other,
        ) != #[trigger] dependents_path(root, dep) by {
            crate::asset::config::lemma_dependents_apart(root, dep, other, Seq::empty());
        }
    }
    assert forall|k: int| 0 <= k < n && is_last(saved, k) implies header_deps(
        after,
        root,
        (#[trigger] saved[k]).id,
    ) == saved[k].dependencies@ by {
        assert(same_at(after, middle, artifact_path(root, saved[k].id)));
    }
    assert forall|other: AssetId|
        (forall|k: int| 0 <= k < n ==> (#[trigger] saved[k]).id != other)
        implies #[trigger] same_at(
        after,
        before,
        artifact_path(root, other),
    ) by {
        assert(same_at(after, middle, artifact_path(root, other)));
        assert(same_at(middle, before, artifact_path(root, other)));
    }
    assert forall|dep: AssetId, id: AssetId| !unrecorded.contains(dep) implies (
    #[trigger] recorded_dependents(after, root, dep).contains(id) <==> (
    recorded_dependents(before, root, dep).contains(id) || noted(saved, n, dep, id))
        && !dropped(saved, n, dep, id)) by {
        let place = dependents_path(root, dep);
        let were = recorded_dependents(before, root, dep);
        assert(same_at(middle, before, place));
        assert(recorded_dependents(middle, root, dep) == were);
        if table.contains_key(dep.0) {
            assert(brought_up(middle, after, root, dep, table[dep.0]@));
            lemma_stored_distinct(before, place);
            lemma_updated_dependents(
                were,
                table[dep.0]@.added,
                table[dep.0]@.removed,
            );
            assert(updates_for(table, dep) == table[dep.0]@);
            assert(updates_for(table, dep).added.contains(id) <==> noted(saved, n, dep, id));
            assert(updates_for(table, dep).removed.contains(id) <==> dropped(
                saved,
                n,
                dep,
                id,
            ));
        } else {
            assert forall|other: AssetId| table.contains_key(other.0) implies place
                != #[trigger] dependents_path(root, other) by {
                crate::asset::config::lemma_places_differ(root, dep, other);
            }
            assert(same_at(after, middle, place));
            assert(!updates_for(table, dep).added.contains(id));
            assert(!updates_for(table, dep).removed.contains(id));
        }
    }
}

/// The outcome of a batch, after its table was applied to the files that
/// the imports left.
pub proof fn lemma_batch_run(
    before: Map<Seq<char>, Seq<u8>>,
    middle: Map<Seq<char>, Seq<u8>>,
    after: Map<Seq<char>, Seq<u8>>,
    root: Seq<char>,
    saved: Seq<SavedSummary>,
    errors: Seq<ImportError>,
    table: Map<u64, DependentUpdates>,
    unrecorded: Seq<AssetId>,
    reliable: bool,
)
    requires
        imported_so_far(before, middle, root, saved, errors),
        headers_so_far(before, middle, root, saved, reliable),
        table_follows(table, saved),
        batch_outcome(before, after, root, saved, unrecorded),
        forall|dep: AssetId| #[trigger]
            unrecorded.contains(dep) ==> table.contains_key(dep.0) && same_at(
                after,
                middle,
                dependents_path(root, dep),
            ),
        forall|dep: AssetId|
            table.contains_key(dep.0) && !unrecorded.contains(dep) ==> #[trigger] brought_up(
                middle,
                after,
                root,
                dep,
                table[dep.0]@,
            ),
        forall|path: Seq<char>|
            (forall|dep: AssetId|
                table.contains_key(dep.0) ==> path != #[trigger] dependents_path(root, dep))
                ==> #[trigger] same_at(after, middle, path),
    ensures
        run_outcome(before, after, root, saved, errors, unrecorded),
{
    reveal(headers_so_far);
    reveal(table_follows);
    assert forall|dep: AssetId|
        mentioned(saved, dep) && !unrecorded.contains(dep) implies #[trigger] canonical_at(
        after,
        root,
        dep,
    ) by {
        assert(table.contains_key(dep.0));
        assert(brought_up(middle, after, root, dep, table[dep.0]@));
    }
    assert forall|dep: AssetId| unrecorded.contains(dep) implies #[trigger] same_at(
        after,
        middle,
        dependents_path(root, dep),
    ) by {}
    assert forall|path: Seq<char>|
        (forall|dep: AssetId|
            mentioned(saved, dep) ==> path != #[trigger] dependents_path(root, dep))
        implies #[trigger] same_at(after, middle, path) by {
        assert forall|dep: AssetId| table.contains_key(dep.0) implies path
            != #[trigger] dependents_path(root, dep) by {
            assert(mentioned(saved, dep));
        }
    }
    lemma_index_applied(
        before,
        middle,
        after,
        root,
        saved,
        errors,
        unrecorded,
    );
}

/// The ids that the files newly record after the table of a batch was
/// applied are the ids that the batch asks to import again.
pub proof fn lemma_batch_asks(
    before: Map<Seq<char>, Seq<u8>>,
    middle: Map<Seq<char>, Seq<u8>>,
    root: Seq<char>,
    saved: Seq<SavedSummary>,
    table: Map<u64, DependentUpdates>,
    unrecorded: Seq<AssetId>,
    returned: Seq<AssetId>,
    reliable: bool,
)
    requires
        headers_so_far(before, middle, root, saved, reliable),
        table_follows(table, saved),
        forall|id: AssetId| #[trigger]
            returned.contains(id) <==> exists|dep: AssetId|
                table.contains_key(dep.0) && !unrecorded.contains(dep) && #[trigger] newly(
                    middle,
                    root,
                    dep,
                    table[dep.0]@,
                    id,
                ),
    ensures
        returned.to_set() == requeued(before, root, saved, unrecorded),
{
    reveal(headers_so_far);
    reveal(table_follows);
    let n = saved.len() as int;
    let wanted = requeued(before, root, saved, unrecorded);
    assert forall|id: AssetId| returned.to_set().contains(id) <==> wanted.contains(id) by {
        if returned.contains(id) {
            let dep = choose|dep: AssetId|
                table.contains_key(dep.0) && !unrecorded.contains(dep) && #[trigger] newly(
                    middle,
                    root,
                    dep,
                    table[dep.0]@,
                    id,
                );
            let place = dependents_path(root, dep);
            assert(same_at(middle, before, place));
            lemma_stored_distinct(before, place);
            lemma_updated_dependents(
                recorded_dependents(before, root, dep),
                table[dep.0]@.added,
                table[dep.0]@.removed,
            );
            assert(updates_for(table, dep) == table[dep.0]@);
            assert(updates_for(table, dep).added.contains(id) <==> noted(saved, n, dep, id));
            assert(updates_for(table, dep).removed.contains(id) <==> dropped(
                saved,
                n,
                dep,
                id,
            ));
            assert(noted(saved, n, dep, id));
        }
        if wanted.contains(id) {
            let dep = choose|dep: AssetId|
                !unrecorded.contains(dep) && #[trigger] noted(saved, n, dep, id) && !dropped(
                    saved,
                    n,
                    dep,
                    id,
                ) && !recorded_dependents(before, root, dep).contains(id);
            let place = dependents_path(root, dep);
            assert(updates_for(table, dep).added.contains(id));
            assert(table.contains_key(dep.0));
            assert(updates_for(table, dep) == table[dep.0]@);
            assert(!updates_for(table, dep).removed.contains(id));
            assert(same_at(middle, before, place));
            lemma_stored_distinct(before, place);
            lemma_updated_dependents(
                recorded_dependents(before, root, dep),
                table[dep.0]@.added,
                table[dep.0]@.removed,
            );
            assert(newly(middle, root, dep, table[dep.0]@, id));
        }
    }
    assert(returned.to_set() =~= wanted);
}

/// The removed dependencies fit over two runs.
pub proof fn lemma_removals_then(s1: Seq<SavedSummary>, s2: Seq<SavedSummary>)
    requires
        removals_fit(s1),
        removals_fit(s2),
    ensures
        removals_fit(s1 + s2),
{
    let s = s1 + s2;
    let n = s1.len() as int;
    assert forall|i: int| 0 <= i < s.len() implies (#[trigger] s[i]).removed@
        == crate::asset::set::seq_difference(previous_deps(s[i]), s[i].dependencies@) by {
        if i < n {
            assert(s[i] == s1[i]);
        } else {
            assert(s[i] == s2[i - n]);
        }
    }
}

/// The first summaries of two runs, one after the other, have read the
/// headers that were there before the first.
pub proof fn lemma_firsts_then(
    f0: Map<Seq<char>, Seq<u8>>,
    f1: Map<Seq<char>, Seq<u8>>,
    root: Seq<char>,
    s1: Seq<SavedSummary>,
    s2: Seq<SavedSummary>,
)
    requires
        firsts_read(f0, root, s1),
        firsts_read(f1, root, s2),
        others_kept(f0, f1, root, s1),
    ensures
        firsts_read(f0, root, s1 + s2),
{
    let s = s1 + s2;
    let n = s1.len() as int;
    assert forall|i: int|
        0 <= i < s.len() && is_first(s, i) && (#[trigger] s[i]).previous is Some implies header_deps(
        f0,
        root,
        s[i].id,
    ) == previous_deps(s[i]) by {
        if i < n {
            assert(s[i] == s1[i]);
            assert forall|j: int| 0 <= j < i implies (#[trigger] s1[j]).id != s1[i].id by {
                assert(s[j] == s1[j]);
            }
            assert(is_first(s1, i));
        } else {
            assert(s[i] == s2[i - n]);
            assert forall|j: int| 0 <= j < i - n implies (#[trigger] s2[j]).id != s2[i - n].id by {
                assert(s[j + n] == s2[j]);
            }
            assert(is_first(s2, i - n));
            assert forall|j: int| 0 <= j < n implies (#[trigger] s1[j]).id != s[i].id by {
                assert(s[j] == s1[j]);
            }
            assert(same_at(f1, f0, artifact_path(root, s[i].id)));
        }
    }
}

/// The headers after two runs, one after the other, are those of the last
/// summaries.
pub proof fn lemma_lasts_then(
    f1: Map<Seq<char>, Seq<u8>>,
    f2: Map<Seq<char>, Seq<u8>>,
    root: Seq<char>,
    s1: Seq<SavedSummary>,
    s2: Seq<SavedSummary>,
)
    requires
        lasts_written(f1, root, s1),
        lasts_written(f2, root, s2),
        others_kept(f1, f2, root, s2),
    ensures
        lasts_written(f2, root, s1 + s2),
{
    let s = s1 + s2;
    let n = s1.len() as int;
    assert forall|i: int| 0 <= i < s.len() && is_last(s, i) implies header_deps(
        f2,
        root,
        (#[trigger] s[i]).id,
    ) == s[i].dependencies@ by {
        if i < n {
            assert(s[i] == s1[i]);
            assert forall|j: int| i < j < n implies (#[trigger] s1[j]).id != s1[i].id by {
                assert(s[j] == s1[j]);
            }
            assert(is_last(s1, i));
            assert forall|j: int| 0 <= j < s2.len() implies (#[trigger] s2[j]).id != s[i].id by {
                assert(s[j + n] == s2[j]);
            }
            assert(same_at(f2, f1, artifact_path(root, s[i].id)));
        } else {
            assert(s[i] == s2[i - n]);
            assert forall|j: int| i - n < j < s2.len() implies (#[trigger] s2[j]).id != s2[i
                - n].id by {
                assert(s[j + n] == s2[j]);
            }
            assert(is_last(s2, i - n));
        }
    }
}

/// The artifacts that neither of two runs has saved are as they were.
pub proof fn lemma_others_then(
    f0: Map<Seq<char>, Seq<u8>>,
    f1: Map<Seq<char>, Seq<u8>>,
    f2: Map<Seq<char>, Seq<u8>>,
    root: Seq<char>,
    s1: Seq<SavedSummary>,
    s2: Seq<SavedSummary>,
)
    requires
        others_kept(f0, f1, root, s1),
        others_kept(f1, f2, root, s2),
    ensures
        others_kept(f0, f2, root, s1 + s2),
{
    let s = s1 + s2;
    let n = s1.len() as int;
    assert forall|id: AssetId|
        (forall|i: int| 0 <= i < s.len() ==> (#[trigger] s[i]).id != id) implies #[trigger] same_at(
        f2,
        f0,
        artifact_path(root, id),
    ) by {
        assert forall|i: int| 0 <= i < n implies (#[trigger] s1[i]).id != id by {
            assert(s[i] == s1[i]);
        }
        assert forall|i: int| 0 <= i < s2.len() implies (#[trigger] s2[i]).id != id by {
            assert(s[i + n] == s2[i]);
        }
        assert(same_at(f1, f0, artifact_path(root, id)));
        assert(same_at(f2, f1, artifact_path(root, id)));
    }
}

/// The headers are kept over two runs, one after the other.
pub proof fn lemma_headers_then(
    f0: Map<Seq<char>, Seq<u8>>,
    f1: Map<Seq<char>, Seq<u8>>,
    f2: Map<Seq<char>, Seq<u8>>,
    root: Seq<char>,
    s1: Seq<SavedSummary>,
    s2: Seq<SavedSummary>,
)
    requires
        kept_headers(f0, f1, root, s1),
        kept_headers(f1, f2, root, s2),
    ensures
        kept_headers(f0, f2, root, s1 + s2),
{
    lemma_removals_then(s1, s2);
    lemma_firsts_then(f0, f1, root, s1, s2);
    lemma_lasts_then(f1, f2, root, s1, s2);
    lemma_others_then(f0, f1, f2, root, s1, s2);
}

/// What two runs, one after the other, have left alone.
pub proof fn lemma_left_alone_then(
    f0: Map<Seq<char>, Seq<u8>>,
    f1: Map<Seq<char>, Seq<u8>>,
    f2: Map<Seq<char>, Seq<u8>>,
    root: Seq<char>,
    s1: Seq<SavedSummary>,
    e1: Seq<ImportError>,
    s2: Seq<SavedSummary>,
    e2: Seq<ImportError>,
)
    requires
        left_alone(f0, f1, root, s1, e1),
        left_alone(f1, f2, root, s2, e2),
    ensures
        left_alone(f0, f2, root, s1 + s2, e1 + e2),
{
    let s = s1 + s2;
    let e = e1 + e2;
    assert forall|path: Seq<char>| !touched(root, s, e, path) implies #[trigger] same_at(
        f2,
        f0,
        path,
    ) by {
        lemma_touched_joins(root, s1, e1, s2, e2, path);
        assert(same_at(f1, f0, path));
        assert(same_at(f2, f1, path));
    }
    assert forall|path: Seq<char>|
        f0.contains_key(path) && !(#[trigger] f2.contains_key(path)) implies exists|dep: AssetId|
        mentioned(s, dep) && path == #[trigger] dependents_path(root, dep) by {
        if f1.contains_key(path) {
            let dep = choose|dep: AssetId|
                mentioned(s2, dep) && path == #[trigger] dependents_path(root, dep);
            lemma_mentioned_joins(s1, s2, dep);
            assert(mentioned(s, dep) && path == dependents_path(root, dep));
        } else {
            let dep = choose|dep: AssetId|
                mentioned(s1, dep) && path == #[trigger] dependents_path(root, dep);
            lemma_mentioned_joins(s1, s2, dep);
            assert(mentioned(s, dep) && path == dependents_path(root, dep));
        }
    }
}

/// The artifacts of the first of two runs stand after the second.
pub proof fn lemma_all_stand_then(
    f1: Map<Seq<char>, Seq<u8>>,
    f2: Map<Seq<char>, Seq<u8>>,
    root: Seq<char>,
    s1: Seq<SavedSummary>,
    s2: Seq<SavedSummary>,
    e2: Seq<ImportError>,
)
    requires
        all_stand(f1, root, s1),
        all_stand(f2, root, s2),
        left_alone(f1, f2, root, s2, e2),
        kept_headers(f1, f2, root, s2),
    ensures
        all_stand(f2, root, s1 + s2),
{
    let s = s1 + s2;
    let n = s1.len() as int;
    assert forall|k: int| 0 <= k < s.len() implies f2.contains_key(
        metadata_path((#[trigger] s[k]).path@),
    ) && stands(f2, root, s[k].id) by {
        if k < n {
            assert(s[k] == s1[k]);
            let sidecar = metadata_path(s1[k].path@);
            assert(f1.contains_key(sidecar));
            if !f2.contains_key(sidecar) {
                let dep = choose|dep: AssetId|
                    mentioned(s2, dep) && sidecar == #[trigger] dependents_path(root, dep);
                lemma_dependents_apart(root, dep, s1[k].id, s1[k].path@);
            }
            if forall|j: int| 0 <= j < s2.len() ==> (#[trigger] s2[j]).id != s1[k].id {
                assert(same_at(f2, f1, artifact_path(root, s1[k].id)));
            } else {
                let j = choose|j: int| 0 <= j < s2.len() && (#[trigger] s2[j]).id == s1[k].id;
                assert(stands(f2, root, s2[j].id));
            }
        } else {
            assert(s[k] == s2[k - n]);
        }
    }
}

/// A run leaves the file of the dependents of an asset that it does not
/// mention as it was.
pub proof fn lemma_unmentioned_kept(
    f1: Map<Seq<char>, Seq<u8>>,
    f2: Map<Seq<char>, Seq<u8>>,
    root: Seq<char>,
    s2: Seq<SavedSummary>,
    e2: Seq<ImportError>,
    dep: AssetId,
)
    requires
        left_alone(f1, f2, root, s2, e2),
        !mentioned(s2, dep),
    ensures
        same_at(f2, f1, dependents_path(root, dep)),
{
    let place = dependents_path(root, dep);
    if touched(root, s2, e2, place) {
        if exists|k: int|
            0 <= k < s2.len() && (place == metadata_path((#[trigger] s2[k]).path@) || place
                == artifact_path(root, s2[k].id)) {
            let k = choose|k: int|
                0 <= k < s2.len() && (place == metadata_path((#[trigger] s2[k]).path@) || place
                    == artifact_path(root, s2[k].id));
            lemma_dependents_apart(root, dep, s2[k].id, s2[k].path@);
        } else if exists|k: int|
            0 <= k < e2.len() && place == metadata_path((#[trigger] e2[k]).path@) && !(
            e2[k].error is NoExtension || e2[k].error is NoImporter) {
            let k = choose|k: int|
                0 <= k < e2.len() && place == metadata_path((#[trigger] e2[k]).path@) && !(
                e2[k].error is NoExtension || e2[k].error is NoImporter);
            lemma_dependents_apart(root, dep, dep, e2[k].path@);
        } else {
            let other = choose|other: AssetId|
                mentioned(s2, other) && place == #[trigger] dependents_path(root, other);
            if other != dep {
                lemma_places_differ(root, dep, other);
            }
        }
    }
}

/// The files of the dependents are as an update leaves them after two
/// runs, one after the other.
pub proof fn lemma_all_canonical_then(
    f1: Map<Seq<char>, Seq<u8>>,
    f2: Map<Seq<char>, Seq<u8>>,
    root: Seq<char>,
    s1: Seq<SavedSummary>,
    u1: Seq<AssetId>,
    s2: Seq<SavedSummary>,
    e2: Seq<ImportError>,
    u2: Seq<AssetId>,
)
    requires
        all_canonical(f1, root, s1, u1),
        all_canonical(f2, root, s2, u2),
        left_alone(f1, f2, root, s2, e2),
    ensures
        all_canonical(f2, root, s1 + s2, u1 + u2),
{
    let s = s1 + s2;
    let u = u1 + u2;
    assert forall|dep: AssetId| mentioned(s, dep) && !u.contains(dep) implies #[trigger] canonical_at(
        f2,
        root,
        dep,
    ) by {
        lemma_mentioned_joins(s1, s2, dep);
        if u1.contains(dep) {
            assert(u[u1.index_of(dep)] == dep);
        }
        if u2.contains(dep) {
            assert(u[u1.len() + u2.index_of(dep)] == dep);
        }
        if mentioned(s2, dep) {
            assert(canonical_at(f2, root, dep));
        } else {
            assert(canonical_at(f1, root, dep));
            lemma_unmentioned_kept(f1, f2, root, s2, e2, dep);
        }
    }
}

/// The recorded dependents follow the summaries of two runs, one after the
/// other.
pub proof fn lemma_index_follows_then(
    f0: Map<Seq<char>, Seq<u8>>,
    f1: Map<Seq<char>, Seq<u8>>,
    f2: Map<Seq<char>, Seq<u8>>,
    root: Seq<char>,
    s1: Seq<SavedSummary>,
    s2: Seq<SavedSummary>,
)
    requires
        index_follows(f0, f1, root, s1),
        index_follows(f1, f2, root, s2),
    ensures
        index_follows(f0, f2, root, s1 + s2),
{
    let s = s1 + s2;
    assert forall|dep: AssetId, id: AssetId| #[trigger]
        recorded_dependents(f2, root, dep).contains(id) implies recorded_dependents(
        f0,
        root,
        dep,
    ).contains(id) || noted(s, s.len() as int, dep, id) by {
        lemma_edges_join(s1, s2, dep, id);
    }
    assert forall|dep: AssetId, id: AssetId|
        recorded_dependents(f0, root, dep).contains(id) && !(#[trigger] recorded_dependents(
            f2,
            root,
            dep,
        ).contains(id)) implies dropped(s, s.len() as int, dep, id) by {
        lemma_edges_join(s1, s2, dep, id);
    }
}

/// The recorded dependents are settled after two runs, one after the other.
pub proof fn lemma_index_settled_then(
    f1: Map<Seq<char>, Seq<u8>>,
    f2: Map<Seq<char>, Seq<u8>>,
    root: Seq<char>,
    s1: Seq<SavedSummary>,
    u1: Seq<AssetId>,
    s2: Seq<SavedSummary>,
    u2: Seq<AssetId>,
)
    requires
        index_settled(f1, root, s1, u1),
        index_settled(f2, root, s2, u2),
        index_follows(f1, f2, root, s2),
    ensures
        index_settled(f2, root, s1 + s2, u1 + u2),
{
    let s = s1 + s2;
    let u = u1 + u2;
    assert forall|dep: AssetId, id: AssetId| !u.contains(dep) implies ({
        let now = #[trigger] recorded_dependents(f2, root, dep).contains(id);
        let came = noted(s, s.len() as int, dep, id);
        let left = dropped(s, s.len() as int, dep, id);
        &&& came && !left ==> now
        &&& left && !came ==> !now
    }) by {
        lemma_edges_join(s1, s2, dep, id);
        if u1.contains(dep) {
            assert(u[u1.index_of(dep)] == dep);
        }
        if u2.contains(dep) {
            assert(u[u1.len() + u2.index_of(dep)] == dep);
        }
    }
}

/// The sidecars are written for the ids of the summaries of two runs, one
/// after the other.
pub proof fn lemma_sidecars_written_then(
    f1: Map<Seq<char>, Seq<u8>>,
    f2: Map<Seq<char>, Seq<u8>>,
    root: Seq<char>,
    s1: Seq<SavedSummary>,
    e1: Seq<ImportError>,
    s2: Seq<SavedSummary>,
    e2: Seq<ImportError>,
)
    requires
        sidecars_written(f1, s1, e1),
        sidecars_written(f2, s2, e2),
        all_stand(f1, root, s1),
        left_alone(f1, f2, root, s2, e2),
    ensures
        sidecars_written(f2, s1 + s2, e1 + e2),
{
    let s = s1 + s2;
    let e = e1 + e2;
    let n = s1.len() as int;
    assert forall|i: int| 0 <= i < s.len() && last_told(s, e, i) implies written_for(
        f2[metadata_path((#[trigger] s[i]).path@)],
        s[i].id,
    ) by {
        if i < n {
            assert(s[i] == s1[i]);
            assert forall|j: int| i < j < n implies (#[trigger] s1[j]).path@ != s1[i].path@ by {
                assert(s[j] == s1[j]);
            }
            assert forall|j: int| 0 <= j < e1.len() implies (#[trigger] e1[j]).path@
                != s1[i].path@ by {
                assert(e[j] == e1[j]);
            }
            assert(last_told(s1, e1, i));
            assert forall|j: int| 0 <= j < s2.len() implies (#[trigger] s2[j]).path@
                != s1[i].path@ by {
                assert(s[j + n] == s2[j]);
            }
            assert forall|j: int| 0 <= j < e2.len() implies (#[trigger] e2[j]).path@
                != s1[i].path@ by {
                assert(e[j + e1.len()] == e2[j]);
            }
            lemma_sidecar_untouched(root, s2, e2, s1[i].path@);
            assert(same_at(f2, f1, metadata_path(s1[i].path@)));
            assert(f1.contains_key(metadata_path(s1[i].path@)));
        } else {
            let k = i - n;
            assert(s[i] == s2[k]);
            assert forall|j: int| k < j < s2.len() implies (#[trigger] s2[j]).path@
                != s2[k].path@ by {
                assert(s[j + n] == s2[j]);
            }
            assert forall|j: int| 0 <= j < e2.len() implies (#[trigger] e2[j]).path@
                != s2[k].path@ by {
                assert(e[j + e1.len()] == e2[j]);
            }
            assert(last_told(s2, e2, k));
        }
    }
}

/// The outcome of two runs, one after the other, is the outcome of one run
/// with the summaries, the records and the refused ids of both.
pub proof fn lemma_runs_then(
    f0: Map<Seq<char>, Seq<u8>>,
    f1: Map<Seq<char>, Seq<u8>>,
    f2: Map<Seq<char>, Seq<u8>>,
    root: Seq<char>,
    s1: Seq<SavedSummary>,
    e1: Seq<ImportError>,
    u1: Seq<AssetId>,
    s2: Seq<SavedSummary>,
    e2: Seq<ImportError>,
    u2: Seq<AssetId>,
)
    requires
        run_outcome(f0, f1, root, s1, e1, u1),
        run_outcome(f1, f2, root, s2, e2, u2),
    ensures
        run_outcome(f0, f2, root, s1 + s2, e1 + e2, u1 + u2),
{
    reveal(run_outcome);
    lemma_headers_then(f0, f1, f2, root, s1, s2);
    lemma_left_alone_then(f0, f1, f2, root, s1, e1, s2, e2);
    lemma_all_stand_then(f1, f2, root, s1, s2, e2);
    lemma_all_canonical_then(f1, f2, root, s1, u1, s2, e2, u2);
    lemma_index_follows_then(f0, f1, f2, root, s1, s2);
    lemma_index_settled_then(f1, f2, root, s1, u1, s2, u2);
    lemma_sidecars_written_then(f1, f2, root, s1, e1, s2, e2);
}

/// A run that has done nothing has the outcome of a run without a report.
pub proof fn lemma_no_run(files: Map<Seq<char>, Seq<u8>>, root: Seq<char>)
    ensures
        run_outcome(
            files,
            files,
            root,
            Seq::<SavedSummary>::empty(),
            Seq::<ImportError>::empty(),
            Seq::<AssetId>::empty(),
        ),
{
    reveal(run_outcome);
}

/// A report of nothing tells of no source.
pub proof fn lemma_no_report<F: FileSystem>(importers: AssetImporters<F>, paths: Seq<String>)
    ensures
        reported(
            importers,
            Seq::<String>::empty(),
            Seq::<SavedSummary>::empty(),
            Seq::<ImportError>::empty(),
        ),
        from_paths(paths, Seq::<SavedSummary>::empty(), Seq::<ImportError>::empty()),
{
    reveal(reported);
    reveal(from_paths);
}

/// The reports of two runs that each tell of their sources tell together
/// of the sources of both.
pub proof fn lemma_reports_join<F: FileSystem>(
    importers: AssetImporters<F>,
    p1: Seq<String>,
    s1: Seq<SavedSummary>,
    e1: Seq<ImportError>,
    p2: Seq<String>,
    s2: Seq<SavedSummary>,
    e2: Seq<ImportError>,
)
    requires
        reported(importers, p1, s1, e1),
        reported(importers, p2, s2, e2),
    ensures
        reported(importers, p1 + p2, s1 + s2, e1 + e2),
        from_paths(p1, s1, e1) && from_paths(p2, s2, e2) ==> from_paths(p1 + p2, s1 + s2, e1 + e2),
{
    reveal(reported);
    reveal(from_paths);
    let p = p1 + p2;
    let s = s1 + s2;
    let e = e1 + e2;
    assert forall|k: int| 0 <= k < s.len() implies has_importer(
        importers,
        (#[trigger] s[k]).path@,
    ) by {
        if k < s1.len() {
            assert(s[k] == s1[k]);
        } else {
            assert(s[k] == s2[k - s1.len()]);
        }
    }
    assert forall|k: int| 0 <= k < e.len() implies cause_fits(importers, #[trigger] e[k]) by {
        if k < e1.len() {
            assert(e[k] == e1[k]);
        } else {
            assert(e[k] == e2[k - e1.len()]);
        }
    }
    assert forall|i: int| 0 <= i < p.len() implies told(s, e, (#[trigger] p[i])@) by {
        if i < p1.len() {
            assert(p[i] == p1[i]);
            lemma_told_joins(s1, e1, s2, e2, p1[i]@);
        } else {
            assert(p[i] == p2[i - p1.len()]);
            lemma_told_joins(s1, e1, s2, e2, p2[i - p1.len()]@);
        }
    }
    if from_paths(p1, s1, e1) && from_paths(p2, s2, e2) {
        assert forall|k: int| 0 <= k < s.len() implies among(p, (#[trigger] s[k]).path@) by {
            if k < s1.len() {
                assert(s[k] == s1[k]);
                lemma_among_joins(p1, p2, s1[k].path@);
            } else {
                assert(s[k] == s2[k - s1.len()]);
                lemma_among_joins(p1, p2, s2[k - s1.len()].path@);
            }
        }
        assert forall|k: int| 0 <= k < e.len() implies among(p, (#[trigger] e[k]).path@) by {
            if k < e1.len() {
                assert(e[k] == e1[k]);
                lemma_among_joins(p1, p2, e1[k].path@);
            } else {
                assert(e[k] == e2[k - e1.len()]);
                lemma_among_joins(p1, p2, e2[k - e1.len()].path@);
            }
        }
    }
}

/// Two reports tell of a source exactly when one of them does.
pub proof fn lemma_told_joins(
    s1: Seq<SavedSummary>,
    e1: Seq<ImportError>,
    s2: Seq<SavedSummary>,
    e2: Seq<ImportError>,
    path: Seq<char>,
)
    ensures
        told(s1, e1, path) || told(s2, e2, path) ==> told(s1 + s2, e1 + e2, path),
{
    let s = s1 + s2;
    let e = e1 + e2;
    if exists|k: int| 0 <= k < s1.len() && (#[trigger] s1[k]).path@ == path {
        let k = choose|k: int| 0 <= k < s1.len() && (#[trigger] s1[k]).path@ == path;
        assert(s[k] == s1[k]);
    }
    if exists|k: int| 0 <= k < e1.len() && (#[trigger] e1[k]).path@ == path {
        let k = choose|k: int| 0 <= k < e1.len() && (#[trigger] e1[k]).path@ == path;
        assert(e[k] == e1[k]);
    }
    if exists|k: int| 0 <= k < s2.len() && (#[trigger] s2[k]).path@ == path {
        let k = choose|k: int| 0 <= k < s2.len() && (#[trigger] s2[k]).path@ == path;
        assert(s[s1.len() + k] == s2[k]);
    }
    if exists|k: int| 0 <= k < e2.len() && (#[trigger] e2[k]).path@ == path {
        let k = choose|k: int| 0 <= k < e2.len() && (#[trigger] e2[k]).path@ == path;
        assert(e[e1.len() + k] == e2[k]);
    }
}

/// A path is among the paths of two lists when it is among those of one.
pub proof fn lemma_among_joins(p1: Seq<String>, p2: Seq<String>, path: Seq<char>)
    ensures
        among(p1, path) || among(p2, path) ==> among(p1 + p2, path),
{
    let p = p1 + p2;
    if among(p1, path) {
        let i = choose|i: int| 0 <= i < p1.len() && (#[trigger] p1[i])@ == path;
        assert(p[i] == p1[i]);
    }
    if among(p2, path) {
        let i = choose|i: int| 0 <= i < p2.len() && (#[trigger] p2[i])@ == path;
        assert(p[p1.len() + i] == p2[i]);
    }
}

/// A summary mentions an asset after one more source exactly when it did
/// before, or the source has or has lost the asset as a dependency.
pub proof fn lemma_mentioned_push(saved: Seq<SavedSummary>, summary: SavedSummary, dep: AssetId)
    ensures
        mentioned(saved.push(summary), dep) <==> mentioned(saved, dep)
            || summary.dependencies@.contains(dep) || summary.removed@.contains(dep),
{
    let one = seq![summary];
    assert(saved.push(summary) =~= saved + one);
    lemma_mentioned_joins(saved, one, dep);
    if summary.dependencies@.contains(dep) || summary.removed@.contains(dep) {
        assert(one[0] == summary);
    }
}

/// The report tells of one more source: one that was saved.
pub proof fn lemma_report_saved<F: FileSystem>(
    importers: AssetImporters<F>,
    paths: Seq<String>,
    i: int,
    saved: Seq<SavedSummary>,
    errors: Seq<ImportError>,
    summary: SavedSummary,
)
    requires
        0 <= i < paths.len(),
        reported(importers, paths.take(i), saved, errors),
        from_paths(paths, saved, errors),
        summary.path@ == paths[i]@,
        has_importer(importers, summary.path@),
    ensures
        reported(importers, paths.take(i + 1), saved.push(summary), errors),
        from_paths(paths, saved.push(summary), errors),
{
    reveal(reported);
    reveal(from_paths);
    let whole = saved.push(summary);
    let one = seq![summary];
    let none = Seq::<ImportError>::empty();
    let next = seq![paths[i]];
    assert(whole[saved.len() as int] == summary);
    assert(one[0] == summary);
    assert(told(one, none, next[0]@));
    lemma_reports_join(importers, paths.take(i), saved, errors, next, one, none);
    assert(paths.take(i + 1) =~= paths.take(i) + next);
    assert(whole =~= saved + one);
    assert(errors =~= errors + none);
    assert forall|k: int| 0 <= k < whole.len() implies among(paths, (#[trigger] whole[k]).path@) by {
        if k < saved.len() {
            assert(whole[k] == saved[k]);
        }
    }
}

/// The report tells of one more source: one that failed.
pub proof fn lemma_report_failed<F: FileSystem>(
    importers: AssetImporters<F>,
    paths: Seq<String>,
    i: int,
    saved: Seq<SavedSummary>,
    errors: Seq<ImportError>,
    record: ImportError,
)
    requires
        0 <= i < paths.len(),
        reported(importers, paths.take(i), saved, errors),
        from_paths(paths, saved, errors),
        record.path@ == paths[i]@,
        cause_fits(importers, record),
    ensures
        reported(importers, paths.take(i + 1), saved, errors.push(record)),
        from_paths(paths, saved, errors.push(record)),
{
    reveal(reported);
    reveal(from_paths);
    let whole = errors.push(record);
    let one = seq![record];
    let none = Seq::<SavedSummary>::empty();
    let next = seq![paths[i]];
    assert(whole[errors.len() as int] == record);
    assert(one[0] == record);
    assert(told(none, one, next[0]@));
    lemma_reports_join(importers, paths.take(i), saved, errors, next, none, one);
    assert(paths.take(i + 1) =~= paths.take(i) + next);
    assert(whole =~= errors + one);
    assert(saved =~= saved + none);
    assert forall|k: int| 0 <= k < whole.len() implies among(paths, (#[trigger] whole[k]).path@) by {
        if k < errors.len() {
            assert(whole[k] == errors[k]);
        }
    }
}

/// What the first of two runs asks to import again, and what the second
/// asks, the two runs together ask.
pub proof fn lemma_asked_then(
    f0: Map<Seq<char>, Seq<u8>>,
    f1: Map<Seq<char>, Seq<u8>>,
    root: Seq<char>,
    s1: Seq<SavedSummary>,
    e1: Seq<ImportError>,
    u1: Seq<AssetId>,
    s2: Seq<SavedSummary>,
    u2: Seq<AssetId>,
    id: AssetId,
)
    requires
        run_outcome(f0, f1, root, s1, e1, u1),
        asked_again(f0, root, s1, id) || requeued(f1, root, s2, u2).contains(id),
    ensures
        asked_again(f0, root, s1 + s2, id),
{
    reveal(run_outcome);
    let s = s1 + s2;
    if asked_again(f0, root, s1, id) {
        let dep = choose|dep: AssetId| #[trigger]
            noted(s1, s1.len() as int, dep, id) && (!recorded_dependents(f0, root, dep).contains(
                id,
            ) || dropped(s1, s1.len() as int, dep, id));
        lemma_edges_join(s1, s2, dep, id);
        assert(noted(s, s.len() as int, dep, id));
    } else {
        let dep = choose|dep: AssetId|
            !u2.contains(dep) && #[trigger] noted(s2, s2.len() as int, dep, id) && !dropped(
                s2,
                s2.len() as int,
                dep,
                id,
            ) && !recorded_dependents(f1, root, dep).contains(id);
        lemma_edges_join(s1, s2, dep, id);
        assert(noted(s, s.len() as int, dep, id));
    }
}

/// What two runs, one after the other, ask to import again by their
/// summaries together, the first asks by its own or the second by its own.
pub proof fn lemma_requeued_then(
    f0: Map<Seq<char>, Seq<u8>>,
    f1: Map<Seq<char>, Seq<u8>>,
    root: Seq<char>,
    s1: Seq<SavedSummary>,
    e1: Seq<ImportError>,
    u1: Seq<AssetId>,
    s2: Seq<SavedSummary>,
    u2: Seq<AssetId>,
    id: AssetId,
)
    requires
        run_outcome(f0, f1, root, s1, e1, u1),
        requeued(f0, root, s1 + s2, u1 + u2).contains(id),
    ensures
        requeued(f0, root, s1, u1).contains(id) || requeued(f1, root, s2, u2).contains(id),
{
    reveal(run_outcome);
    let s = s1 + s2;
    let u = u1 + u2;
    let dep = choose|dep: AssetId|
        !u.contains(dep) && #[trigger] noted(s, s.len() as int, dep, id) && !dropped(
            s,
            s.len() as int,
            dep,
            id,
        ) && !recorded_dependents(f0, root, dep).contains(id);
    lemma_edges_join(s1, s2, dep, id);
    if u1.contains(dep) {
        assert(u[u1.index_of(dep)] == dep);
    }
    if u2.contains(dep) {
        assert(u[u1.len() + u2.index_of(dep)] == dep);
    }
    if noted(s1, s1.len() as int, dep, id) {
    } else {
        assert(noted(s2, s2.len() as int, dep, id));
        assert(!recorded_dependents(f1, root, dep).contains(id));
    }
}

/// A run without summaries asks for nothing, and nothing fits.
pub proof fn lemma_nothing_asked(files: Map<Seq<char>, Seq<u8>>, root: Seq<char>)
    ensures
        asks_fit(
            files,
            root,
            Seq::<SavedSummary>::empty(),
            Seq::<AssetId>::empty(),
            Seq::<AssetId>::empty(),
        ),
{
    reveal(asks_fit);
}

/// Where what was asked fits and is nothing, the summaries of the run ask
/// for nothing; and a run that saved nothing is asked nothing.
pub proof fn lemma_asks_none(
    before: Map<Seq<char>, Seq<u8>>,
    root: Seq<char>,
    saved: Seq<SavedSummary>,
    unrecorded: Seq<AssetId>,
    asked: Seq<AssetId>,
)
    requires
        asks_fit(before, root, saved, unrecorded, asked),
    ensures
        asked.len() == 0 ==> requeued(before, root, saved, unrecorded) == Set::<AssetId>::empty(),
        saved.len() == 0 ==> asked.len() == 0,
{
    reveal(asks_fit);
    if asked.len() == 0 {
        assert(requeued(before, root, saved, unrecorded) =~= Set::<AssetId>::empty());
    }
    if saved.len() == 0 && asked.len() > 0 {
        assert(asked.contains(asked[0]));
        assert(asked_again(before, root, saved, asked[0]));
    }
}

/// What was asked over two runs, one after the other, fits their summaries
/// together: what was asked over the first, with what the second asks.
pub proof fn lemma_asks_then(
    f0: Map<Seq<char>, Seq<u8>>,
    f1: Map<Seq<char>, Seq<u8>>,
    root: Seq<char>,
    s1: Seq<SavedSummary>,
    e1: Seq<ImportError>,
    u1: Seq<AssetId>,
    d1: Seq<AssetId>,
    s2: Seq<SavedSummary>,
    u2: Seq<AssetId>,
    d2: Seq<AssetId>,
    both: Seq<AssetId>,
)
    requires
        run_outcome(f0, f1, root, s1, e1, u1),
        asks_fit(f0, root, s1, u1, d1),
        d2.to_set() == requeued(f1, root, s2, u2),
        forall|id: AssetId| #[trigger] both.contains(id) <==> d1.contains(id) || d2.contains(id),
    ensures
        asks_fit(f0, root, s1 + s2, u1 + u2, both),
{
    reveal(asks_fit);
    assert forall|id: AssetId| #[trigger]
        requeued(f0, root, s1 + s2, u1 + u2).contains(id) implies both.contains(id) by {
        lemma_requeued_then(f0, f1, root, s1, e1, u1, s2, u2, id);
        if requeued(f1, root, s2, u2).contains(id) {
            assert(d2.to_set().contains(id));
        }
    }
    assert forall|id: AssetId| #[trigger] both.contains(id) implies asked_again(
        f0,
        root,
        s1 + s2,
        id,
    ) by {
        if !d1.contains(id) {
            assert(d2.to_set().contains(id));
        }
        lemma_asked_then(f0, f1, root, s1, e1, u1, s2, u2, id);
    }
}

/// A report that tells of the sources of two lists tells of those of the
/// first.
pub proof fn lemma_reported_fewer<F: FileSystem>(
    importers: AssetImporters<F>,
    p1: Seq<String>,
    p2: Seq<String>,
    saved: Seq<SavedSummary>,
    errors: Seq<ImportError>,
)
    requires
        reported(importers, p1 + p2, saved, errors),
    ensures
        reported(importers, p1, saved, errors),
{
    reveal(reported);
    let p = p1 + p2;
    assert forall|i: int| 0 <= i < p1.len() implies told(saved, errors, (#[trigger] p1[i])@) by {
        assert(p[i] == p1[i]);
    }
}

/// The sidecars of two sources are two files.
pub proof fn lemma_sidecars_differ(a: Seq<char>, b: Seq<char>)
    requires
        a != b,
    ensures
        metadata_path(a) != metadata_path(b),
{
    let x = metadata_path(a);
    let y = metadata_path(b);
    reveal_strlit("meta");
    assert(x.len() == a.len() + 5);
    assert(y.len() == b.len() + 5);
    if x == y {
        assert(a.len() == b.len());
        assert forall|i: int| 0 <= i < a.len() implies a[i] == b[i] by {
            assert(x[i] == a[i]);
            assert(y[i] == b[i]);
        }
        assert(a =~= b);
    }
}

/// A run that tells nothing of a source has not touched its sidecar.
pub proof fn lemma_sidecar_untouched(
    root: Seq<char>,
    saved: Seq<SavedSummary>,
    errors: Seq<ImportError>,
    path: Seq<char>,
)
    requires
        forall|j: int| 0 <= j < saved.len() ==> (#[trigger] saved[j]).path@ != path,
        forall|j: int| 0 <= j < errors.len() ==> (#[trigger] errors[j]).path@ != path,
    ensures
        !touched(root, saved, errors, metadata_path(path)),
{
    let sidecar = metadata_path(path);
    assert forall|k: int| 0 <= k < saved.len() implies !(sidecar == metadata_path(
        (#[trigger] saved[k]).path@,
    ) || sidecar == artifact_path(root, saved[k].id)) by {
        lemma_sidecars_differ(path, saved[k].path@);
        lemma_artifact_is_no_sidecar(root, saved[k].id, path);
    }
    assert forall|k: int| 0 <= k < errors.len() implies sidecar != metadata_path(
        (#[trigger] errors[k]).path@,
    ) by {
        lemma_sidecars_differ(path, errors[k].path@);
    }
    assert forall|dep: AssetId| sidecar != #[trigger] dependents_path(root, dep) by {
        lemma_dependents_apart(root, dep, dep, path);
    }
}

/// A run that has saved nothing has kept the ids.
pub proof fn lemma_nothing_kept<F: FileSystem>(
    importers: AssetImporters<F>,
    files: Map<Seq<char>, Seq<u8>>,
    errors: Seq<ImportError>,
)
    ensures
        ids_kept(importers, files, Seq::<SavedSummary>::empty(), errors),
{
    reveal(ids_kept);
}

/// The ids are kept over one more source that was saved.
pub proof fn lemma_id_kept<F: FileSystem>(
    importers: AssetImporters<F>,
    before: Map<Seq<char>, Seq<u8>>,
    middle: Map<Seq<char>, Seq<u8>>,
    root: Seq<char>,
    saved: Seq<SavedSummary>,
    errors: Seq<ImportError>,
    summary: SavedSummary,
)
    requires
        ids_kept(importers, before, saved, errors),
        imported_so_far(before, middle, root, saved, errors),
        sidecar_id(importers, middle, summary.path@) matches Some(id) ==> summary.id == id,
    ensures
        ids_kept(importers, before, saved.push(summary), errors),
{
    reveal(imported_so_far);
    reveal(ids_kept);
    let whole = saved.push(summary);
    let n = saved.len() as int;
    assert forall|i: int| 0 <= i < whole.len() && first_told(whole, errors, i) implies (sidecar_id(
        importers,
        before,
        (#[trigger] whole[i]).path@,
    ) matches Some(id) ==> whole[i].id == id) by {
        if i < n {
            assert(whole[i] == saved[i]);
            assert forall|j: int| 0 <= j < i implies (#[trigger] saved[j]).path@
                != saved[i].path@ by {
                assert(whole[j] == saved[j]);
            }
            assert(first_told(saved, errors, i));
        } else {
            assert(whole[i] == summary);
            assert forall|j: int| 0 <= j < n implies (#[trigger] saved[j]).path@
                != summary.path@ by {
                assert(whole[j] == saved[j]);
            }
            lemma_sidecar_untouched(root, saved, errors, summary.path@);
            assert(same_at(middle, before, metadata_path(summary.path@)));
            reveal(sidecar_id);
        }
    }
}

/// The ids are kept over one more source that failed.
pub proof fn lemma_id_kept_failed<F: FileSystem>(
    importers: AssetImporters<F>,
    before: Map<Seq<char>, Seq<u8>>,
    saved: Seq<SavedSummary>,
    errors: Seq<ImportError>,
    record: ImportError,
)
    requires
        ids_kept(importers, before, saved, errors),
    ensures
        ids_kept(importers, before, saved, errors.push(record)),
{
    reveal(ids_kept);
    let whole = errors.push(record);
    assert forall|i: int| 0 <= i < saved.len() && first_told(saved, whole, i) implies (sidecar_id(
        importers,
        before,
        (#[trigger] saved[i]).path@,
    ) matches Some(id) ==> saved[i].id == id) by {
        assert forall|j: int| 0 <= j < errors.len() implies (#[trigger] errors[j]).path@
            != saved[i].path@ by {
            assert(whole[j] == errors[j]);
        }
        assert(first_told(saved, errors, i));
    }
}

/// The ids are kept over two runs, one after the other.
pub proof fn lemma_ids_kept_then<F: FileSystem>(
    importers: AssetImporters<F>,
    f0: Map<Seq<char>, Seq<u8>>,
    f1: Map<Seq<char>, Seq<u8>>,
    root: Seq<char>,
    s1: Seq<SavedSummary>,
    e1: Seq<ImportError>,
    u1: Seq<AssetId>,
    s2: Seq<SavedSummary>,
    e2: Seq<ImportError>,
)
    requires
        ids_kept(importers, f0, s1, e1),
        ids_kept(importers, f1, s2, e2),
        run_outcome(f0, f1, root, s1, e1, u1),
    ensures
        ids_kept(importers, f0, s1 + s2, e1 + e2),
{
    reveal(ids_kept);
    reveal(run_outcome);
    let s = s1 + s2;
    let e = e1 + e2;
    let n = s1.len() as int;
    assert forall|i: int| 0 <= i < s.len() && first_told(s, e, i) implies (sidecar_id(
        importers,
        f0,
        (#[trigger] s[i]).path@,
    ) matches Some(id) ==> s[i].id == id) by {
        if i < n {
            assert(s[i] == s1[i]);
            assert forall|j: int| 0 <= j < i implies (#[trigger] s1[j]).path@ != s1[i].path@ by {
                assert(s[j] == s1[j]);
            }
            assert forall|j: int| 0 <= j < e1.len() implies (#[trigger] e1[j]).path@
                != s1[i].path@ by {
                assert(e[j] == e1[j]);
            }
            assert(first_told(s1, e1, i));
        } else {
            let k = i - n;
            assert(s[i] == s2[k]);
            assert forall|j: int| 0 <= j < k implies (#[trigger] s2[j]).path@ != s2[k].path@ by {
                assert(s[j + n] == s2[j]);
            }
            assert forall|j: int| 0 <= j < e2.len() implies (#[trigger] e2[j]).path@
                != s2[k].path@ by {
                assert(e[j + e1.len()] == e2[j]);
            }
            assert(first_told(s2, e2, k));
            assert forall|j: int| 0 <= j < n implies (#[trigger] s1[j]).path@ != s2[k].path@ by {
                assert(s[j] == s1[j]);
            }
            assert forall|j: int| 0 <= j < e1.len() implies (#[trigger] e1[j]).path@
                != s2[k].path@ by {
                assert(e[j] == e1[j]);
            }
            lemma_sidecar_untouched(root, s1, e1, s2[k].path@);
            assert(same_at(f1, f0, metadata_path(s2[k].path@)));
            reveal(sidecar_id);
        }
    }
}

/// Where two runs together have no edge both noted and dropped, neither
/// has.
pub proof fn lemma_unmixed_parts(s1: Seq<SavedSummary>, s2: Seq<SavedSummary>)
    requires
        unmixed(s1 + s2),
    ensures
        unmixed(s1),
        unmixed(s2),
{
    reveal(unmixed);
    let s = s1 + s2;
    assert forall|dep: AssetId, id: AssetId|
        !(#[trigger] noted(s1, s1.len() as int, dep, id) && dropped(
            s1,
            s1.len() as int,
            dep,
            id,
        )) by {
        lemma_edges_join(s1, s2, dep, id);
        assert(!(noted(s, s.len() as int, dep, id) && dropped(s, s.len() as int, dep, id)));
    }
    assert forall|dep: AssetId, id: AssetId|
        !(#[trigger] noted(s2, s2.len() as int, dep, id) && dropped(
            s2,
            s2.len() as int,
            dep,
            id,
        )) by {
        lemma_edges_join(s1, s2, dep, id);
        assert(!(noted(s, s.len() as int, dep, id) && dropped(s, s.len() as int, dep, id)));
    }
}

/// Whether a character is a decimal digit.
pub open spec fn is_digit(c: char) -> bool {
    exists|d: nat| d < 10 && c == #[trigger] crate::asset::digit_char(d)
}

/// The path of an artifact and the path of a file of dependents end in a
/// digit, and the path of a sidecar ends in the letter `a`.
pub proof fn lemma_ends_of_places(root: Seq<char>, id: AssetId, path: Seq<char>)
    ensures
        artifact_path(root, id).len() > 0 && is_digit(artifact_path(root, id).last()),
        dependents_path(root, id).len() > 0 && is_digit(dependents_path(root, id).last()),
        metadata_path(path).last() == 'a',
{
    reveal_strlit("meta");
    let number = crate::asset::decimal(id.0 as nat);
    crate::asset::config::lemma_decimal_is_a_name(id.0 as nat);
    crate::asset::config::lemma_decimal_digits(id.0 as nat, number.len() - 1);
    let place = artifact_path(root, id);
    crate::asset::config::lemma_joined_ends(crate::asset::config::artifacts_path(root), number);
    assert(place.last() == number.last()) by {
        assert(place.skip(place.len() - number.len())[number.len() - 1] == number[number.len()
            - 1]);
    }
    let other = dependents_path(root, id);
    crate::asset::config::lemma_joined_ends(crate::asset::config::dependents_dir(root), number);
    assert(other.last() == number.last()) by {
        assert(other.skip(other.len() - number.len())[number.len() - 1] == number[number.len()
            - 1]);
    }
    assert(metadata_path(path).last() == 'a');
}

/// A run leaves every file alone that is no artifact, no file of
/// dependents and no sidecar: a file whose path ends in neither a digit
/// nor the letter `a` is after the run as it was before it. The sources of
/// a project are such files, unless their names end so.
pub proof fn lemma_other_files_kept(
    before: Map<Seq<char>, Seq<u8>>,
    after: Map<Seq<char>, Seq<u8>>,
    root: Seq<char>,
    saved: Seq<SavedSummary>,
    errors: Seq<ImportError>,
    unrecorded: Seq<AssetId>,
    path: Seq<char>,
)
    requires
        run_outcome(before, after, root, saved, errors, unrecorded),
        path.len() > 0,
        path.last() != 'a',
        !is_digit(path.last()),
    ensures
        !touched(root, saved, errors, path),
        same_at(after, before, path),
{
    reveal(run_outcome);
    assert forall|k: int| 0 <= k < saved.len() implies !(path == metadata_path(
        (#[trigger] saved[k]).path@,
    ) || path == artifact_path(root, saved[k].id)) by {
        lemma_ends_of_places(root, saved[k].id, saved[k].path@);
    }
    assert forall|k: int| 0 <= k < errors.len() implies path != metadata_path(
        (#[trigger] errors[k]).path@,
    ) by {
        lemma_ends_of_places(root, errors[k].id, errors[k].path@);
    }
    assert forall|dep: AssetId| path != #[trigger] dependents_path(root, dep) by {
        lemma_ends_of_places(root, dep, path);
    }
}

/// What a run makes of the first of its sources, after one more source
/// that was saved.
pub proof fn lemma_first_saved<F: FileSystem>(
    importers: AssetImporters<F>,
    files: Map<Seq<char>, Seq<u8>>,
    paths: Seq<String>,
    saved: Seq<SavedSummary>,
    errors: Seq<ImportError>,
    summary: SavedSummary,
)
    requires
        paths.len() > 0,
        saved.len() + errors.len() > 0 ==> first_outcome(importers, files, paths, saved, errors),
        saved.len() + errors.len() == 0 ==> summary.path@ == paths[0]@ && as_made(
            importers,
            files,
            paths[0]@,
            summary,
        ),
    ensures
        first_outcome(importers, files, paths, saved.push(summary), errors),
{
    reveal(first_outcome);
    let whole = saved.push(summary);
    if saved.len() > 0 {
        assert(whole[0] == saved[0]);
    } else {
        assert(whole[0] == summary);
    }
}

/// What a run makes of the first of its sources, after one more source
/// that failed.
pub proof fn lemma_first_failed<F: FileSystem>(
    importers: AssetImporters<F>,
    files: Map<Seq<char>, Seq<u8>>,
    paths: Seq<String>,
    saved: Seq<SavedSummary>,
    errors: Seq<ImportError>,
    record: ImportError,
)
    requires
        paths.len() > 0,
        saved.len() + errors.len() > 0 ==> first_outcome(importers, files, paths, saved, errors),
        saved.len() + errors.len() == 0 ==> record.path@ == paths[0]@ && explained(
            importers,
            files,
            paths[0]@,
            record,
        ),
    ensures
        first_outcome(importers, files, paths, saved, errors.push(record)),
{
    reveal(first_outcome);
    let whole = errors.push(record);
    if errors.len() > 0 {
        assert(whole[0] == errors[0]);
    } else {
        assert(whole[0] == record);
    }
}

/// What a run makes of the first of its sources stays as it is over a
/// further run.
pub proof fn lemma_first_then<F: FileSystem>(
    importers: AssetImporters<F>,
    files: Map<Seq<char>, Seq<u8>>,
    p1: Seq<String>,
    s1: Seq<SavedSummary>,
    e1: Seq<ImportError>,
    p2: Seq<String>,
    s2: Seq<SavedSummary>,
    e2: Seq<ImportError>,
)
    requires
        first_outcome(importers, files, p1, s1, e1),
        p1.len() > 0,
    ensures
        first_outcome(importers, files, p1, s1 + s2, e1 + e2),
        first_outcome(importers, files, p1 + p2, s1 + s2, e1 + e2),
{
    reveal(first_outcome);
    assert((p1 + p2)[0] == p1[0]);
    if s1.len() > 0 {
        assert((s1 + s2)[0] == s1[0]);
    }
    if e1.len() > 0 {
        assert((e1 + e2)[0] == e1[0]);
    }
}

/// The first source of a run on a reliable store is saved where nothing
/// stands against it: the registry has an importer for it without a
/// processor, the source is there, the metadata that it is imported with
/// has a sidecar whatever id it gets, and the importer makes of it the
/// dependencies `dependencies`, which an artifact can hold. The first
/// summary is then of that source and has those dependencies, each once.
pub proof fn lemma_first_is_saved<F: FileSystem>(
    importers: AssetImporters<F>,
    files: Map<Seq<char>, Seq<u8>>,
    paths: Seq<String>,
    saved: Seq<SavedSummary>,
    errors: Seq<ImportError>,
    dependencies: Seq<AssetId>,
)
    requires
        first_outcome(importers, files, paths, saved, errors),
        paths.len() > 0,
        has_importer(importers, paths[0]@),
        !importer_at(importers, paths[0]@).has_processor(),
        files.contains_key(paths[0]@),
        forall|id: AssetId| !#[trigger] stuck_at(importers, files, paths[0]@, id),
        forall|id: AssetId| #[trigger]
            made_at(importers, files, paths[0]@, id) == Some(dependencies),
        36 + 16 * crate::asset::set::seq_union(Seq::empty(), dependencies).len() <= usize::MAX,
    ensures
        saved.len() > 0,
        saved[0].path@ == paths[0]@,
        saved[0].dependencies@ == crate::asset::set::seq_union(Seq::empty(), dependencies),
{
    reveal(first_outcome);
    let path = paths[0]@;
    if errors.len() > 0 && explained(importers, files, path, errors[0]) {
        assert(!stuck_at(importers, files, path, errors[0].id));
        assert(made_at(importers, files, path, errors[0].id) == Some(dependencies));
    }
    if saved.len() > 0 && as_made(importers, files, path, saved[0]) {
        assert(made_at(importers, files, path, saved[0].id) == Some(dependencies));
    }
}

/// A run without sources has no first source.
pub proof fn lemma_first_none<F: FileSystem>(
    importers: AssetImporters<F>,
    files: Map<Seq<char>, Seq<u8>>,
    paths: Seq<String>,
    saved: Seq<SavedSummary>,
    errors: Seq<ImportError>,
)
    requires
        paths.len() == 0,
    ensures
        first_outcome(importers, files, paths, saved, errors),
{
    reveal(first_outcome);
}

/// Where no source of a run has an importer, the run has touched no file.
pub proof fn lemma_nothing_to_import<F: FileSystem>(
    importers: AssetImporters<F>,
    paths: Seq<String>,
    before: Map<Seq<char>, Seq<u8>>,
    after: Map<Seq<char>, Seq<u8>>,
    root: Seq<char>,
    saved: Seq<SavedSummary>,
    errors: Seq<ImportError>,
    unrecorded: Seq<AssetId>,
)
    requires
        run_outcome(before, after, root, saved, errors, unrecorded),
        reported(importers, paths, saved, errors),
        from_paths(paths, saved, errors),
        forall|i: int| 0 <= i < paths.len() ==> !has_importer(importers, (#[trigger] paths[i])@),
    ensures
        saved.len() == 0,
        after == before,
{
    reveal(run_outcome);
    reveal(reported);
    reveal(from_paths);
    if saved.len() > 0 {
        assert(has_importer(importers, saved[0].path@));
        assert(among(paths, saved[0].path@));
    }
    assert forall|k: int| 0 <= k < errors.len() implies (#[trigger] errors[k]).error is NoExtension
        || errors[k].error is NoImporter by {
        assert(among(paths, errors[k].path@));
        assert(cause_fits(importers, errors[k]));
    }
    assert forall|path: Seq<char>| !touched(root, saved, errors, path) by {
        if exists|dep: AssetId|
            mentioned(saved, dep) && path == #[trigger] dependents_path(root, dep) {
            let dep = choose|dep: AssetId|
                mentioned(saved, dep) && path == #[trigger] dependents_path(root, dep);
            assert(!mentioned(saved, dep));
        }
    }
    assert forall|path: Seq<char>| #[trigger]
        after.dom().contains(path) == before.dom().contains(path) by {
        assert(same_at(after, before, path));
    }
    assert forall|path: Seq<char>| after.dom().contains(path) implies #[trigger] after[path]
        == before[path] by {
        assert(same_at(after, before, path));
    }
    assert(after =~= before);
}

} // verus!
