//! What holds of the index under its operations.

use vstd::prelude::*;
use crate::cache::{all_storable, cache_bytes, cached_records, lemma_cache_round_trip};
use crate::hashedfile::RecordView;
use crate::model::{
    adopted, distinct_hashes, distinct_paths, filed, has_hash, has_path, hash_slot,
    lemma_candidates_push, lemma_hash_slot, lemma_path_slot, merged, path_slot, stored,
    DuplicatesView, GroupView, IndexView,
};
use crate::ranking::{
    larger_than, lemma_larger_push, lemma_ranked_larger,
    lemma_ranked_permutes,
};

verus! {

/// The two ways of saying that the mappings are consistent say the same.
pub proof fn lemma_coupled_groups(index: IndexView)
    requires
        distinct_hashes(index.groups),
    ensures
        index.coupled() <==> index.coupled_groups(),
{
    if index.coupled_groups() {
        assert forall|hash: Seq<u8>, path: Seq<char>|
            index.by_hash().contains_key(hash) && #[trigger] index.by_hash()[hash].contains(
                path,
            ) implies index.by_path().contains_key(path) && index.by_path()[path].hash == hash by {
            let g = hash_slot(index.groups, hash);
            let k = choose|k: int| 0 <= k < index.groups[g].paths.len() && index.groups[g].paths[k] == path;
            assert(has_path(index.records, index.groups[g].paths[k]));
        }
    }
    if index.coupled() {
        assert forall|g: int, k: int|
            0 <= g < index.groups.len() && 0 <= k < index.groups[g].paths.len() implies has_path(
            index.records,
            #[trigger] index.groups[g].paths[k],
        ) && index.record(index.groups[g].paths[k]).hash == index.groups[g].hash by {
            let hash = index.groups[g].hash;
            let path = index.groups[g].paths[k];
            lemma_hash_slot(index.groups, g);
            assert(index.by_hash().contains_key(hash));
            assert(index.by_hash()[hash].contains(path));
        }
    }
}

/// After a record is stored it is the record of its path, and every other
/// path keeps its record.
pub proof fn lemma_stored_record(records: Seq<RecordView>, record: RecordView, path: Seq<char>)
    requires
        distinct_paths(records),
    ensures
        distinct_paths(stored(records, record)),
        has_path(stored(records, record), path) <==> has_path(records, path) || path == record.path,
        path == record.path ==> stored(records, record)[path_slot(stored(records, record), path)]
            == record,
        path != record.path && has_path(records, path) ==> stored(records, record)[path_slot(
            stored(records, record),
            path,
        )] == records[path_slot(records, path)],
{
    let after = stored(records, record);
    if has_path(records, record.path) {
        let slot = path_slot(records, record.path);
        assert forall|i: int, j: int| 0 <= i < j < after.len() implies (#[trigger] after[i]).path != (
        #[trigger] after[j]).path by {
            assert(after[i].path == records[i].path);
            assert(after[j].path == records[j].path);
        }
        assert(after[slot].path == record.path);
        lemma_path_slot(after, slot);
        if has_path(records, path) {
            let i = path_slot(records, path);
            assert(after[i].path == path);
            lemma_path_slot(after, i);
        }
        if has_path(after, path) {
            let i = path_slot(after, path);
            assert(records[i].path == path);
        }
    } else {
        assert forall|i: int, j: int| 0 <= i < j < after.len() implies (#[trigger] after[i]).path != (
        #[trigger] after[j]).path by {
            if j == records.len() {
                assert(records[i].path == after[i].path);
            }
        }
        assert(after[records.len() as int].path == record.path);
        lemma_path_slot(after, records.len() as int);
        if has_path(records, path) {
            let i = path_slot(records, path);
            assert(after[i].path == path);
            lemma_path_slot(after, i);
        }
        if has_path(after, path) {
            let i = path_slot(after, path);
            if i < records.len() {
                assert(records[i].path == path);
            }
        }
    }
}

/// After a path is filed its hash has a group that ends with the path, and
/// every other hash keeps its group.
pub proof fn lemma_filed_group(
    groups: Seq<GroupView>,
    hash: Seq<u8>,
    path: Seq<char>,
    other: Seq<u8>,
)
    requires
        distinct_hashes(groups),
    ensures
        distinct_hashes(filed(groups, hash, path)),
        has_hash(filed(groups, hash, path), other) <==> has_hash(groups, other) || other == hash,
        other == hash ==> filed(groups, hash, path)[hash_slot(filed(groups, hash, path), other)].paths
            == (if has_hash(groups, hash) {
            groups[hash_slot(groups, hash)].paths
        } else {
            Seq::empty()
        }).push(path),
        other != hash && has_hash(groups, other) ==> filed(groups, hash, path)[hash_slot(
            filed(groups, hash, path),
            other,
        )] == groups[hash_slot(groups, other)],
{
    let after = filed(groups, hash, path);
    if has_hash(groups, hash) {
        let slot = hash_slot(groups, hash);
        assert forall|g: int, h: int| 0 <= g < h < after.len() implies (#[trigger] after[g]).hash != (
        #[trigger] after[h]).hash by {
            assert(after[g].hash == groups[g].hash);
            assert(after[h].hash == groups[h].hash);
        }
        assert(after[slot].hash == hash);
        lemma_hash_slot(after, slot);
        if has_hash(groups, other) {
            let g = hash_slot(groups, other);
            assert(after[g].hash == other);
            lemma_hash_slot(after, g);
        }
        if has_hash(after, other) {
            let g = hash_slot(after, other);
            assert(groups[g].hash == other);
        }
    } else {
        assert forall|g: int, h: int| 0 <= g < h < after.len() implies (#[trigger] after[g]).hash != (
        #[trigger] after[h]).hash by {
            if h == groups.len() {
                assert(groups[g].hash == after[g].hash);
            }
        }
        assert(after[groups.len() as int].hash == hash);
        lemma_hash_slot(after, groups.len() as int);
        assert(Seq::<Seq<char>>::empty().push(path) =~= seq![path]);
        if has_hash(groups, other) {
            let g = hash_slot(groups, other);
            assert(after[g].hash == other);
            lemma_hash_slot(after, g);
        }
        if has_hash(after, other) {
            let g = hash_slot(after, other);
            if g < groups.len() {
                assert(groups[g].hash == other);
            }
        }
    }
}

/// Inserting a record makes it the record of its path and changes the record
/// of no other path.
pub proof fn lemma_insert_by_path(index: IndexView, record: RecordView)
    requires
        index.valid(),
    ensures
        index.insert(record).by_path() == index.by_path().insert(record.path, record),
{
    let after = index.insert(record);
    assert forall|path: Seq<char>|
        after.by_path().contains_key(path) <==> index.by_path().insert(
            record.path,
            record,
        ).contains_key(path) by {
        lemma_stored_record(index.records, record, path);
    }
    assert forall|path: Seq<char>| #[trigger] after.by_path().contains_key(path) implies after.by_path()[path]
        == index.by_path().insert(record.path, record)[path] by {
        lemma_stored_record(index.records, record, path);
    }
    assert(after.by_path() =~= index.by_path().insert(record.path, record));
}

/// Filing a path appends it to the paths of its hash and changes the paths of
/// no other hash.
pub proof fn lemma_filed_by_hash(index: IndexView, hash: Seq<u8>, path: Seq<char>)
    requires
        index.valid(),
    ensures
        (IndexView { records: index.records, groups: filed(index.groups, hash, path) }).by_hash()
            == index.by_hash().insert(hash, index.paths_of(hash).push(path)),
{
    let after = IndexView { records: index.records, groups: filed(index.groups, hash, path) };
    let expected = index.by_hash().insert(hash, index.paths_of(hash).push(path));
    assert forall|other: Seq<u8>| after.by_hash().contains_key(other) <==> expected.contains_key(
        other,
    ) by {
        lemma_filed_group(index.groups, hash, path, other);
    }
    assert forall|other: Seq<u8>| #[trigger] after.by_hash().contains_key(other) implies after.by_hash()[other]
        == expected[other] by {
        lemma_filed_group(index.groups, hash, path, other);
    }
    assert(after.by_hash() =~= expected);
}

/// Inserting a record appends its path to the paths of its hash and changes
/// the paths of no other hash.
pub proof fn lemma_insert_by_hash(index: IndexView, record: RecordView)
    requires
        index.valid(),
    ensures
        index.insert(record).by_hash() == index.by_hash().insert(
            record.hash,
            index.paths_of(record.hash).push(record.path),
        ),
{
    lemma_filed_by_hash(index, record.hash, record.path);
    let filed_only = IndexView {
        records: index.records,
        groups: filed(index.groups, record.hash, record.path),
    };
    assert(index.insert(record).by_hash() =~= filed_only.by_hash());
}

/// Promoting a path leaves every record as it was and appends the path to
/// the paths of its record's hash.
pub proof fn lemma_promote_maps(index: IndexView, path: Seq<char>)
    requires
        index.valid(),
    ensures
        index.promote(path).by_path() == index.by_path(),
        index.promote(path).by_hash() == index.by_hash().insert(
            index.record(path).hash,
            index.paths_of(index.record(path).hash).push(path),
        ),
{
    lemma_filed_by_hash(index, index.record(path).hash, path);
    assert(index.promote(path).by_path() =~= index.by_path());
}

/// Filing a path keeps the hashes distinct; every group keeps its paths, and
/// the one of `hash` gains `path` at its end.
pub proof fn lemma_filed_groups(groups: Seq<GroupView>, hash: Seq<u8>, path: Seq<char>)
    requires
        distinct_hashes(groups),
    ensures
        distinct_hashes(filed(groups, hash, path)),
        filed(groups, hash, path).len() >= groups.len(),
        forall|g: int|
            0 <= g < groups.len() ==> (#[trigger] filed(groups, hash, path)[g]).hash
                == groups[g].hash,
        forall|g: int|
            0 <= g < groups.len() && groups[g].hash != hash ==> (#[trigger] filed(
                groups,
                hash,
                path,
            )[g]) == groups[g],
        has_hash(groups, hash) ==> filed(groups, hash, path).len() == groups.len() && filed(
            groups,
            hash,
            path,
        )[hash_slot(groups, hash)].paths == groups[hash_slot(groups, hash)].paths.push(path),
        !has_hash(groups, hash) ==> filed(groups, hash, path) == groups.push(
            GroupView { hash, paths: seq![path] },
        ),
{
    let after = filed(groups, hash, path);
    if has_hash(groups, hash) {
        let slot = hash_slot(groups, hash);
        assert forall|g: int, h: int| 0 <= g < h < after.len() implies (#[trigger] after[g]).hash != (
        #[trigger] after[h]).hash by {
            assert(after[g].hash == groups[g].hash);
            assert(after[h].hash == groups[h].hash);
        }
    } else {
        assert forall|g: int, h: int| 0 <= g < h < after.len() implies (#[trigger] after[g]).hash != (
        #[trigger] after[h]).hash by {
            if h == groups.len() {
                assert(groups[g].hash == after[g].hash);
            }
        }
    }
}

/// Adopting records keeps the paths distinct and every known path known.
pub proof fn lemma_merged_paths(records: Seq<RecordView>, incoming: Seq<RecordView>)
    requires
        distinct_paths(records),
    ensures
        distinct_paths(merged(records, incoming)),
        forall|path: Seq<char>| has_path(records, path) ==> has_path(merged(records, incoming), path),
    decreases incoming.len(),
{
    if incoming.len() > 0 {
        let front = merged(records, incoming.drop_last());
        let last = incoming.last();
        lemma_merged_paths(records, incoming.drop_last());
        let after = adopted(front, last);
        if !has_path(front, last.path) {
            assert forall|i: int, j: int| 0 <= i < j < after.len() implies (#[trigger] after[i]).path
                != (#[trigger] after[j]).path by {
                if j == front.len() {
                    assert(front[i].path == after[i].path);
                }
            }
            assert forall|path: Seq<char>| has_path(front, path) implies has_path(after, path) by {
                let i = path_slot(front, path);
                assert(after[i].path == path);
            }
        }
    }
}

/// Loading cached records into a valid index leaves a valid index.
pub proof fn lemma_load_valid(index: IndexView, incoming: Seq<RecordView>)
    requires
        index.valid(),
    ensures
        index.load(incoming).valid(),
{
    lemma_merged_paths(index.records, incoming);
}

/// Inserting a record into a valid index leaves a valid index.
pub proof fn lemma_insert_valid(index: IndexView, record: RecordView)
    requires
        index.valid(),
    ensures
        index.insert(record).valid(),
{
    let after = index.insert(record);
    lemma_filed_groups(index.groups, record.hash, record.path);
    lemma_stored_record(index.records, record, record.path);
    assert forall|g: int| 0 <= g < after.groups.len() implies (#[trigger] after.groups[g]).paths.len()
        > 0 by {
        if g < index.groups.len() && index.groups[g].hash != record.hash {
            assert(after.groups[g] == index.groups[g]);
        }
    }
    assert forall|g: int, k: int|
        0 <= g < after.groups.len() && 0 <= k < after.groups[g].paths.len() implies has_path(
        after.records,
        #[trigger] after.groups[g].paths[k],
    ) by {
        let path = after.groups[g].paths[k];
        lemma_stored_record(index.records, record, path);
        if g < index.groups.len() && index.groups[g].hash != record.hash {
            assert(after.groups[g] == index.groups[g]);
            assert(has_path(index.records, index.groups[g].paths[k]));
        } else if g < index.groups.len() {
            lemma_hash_slot(index.groups, g);
            if k < index.groups[g].paths.len() {
                assert(has_path(index.records, index.groups[g].paths[k]));
            }
        }
    }
}

/// Promoting a path that has a record leaves a valid index.
pub proof fn lemma_promote_valid(index: IndexView, path: Seq<char>)
    requires
        index.valid(),
        has_path(index.records, path),
    ensures
        index.promote(path).valid(),
{
    let after = index.promote(path);
    let hash = index.record(path).hash;
    lemma_filed_groups(index.groups, hash, path);
    assert forall|g: int| 0 <= g < after.groups.len() implies (#[trigger] after.groups[g]).paths.len()
        > 0 by {
        if g < index.groups.len() && index.groups[g].hash != hash {
            assert(after.groups[g] == index.groups[g]);
        }
    }
    assert forall|g: int, k: int|
        0 <= g < after.groups.len() && 0 <= k < after.groups[g].paths.len() implies has_path(
        after.records,
        #[trigger] after.groups[g].paths[k],
    ) by {
        if g < index.groups.len() && index.groups[g].hash != hash {
            assert(after.groups[g] == index.groups[g]);
            assert(has_path(index.records, index.groups[g].paths[k]));
        } else if g < index.groups.len() {
            lemma_hash_slot(index.groups, g);
            if k < index.groups[g].paths.len() {
                assert(has_path(index.records, index.groups[g].paths[k]));
            }
        }
    }
}


/// The empty index is consistent.
pub proof fn lemma_empty_coupled()
    ensures
        IndexView::empty().valid(),
        IndexView::empty().coupled(),
{
    lemma_coupled_groups(IndexView::empty());
}

/// Inserting a record keeps the mappings consistent, provided that the
/// record's path is not filed under another hash: a path that is written
/// once in a run never is.
pub proof fn lemma_insert_keeps_coupling(index: IndexView, record: RecordView)
    requires
        index.valid(),
        index.coupled(),
        forall|hash: Seq<u8>|
            hash != record.hash && index.by_hash().contains_key(hash) ==> !(#[trigger] index.by_hash()[hash]).contains(
                record.path,
            ),
    ensures
        index.insert(record).valid(),
        index.insert(record).coupled(),
{
    let after = index.insert(record);
    lemma_insert_valid(index, record);
    lemma_coupled_groups(index);
    lemma_filed_groups(index.groups, record.hash, record.path);
    assert forall|g: int, k: int|
        0 <= g < after.groups.len() && 0 <= k < after.groups[g].paths.len() implies has_path(
        after.records,
        #[trigger] after.groups[g].paths[k],
    ) && after.record(after.groups[g].paths[k]).hash == after.groups[g].hash by {
        let path = after.groups[g].paths[k];
        lemma_stored_record(index.records, record, path);
        if g < index.groups.len() && index.groups[g].hash != record.hash {
            assert(after.groups[g] == index.groups[g]);
            assert(has_path(index.records, index.groups[g].paths[k]));
            lemma_hash_slot(index.groups, g);
            assert(index.by_hash().contains_key(index.groups[g].hash));
            assert(index.by_hash()[index.groups[g].hash].contains(path));
        } else if g < index.groups.len() {
            lemma_hash_slot(index.groups, g);
            if k < index.groups[g].paths.len() {
                assert(has_path(index.records, index.groups[g].paths[k]));
            }
        }
    }
    lemma_coupled_groups(after);
}

/// An attempt to reuse a record keeps the mappings consistent.
pub proof fn lemma_reuse_keeps_coupling(
    index: IndexView,
    path: Seq<char>,
    modified: Option<crate::hashedfile::Timestamp>,
)
    requires
        index.valid(),
        index.coupled(),
    ensures
        index.try_reuse(path, modified).valid(),
        index.try_reuse(path, modified).coupled(),
{
    if index.reusable(path, modified) {
        let after = index.promote(path);
        let hash = index.record(path).hash;
        lemma_promote_valid(index, path);
        lemma_coupled_groups(index);
        lemma_filed_groups(index.groups, hash, path);
        assert forall|g: int, k: int|
            0 <= g < after.groups.len() && 0 <= k < after.groups[g].paths.len() implies has_path(
            after.records,
            #[trigger] after.groups[g].paths[k],
        ) && after.record(after.groups[g].paths[k]).hash == after.groups[g].hash by {
            if g < index.groups.len() && index.groups[g].hash != hash {
                assert(after.groups[g] == index.groups[g]);
                assert(has_path(index.records, index.groups[g].paths[k]));
            } else if g < index.groups.len() {
                lemma_hash_slot(index.groups, g);
                if k < index.groups[g].paths.len() {
                    assert(has_path(index.records, index.groups[g].paths[k]));
                }
            }
        }
        lemma_coupled_groups(after);
    }
}

/// Loading cached records changes the record of no path that was known.
pub proof fn lemma_merged_record(
    records: Seq<RecordView>,
    incoming: Seq<RecordView>,
    path: Seq<char>,
)
    requires
        distinct_paths(records),
        has_path(records, path),
    ensures
        has_path(merged(records, incoming), path),
        merged(records, incoming)[path_slot(merged(records, incoming), path)] == records[path_slot(
            records,
            path,
        )],
    decreases incoming.len(),
{
    if incoming.len() > 0 {
        let front = merged(records, incoming.drop_last());
        let after = adopted(front, incoming.last());
        lemma_merged_record(records, incoming.drop_last(), path);
        lemma_merged_paths(records, incoming.drop_last());
        lemma_merged_paths(records, incoming);
        let i = path_slot(front, path);
        assert(after[i].path == path);
        lemma_path_slot(after, i);
    }
}

/// Loading cached records keeps the mappings consistent.
pub proof fn lemma_load_keeps_coupling(index: IndexView, incoming: Seq<RecordView>)
    requires
        index.valid(),
        index.coupled(),
    ensures
        index.load(incoming).valid(),
        index.load(incoming).coupled(),
{
    let after = index.load(incoming);
    lemma_load_valid(index, incoming);
    lemma_coupled_groups(index);
    assert forall|g: int, k: int|
        0 <= g < after.groups.len() && 0 <= k < after.groups[g].paths.len() implies has_path(
        after.records,
        #[trigger] after.groups[g].paths[k],
    ) && after.record(after.groups[g].paths[k]).hash == after.groups[g].hash by {
        assert(has_path(index.records, index.groups[g].paths[k]));
        lemma_merged_record(index.records, incoming, index.groups[g].paths[k]);
    }
    lemma_coupled_groups(after);
}

/// Every candidate is the summary of a reported group.
pub proof fn lemma_candidate_origin(
    index: IndexView,
    groups: Seq<GroupView>,
    minsize: u64,
    k: int,
)
    requires
        0 <= k < index.candidates_among(groups, minsize).len(),
    ensures
        exists|g: int|
            0 <= g < groups.len() && index.reported(#[trigger] groups[g], minsize)
                && index.candidates_among(groups, minsize)[k] == index.summary(groups[g]),
    decreases groups.len(),
{
    if groups.len() == 0 {
        assert(groups =~= Seq::empty());
        reveal_with_fuel(Seq::filter, 1);
        assert(index.candidates_among(groups, minsize) =~= Seq::<DuplicatesView>::empty());
    } else {
        let front = groups.drop_last();
        let last = groups.last();
        assert(groups =~= front.push(last));
        lemma_candidates_push(index, front, last, minsize);
        if k < index.candidates_among(front, minsize).len() {
            lemma_candidate_origin(index, front, minsize, k);
            let g = choose|g: int|
                0 <= g < front.len() && index.reported(#[trigger] front[g], minsize)
                    && index.candidates_among(front, minsize)[k] == index.summary(front[g]);
            assert(groups[g] == front[g]);
        } else {
            assert(groups[groups.len() - 1] == last);
        }
    }
}

/// Every reported group has its summary among the candidates.
pub proof fn lemma_candidate_present(
    index: IndexView,
    groups: Seq<GroupView>,
    minsize: u64,
    g: int,
)
    requires
        0 <= g < groups.len(),
        index.reported(groups[g], minsize),
    ensures
        index.candidates_among(groups, minsize).contains(index.summary(groups[g])),
    decreases groups.len(),
{
    let front = groups.drop_last();
    let last = groups.last();
    assert(groups =~= front.push(last));
    lemma_candidates_push(index, front, last, minsize);
    let all = index.candidates_among(groups, minsize);
    if g < front.len() {
        lemma_candidate_present(index, front, minsize, g);
        let before = index.candidates_among(front, minsize);
        let k = choose|k: int| 0 <= k < before.len() && before[k] == index.summary(front[g]);
        assert(all[k] == before[k]);
    } else {
        assert(all[all.len() - 1] == index.summary(last));
    }
}

proof fn lemma_candidates_larger(index: IndexView, groups: Seq<GroupView>, minsize: u64)
    ensures
        index.candidates_among(groups, minsize) == larger_than(
            index.candidates_among(groups, 0),
            minsize,
        ),
    decreases groups.len(),
{
    if groups.len() == 0 {
        assert(groups =~= Seq::empty());
        reveal_with_fuel(Seq::filter, 1);
        assert(index.candidates_among(groups, minsize) =~= Seq::<DuplicatesView>::empty());
        assert(index.candidates_among(groups, 0) =~= Seq::<DuplicatesView>::empty());
        assert(larger_than(Seq::empty(), minsize) =~= Seq::<DuplicatesView>::empty());
    } else {
        let front = groups.drop_last();
        let last = groups.last();
        assert(groups =~= front.push(last));
        lemma_candidates_larger(index, front, minsize);
        lemma_candidates_push(index, front, last, minsize);
        lemma_candidates_push(index, front, last, 0);
        if index.reported(last, 0) {
            lemma_larger_push(index.candidates_among(front, 0), index.summary(last), minsize);
        }
    }
}

/// The report for a minimum size is the report without one, less the groups
/// that are not larger than the minimum: no other group leaves, none is
/// added, and the order stays.
pub proof fn lemma_minsize_filter(index: IndexView, minsize: u64)
    ensures
        index.duplicates(minsize) == larger_than(index.duplicates(0), minsize),
{
    lemma_candidates_larger(index, index.groups, minsize);
    lemma_ranked_larger(index.candidates(0), minsize);
}

/// Every group of a report has at least two paths, is larger than the
/// minimum size, and is the summary of a group of the index.
pub proof fn lemma_reported_groups(index: IndexView, minsize: u64, k: int)
    requires
        0 <= k < index.duplicates(minsize).len(),
    ensures
        index.duplicates(minsize)[k].size > minsize,
        index.duplicates(minsize)[k].paths.len() >= 2,
        exists|g: int|
            0 <= g < index.groups.len() && index.reported(#[trigger] index.groups[g], minsize)
                && index.duplicates(minsize)[k] == index.summary(index.groups[g]),
{
    broadcast use vstd::seq_lib::group_to_multiset_ensures;

    let report = index.duplicates(minsize);
    let candidates = index.candidates(minsize);
    lemma_ranked_permutes(candidates);
    assert(report.to_multiset().contains(report[k]));
    assert(candidates.contains(report[k]));
    let c = choose|c: int| 0 <= c < candidates.len() && candidates[c] == report[k];
    lemma_candidate_origin(index, index.groups, minsize, c);
}

/// Every group of the index that is to be reported is in the report.
pub proof fn lemma_report_complete(index: IndexView, minsize: u64, g: int)
    requires
        0 <= g < index.groups.len(),
        index.reported(index.groups[g], minsize),
    ensures
        index.duplicates(minsize).contains(index.summary(index.groups[g])),
{
    broadcast use vstd::seq_lib::group_to_multiset_ensures;

    let candidates = index.candidates(minsize);
    lemma_candidate_present(index, index.groups, minsize, g);
    lemma_ranked_permutes(candidates);
    assert(candidates.to_multiset().contains(index.summary(index.groups[g])));
}

/// Loading records into an index that knows none of their paths keeps them
/// all, in their order.
pub proof fn lemma_load_into_empty(records: Seq<RecordView>)
    requires
        distinct_paths(records),
    ensures
        merged(Seq::empty(), records) == records,
    decreases records.len(),
{
    if records.len() > 0 {
        let front = records.drop_last();
        assert forall|i: int, j: int| 0 <= i < j < front.len() implies (#[trigger] front[i]).path != (
        #[trigger] front[j]).path by {
            assert(front[i] == records[i] && front[j] == records[j]);
        }
        lemma_load_into_empty(front);
        if has_path(front, records.last().path) {
            let i = path_slot(front, records.last().path);
            assert(records[i].path == records[records.len() - 1].path);
        }
        assert(front.push(records.last()) =~= records);
    } else {
        assert(records =~= Seq::empty());
    }
}

/// A cache that is written and read back gives every path the record it
/// had: the blob of an index holds exactly its records, and loaded into an
/// empty index they make the same mapping from paths to records.
pub proof fn lemma_saved_cache_restores(index: IndexView)
    requires
        index.valid(),
        all_storable(index.records),
    ensures
        cached_records(cache_bytes(index.records)) == Some(index.records),
        IndexView::empty().load(index.records).records == index.records,
        IndexView::empty().load(index.records).by_path() == index.by_path(),
{
    lemma_cache_round_trip(index.records);
    lemma_load_into_empty(index.records);
    assert(IndexView::empty().load(index.records).by_path() =~= index.by_path());
}

/// A record that is loaded under a path not known before is the record of
/// that path afterwards.
pub proof fn lemma_load_adds(
    index: IndexView,
    incoming: Seq<RecordView>,
    i: int,
)
    requires
        distinct_paths(index.records),
        distinct_paths(incoming),
        0 <= i < incoming.len(),
        !has_path(index.records, incoming[i].path),
    ensures
        has_path(index.load(incoming).records, incoming[i].path),
        index.load(incoming).record(incoming[i].path) == incoming[i],
    decreases incoming.len(),
{
    let front = incoming.drop_last();
    let last = incoming.last();
    let before = merged(index.records, front);
    let after = adopted(before, last);
    assert forall|a: int, b: int| 0 <= a < b < front.len() implies (#[trigger] front[a]).path != (
    #[trigger] front[b]).path by {
        assert(front[a] == incoming[a] && front[b] == incoming[b]);
    }
    lemma_merged_paths(index.records, front);
    lemma_merged_paths(index.records, incoming);
    if i < front.len() {
        lemma_load_adds(index, front, i);
        let slot = path_slot(before, incoming[i].path);
        assert(after[slot].path == incoming[i].path);
        lemma_path_slot(after, slot);
    } else {
        if has_path(before, last.path) {
            lemma_merged_origin(index.records, front, last.path);
            let k = choose|k: int| 0 <= k < front.len() && (#[trigger] front[k]).path == last.path;
            assert(incoming[k].path == incoming[incoming.len() - 1].path);
        }
        assert(after[before.len() as int].path == last.path);
        lemma_path_slot(after, before.len() as int);
    }
}

/// A path is known after a load only if it was known before or came with
/// the load.
pub proof fn lemma_merged_origin(records: Seq<RecordView>, incoming: Seq<RecordView>, path: Seq<char>)
    requires
        has_path(merged(records, incoming), path),
    ensures
        has_path(records, path) || exists|k: int|
            0 <= k < incoming.len() && (#[trigger] incoming[k]).path == path,
    decreases incoming.len(),
{
    if incoming.len() > 0 {
        let front = incoming.drop_last();
        let before = merged(records, front);
        let after = adopted(before, incoming.last());
        let slot = path_slot(after, path);
        if slot < before.len() {
            assert(before[slot].path == path);
            lemma_merged_origin(records, front, path);
            if !has_path(records, path) {
                let k = choose|k: int| 0 <= k < front.len() && (#[trigger] front[k]).path == path;
                assert(incoming[k].path == path);
            }
        } else {
            assert(incoming[incoming.len() - 1].path == path);
        }
    }
}

} // verus!
