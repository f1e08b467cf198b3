//! What holds of whole runs of the engine over a directory tree.

use vstd::prelude::*;
use crate::digest::sha512_digest;
use crate::hashedfile::{record_of, RecordView};
use crate::laws::{
    lemma_coupled_groups, lemma_empty_coupled, lemma_filed_groups, lemma_insert_keeps_coupling,
    lemma_load_into_empty, lemma_report_complete, lemma_reported_groups,
    lemma_reuse_keeps_coupling,
};
use crate::model::{
    distinct_hashes, distinct_paths, filed, has_hash, has_path, hash_slot, lemma_hash_slot,
    lemma_path_slot, path_slot, FileView, GroupView, IndexView,
};

verus! {

/// The scan meets every path once.
pub open spec fn each_once(files: Seq<FileView>) -> bool {
    forall|i: int, j: int|
        0 <= i < j < files.len() ==> (#[trigger] files[i]).path != (#[trigger] files[j]).path
}

/// Every file can be read.
pub open spec fn all_readable(files: Seq<FileView>) -> bool {
    forall|i: int| 0 <= i < files.len() ==> (#[trigger] files[i]).content is Some
}

/// The record that hashing a readable file gives.
pub open spec fn record_for(file: FileView) -> RecordView {
    record_of(file.path, file.modified, file.content.unwrap())
}

/// The records of the files, in their order.
pub open spec fn records_for(files: Seq<FileView>) -> Seq<RecordView> {
    files.map_values(|file: FileView| record_for(file))
}

/// The groups that come of filing every file under its hash, in their order.
pub open spec fn groups_for(files: Seq<FileView>) -> Seq<GroupView>
    decreases files.len(),
{
    if files.len() == 0 {
        Seq::empty()
    } else {
        filed(groups_for(files.drop_last()), record_for(files.last()).hash, files.last().path)
    }
}

/// Whether `path` stands in the group of `hash`.
pub open spec fn filed_under(groups: Seq<GroupView>, hash: Seq<u8>, path: Seq<char>) -> bool {
    exists|g: int|
        0 <= g < groups.len() && (#[trigger] groups[g]).hash == hash && groups[g].paths.contains(
            path,
        )
}

proof fn lemma_front(files: Seq<FileView>)
    requires
        files.len() > 0,
        each_once(files),
        all_readable(files),
    ensures
        each_once(files.drop_last()),
        all_readable(files.drop_last()),
        records_for(files) == records_for(files.drop_last()).push(record_for(files.last())),
        !has_path(records_for(files.drop_last()), files.last().path),
        distinct_paths(records_for(files)),
{
    let front = files.drop_last();
    assert forall|i: int, j: int| 0 <= i < j < front.len() implies (#[trigger] front[i]).path != (
    #[trigger] front[j]).path by {
        assert(front[i] == files[i] && front[j] == files[j]);
    }
    assert forall|i: int| 0 <= i < front.len() implies (#[trigger] front[i]).content is Some by {
        assert(front[i] == files[i]);
    }
    assert(records_for(files) =~= records_for(front).push(record_for(files.last())));
    if has_path(records_for(front), files.last().path) {
        let i = path_slot(records_for(front), files.last().path);
        assert(files[i].path == files[files.len() - 1].path);
    }
    assert forall|i: int, j: int| 0 <= i < j < files.len() implies (#[trigger] records_for(
        files,
    )[i]).path != (#[trigger] records_for(files)[j]).path by {
        assert(files[i].path != files[j].path);
    }
}

/// A first run, from an empty index over a tree whose files can all be read:
/// every file is hashed, the index keeps the record of each and has filed
/// each path under its hash, and the mappings are consistent.
pub proof fn lemma_first_run(files: Seq<FileView>)
    requires
        each_once(files),
        all_readable(files),
    ensures
        IndexView::empty().scan(files).records == records_for(files),
        IndexView::empty().scan(files).groups == groups_for(files),
        IndexView::empty().scan(files).valid(),
        IndexView::empty().scan(files).coupled(),
        forall|i: int|
            0 <= i < files.len() ==> filed_under(
                groups_for(files),
                record_for(#[trigger] files[i]).hash,
                files[i].path,
            ),
    decreases files.len(),
{
    lemma_empty_coupled();
    if files.len() == 0 {
        assert(records_for(files) =~= Seq::empty());
    } else {
        let front = files.drop_last();
        let last = files.last();
        let record = record_for(last);
        let before = IndexView::empty().scan(front);
        let after = before.insert(record);
        lemma_front(files);
        lemma_first_run(front);
        assert(!before.reusable(last.path, last.modified));
        assert(IndexView::empty().scan(files) == after);
        assert forall|hash: Seq<u8>|
            hash != record.hash && before.by_hash().contains_key(hash) implies !(
        #[trigger] before.by_hash()[hash]).contains(record.path) by {
            if before.by_hash()[hash].contains(record.path) {
                assert(before.by_path().contains_key(record.path));
            }
        }
        lemma_insert_keeps_coupling(before, record);
        lemma_filed_groups(before.groups, record.hash, record.path);
        assert forall|i: int| 0 <= i < files.len() implies filed_under(
            groups_for(files),
            record_for(#[trigger] files[i]).hash,
            files[i].path,
        ) by {
            let hash = record_for(files[i]).hash;
            let path = files[i].path;
            if i < front.len() {
                assert(front[i] == files[i]);
                assert(filed_under(groups_for(front), record_for(front[i]).hash, front[i].path));
                let g = choose|g: int|
                    0 <= g < before.groups.len() && (#[trigger] before.groups[g]).hash == hash
                        && before.groups[g].paths.contains(path);
                let k = choose|k: int|
                    0 <= k < before.groups[g].paths.len() && before.groups[g].paths[k] == path;
                if hash == record.hash {
                    lemma_hash_slot(before.groups, g);
                    assert(after.groups[g].paths[k] == path);
                } else {
                    assert(after.groups[g] == before.groups[g]);
                }
                assert(after.groups[g].hash == hash && after.groups[g].paths.contains(path));
            } else {
                if has_hash(before.groups, hash) {
                    let g = hash_slot(before.groups, hash);
                    let n = before.groups[g].paths.len() as int;
                    assert(after.groups[g].paths[n] == path);
                    assert(after.groups[g].hash == hash && after.groups[g].paths.contains(path));
                } else {
                    let g = before.groups.len() as int;
                    assert(after.groups[g].paths[0] == path);
                    assert(after.groups[g].hash == hash && after.groups[g].paths.contains(path));
                }
            }
        }
    }
}

proof fn lemma_second_visit(kept: Seq<RecordView>, groups: Seq<GroupView>, file: FileView, k: int)
    requires
        distinct_paths(kept),
        file.content is Some ==> 0 <= k < kept.len() && kept[k] == record_for(file),
        file.content is None ==> !has_path(kept, file.path),
    ensures
        (IndexView { records: kept, groups }).visit(file) == (IndexView {
            records: kept,
            groups: if file.content is Some {
                filed(groups, record_for(file).hash, file.path)
            } else {
                groups
            },
        }),
        file.content is Some && file.modified is Some ==> (IndexView {
            records: kept,
            groups,
        }).reusable(file.path, file.modified),
{
    let before = IndexView { records: kept, groups };
    if file.content is Some {
        lemma_path_slot(kept, k);
        assert(before.record(file.path) == record_for(file));
        if file.modified is None {
            assert(kept.update(k, record_for(file)) =~= kept);
        }
    }
}

proof fn lemma_second_run_prefix(files: Seq<FileView>, n: int)
    requires
        each_once(files),
        0 <= n <= files.len(),
    ensures
        (IndexView { records: records_for(readable(files)), groups: Seq::empty() }).scan(
            files.take(n),
        ) == (IndexView {
            records: records_for(readable(files)),
            groups: groups_for(readable(files.take(n))),
        }),
    decreases n,
{
    let read = readable(files);
    let kept = records_for(read);
    let cache = IndexView { records: kept, groups: Seq::empty() };
    if n > 0 {
        lemma_second_run_prefix(files, n - 1);
        let file = files[n - 1];
        let front = files.take(n - 1);
        let before = cache.scan(front);
        assert(files.take(n).drop_last() =~= front);
        assert(files.take(n).last() == file);
        assert(files.take(n) =~= front.push(file));
        assert(cache.scan(files.take(n)) == before.visit(file));
        front.lemma_filter_push(file, |file: FileView| file.content is Some);
        lemma_kept(files, n - 1);
        let k = if file.content is Some {
            choose|k: int| 0 <= k < kept.len() && kept[k] == record_for(file)
        } else {
            0
        };
        lemma_second_visit(kept, before.groups, file, k);
        if file.content is Some {
            assert(readable(files.take(n)).drop_last() =~= readable(front));
        }
    } else {
        assert(files.take(0) =~= Seq::<FileView>::empty());
        assert(readable(files.take(0)) =~= Seq::<FileView>::empty()) by {
            reveal_with_fuel(Seq::filter, 1);
        }
    }
}

/// The records of the readable files hold the record of each readable file,
/// at most one for each path, and none for a file that cannot be read.
proof fn lemma_kept(files: Seq<FileView>, m: int)
    requires
        each_once(files),
        0 <= m < files.len(),
    ensures
        distinct_paths(records_for(readable(files))),
        files[m].content is Some ==> exists|k: int|
            0 <= k < records_for(readable(files)).len() && #[trigger] records_for(
                readable(files),
            )[k] == record_for(files[m]),
        files[m].content is None ==> !has_path(records_for(readable(files)), files[m].path),
{
    let read = readable(files);
    let kept = records_for(read);
    lemma_readable(files);
    if read.len() > 0 {
        lemma_front(read);
    }
    if files[m].content is Some {
        let k = choose|k: int| 0 <= k < read.len() && read[k] == files[m];
        assert(kept[k] == record_for(files[m]));
    } else if has_path(kept, files[m].path) {
        let k = path_slot(kept, files[m].path);
        assert(read[k].path == files[m].path);
        let o = choose|o: int| 0 <= o < files.len() && files[o] == read[k];
        if o < m {
            assert(files[o].path != files[m].path);
        } else if m < o {
            assert(files[m].path != files[o].path);
        }
    }
}

/// Idempotence. Where a first run started with no cache, a second run over
/// the same tree, started from the cache that the first one left, leaves the
/// index that the first run left, and so reports the same duplicates. It
/// hashes no file that can be read and has a modification time: the record
/// of every such file is reused.
pub proof fn lemma_second_run_reuses(files: Seq<FileView>)
    requires
        each_once(files),
    ensures
        ({
            let first = IndexView::empty().scan(files);
            let cache = IndexView::empty().load(first.records);
            &&& cache.scan(files) == first
            &&& forall|minsize: u64| #[trigger]
                cache.scan(files).duplicates(minsize) == first.duplicates(minsize)
            &&& forall|n: int|
                0 <= n < files.len() && files[n].content is Some && files[n].modified is Some ==> (
                #[trigger] cache.scan(files.take(n))).reusable(files[n].path, files[n].modified)
        }),
{
    let read = readable(files);
    let first = IndexView::empty().scan(files);
    let cache = IndexView::empty().load(first.records);
    lemma_readable(files);
    lemma_unreadable_skipped(files);
    lemma_first_run(read);
    lemma_load_into_empty(first.records);
    assert(cache == (IndexView { records: records_for(read), groups: Seq::empty() }));
    lemma_second_run_prefix(files, files.len() as int);
    assert(files.take(files.len() as int) =~= files);
    assert forall|n: int|
        0 <= n < files.len() && files[n].content is Some && files[n].modified is Some implies (
    #[trigger] cache.scan(files.take(n))).reusable(files[n].path, files[n].modified) by {
        lemma_second_run_prefix(files, n);
        lemma_kept(files, n);
        let kept = records_for(read);
        let k = choose|k: int| 0 <= k < kept.len() && kept[k] == record_for(files[n]);
        lemma_second_visit(kept, groups_for(readable(files.take(n))), files[n], k);
    }
}

proof fn lemma_grouping_readable(files: Seq<FileView>, i: int, j: int)
    requires
        each_once(files),
        all_readable(files),
        0 <= i < files.len(),
        0 <= j < files.len(),
        i != j,
    ensures
        ({
            let index = IndexView::empty().scan(files);
            &&& files[i].content == files[j].content ==> exists|g: int|
                {
                    &&& 0 <= g < index.groups.len()
                    &&& (#[trigger] index.groups[g]).paths.contains(files[i].path)
                    &&& index.groups[g].paths.contains(files[j].path)
                    &&& index.groups[g].hash == sha512_digest(files[i].content.unwrap())
                    &&& index.representative(index.groups[g]).size > 0
                        ==> index.duplicates(0).contains(index.summary(index.groups[g]))
                }
            &&& forall|g: int|
                0 <= g < index.groups.len() && (#[trigger] index.groups[g]).paths.contains(
                    files[i].path,
                ) && index.groups[g].paths.contains(files[j].path) ==> sha512_digest(
                    files[i].content.unwrap(),
                ) == sha512_digest(files[j].content.unwrap())
            &&& forall|minsize: u64, k: int|
                0 <= k < index.duplicates(minsize).len() && (#[trigger] index.duplicates(
                    minsize,
                )[k]).paths.contains(files[i].path) && index.duplicates(minsize)[k].paths.contains(
                    files[j].path,
                ) ==> sha512_digest(files[i].content.unwrap()) == sha512_digest(
                    files[j].content.unwrap(),
                )
        }),
{
    let index = IndexView::empty().scan(files);
    lemma_first_run(files);
    lemma_coupled_groups(index);
    if files.len() > 0 {
        lemma_front(files);
    }
    lemma_path_slot(index.records, i);
    lemma_path_slot(index.records, j);
    assert(index.record(files[i].path) == record_for(files[i]));
    assert(index.record(files[j].path) == record_for(files[j]));
    if files[i].content == files[j].content {
        let hash = record_for(files[i]).hash;
        assert(filed_under(index.groups, record_for(files[i]).hash, files[i].path));
        assert(filed_under(index.groups, record_for(files[j]).hash, files[j].path));
        let g = choose|g: int|
            0 <= g < index.groups.len() && (#[trigger] index.groups[g]).hash == hash
                && index.groups[g].paths.contains(files[i].path);
        let h = choose|h: int|
            0 <= h < index.groups.len() && (#[trigger] index.groups[h]).hash == hash
                && index.groups[h].paths.contains(files[j].path);
        lemma_hash_slot(index.groups, g);
        lemma_hash_slot(index.groups, h);
        assert(g == h);
        let paths = index.groups[g].paths;
        let a = choose|a: int| 0 <= a < paths.len() && paths[a] == files[i].path;
        let b = choose|b: int| 0 <= b < paths.len() && paths[b] == files[j].path;
        assert(files[i].path != files[j].path);
        assert(a != b);
        assert(paths.len() >= 2);
        if index.representative(index.groups[g]).size > 0 {
            lemma_report_complete(index, 0, g);
        }
    }
    assert forall|g: int|
        0 <= g < index.groups.len() && (#[trigger] index.groups[g]).paths.contains(files[i].path)
            && index.groups[g].paths.contains(files[j].path) implies sha512_digest(
        files[i].content.unwrap(),
    ) == sha512_digest(files[j].content.unwrap()) by {
        let paths = index.groups[g].paths;
        let a = choose|a: int| 0 <= a < paths.len() && paths[a] == files[i].path;
        let b = choose|b: int| 0 <= b < paths.len() && paths[b] == files[j].path;
        assert(index.record(index.groups[g].paths[a]).hash == index.groups[g].hash);
        assert(index.record(index.groups[g].paths[b]).hash == index.groups[g].hash);
    }
    assert forall|minsize: u64, k: int|
        0 <= k < index.duplicates(minsize).len() && (#[trigger] index.duplicates(
            minsize,
        )[k]).paths.contains(files[i].path) && index.duplicates(minsize)[k].paths.contains(
            files[j].path,
        ) implies sha512_digest(files[i].content.unwrap()) == sha512_digest(
        files[j].content.unwrap(),
    ) by {
        lemma_reported_groups(index, minsize, k);
        let g = choose|g: int|
            0 <= g < index.groups.len() && index.reported(#[trigger] index.groups[g], minsize)
                && index.duplicates(minsize)[k] == index.summary(index.groups[g]);
        assert(index.groups[g].paths.contains(files[i].path));
    }
}

/// Whether `path` stands in some group of the index.
pub open spec fn filed_somewhere(index: IndexView, path: Seq<char>) -> bool {
    exists|g: int|
        0 <= g < index.groups.len() && (#[trigger] index.groups[g]).paths.contains(path)
}

proof fn lemma_filed_one_more(groups: Seq<GroupView>, hash: Seq<u8>, path: Seq<char>, other: Seq<char>)
    requires
        distinct_hashes(groups),
        exists|g: int|
            0 <= g < filed(groups, hash, path).len() && (#[trigger] filed(
                groups,
                hash,
                path,
            )[g]).paths.contains(other),
        other != path,
    ensures
        exists|g: int| 0 <= g < groups.len() && (#[trigger] groups[g]).paths.contains(other),
{
    let after = filed(groups, hash, path);
    let g = choose|g: int| 0 <= g < after.len() && (#[trigger] after[g]).paths.contains(other);
    let k = choose|k: int| 0 <= k < after[g].paths.len() && after[g].paths[k] == other;
    lemma_filed_groups(groups, hash, path);
    if has_hash(groups, hash) {
        let h = hash_slot(groups, hash);
        if g == h {
            assert(groups[g].paths[k] == other);
        } else {
            assert(after[g] == groups[g]);
        }
    } else {
        assert(g < groups.len());
        assert(after[g] == groups[g]);
    }
    assert(groups[g].paths.contains(other));
}

/// No group holds a path twice.
pub open spec fn filed_once(index: IndexView) -> bool {
    forall|g: int, a: int, b: int|
        0 <= g < index.groups.len() && 0 <= a < b < index.groups[g].paths.len()
            ==> #[trigger] index.groups[g].paths[a] != #[trigger] index.groups[g].paths[b]
}

/// The invariant of the index over a run. From an index whose mappings are
/// consistent, a scan that meets every path once, and none that is filed
/// already, leaves the mappings consistent: for every hash and every path
/// filed under it, the record of the path carries that hash. Only the paths
/// of the scan are filed, and none of them twice: the paths of a group are
/// distinct.
pub proof fn lemma_scan_keeps_coupling(index: IndexView, files: Seq<FileView>)
    requires
        index.valid(),
        index.coupled(),
        each_once(files),
        forall|i: int| 0 <= i < files.len() ==> !filed_somewhere(index, (#[trigger] files[i]).path),
    ensures
        index.scan(files).valid(),
        index.scan(files).coupled(),
        forall|path: Seq<char>| #[trigger]
            filed_somewhere(index.scan(files), path) ==> filed_somewhere(index, path) || exists|
                i: int,
            | 0 <= i < files.len() && (#[trigger] files[i]).path == path,
        filed_once(index) ==> filed_once(index.scan(files)),
    decreases files.len(),
{
    if files.len() > 0 {
        let front = files.drop_last();
        let last = files.last();
        let before = index.scan(front);
        let after = before.visit(last);
        assert forall|i: int, j: int| 0 <= i < j < front.len() implies (#[trigger] front[i]).path
            != (#[trigger] front[j]).path by {
            assert(front[i] == files[i] && front[j] == files[j]);
        }
        assert forall|i: int| 0 <= i < front.len() implies !filed_somewhere(
            index,
            (#[trigger] front[i]).path,
        ) by {
            assert(front[i] == files[i]);
        }
        lemma_scan_keeps_coupling(index, front);
        if filed_somewhere(before, last.path) {
            assert(files[files.len() - 1] == last);
            let i = choose|i: int| 0 <= i < front.len() && (#[trigger] front[i]).path == last.path;
            assert(files[i].path != files[files.len() - 1].path);
        }
        if before.reusable(last.path, last.modified) {
            lemma_reuse_keeps_coupling(before, last.path, last.modified);
        } else if last.content is Some {
            let record = record_for(last);
            assert forall|hash: Seq<u8>|
                hash != record.hash && before.by_hash().contains_key(hash) implies !(
            #[trigger] before.by_hash()[hash]).contains(record.path) by {
                if before.by_hash()[hash].contains(record.path) {
                    assert(before.groups[hash_slot(before.groups, hash)].paths.contains(record.path));
                }
            }
            lemma_insert_keeps_coupling(before, record);
        }
        assert forall|path: Seq<char>| #[trigger]
            filed_somewhere(after, path) implies filed_somewhere(index, path) || exists|i: int|
            0 <= i < files.len() && (#[trigger] files[i]).path == path by {
            if path == last.path {
                assert(files[files.len() - 1].path == path);
            } else {
                if after != before {
                    let hash = if before.reusable(last.path, last.modified) {
                        before.record(last.path).hash
                    } else {
                        record_for(last).hash
                    };
                    assert(after.groups == filed(before.groups, hash, last.path));
                    lemma_filed_one_more(before.groups, hash, last.path, path);
                }
                assert(filed_somewhere(before, path));
                if !filed_somewhere(index, path) {
                    let i = choose|i: int| 0 <= i < front.len() && (#[trigger] front[i]).path == path;
                    assert(files[i].path == path);
                }
            }
        }
        if filed_once(index) && after != before {
            let hash = if before.reusable(last.path, last.modified) {
                before.record(last.path).hash
            } else {
                record_for(last).hash
            };
            lemma_filed_once_more(before, hash, last.path);
        }
    }
}

proof fn lemma_filed_once_more(index: IndexView, hash: Seq<u8>, path: Seq<char>)
    requires
        distinct_hashes(index.groups),
        filed_once(index),
        !filed_somewhere(index, path),
    ensures
        filed_once(IndexView { records: index.records, groups: filed(index.groups, hash, path) }),
{
    let groups = index.groups;
    let after = filed(groups, hash, path);
    lemma_filed_groups(groups, hash, path);
    assert forall|g: int, a: int, b: int|
        0 <= g < after.len() && 0 <= a < b < after[g].paths.len() implies #[trigger] after[g].paths[a]
        != #[trigger] after[g].paths[b] by {
        if has_hash(groups, hash) {
            let h = hash_slot(groups, hash);
            if g == h {
                if b == groups[g].paths.len() {
                    assert(groups[g].paths[a] == after[g].paths[a]);
                    assert(groups[g].paths.contains(groups[g].paths[a]));
                } else {
                    assert(groups[g].paths[a] != groups[g].paths[b]);
                }
            } else {
                assert(after[g] == groups[g]);
                assert(groups[g].paths[a] != groups[g].paths[b]);
            }
        } else {
            if g < groups.len() {
                assert(after[g] == groups[g]);
                assert(groups[g].paths[a] != groups[g].paths[b]);
            }
        }
    }
}

/// The files that can be read, in their order.
pub open spec fn readable(files: Seq<FileView>) -> Seq<FileView> {
    files.filter(|file: FileView| file.content is Some)
}

proof fn lemma_readable(files: Seq<FileView>)
    requires
        each_once(files),
    ensures
        each_once(readable(files)),
        all_readable(readable(files)),
        forall|k: int|
            0 <= k < readable(files).len() ==> exists|m: int|
                0 <= m < files.len() && files[m] == #[trigger] readable(files)[k],
        forall|m: int|
            0 <= m < files.len() && (#[trigger] files[m]).content is Some ==> exists|k: int|
                0 <= k < readable(files).len() && readable(files)[k] == files[m],
    decreases files.len(),
{
    if files.len() == 0 {
        assert(readable(files) =~= Seq::empty()) by {
            reveal_with_fuel(Seq::filter, 1);
        }
    } else {
        let front = files.drop_last();
        let last = files.last();
        assert(files =~= front.push(last));
        assert forall|i: int, j: int| 0 <= i < j < front.len() implies (#[trigger] front[i]).path
            != (#[trigger] front[j]).path by {
            assert(front[i] == files[i] && front[j] == files[j]);
        }
        lemma_readable(front);
        front.lemma_filter_push(last, |file: FileView| file.content is Some);
        let kept = readable(files);
        assert forall|k: int| 0 <= k < kept.len() implies exists|m: int|
            0 <= m < files.len() && files[m] == #[trigger] kept[k] by {
            if k < readable(front).len() {
                let m = choose|m: int| 0 <= m < front.len() && front[m] == readable(front)[k];
                assert(files[m] == kept[k]);
            } else {
                assert(files[files.len() - 1] == kept[k]);
            }
        }
        assert forall|m: int| 0 <= m < files.len() && (#[trigger] files[m]).content is Some implies exists|
            k: int,
        | 0 <= k < kept.len() && kept[k] == files[m] by {
            if m < front.len() {
                assert(front[m] == files[m]);
                let k = choose|k: int|
                    0 <= k < readable(front).len() && readable(front)[k] == front[m];
                assert(kept[k] == files[m]);
            } else {
                assert(kept[kept.len() - 1] == files[m]);
            }
        }
        assert forall|i: int, j: int| 0 <= i < j < kept.len() implies (#[trigger] kept[i]).path != (
        #[trigger] kept[j]).path by {
            if j == readable(front).len() {
                let m = choose|m: int| 0 <= m < front.len() && front[m] == readable(front)[i];
                assert(files[m].path != files[files.len() - 1].path);
            }
        }
    }
}

/// A run from an empty index passes over the files that cannot be read: it
/// leaves the index that a run over the readable files leaves.
pub proof fn lemma_unreadable_skipped(files: Seq<FileView>)
    requires
        each_once(files),
    ensures
        IndexView::empty().scan(files) == IndexView::empty().scan(readable(files)),
    decreases files.len(),
{
    if files.len() == 0 {
        assert(readable(files) =~= Seq::empty()) by {
            reveal_with_fuel(Seq::filter, 1);
        }
    } else {
        let front = files.drop_last();
        let last = files.last();
        assert(files =~= front.push(last));
        assert forall|i: int, j: int| 0 <= i < j < front.len() implies (#[trigger] front[i]).path
            != (#[trigger] front[j]).path by {
            assert(front[i] == files[i] && front[j] == files[j]);
        }
        lemma_unreadable_skipped(front);
        lemma_readable(front);
        lemma_first_run(readable(front));
        front.lemma_filter_push(last, |file: FileView| file.content is Some);
        let before = IndexView::empty().scan(front);
        if has_path(before.records, last.path) {
            let k = path_slot(before.records, last.path);
            let m = choose|m: int| 0 <= m < front.len() && front[m] == readable(front)[k];
            assert(files[m].path == files[files.len() - 1].path);
        }
        assert(!before.reusable(last.path, last.modified));
        if last.content is Some {
            assert(readable(files).drop_last() =~= readable(front));
        }
    }
}

/// Grouping. After a run from an empty index, two files of one content stand
/// in one group of the index, and that group is reported unless its
/// representative is empty. Two files that stand in one group, of the index
/// or of a report, have the same digest.
pub proof fn lemma_grouping(files: Seq<FileView>, i: int, j: int)
    requires
        each_once(files),
        0 <= i < files.len(),
        0 <= j < files.len(),
        i != j,
        files[i].content is Some,
        files[j].content is Some,
    ensures
        ({
            let index = IndexView::empty().scan(files);
            &&& files[i].content == files[j].content ==> exists|g: int|
                {
                    &&& 0 <= g < index.groups.len()
                    &&& (#[trigger] index.groups[g]).paths.contains(files[i].path)
                    &&& index.groups[g].paths.contains(files[j].path)
                    &&& index.groups[g].hash == sha512_digest(files[i].content.unwrap())
                    &&& index.representative(index.groups[g]).size > 0
                        ==> index.duplicates(0).contains(index.summary(index.groups[g]))
                }
            &&& forall|g: int|
                0 <= g < index.groups.len() && (#[trigger] index.groups[g]).paths.contains(
                    files[i].path,
                ) && index.groups[g].paths.contains(files[j].path) ==> sha512_digest(
                    files[i].content.unwrap(),
                ) == sha512_digest(files[j].content.unwrap())
            &&& forall|minsize: u64, k: int|
                0 <= k < index.duplicates(minsize).len() && (#[trigger] index.duplicates(
                    minsize,
                )[k]).paths.contains(files[i].path) && index.duplicates(minsize)[k].paths.contains(
                    files[j].path,
                ) ==> sha512_digest(files[i].content.unwrap()) == sha512_digest(
                    files[j].content.unwrap(),
                )
        }),
{
    let kept = readable(files);
    lemma_readable(files);
    lemma_unreadable_skipped(files);
    let a = choose|a: int| 0 <= a < kept.len() && kept[a] == files[i];
    let b = choose|b: int| 0 <= b < kept.len() && kept[b] == files[j];
    if i < j {
        assert(files[i].path != files[j].path);
    } else {
        assert(files[j].path != files[i].path);
    }
    lemma_grouping_readable(kept, a, b);
}

} // verus!
