//! The content index as mathematics: what it holds and what each operation
//! makes of it.

use vstd::prelude::*;
use crate::hashedfile::{record_of, RecordView, Timestamp};
use crate::text::{hex_of, text_le};

verus! {

/// The paths filed under one content hash, in the order in which they came.
pub ghost struct GroupView {
    pub hash: Seq<u8>,
    pub paths: Seq<Seq<char>>,
}

/// The two coupled collections of the index. `records` holds the last known
/// record of each path, in the order in which the paths first appeared;
/// `groups` holds one entry per content hash, in the order in which the
/// hashes first appeared.
pub ghost struct IndexView {
    pub records: Seq<RecordView>,
    pub groups: Seq<GroupView>,
}

/// One group of duplicates as it is reported: the paths that share a content,
/// the lowercase hex form of that content's hash, and the size in bytes.
pub ghost struct DuplicatesView {
    pub paths: Seq<Seq<char>>,
    pub hex_hash: Seq<char>,
    pub size: u64,
}

/// The order of a report: by ascending size, and among groups of one size by
/// the hex form of the hash.
pub open spec fn precedes(a: DuplicatesView, b: DuplicatesView) -> bool {
    a.size < b.size || (a.size == b.size && text_le(a.hex_hash, b.hex_hash))
}

/// An ordered report with one more group: it stands behind the last group
/// that may precede it.
pub open spec fn placed(report: Seq<DuplicatesView>, group: DuplicatesView) -> Seq<DuplicatesView>
    decreases report.len(),
{
    if report.len() == 0 {
        seq![group]
    } else if precedes(report.last(), group) {
        report.push(group)
    } else {
        placed(report.drop_last(), group).push(report.last())
    }
}

/// The groups in report order. Groups that neither size nor hash tells apart
/// keep the order in which they were given.
pub open spec fn ranked(groups: Seq<DuplicatesView>) -> Seq<DuplicatesView>
    decreases groups.len(),
{
    if groups.len() == 0 {
        Seq::empty()
    } else {
        placed(ranked(groups.drop_last()), groups.last())
    }
}

/// A file as the scan of a directory tree meets it: its path, its
/// modification time where the file system gave one, and its bytes where
/// they can be read.
pub ghost struct FileView {
    pub path: Seq<char>,
    pub modified: Option<Timestamp>,
    pub content: Option<Seq<u8>>,
}

/// Whether some record is kept for `path`.
pub open spec fn has_path(records: Seq<RecordView>, path: Seq<char>) -> bool {
    exists|i: int| 0 <= i < records.len() && (#[trigger] records[i]).path == path
}

/// Where the record of `path` stands, if there is one.
pub open spec fn path_slot(records: Seq<RecordView>, path: Seq<char>) -> int {
    choose|i: int| 0 <= i < records.len() && (#[trigger] records[i]).path == path
}

/// Whether some path has been filed under `hash`.
pub open spec fn has_hash(groups: Seq<GroupView>, hash: Seq<u8>) -> bool {
    exists|g: int| 0 <= g < groups.len() && (#[trigger] groups[g]).hash == hash
}

/// Where the group of `hash` stands, if there is one.
pub open spec fn hash_slot(groups: Seq<GroupView>, hash: Seq<u8>) -> int {
    choose|g: int| 0 <= g < groups.len() && (#[trigger] groups[g]).hash == hash
}

/// No two records share a path.
pub open spec fn distinct_paths(records: Seq<RecordView>) -> bool {
    forall|i: int, j: int|
        0 <= i < j < records.len() ==> (#[trigger] records[i]).path != (#[trigger] records[j]).path
}

/// No two groups share a hash.
pub open spec fn distinct_hashes(groups: Seq<GroupView>) -> bool {
    forall|g: int, h: int|
        0 <= g < h < groups.len() ==> (#[trigger] groups[g]).hash != (#[trigger] groups[h]).hash
}

/// The records after `record` has taken the place kept for its path, or a new
/// place at the end.
pub open spec fn stored(records: Seq<RecordView>, record: RecordView) -> Seq<RecordView> {
    if has_path(records, record.path) {
        records.update(path_slot(records, record.path), record)
    } else {
        records.push(record)
    }
}

/// The groups after `path` has been appended to the group of `hash`, which is
/// made if it was not there.
pub open spec fn filed(groups: Seq<GroupView>, hash: Seq<u8>, path: Seq<char>) -> Seq<GroupView> {
    if has_hash(groups, hash) {
        let g = hash_slot(groups, hash);
        groups.update(g, GroupView { hash, paths: groups[g].paths.push(path) })
    } else {
        groups.push(GroupView { hash, paths: seq![path] })
    }
}

/// The records after `record` has been added unless its path was known.
pub open spec fn adopted(records: Seq<RecordView>, record: RecordView) -> Seq<RecordView> {
    if has_path(records, record.path) {
        records
    } else {
        records.push(record)
    }
}

/// The records after each of `incoming` has been adopted in turn.
pub open spec fn merged(records: Seq<RecordView>, incoming: Seq<RecordView>) -> Seq<RecordView>
    decreases incoming.len(),
{
    if incoming.len() == 0 {
        records
    } else {
        adopted(merged(records, incoming.drop_last()), incoming.last())
    }
}

impl IndexView {
    /// The index that holds nothing.
    pub open spec fn empty() -> IndexView {
        IndexView { records: Seq::empty(), groups: Seq::empty() }
    }

    /// What every index satisfies: paths and hashes are keys, no group is
    /// empty, and every path filed in a group has a record.
    pub open spec fn valid(self) -> bool {
        &&& distinct_paths(self.records)
        &&& distinct_hashes(self.groups)
        &&& forall|g: int| 0 <= g < self.groups.len() ==> (#[trigger] self.groups[g]).paths.len() > 0
        &&& forall|g: int, k: int|
            0 <= g < self.groups.len() && 0 <= k < self.groups[g].paths.len() ==> has_path(
                self.records,
                #[trigger] self.groups[g].paths[k],
            )
    }

    /// The record kept for `path`; meaningful where there is one.
    pub open spec fn record(self, path: Seq<char>) -> RecordView {
        self.records[path_slot(self.records, path)]
    }

    /// The mapping from each known path to its record.
    pub open spec fn by_path(self) -> Map<Seq<char>, RecordView> {
        Map::new(|path: Seq<char>| has_path(self.records, path), |path: Seq<char>| self.record(path))
    }

    /// The paths filed under `hash`, none where the hash is unknown.
    pub open spec fn paths_of(self, hash: Seq<u8>) -> Seq<Seq<char>> {
        if has_hash(self.groups, hash) {
            self.groups[hash_slot(self.groups, hash)].paths
        } else {
            Seq::empty()
        }
    }

    /// The mapping from each known content hash to the paths filed under it.
    pub open spec fn by_hash(self) -> Map<Seq<u8>, Seq<Seq<char>>> {
        Map::new(|hash: Seq<u8>| has_hash(self.groups, hash), |hash: Seq<u8>| self.paths_of(hash))
    }

    /// The consistency of the two mappings: every path filed under a hash has
    /// a record, and that record carries the same hash.
    pub open spec fn coupled(self) -> bool {
        forall|hash: Seq<u8>, path: Seq<char>|
            self.by_hash().contains_key(hash) && #[trigger] self.by_hash()[hash].contains(path) ==> {
                &&& self.by_path().contains_key(path)
                &&& self.by_path()[path].hash == hash
            }
    }

    /// The same consistency, said of the groups one by one.
    pub open spec fn coupled_groups(self) -> bool {
        forall|g: int, k: int|
            0 <= g < self.groups.len() && 0 <= k < self.groups[g].paths.len() ==> {
                &&& has_path(self.records, #[trigger] self.groups[g].paths[k])
                &&& self.record(self.groups[g].paths[k]).hash == self.groups[g].hash
            }
    }

    /// The index after `record` has been inserted: it becomes the record of
    /// its path, and its path is appended to the group of its hash.
    pub open spec fn insert(self, record: RecordView) -> IndexView {
        IndexView {
            records: stored(self.records, record),
            groups: filed(self.groups, record.hash, record.path),
        }
    }

    /// Whether the record kept for `path` may stand for the file as it is
    /// now: a modification time was obtained, a record is kept, and the
    /// record carries that same time.
    pub open spec fn reusable(self, path: Seq<char>, modified: Option<Timestamp>) -> bool {
        &&& modified is Some
        &&& has_path(self.records, path)
        &&& self.record(path).modified == modified
    }

    /// The index after the record kept for `path` has been promoted into the
    /// group of its hash.
    pub open spec fn promote(self, path: Seq<char>) -> IndexView {
        IndexView {
            records: self.records,
            groups: filed(self.groups, self.record(path).hash, path),
        }
    }

    /// The index after an attempt to reuse the record of `path`.
    pub open spec fn try_reuse(self, path: Seq<char>, modified: Option<Timestamp>) -> IndexView {
        if self.reusable(path, modified) {
            self.promote(path)
        } else {
            self
        }
    }

    /// The record that stands for a group: that of the first path filed.
    pub open spec fn representative(self, group: GroupView) -> RecordView {
        self.record(group.paths[0])
    }

    /// Whether a group is reported: at least two paths share the hash, and
    /// the representative is larger than `minsize`.
    pub open spec fn reported(self, group: GroupView, minsize: u64) -> bool {
        group.paths.len() >= 2 && self.representative(group).size > minsize
    }

    /// A group as it is reported, with the representative's size and hash.
    pub open spec fn summary(self, group: GroupView) -> DuplicatesView {
        DuplicatesView {
            paths: group.paths,
            hex_hash: hex_of(self.representative(group).hash),
            size: self.representative(group).size,
        }
    }

    /// Those of `groups` that are reported, as they are reported.
    pub open spec fn candidates_among(self, groups: Seq<GroupView>, minsize: u64) -> Seq<
        DuplicatesView,
    > {
        groups.filter(|group: GroupView| self.reported(group, minsize)).map_values(
            |group: GroupView| self.summary(group),
        )
    }

    /// The reported groups, in the order of the index.
    pub open spec fn candidates(self, minsize: u64) -> Seq<DuplicatesView> {
        self.candidates_among(self.groups, minsize)
    }

    /// The duplicate report: every hash with at least two paths whose
    /// representative is larger than `minsize`, by ascending size.
    pub open spec fn duplicates(self, minsize: u64) -> Seq<DuplicatesView> {
        ranked(self.candidates(minsize))
    }

    /// The index after one file has been visited: its record is reused where
    /// that is allowed; else the file is hashed and its record inserted; a
    /// file that cannot be read is passed over.
    pub open spec fn visit(self, file: FileView) -> IndexView {
        if self.reusable(file.path, file.modified) {
            self.promote(file.path)
        } else {
            match file.content {
                Some(content) => self.insert(record_of(file.path, file.modified, content)),
                None => self,
            }
        }
    }

    /// The index after the files have been visited in turn.
    pub open spec fn scan(self, files: Seq<FileView>) -> IndexView
        decreases files.len(),
    {
        if files.len() == 0 {
            self
        } else {
            self.scan(files.drop_last()).visit(files.last())
        }
    }

    /// The index after cached records have been loaded: each record whose
    /// path is not yet known is kept, the others are passed over, and no
    /// group changes.
    pub open spec fn load(self, incoming: Seq<RecordView>) -> IndexView {
        IndexView { records: merged(self.records, incoming), groups: self.groups }
    }
}

/// One more group adds its summary to the candidates if it is reported, and
/// nothing otherwise.
pub proof fn lemma_candidates_push(
    index: IndexView,
    groups: Seq<GroupView>,
    group: GroupView,
    minsize: u64,
)
    ensures
        index.candidates_among(groups.push(group), minsize) == if index.reported(group, minsize) {
            index.candidates_among(groups, minsize).push(index.summary(group))
        } else {
            index.candidates_among(groups, minsize)
        },
{
    let pred = |group: GroupView| index.reported(group, minsize);
    let f = |group: GroupView| index.summary(group);
    groups.lemma_filter_push(group, pred);
    if index.reported(group, minsize) {
        assert(groups.filter(pred).push(group).map_values(f) =~= groups.filter(pred).map_values(
            f,
        ).push(f(group)));
    }
}

/// Where a path stands is where its record is found.
pub proof fn lemma_path_slot(records: Seq<RecordView>, i: int)
    requires
        distinct_paths(records),
        0 <= i < records.len(),
    ensures
        has_path(records, records[i].path),
        path_slot(records, records[i].path) == i,
{
    let j = path_slot(records, records[i].path);
    assert(0 <= j < records.len() && records[j].path == records[i].path);
}

/// Where a hash stands is where its group is found.
pub proof fn lemma_hash_slot(groups: Seq<GroupView>, g: int)
    requires
        distinct_hashes(groups),
        0 <= g < groups.len(),
    ensures
        has_hash(groups, groups[g].hash),
        hash_slot(groups, groups[g].hash) == g,
{
    let h = hash_slot(groups, groups[g].hash);
    assert(0 <= h < groups.len() && groups[h].hash == groups[g].hash);
}

} // verus!
