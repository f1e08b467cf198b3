//! The content index: the last known record of every path, and the paths
//! filed under every content hash.

use vstd::prelude::*;
use vstd::hash_map::StringHashMap;
use crate::cache::{cache_bytes, cached_records, decode_cache, encode_cache, lemma_cache_round_trip};
use crate::duplicates::{clone_strings, report_views, texts, Duplicates};
use crate::hashedfile::{clone_bytes, record_views, HashedFile, RecordView, Timestamp};
use crate::laws::{lemma_insert_valid, lemma_load_valid, lemma_promote_valid};
use crate::model::{
    adopted, distinct_hashes, distinct_paths, filed, has_hash, has_path, hash_slot,
    lemma_candidates_push, lemma_hash_slot, lemma_path_slot, merged, path_slot, placed, precedes,
    ranked, stored, DuplicatesView, GroupView, IndexView,
};
use crate::text::{bytes_precede, hex_encode, hex_of, lemma_hex_injective, lemma_hex_order};

verus! {

/// Why a cache could not be loaded.
#[derive(Debug, Clone, Copy, PartialEq, Eq)]
pub enum CacheError {
    /// The bytes are not a cache blob.
    Malformed,
}

/// The paths filed under one content hash.
struct HashGroup {
    hash: Vec<u8>,
    paths: Vec<String>,
}

impl View for HashGroup {
    type V = GroupView;

    closed spec fn view(&self) -> GroupView {
        GroupView { hash: self.hash@, paths: self.paths@.map_values(|path: String| path@) }
    }
}

/// The index. Records and groups stand in vectors, in the order in which
/// their keys first appeared; two hash maps find a key's place in them.
pub struct DedupState {
    records: Vec<HashedFile>,
    path_slots: StringHashMap<usize>,
    groups: Vec<HashGroup>,
    hash_slots: StringHashMap<usize>,
}

spec fn group_views(groups: Seq<HashGroup>) -> Seq<GroupView> {
    groups.map_values(|group: HashGroup| group@)
}

/// `slots` finds every record by its path, and nothing else.
spec fn slots_find_paths(slots: Map<Seq<char>, usize>, records: Seq<RecordView>) -> bool {
    &&& forall|path: Seq<char>| #[trigger]
        slots.contains_key(path) ==> slots[path] < records.len() && records[slots[path] as int].path
            == path
    &&& forall|i: int|
        0 <= i < records.len() ==> slots.contains_key((#[trigger] records[i]).path)
            && slots[records[i].path] == i
}

/// `slots` finds every group by the hex form of its hash, and nothing else.
spec fn slots_find_hashes(slots: Map<Seq<char>, usize>, groups: Seq<GroupView>) -> bool {
    &&& forall|key: Seq<char>| #[trigger]
        slots.contains_key(key) ==> slots[key] < groups.len() && hex_of(
            groups[slots[key] as int].hash,
        ) == key
    &&& forall|g: int|
        0 <= g < groups.len() ==> slots.contains_key(hex_of((#[trigger] groups[g]).hash))
            && slots[hex_of(groups[g].hash)] == g
}

proof fn lemma_found_paths_distinct(slots: Map<Seq<char>, usize>, records: Seq<RecordView>)
    requires
        slots_find_paths(slots, records),
    ensures
        distinct_paths(records),
{
    assert forall|i: int, j: int| 0 <= i < j < records.len() implies (#[trigger] records[i]).path
        != (#[trigger] records[j]).path by {
        if records[i].path == records[j].path {
            assert(slots[records[i].path] == i);
            assert(slots[records[j].path] == j);
        }
    }
}

proof fn lemma_found_hashes_distinct(slots: Map<Seq<char>, usize>, groups: Seq<GroupView>)
    requires
        slots_find_hashes(slots, groups),
    ensures
        distinct_hashes(groups),
{
    assert forall|g: int, h: int| 0 <= g < h < groups.len() implies (#[trigger] groups[g]).hash
        != (#[trigger] groups[h]).hash by {
        if groups[g].hash == groups[h].hash {
            assert(slots[hex_of(groups[g].hash)] == g);
            assert(slots[hex_of(groups[h].hash)] == h);
        }
    }
}

/// Puts `record` in the place of its path.
fn store_record(
    records: &mut Vec<HashedFile>,
    slots: &mut StringHashMap<usize>,
    record: HashedFile,
)
    requires
        slots_find_paths(old(slots)@, record_views(old(records)@)),
    ensures
        record_views(final(records)@) == stored(record_views(old(records)@), record@),
        slots_find_paths(final(slots)@, record_views(final(records)@)),
{
    let ghost before = record_views(records@);
    proof {
        lemma_found_paths_distinct(slots@, before);
    }
    let found = match slots.get(record.path().as_str()) {
        Some(slot) => Some(*slot),
        None => None,
    };
    match found {
        Some(i) => {
            proof {
                lemma_path_slot(before, i as int);
            }
            records[i] = record;
            proof {
                assert(record_views(records@) =~= before.update(i as int, record@));
            }
        },
        None => {
            proof {
                if has_path(before, record@.path) {
                    let i = path_slot(before, record@.path);
                    assert(slots@.contains_key(before[i].path));
                }
            }
            let i: usize = records.len();
            slots.insert(record.path().clone(), i);
            records.push(record);
            proof {
                assert(record_views(records@) =~= before.push(record@));
            }
        },
    }
}

/// Keeps `record` unless a record of its path is kept already.
fn adopt_record(
    records: &mut Vec<HashedFile>,
    slots: &mut StringHashMap<usize>,
    record: HashedFile,
)
    requires
        slots_find_paths(old(slots)@, record_views(old(records)@)),
    ensures
        record_views(final(records)@) == adopted(record_views(old(records)@), record@),
        slots_find_paths(final(slots)@, record_views(final(records)@)),
{
    let ghost before = record_views(records@);
    if slots.contains_key(record.path().as_str()) {
        proof {
            let i = slots@[record@.path] as int;
            assert(before[i].path == record@.path);
        }
    } else {
        proof {
            if has_path(before, record@.path) {
                let i = path_slot(before, record@.path);
                assert(slots@.contains_key(before[i].path));
            }
        }
        let i: usize = records.len();
        slots.insert(record.path().clone(), i);
        records.push(record);
        proof {
            assert(record_views(records@) =~= before.push(record@));
        }
    }
}

/// Appends `path` to the group of `hash`.
fn file_path(
    groups: &mut Vec<HashGroup>,
    slots: &mut StringHashMap<usize>,
    hash: &Vec<u8>,
    path: &String,
)
    requires
        slots_find_hashes(old(slots)@, group_views(old(groups)@)),
    ensures
        group_views(final(groups)@) == filed(group_views(old(groups)@), hash@, path@),
        slots_find_hashes(final(slots)@, group_views(final(groups)@)),
{
    let ghost before = group_views(groups@);
    proof {
        lemma_found_hashes_distinct(slots@, before);
    }
    let key = hex_encode(hash);
    let found = match slots.get(key.as_str()) {
        Some(slot) => Some(*slot),
        None => None,
    };
    match found {
        Some(g) => {
            proof {
                lemma_hex_injective(before[g as int].hash, hash@);
                lemma_hash_slot(before, g as int);
            }
            groups[g].paths.push(path.clone());
            proof {
                let after = GroupView { hash: hash@, paths: before[g as int].paths.push(path@) };
                assert(groups@[g as int]@.paths =~= after.paths);
                assert(group_views(groups@) =~= before.update(g as int, after));
            }
        },
        None => {
            proof {
                if has_hash(before, hash@) {
                    let g = hash_slot(before, hash@);
                    assert(slots@.contains_key(hex_of(before[g].hash)));
                }
            }
            let g: usize = groups.len();
            let mut paths: Vec<String> = Vec::new();
            paths.push(path.clone());
            groups.push(HashGroup { hash: clone_bytes(hash), paths });
            slots.insert(key, g);
            proof {
                let after = GroupView { hash: hash@, paths: seq![path@] };
                assert(groups@[g as int]@.paths =~= after.paths);
                assert(group_views(groups@) =~= before.push(after));
                assert forall|k: Seq<char>| #[trigger] slots@.contains_key(k) implies slots@[k]
                    < group_views(groups@).len() && hex_of(
                    group_views(groups@)[slots@[k] as int].hash,
                ) == k by {}
                assert forall|h: int| 0 <= h < group_views(groups@).len() implies slots@.contains_key(
                    hex_of((#[trigger] group_views(groups@)[h]).hash),
                ) && slots@[hex_of(group_views(groups@)[h].hash)] == h by {
                    if h < g {
                        if hex_of(before[h].hash) == hex_of(hash@) {
                            lemma_hex_injective(before[h].hash, hash@);
                        }
                    }
                }
            }
        },
    }
}

/// A reported group while the report is put in order: where its group and the
/// record of its representative stand.
#[derive(Clone, Copy)]
struct Entry {
    group: usize,
    slot: usize,
}

impl View for DedupState {
    type V = IndexView;

    closed spec fn view(&self) -> IndexView {
        IndexView { records: record_views(self.records@), groups: group_views(self.groups@) }
    }
}

impl DedupState {
    #[verifier::type_invariant]
    spec fn sound(self) -> bool {
        &&& self@.valid()
        &&& slots_find_paths(self.path_slots@, record_views(self.records@))
        &&& slots_find_hashes(self.hash_slots@, group_views(self.groups@))
    }

    /// An index that holds nothing.
    pub fn new() -> (index: Self)
        ensures
            index@ == IndexView::empty(),
    {
        let index = DedupState {
            records: Vec::new(),
            path_slots: StringHashMap::new(),
            groups: Vec::new(),
            hash_slots: StringHashMap::new(),
        };
        proof {
            assert(record_views(index.records@) =~= Seq::empty());
            assert(group_views(index.groups@) =~= Seq::empty());
        }
        index
    }

    /// Inserts a record: it becomes the record of its path, replacing one
    /// that was there, and its path is appended to the group of its hash.
    pub fn add_hashed_file(&mut self, hf: HashedFile)
        ensures
            final(self)@ == old(self)@.insert(hf@),
    {
        let mut taken = DedupState::new();
        std::mem::swap(self, &mut taken);
        proof {
            use_type_invariant(&taken);
        }
        let DedupState { records, path_slots, groups, hash_slots } = taken;
        let mut records = records;
        let mut path_slots = path_slots;
        let mut groups = groups;
        let mut hash_slots = hash_slots;
        let ghost before = IndexView {
            records: record_views(records@),
            groups: group_views(groups@),
        };
        file_path(&mut groups, &mut hash_slots, hf.hash(), hf.path());
        store_record(&mut records, &mut path_slots, hf);
        proof {
            lemma_insert_valid(before, hf@);
        }
        *self = DedupState { records, path_slots, groups, hash_slots };
    }

    /// Tries to reuse the record kept for `path`. Where a modification time
    /// was obtained and the record kept for the path carries that same time,
    /// the record is promoted into the group of its hash, and the file need
    /// not be hashed again. Without a modification time nothing is reused.
    pub fn reuse_if_cached(&mut self, path: &String, modified: &Option<Timestamp>) -> (reused: bool)
        ensures
            reused == old(self)@.reusable(path@, *modified),
            final(self)@ == old(self)@.try_reuse(path@, *modified),
    {
        proof {
            use_type_invariant(&*self);
            lemma_found_paths_distinct(self.path_slots@, record_views(self.records@));
        }
        let wanted = match modified {
            Some(time) => *time,
            None => {
                return false;
            },
        };
        let slot: usize = match self.path_slots.get(path.as_str()) {
            Some(slot) => *slot,
            None => {
                proof {
                    if has_path(self@.records, path@) {
                        let i = path_slot(self@.records, path@);
                        assert(self.path_slots@.contains_key(self@.records[i].path));
                    }
                }
                return false;
            },
        };
        proof {
            lemma_path_slot(self@.records, slot as int);
        }
        let kept = match self.records[slot].modified() {
            Some(time) => time,
            None => {
                return false;
            },
        };
        if kept.secs != wanted.secs || kept.nanos != wanted.nanos {
            return false;
        }
        let hash = clone_bytes(self.records[slot].hash());
        let mut taken = DedupState::new();
        std::mem::swap(self, &mut taken);
        let DedupState { records, path_slots, groups, hash_slots } = taken;
        let mut groups = groups;
        let mut hash_slots = hash_slots;
        let ghost before = IndexView {
            records: record_views(records@),
            groups: group_views(groups@),
        };
        file_path(&mut groups, &mut hash_slots, &hash, path);
        proof {
            lemma_promote_valid(before, path@);
        }
        *self = DedupState { records, path_slots, groups, hash_slots };
        true
    }
}

impl DedupState {
    spec fn entry_ok(&self, entry: Entry) -> bool {
        &&& entry.group < self.groups.len()
        &&& entry.slot < self.records.len()
        &&& self.records[entry.slot as int]@ == self@.representative(
            self@.groups[entry.group as int],
        )
    }

    spec fn entry_view(&self, entry: Entry) -> DuplicatesView {
        self@.summary(self@.groups[entry.group as int])
    }

    spec fn entry_views(&self, entries: Seq<Entry>) -> Seq<DuplicatesView> {
        entries.map_values(|entry: Entry| self.entry_view(entry))
    }

    fn entry_precedes(&self, a: Entry, b: Entry) -> (before: bool)
        requires
            self.entry_ok(a),
            self.entry_ok(b),
        ensures
            before == precedes(self.entry_view(a), self.entry_view(b)),
    {
        let first = &self.records[a.slot];
        let second = &self.records[b.slot];
        proof {
            lemma_hex_order(first@.hash, second@.hash);
        }
        if first.size() != second.size() {
            first.size() < second.size()
        } else {
            bytes_precede(first.hash(), second.hash())
        }
    }

    /// Puts one more entry into an ordered report.
    fn place(&self, report: &mut Vec<Entry>, entry: Entry)
        requires
            self.entry_ok(entry),
            forall|i: int| 0 <= i < old(report)@.len() ==> self.entry_ok(#[trigger] old(report)@[i]),
        ensures
            self.entry_views(final(report)@) == placed(
                self.entry_views(old(report)@),
                self.entry_view(entry),
            ),
            forall|i: int| 0 <= i < final(report)@.len() ==> self.entry_ok(#[trigger] final(report)@[i]),
    {
        let ghost all = self.entry_views(report@);
        let ghost new = self.entry_view(entry);
        let mut pos: usize = report.len();
        proof {
            assert(all.take(pos as int) =~= all);
            assert(placed(all, new) =~= placed(all.take(pos as int), new) + all.skip(pos as int));
        }
        loop
            invariant
                pos <= report@.len(),
                report@ == old(report)@,
                all == self.entry_views(report@),
                new == self.entry_view(entry),
                self.entry_ok(entry),
                forall|i: int| 0 <= i < report@.len() ==> self.entry_ok(#[trigger] report@[i]),
                placed(all, new) == placed(all.take(pos as int), new) + all.skip(pos as int),
            ensures
                pos <= report@.len(),
                placed(all, new) == all.take(pos as int).push(new) + all.skip(pos as int),
            decreases pos,
        {
            if pos == 0 {
                proof {
                    assert(all.take(0).len() == 0);
                    assert(placed(all.take(0), new) =~= all.take(0).push(new));
                }
                break;
            }
            let last = report[pos - 1];
            proof {
                assert(all.take(pos as int).last() == self.entry_view(last));
                assert(all.take(pos as int).drop_last() =~= all.take(pos - 1));
            }
            if self.entry_precedes(last, entry) {
                break;
            }
            proof {
                assert(placed(all.take(pos as int), new) == placed(all.take(pos - 1), new).push(
                    all[pos - 1],
                ));
                assert(placed(all.take(pos - 1), new).push(all[pos - 1]) + all.skip(pos as int)
                    =~= placed(all.take(pos - 1), new) + all.skip(pos - 1));
            }
            pos = pos - 1;
        }
        report.insert(pos, entry);
        proof {
            assert(self.entry_views(report@) =~= all.take(pos as int).push(new) + all.skip(
                pos as int,
            ));
        }
    }

    /// The duplicate report: for every hash under which at least two paths
    /// are filed, the paths, with the size and the hash of the group's
    /// representative, kept if that size is strictly greater than `minsize`.
    /// The report is in ascending order of size, groups of one size in the
    /// order of their hex hashes. It is made anew at every call.
    pub fn duplicates_with_minsize(&self, minsize: u64) -> (report: Vec<Duplicates>)
        ensures
            report_views(report@) == self@.duplicates(minsize),
    {
        proof {
            use_type_invariant(self);
            lemma_found_paths_distinct(self.path_slots@, record_views(self.records@));
            assert(self@.groups.take(0) =~= Seq::<GroupView>::empty());
        }
        let mut entries: Vec<Entry> = Vec::new();
        for g in 0..self.groups.len()
            invariant
                self@.valid(),
                distinct_paths(self@.records),
                slots_find_paths(self.path_slots@, record_views(self.records@)),
                forall|i: int| 0 <= i < entries@.len() ==> self.entry_ok(#[trigger] entries@[i]),
                self.entry_views(entries@) == ranked(
                    self@.candidates_among(self@.groups.take(g as int), minsize),
                ),
        {
            let group = &self.groups[g];
            proof {
                lemma_candidates_push(
                    self@,
                    self@.groups.take(g as int),
                    self@.groups[g as int],
                    minsize,
                );
                assert(self@.groups.take(g + 1) =~= self@.groups.take(g as int).push(
                    self@.groups[g as int],
                ));
                assert(self@.groups[g as int] == group@);
                assert(group@.paths.len() == group.paths@.len());
            }
            if group.paths.len() >= 2 {
                match self.path_slots.get(group.paths[0].as_str()) {
                    Some(slot) => {
                        let slot: usize = *slot;
                        proof {
                            assert(group@.paths[0] == group.paths@[0]@);
                            lemma_path_slot(self@.records, slot as int);
                        }
                        if self.records[slot].size() > minsize {
                            let entry = Entry { group: g, slot };
                            let ghost before = self@.candidates_among(
                                self@.groups.take(g as int),
                                minsize,
                            );
                            proof {
                                assert(before.push(self.entry_view(entry)).drop_last() =~= before);
                            }
                            self.place(&mut entries, entry);
                        }
                    },
                    None => {
                        proof {
                            assert(group@.paths[0] == group.paths@[0]@);
                            assert(has_path(self@.records, self@.groups[g as int].paths[0]));
                            let i = path_slot(self@.records, group@.paths[0]);
                            assert(self.path_slots@.contains_key(self@.records[i].path));
                            assert(false);
                        }
                    },
                }
            }
        }
        proof {
            assert(self@.groups.take(self.groups@.len() as int) =~= self@.groups);
        }
        let mut report: Vec<Duplicates> = Vec::new();
        for i in 0..entries.len()
            invariant
                forall|k: int| 0 <= k < entries@.len() ==> self.entry_ok(#[trigger] entries@[k]),
                report@.len() == i,
                forall|k: int| 0 <= k < i ==> (#[trigger] report@[k])@ == self.entry_view(entries@[k]),
        {
            let entry = entries[i];
            let group = &self.groups[entry.group];
            let chosen = &self.records[entry.slot];
            proof {
                assert(self@.groups[entry.group as int] == group@);
            }
            report.push(
                Duplicates::new(
                    clone_strings(&group.paths),
                    hex_encode(chosen.hash()),
                    chosen.size(),
                ),
            );
        }
        proof {
            assert(report_views(report@) =~= self.entry_views(entries@));
        }
        report
    }

    /// The record kept for `path`, if there is one.
    pub fn get(&self, path: &str) -> (found: Option<&HashedFile>)
        ensures
            match found {
                Some(record) => has_path(self@.records, path@) && record@ == self@.record(path@),
                None => !has_path(self@.records, path@),
            },
    {
        proof {
            use_type_invariant(self);
            lemma_found_paths_distinct(self.path_slots@, record_views(self.records@));
        }
        match self.path_slots.get(path) {
            Some(slot) => {
                let slot: usize = *slot;
                proof {
                    lemma_path_slot(self@.records, slot as int);
                }
                Some(&self.records[slot])
            },
            None => {
                proof {
                    if has_path(self@.records, path@) {
                        let i = path_slot(self@.records, path@);
                        assert(self.path_slots@.contains_key(self@.records[i].path));
                    }
                }
                None
            },
        }
    }

    /// The paths filed under `hash`, in the order in which they came; none
    /// where nothing is filed under it.
    pub fn paths_of(&self, hash: &Vec<u8>) -> (paths: Vec<String>)
        ensures
            texts(paths@) == self@.paths_of(hash@),
    {
        proof {
            use_type_invariant(self);
            lemma_found_hashes_distinct(self.hash_slots@, group_views(self.groups@));
        }
        let key = hex_encode(hash);
        match self.hash_slots.get(key.as_str()) {
            Some(slot) => {
                let slot: usize = *slot;
                proof {
                    lemma_hex_injective(self@.groups[slot as int].hash, hash@);
                    lemma_hash_slot(self@.groups, slot as int);
                }
                clone_strings(&self.groups[slot].paths)
            },
            None => {
                proof {
                    if has_hash(self@.groups, hash@) {
                        let g = hash_slot(self@.groups, hash@);
                        assert(self.hash_slots@.contains_key(hex_of(self@.groups[g].hash)));
                    }
                }
                let none: Vec<String> = Vec::new();
                proof {
                    assert(texts(none@) =~= Seq::<Seq<char>>::empty());
                }
                none
            },
        }
    }

    /// The number of paths that have a record.
    pub fn len(&self) -> (count: usize)
        ensures
            count == self@.records.len(),
    {
        self.records.len()
    }

    /// The cache blob of the index: every record it keeps, in the order in
    /// which their paths first appeared. The groups are not part of it.
    pub fn write_cache(&self) -> (blob: Vec<u8>)
        ensures
            blob@ == cache_bytes(self@.records),
            cached_records(blob@) == Some(self@.records),
    {
        let blob = encode_cache(&self.records);
        proof {
            lemma_cache_round_trip(self@.records);
        }
        blob
    }

    /// Loads a cache blob. Every record in it whose path the index does not
    /// know yet is kept as that path's record; a record whose path is known,
    /// from before or from earlier in the blob, is passed over. No group
    /// changes: a loaded record enters one when it is reused. A blob that is
    /// not a cache blob is refused and leaves the index as it was.
    pub fn read_cache(&mut self, blob: &[u8]) -> (loaded: Result<(), CacheError>)
        ensures
            match cached_records(blob@) {
                Some(records) => loaded is Ok && final(self)@ == old(self)@.load(records),
                None => loaded is Err && final(self)@ == old(self)@,
            },
    {
        let incoming = match decode_cache(blob) {
            Some(records) => records,
            None => {
                return Err(CacheError::Malformed);
            },
        };
        let mut taken = DedupState::new();
        std::mem::swap(self, &mut taken);
        proof {
            use_type_invariant(&taken);
        }
        let DedupState { records, path_slots, groups, hash_slots } = taken;
        let mut records = records;
        let mut path_slots = path_slots;
        let ghost before = IndexView {
            records: record_views(records@),
            groups: group_views(groups@),
        };
        let ghost arriving = record_views(incoming@);
        proof {
            assert(arriving.take(0) =~= Seq::<RecordView>::empty());
        }
        for i in 0..incoming.len()
            invariant
                arriving == record_views(incoming@),
                slots_find_paths(path_slots@, record_views(records@)),
                record_views(records@) == merged(before.records, arriving.take(i as int)),
        {
            proof {
                assert(arriving.take(i + 1).drop_last() =~= arriving.take(i as int));
            }
            adopt_record(&mut records, &mut path_slots, incoming[i].clone());
        }
        proof {
            assert(arriving.take(incoming@.len() as int) =~= arriving);
            lemma_load_valid(before, arriving);
        }
        *self = DedupState { records, path_slots, groups, hash_slots };
        Ok(())
    }

    /// The duplicate report without a size limit of the caller's: every
    /// group whose files are not empty.
    pub fn duplicates(&self) -> (report: Vec<Duplicates>)
        ensures
            report_views(report@) == self@.duplicates(0),
    {
        self.duplicates_with_minsize(0)
    }
}

} // verus!
