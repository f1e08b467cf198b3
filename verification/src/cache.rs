//! The cache blob: every known record, as one string of bytes.
//!
//! All integers are little-endian. The blob opens with the number of records
//! in 8 bytes. A record is its path (8 bytes of length, then that many bytes
//! of UTF-8), its content hash (8 bytes of length, then that many bytes), its
//! modification time (one byte 0 where there is none, else one byte 1, then
//! 8 bytes of seconds and 4 bytes of nanoseconds) and its size in 8 bytes.
//! The blob carries no version number, and bytes after the last record are
//! not looked at. This is the layout that `bincode` 1 gives a vector of such
//! records with its default options, so a cache that was written through it
//! is read here, and the other way round.

use vstd::prelude::*;
use vstd::bytes::{
    lemma_auto_spec_u32_to_from_le_bytes, lemma_auto_spec_u64_to_from_le_bytes,
    spec_u32_from_le_bytes, spec_u32_to_le_bytes, spec_u64_from_le_bytes, spec_u64_to_le_bytes,
    u32_from_le_bytes, u32_to_le_bytes, u64_from_le_bytes, u64_to_le_bytes,
};
use vstd::slice::{slice_subrange, slice_to_vec};
use vstd::utf8::{decode_utf8, decode_utf8_encode_utf8, encode_utf8, encode_utf8_decode_utf8,
    encode_utf8_valid_utf8, valid_utf8};
use crate::hashedfile::{record_views, HashedFile, RecordView, Timestamp};
use crate::text::string_from_utf8;

verus! {

/// A string of bytes behind its length.
pub open spec fn block_bytes(payload: Seq<u8>) -> Seq<u8> {
    spec_u64_to_le_bytes(payload.len() as u64) + payload
}

/// A modification time, or the lack of one.
pub open spec fn modified_bytes(modified: Option<Timestamp>) -> Seq<u8> {
    match modified {
        None => seq![0u8],
        Some(time) => seq![1u8] + spec_u64_to_le_bytes(time.secs) + spec_u32_to_le_bytes(time.nanos),
    }
}

/// One record.
pub open spec fn record_bytes(record: RecordView) -> Seq<u8> {
    block_bytes(encode_utf8(record.path)) + block_bytes(record.hash) + modified_bytes(
        record.modified,
    ) + spec_u64_to_le_bytes(record.size)
}

/// Records one after the other.
pub open spec fn records_bytes(records: Seq<RecordView>) -> Seq<u8>
    decreases records.len(),
{
    if records.len() == 0 {
        Seq::empty()
    } else {
        records_bytes(records.drop_last()) + record_bytes(records.last())
    }
}

/// The cache blob of a sequence of records.
pub open spec fn cache_bytes(records: Seq<RecordView>) -> Seq<u8> {
    spec_u64_to_le_bytes(records.len() as u64) + records_bytes(records)
}

/// Whether a record's path and hash are short enough for their 8-byte
/// lengths. Every record that a program can hold is.
pub open spec fn storable(record: RecordView) -> bool {
    encode_utf8(record.path).len() <= u64::MAX && record.hash.len() <= u64::MAX
}

/// Whether a sequence of records can be written as a blob.
pub open spec fn all_storable(records: Seq<RecordView>) -> bool {
    &&& records.len() <= u64::MAX
    &&& forall|i: int| 0 <= i < records.len() ==> storable(#[trigger] records[i])
}

spec fn cut_u64(bytes: Seq<u8>) -> Option<(u64, Seq<u8>)> {
    if bytes.len() >= 8 {
        Some((spec_u64_from_le_bytes(bytes.subrange(0, 8)), bytes.skip(8)))
    } else {
        None
    }
}

spec fn cut_block(bytes: Seq<u8>) -> Option<(Seq<u8>, Seq<u8>)> {
    match cut_u64(bytes) {
        Some((length, rest)) => if length <= rest.len() {
            Some((rest.subrange(0, length as int), rest.skip(length as int)))
        } else {
            None
        },
        None => None,
    }
}

spec fn cut_modified(bytes: Seq<u8>) -> Option<(Option<Timestamp>, Seq<u8>)> {
    if bytes.len() < 1 {
        None
    } else if bytes[0] == 0 {
        Some((None, bytes.skip(1)))
    } else if bytes[0] == 1 && bytes.len() >= 13 {
        Some(
            (
                Some(
                    Timestamp {
                        secs: spec_u64_from_le_bytes(bytes.subrange(1, 9)),
                        nanos: spec_u32_from_le_bytes(bytes.subrange(9, 13)),
                    },
                ),
                bytes.skip(13),
            ),
        )
    } else {
        None
    }
}

spec fn cut_record(bytes: Seq<u8>) -> Option<(RecordView, Seq<u8>)> {
    match cut_block(bytes) {
        Some((path, after_path)) => match cut_block(after_path) {
            Some((hash, after_hash)) => match cut_modified(after_hash) {
                Some((modified, after_modified)) => match cut_u64(after_modified) {
                    Some((size, rest)) => if valid_utf8(path) {
                        Some((RecordView { path: decode_utf8(path), hash, modified, size }, rest))
                    } else {
                        None
                    },
                    None => None,
                },
                None => None,
            },
            None => None,
        },
        None => None,
    }
}

spec fn cut_records(bytes: Seq<u8>, count: nat) -> Option<(Seq<RecordView>, Seq<u8>)>
    decreases count,
{
    if count == 0 {
        Some((Seq::empty(), bytes))
    } else {
        match cut_records(bytes, (count - 1) as nat) {
            Some((records, rest)) => match cut_record(rest) {
                Some((record, tail)) => Some((records.push(record), tail)),
                None => None,
            },
            None => None,
        }
    }
}

/// The records that a blob holds, if it begins with the blob of any. What
/// follows the last record is not looked at.
pub closed spec fn cached_records(blob: Seq<u8>) -> Option<Seq<RecordView>> {
    match cut_u64(blob) {
        Some((count, rest)) => match cut_records(rest, count as nat) {
            Some((records, tail)) => Some(records),
            None => None,
        },
        None => None,
    }
}

proof fn lemma_cut_u64(value: u64, rest: Seq<u8>)
    ensures
        cut_u64(spec_u64_to_le_bytes(value) + rest) == Some((value, rest)),
{
    lemma_auto_spec_u64_to_from_le_bytes();
    let bytes = spec_u64_to_le_bytes(value) + rest;
    assert(bytes.subrange(0, 8) =~= spec_u64_to_le_bytes(value));
    assert(bytes.skip(8) =~= rest);
}

proof fn lemma_cut_u64_back(bytes: Seq<u8>)
    requires
        cut_u64(bytes) is Some,
    ensures
        bytes == spec_u64_to_le_bytes(cut_u64(bytes).unwrap().0) + cut_u64(bytes).unwrap().1,
{
    lemma_auto_spec_u64_to_from_le_bytes();
    let head = bytes.subrange(0, 8);
    assert(spec_u64_to_le_bytes(spec_u64_from_le_bytes(head)) == head);
    assert(bytes =~= head + bytes.skip(8));
}

proof fn lemma_cut_block(payload: Seq<u8>, rest: Seq<u8>)
    requires
        payload.len() <= u64::MAX,
    ensures
        cut_block(block_bytes(payload) + rest) == Some((payload, rest)),
{
    let length = payload.len() as u64;
    assert(block_bytes(payload) + rest =~= spec_u64_to_le_bytes(length) + (payload + rest));
    lemma_cut_u64(length, payload + rest);
    assert((payload + rest).subrange(0, length as int) =~= payload);
    assert((payload + rest).skip(length as int) =~= rest);
}

proof fn lemma_cut_block_back(bytes: Seq<u8>)
    requires
        cut_block(bytes) is Some,
    ensures
        bytes == block_bytes(cut_block(bytes).unwrap().0) + cut_block(bytes).unwrap().1,
        cut_block(bytes).unwrap().0.len() <= u64::MAX,
{
    lemma_cut_u64_back(bytes);
    let length = cut_u64(bytes).unwrap().0;
    let rest = cut_u64(bytes).unwrap().1;
    let payload = rest.subrange(0, length as int);
    assert(rest =~= payload + rest.skip(length as int));
    assert(bytes =~= block_bytes(payload) + rest.skip(length as int));
}

proof fn lemma_cut_modified(modified: Option<Timestamp>, rest: Seq<u8>)
    ensures
        cut_modified(modified_bytes(modified) + rest) == Some((modified, rest)),
{
    lemma_auto_spec_u64_to_from_le_bytes();
    lemma_auto_spec_u32_to_from_le_bytes();
    let bytes = modified_bytes(modified) + rest;
    match modified {
        None => {
            assert(bytes.skip(1) =~= rest);
        },
        Some(time) => {
            assert(bytes.subrange(1, 9) =~= spec_u64_to_le_bytes(time.secs));
            assert(bytes.subrange(9, 13) =~= spec_u32_to_le_bytes(time.nanos));
            assert(bytes.skip(13) =~= rest);
        },
    }
}

proof fn lemma_cut_modified_back(bytes: Seq<u8>)
    requires
        cut_modified(bytes) is Some,
    ensures
        bytes == modified_bytes(cut_modified(bytes).unwrap().0) + cut_modified(bytes).unwrap().1,
{
    lemma_auto_spec_u64_to_from_le_bytes();
    lemma_auto_spec_u32_to_from_le_bytes();
    if bytes[0] == 0 {
        assert(bytes =~= seq![0u8] + bytes.skip(1));
    } else {
        let secs = bytes.subrange(1, 9);
        let nanos = bytes.subrange(9, 13);
        assert(spec_u64_to_le_bytes(spec_u64_from_le_bytes(secs)) == secs);
        assert(spec_u32_to_le_bytes(spec_u32_from_le_bytes(nanos)) == nanos);
        assert(bytes =~= seq![1u8] + secs + nanos + bytes.skip(13));
    }
}

proof fn lemma_cut_record(record: RecordView, rest: Seq<u8>)
    requires
        storable(record),
    ensures
        cut_record(record_bytes(record) + rest) == Some((record, rest)),
{
    let path = encode_utf8(record.path);
    let after_modified = spec_u64_to_le_bytes(record.size) + rest;
    let after_hash = modified_bytes(record.modified) + after_modified;
    let after_path = block_bytes(record.hash) + after_hash;
    assert(record_bytes(record) + rest =~= block_bytes(path) + after_path);
    lemma_cut_block(path, after_path);
    lemma_cut_block(record.hash, after_hash);
    lemma_cut_modified(record.modified, after_modified);
    lemma_cut_u64(record.size, rest);
    encode_utf8_valid_utf8(record.path);
    encode_utf8_decode_utf8(record.path);
}

proof fn lemma_cut_record_back(bytes: Seq<u8>)
    requires
        cut_record(bytes) is Some,
    ensures
        bytes == record_bytes(cut_record(bytes).unwrap().0) + cut_record(bytes).unwrap().1,
        storable(cut_record(bytes).unwrap().0),
{
    let (path, after_path) = cut_block(bytes)->0;
    let (hash, after_hash) = cut_block(after_path)->0;
    let (modified, after_modified) = cut_modified(after_hash)->0;
    let (size, rest) = cut_u64(after_modified)->0;
    lemma_cut_block_back(bytes);
    lemma_cut_block_back(after_path);
    lemma_cut_modified_back(after_hash);
    lemma_cut_u64_back(after_modified);
    decode_utf8_encode_utf8(path);
    let record = cut_record(bytes).unwrap().0;
    assert(encode_utf8(record.path) == path);
    assert(bytes =~= record_bytes(record) + rest);
}

proof fn lemma_records_bytes_push(records: Seq<RecordView>, record: RecordView)
    ensures
        records_bytes(records.push(record)) == records_bytes(records) + record_bytes(record),
{
    assert(records.push(record).drop_last() =~= records);
}

proof fn lemma_cut_records(records: Seq<RecordView>, rest: Seq<u8>)
    requires
        forall|i: int| 0 <= i < records.len() ==> storable(#[trigger] records[i]),
    ensures
        cut_records(records_bytes(records) + rest, records.len()) == Some((records, rest)),
    decreases records.len(),
{
    if records.len() == 0 {
        assert(records_bytes(records) + rest =~= rest);
        assert(records =~= Seq::empty());
    } else {
        let front = records.drop_last();
        let last = records.last();
        let tail = record_bytes(last) + rest;
        assert(records_bytes(records) + rest =~= records_bytes(front) + tail);
        assert forall|i: int| 0 <= i < front.len() implies storable(#[trigger] front[i]) by {
            assert(front[i] == records[i]);
        }
        lemma_cut_records(front, tail);
        lemma_cut_record(last, rest);
        assert(front.push(last) =~= records);
    }
}

proof fn lemma_cut_records_back(bytes: Seq<u8>, count: nat)
    requires
        cut_records(bytes, count) is Some,
    ensures
        bytes == records_bytes(cut_records(bytes, count).unwrap().0) + cut_records(bytes, count).unwrap().1,
        cut_records(bytes, count).unwrap().0.len() == count,
        forall|i: int|
            0 <= i < count ==> storable(#[trigger] cut_records(bytes, count).unwrap().0[i]),
    decreases count,
{
    if count == 0 {
        assert(bytes =~= records_bytes(Seq::empty()) + bytes);
    } else {
        let (front, rest) = cut_records(bytes, (count - 1) as nat)->0;
        let (record, tail) = cut_record(rest)->0;
        lemma_cut_records_back(bytes, (count - 1) as nat);
        lemma_cut_record_back(rest);
        lemma_records_bytes_push(front, record);
        assert(bytes =~= records_bytes(front.push(record)) + tail);
    }
}

/// A blob holds the records it was made of.
pub proof fn lemma_cache_round_trip(records: Seq<RecordView>)
    requires
        all_storable(records),
    ensures
        cached_records(cache_bytes(records)) == Some(records),
{
    lemma_cache_prefix(records, Seq::empty());
    assert(cache_bytes(records) + Seq::<u8>::empty() =~= cache_bytes(records));
}

/// Bytes that follow a blob do not change what is read from it.
pub proof fn lemma_cache_prefix(records: Seq<RecordView>, tail: Seq<u8>)
    requires
        all_storable(records),
    ensures
        cached_records(cache_bytes(records) + tail) == Some(records),
{
    let count = records.len() as u64;
    lemma_cut_u64(count, records_bytes(records) + tail);
    lemma_cut_records(records, tail);
    assert(cache_bytes(records) + tail =~= spec_u64_to_le_bytes(count) + (records_bytes(records)
        + tail));
}

/// Only a blob that begins with the blob of some records holds records:
/// nothing else is read as a cache.
pub proof fn lemma_cached_records_exact(blob: Seq<u8>)
    requires
        cached_records(blob) is Some,
    ensures
        all_storable(cached_records(blob)->0),
        cache_bytes(cached_records(blob)->0).len() <= blob.len(),
        blob.take(cache_bytes(cached_records(blob)->0).len() as int) == cache_bytes(
            cached_records(blob)->0,
        ),
{
    let (count, rest) = cut_u64(blob)->0;
    lemma_cut_u64_back(blob);
    lemma_cut_records_back(rest, count as nat);
    let (records, tail) = cut_records(rest, count as nat)->0;
    assert(blob =~= cache_bytes(records) + tail);
    assert(blob.take(cache_bytes(records).len() as int) =~= cache_bytes(records));
}

fn put_bytes(out: &mut Vec<u8>, more: &[u8])
    ensures
        final(out)@ == old(out)@ + more@,
{
    for i in 0..more.len()
        invariant
            out@ == old(out)@ + more@.take(i as int),
    {
        out.push(more[i]);
        proof {
            assert(more@.take(i + 1) =~= more@.take(i as int).push(more@[i as int]));
        }
    }
    proof {
        assert(more@.take(more@.len() as int) =~= more@);
    }
}

fn put_u64(out: &mut Vec<u8>, value: u64)
    ensures
        final(out)@ == old(out)@ + spec_u64_to_le_bytes(value),
{
    let bytes = u64_to_le_bytes(value);
    put_bytes(out, bytes.as_slice());
}

fn put_block(out: &mut Vec<u8>, payload: &[u8])
    ensures
        final(out)@ == old(out)@ + block_bytes(payload@),
        payload@.len() <= u64::MAX,
{
    let length: usize = payload.len();
    put_u64(out, length as u64);
    put_bytes(out, payload);
    proof {
        assert(old(out)@ + spec_u64_to_le_bytes(length as u64) + payload@ =~= old(out)@
            + block_bytes(payload@));
    }
}

fn put_record(out: &mut Vec<u8>, record: &HashedFile)
    ensures
        final(out)@ == old(out)@ + record_bytes(record@),
        storable(record@),
{
    put_block(out, record.path().as_str().as_bytes());
    put_block(out, record.hash().as_slice());
    let ghost before_time = out@;
    match record.modified() {
        None => {
            out.push(0u8);
            proof {
                assert(out@ =~= before_time + modified_bytes(record@.modified));
            }
        },
        Some(time) => {
            out.push(1u8);
            put_u64(out, time.secs);
            let nanos = u32_to_le_bytes(time.nanos);
            put_bytes(out, nanos.as_slice());
            proof {
                assert(out@ =~= before_time + modified_bytes(record@.modified));
            }
        },
    }
    put_u64(out, record.size());
    proof {
        assert(out@ =~= old(out)@ + record_bytes(record@));
    }
}

/// Writes records as a cache blob.
pub fn encode_cache(records: &Vec<HashedFile>) -> (blob: Vec<u8>)
    ensures
        blob@ == cache_bytes(record_views(records@)),
        all_storable(record_views(records@)),
{
    let ghost views = record_views(records@);
    let mut blob: Vec<u8> = Vec::new();
    let count: usize = records.len();
    put_u64(&mut blob, count as u64);
    proof {
        assert(views.take(0) =~= Seq::<RecordView>::empty());
        assert(blob@ =~= spec_u64_to_le_bytes(count as u64) + records_bytes(views.take(0)));
    }
    for i in 0..count
        invariant
            count == records@.len(),
            views == record_views(records@),
            blob@ == spec_u64_to_le_bytes(count as u64) + records_bytes(views.take(i as int)),
            forall|k: int| 0 <= k < i ==> storable(#[trigger] views[k]),
    {
        put_record(&mut blob, &records[i]);
        proof {
            lemma_records_bytes_push(views.take(i as int), views[i as int]);
            assert(views.take(i + 1) =~= views.take(i as int).push(views[i as int]));
            assert(blob@ =~= spec_u64_to_le_bytes(count as u64) + records_bytes(
                views.take(i + 1),
            ));
        }
    }
    proof {
        assert(views.take(count as int) =~= views);
    }
    blob
}

fn take_u64(blob: &[u8], pos: usize) -> (taken: Option<(u64, usize)>)
    requires
        pos <= blob@.len(),
    ensures
        match taken {
            Some((value, next)) => pos <= next <= blob@.len() && cut_u64(blob@.skip(pos as int))
                == Some((value, blob@.skip(next as int))),
            None => cut_u64(blob@.skip(pos as int)) is None,
        },
{
    if blob.len() - pos < 8 {
        return None;
    }
    let value = u64_from_le_bytes(slice_subrange(blob, pos, pos + 8));
    proof {
        assert(blob@.skip(pos as int).subrange(0, 8) =~= blob@.subrange(pos as int, pos + 8));
        assert(blob@.skip(pos as int).skip(8) =~= blob@.skip(pos + 8));
    }
    Some((value, pos + 8))
}

fn take_block(blob: &[u8], pos: usize) -> (taken: Option<(Vec<u8>, usize)>)
    requires
        pos <= blob@.len(),
    ensures
        match taken {
            Some((payload, next)) => pos <= next <= blob@.len() && cut_block(
                blob@.skip(pos as int),
            ) == Some((payload@, blob@.skip(next as int))),
            None => cut_block(blob@.skip(pos as int)) is None,
        },
{
    let (length, start) = match take_u64(blob, pos) {
        Some(taken) => taken,
        None => {
            return None;
        },
    };
    if length > (blob.len() - start) as u64 {
        return None;
    }
    let end: usize = start + length as usize;
    let payload = slice_to_vec(slice_subrange(blob, start, end));
    proof {
        assert(blob@.skip(start as int).subrange(0, length as int) =~= blob@.subrange(
            start as int,
            end as int,
        ));
        assert(blob@.skip(start as int).skip(length as int) =~= blob@.skip(end as int));
    }
    Some((payload, end))
}

fn take_modified(blob: &[u8], pos: usize) -> (taken: Option<(Option<Timestamp>, usize)>)
    requires
        pos <= blob@.len(),
    ensures
        match taken {
            Some((modified, next)) => pos <= next <= blob@.len() && cut_modified(
                blob@.skip(pos as int),
            ) == Some((modified, blob@.skip(next as int))),
            None => cut_modified(blob@.skip(pos as int)) is None,
        },
{
    if blob.len() - pos < 1 {
        return None;
    }
    let tag: u8 = blob[pos];
    let ghost tail = blob@.skip(pos as int);
    proof {
        assert(tail[0] == blob@[pos as int]);
    }
    if tag == 0 {
        proof {
            assert(tail.skip(1) =~= blob@.skip(pos + 1));
        }
        return Some((None, pos + 1));
    }
    if tag != 1 || blob.len() - pos < 13 {
        return None;
    }
    let secs = u64_from_le_bytes(slice_subrange(blob, pos + 1, pos + 9));
    let nanos = u32_from_le_bytes(slice_subrange(blob, pos + 9, pos + 13));
    proof {
        assert(tail.subrange(1, 9) =~= blob@.subrange(pos + 1, pos + 9));
        assert(tail.subrange(9, 13) =~= blob@.subrange(pos + 9, pos + 13));
        assert(tail.skip(13) =~= blob@.skip(pos + 13));
    }
    Some((Some(Timestamp { secs, nanos }), pos + 13))
}

fn take_record(blob: &[u8], pos: usize) -> (taken: Option<(HashedFile, usize)>)
    requires
        pos <= blob@.len(),
    ensures
        match taken {
            Some((record, next)) => pos <= next <= blob@.len() && cut_record(
                blob@.skip(pos as int),
            ) == Some((record@, blob@.skip(next as int))),
            None => cut_record(blob@.skip(pos as int)) is None,
        },
{
    let (path_bytes, after_path) = match take_block(blob, pos) {
        Some(taken) => taken,
        None => {
            return None;
        },
    };
    let (hash, after_hash) = match take_block(blob, after_path) {
        Some(taken) => taken,
        None => {
            return None;
        },
    };
    let (modified, after_modified) = match take_modified(blob, after_hash) {
        Some(taken) => taken,
        None => {
            return None;
        },
    };
    let (size, next) = match take_u64(blob, after_modified) {
        Some(taken) => taken,
        None => {
            return None;
        },
    };
    let ghost raw_path = path_bytes@;
    let path = match string_from_utf8(path_bytes) {
        Some(path) => path,
        None => {
            return None;
        },
    };
    proof {
        encode_utf8_decode_utf8(path@);
        assert(decode_utf8(raw_path) == path@);
    }
    Some((HashedFile::from_parts(path, hash, modified, size), next))
}

proof fn lemma_cut_records_stops(bytes: Seq<u8>, done: nat, count: nat)
    requires
        cut_records(bytes, done) is None,
        done <= count,
    ensures
        cut_records(bytes, count) is None,
    decreases count,
{
    if done < count {
        lemma_cut_records_stops(bytes, done, (count - 1) as nat);
    }
}

/// Reads a cache blob back into records. A blob that does not begin with
/// the blob of any sequence of records gives nothing; bytes after the last
/// record are passed over.
pub fn decode_cache(blob: &[u8]) -> (decoded: Option<Vec<HashedFile>>)
    ensures
        match decoded {
            Some(records) => cached_records(blob@) == Some(record_views(records@)),
            None => cached_records(blob@) is None,
        },
{
    proof {
        assert(blob@.skip(0) =~= blob@);
    }
    let (count, start) = match take_u64(blob, 0) {
        Some(taken) => taken,
        None => {
            return None;
        },
    };
    let ghost body = blob@.skip(start as int);
    let mut records: Vec<HashedFile> = Vec::new();
    let mut pos: usize = start;
    let mut done: u64 = 0;
    proof {
        assert(record_views(records@) =~= Seq::<RecordView>::empty());
    }
    while done < count
        invariant
            done <= count,
            start <= pos <= blob@.len(),
            body == blob@.skip(start as int),
            cut_u64(blob@) == Some((count, body)),
            cut_records(body, done as nat) == Some(
                (record_views(records@), blob@.skip(pos as int)),
            ),
        decreases count - done,
    {
        match take_record(blob, pos) {
            Some((record, next)) => {
                proof {
                    assert(record_views(records@.push(record)) =~= record_views(records@).push(
                        record@,
                    ));
                }
                records.push(record);
                pos = next;
                done = done + 1;
            },
            None => {
                proof {
                    assert(cut_records(body, (done + 1) as nat) is None);
                    lemma_cut_records_stops(body, (done + 1) as nat, count as nat);
                }
                return None;
            },
        }
    }
    Some(records)
}

} // verus!
