//! The record kept for one hashed file, and the hashing of a file's bytes.

use vstd::prelude::*;
use crate::digest::{absorbed, sha512_absorb, sha512_digest, sha512_finish, sha512_start, Sha512State};

verus! {

/// A modification time, as whole seconds and nanoseconds since the Unix epoch.
#[derive(Clone, Copy, Debug, PartialEq, Eq, Structural)]
pub struct Timestamp {
    pub secs: u64,
    pub nanos: u32,
}

/// What a [`HashedFile`] holds, as mathematical values.
pub ghost struct RecordView {
    pub path: Seq<char>,
    pub hash: Seq<u8>,
    pub modified: Option<Timestamp>,
    pub size: u64,
}

/// The record of a file with the given bytes: their SHA-512 digest and their
/// number.
pub open spec fn record_of(
    path: Seq<char>,
    modified: Option<Timestamp>,
    content: Seq<u8>,
) -> RecordView {
    RecordView { path, hash: sha512_digest(content), modified, size: content.len() as u64 }
}

/// One hashed file: its normalised path, the digest of its content, its
/// modification time where the file system gave one, and its size in bytes.
/// A record is never changed once made; a newer one replaces it.
#[derive(Debug)]
pub struct HashedFile {
    path: String,
    hash: Vec<u8>,
    modified: Option<Timestamp>,
    size: u64,
}

impl View for HashedFile {
    type V = RecordView;

    closed spec fn view(&self) -> RecordView {
        RecordView { path: self.path@, hash: self.hash@, modified: self.modified, size: self.size }
    }
}

/// The records that a vector holds.
pub open spec fn record_views(records: Seq<HashedFile>) -> Seq<RecordView> {
    records.map_values(|record: HashedFile| record@)
}

/// A copy of a byte vector.
pub fn clone_bytes(bytes: &Vec<u8>) -> (copy: Vec<u8>)
    ensures
        copy@ == bytes@,
{
    let copy = bytes.clone();
    assert(copy@ =~= bytes@);
    copy
}

impl HashedFile {
    /// Hashes `contents`, the whole content of the file at `path`, into a record.
    pub fn new(path: String, modified: Option<Timestamp>, contents: &[u8]) -> (record: Self)
        ensures
            record@ == record_of(path@, modified, contents@),
            record@.hash.len() == 64,
    {
        let mut state = sha512_start();
        sha512_absorb(&mut state, contents);
        proof {
            assert(Seq::<u8>::empty() + contents@ =~= contents@);
        }
        HashedFile { path, hash: sha512_finish(state), modified, size: contents.len() as u64 }
    }

    /// A record made of values that are already known, such as one read back
    /// from a cache.
    pub fn from_parts(path: String, hash: Vec<u8>, modified: Option<Timestamp>, size: u64) -> (record:
        Self)
        ensures
            record@ == (RecordView { path: path@, hash: hash@, modified, size }),
    {
        HashedFile { path, hash, modified, size }
    }

    pub fn path(&self) -> (path: &String)
        ensures
            path@ == self@.path,
    {
        &self.path
    }

    pub fn size(&self) -> (size: u64)
        ensures
            size == self@.size,
    {
        self.size
    }

    pub fn modified(&self) -> (modified: Option<Timestamp>)
        ensures
            modified == self@.modified,
    {
        self.modified
    }

    pub fn hash(&self) -> (hash: &Vec<u8>)
        ensures
            hash@ == self@.hash,
    {
        &self.hash
    }
}

impl Clone for HashedFile {
    fn clone(&self) -> (copy: Self)
        ensures
            copy@ == self@,
    {
        HashedFile {
            path: self.path.clone(),
            hash: clone_bytes(&self.hash),
            modified: self.modified,
            size: self.size,
        }
    }
}

/// Hashes a file that is read piece by piece, counting its bytes on the way.
pub struct FileHasher {
    state: Sha512State,
    size: u64,
}

impl FileHasher {
    #[verifier::type_invariant]
    spec fn counted(self) -> bool {
        self.size as nat == absorbed(self.state).len()
    }

    /// The bytes fed so far.
    pub closed spec fn content(&self) -> Seq<u8> {
        absorbed(self.state)
    }

    /// A hasher that has been fed nothing.
    pub fn new() -> (hasher: Self)
        ensures
            hasher.content() == Seq::<u8>::empty(),
    {
        FileHasher { state: sha512_start(), size: 0 }
    }

    /// The number of bytes fed so far.
    pub fn size(&self) -> (size: u64)
        ensures
            size as nat == self.content().len(),
    {
        proof {
            use_type_invariant(self);
        }
        self.size
    }

    /// Feeds the next piece of the file. Gives the hasher back unless the
    /// byte count would no longer fit in 64 bits.
    pub fn update(self, chunk: &[u8]) -> (fed: Option<Self>)
        ensures
            fed is Some <==> self.content().len() + chunk@.len() <= u64::MAX,
            fed matches Some(hasher) ==> hasher.content() == self.content() + chunk@,
    {
        proof {
            use_type_invariant(&self);
        }
        let FileHasher { state, size } = self;
        let mut state = state;
        match size.checked_add(chunk.len() as u64) {
            Some(total) => {
                sha512_absorb(&mut state, chunk);
                Some(FileHasher { state, size: total })
            },
            None => None,
        }
    }

    /// Ends the hashing and makes the file's record.
    pub fn finish(self, path: String, modified: Option<Timestamp>) -> (record: HashedFile)
        ensures
            record@ == record_of(path@, modified, self.content()),
            record@.hash.len() == 64,
    {
        proof {
            use_type_invariant(&self);
        }
        let FileHasher { state, size } = self;
        HashedFile { path, hash: sha512_finish(state), modified, size }
    }
}

} // verus!
