//! The engine: which directories to scan, how paths are written, how many
//! workers hash, and the index that the scan fills.

use vstd::prelude::*;
use crate::cache::{cache_bytes, cached_records};
use crate::dedupstate::DedupState;
use crate::duplicates::{report_views, texts, Duplicates};
use crate::hashedfile::{HashedFile, Timestamp};
use crate::model::{FileView, IndexView};
use crate::text::{normalize_separators, normalized};

verus! {

/// `std::path::MAIN_SEPARATOR`: the character that separates the components
/// of a path on the platform the program runs on. Nothing is claimed of it.
#[verifier::external_body]
fn main_separator() -> (separator: char) {
    std::path::MAIN_SEPARATOR
}

/// Rewrites the separators of the platform in `path` to `/`.
pub fn apply_path_normalization(path: &mut String)
    ensures
        exists|separator: char| final(path)@ == normalized(old(path)@, separator),
{
    let separator = main_separator();
    let rewritten = normalize_separators(path.as_str(), separator);
    *path = rewritten;
}

/// The number of workers for a number that was asked for and the parallelism
/// that the host offers: the first of the two that is a number above zero,
/// and one where neither is.
pub open spec fn worker_choice(asked: Option<usize>, available: Option<usize>) -> usize {
    if asked is Some && asked.unwrap() >= 1 {
        asked.unwrap()
    } else if available is Some && available.unwrap() >= 1 {
        available.unwrap()
    } else {
        1
    }
}

/// A file found by the scan, with its bytes if they could be read.
pub struct FileEntry {
    pub path: String,
    pub modified: Option<Timestamp>,
    pub contents: Option<Vec<u8>>,
}

impl View for FileEntry {
    type V = FileView;

    open spec fn view(&self) -> FileView {
        FileView {
            path: self.path@,
            modified: self.modified,
            content: match self.contents {
                Some(bytes) => Some(bytes@),
                None => None,
            },
        }
    }
}

/// The files that a vector of entries holds.
pub open spec fn file_views(files: Seq<FileEntry>) -> Seq<FileView> {
    files.map_values(|file: FileEntry| file@)
}

/// What is to be done with a file that the scan has found.
#[derive(Debug)]
pub enum FileAction {
    /// The record kept for the file was reused: nothing is left to do.
    Reused,
    /// The file has to be hashed; its record goes under `path`.
    Hash { path: String },
}

pub struct Deduplicator {
    dirs: Vec<String>,
    dedup_state: DedupState,
    normalize_path: bool,
    threads: Option<usize>,
    separator: char,
}

impl Deduplicator {
    /// The directories to scan.
    pub closed spec fn dirs_view(&self) -> Seq<Seq<char>> {
        texts(self.dirs@)
    }

    /// The index.
    pub closed spec fn index(&self) -> IndexView {
        self.dedup_state@
    }

    /// Whether paths are normalised before they are looked up and kept.
    pub closed spec fn normalizes(&self) -> bool {
        self.normalize_path
    }

    /// The number of workers asked for, if any.
    pub closed spec fn threads_view(&self) -> Option<usize> {
        self.threads
    }

    /// The separator that normalisation rewrites.
    pub closed spec fn separator(&self) -> char {
        self.separator
    }

    /// The path under which a file is looked up and kept.
    pub open spec fn kept_path(&self, path: Seq<char>) -> Seq<char> {
        if self.normalizes() {
            normalized(path, self.separator())
        } else {
            path
        }
    }

    /// A file as the index sees it: under its kept path.
    pub open spec fn kept_file(&self, file: FileView) -> FileView {
        FileView { path: self.kept_path(file.path), modified: file.modified, content: file.content }
    }

    /// An engine for `dirs` with an empty index, which keeps paths as they
    /// are and leaves the number of workers open.
    pub fn new(dirs: Vec<String>) -> (engine: Self)
        ensures
            engine.dirs_view() == texts(dirs@),
            engine.index() == IndexView::empty(),
            !engine.normalizes(),
            engine.threads_view() is None,
    {
        Deduplicator {
            dirs,
            dedup_state: DedupState::new(),
            normalize_path: false,
            threads: None,
            separator: main_separator(),
        }
    }

    /// As [`Deduplicator::new`], for a platform whose paths are separated by
    /// `separator`.
    pub fn with_separator(dirs: Vec<String>, separator: char) -> (engine: Self)
        ensures
            engine.dirs_view() == texts(dirs@),
            engine.index() == IndexView::empty(),
            !engine.normalizes(),
            engine.threads_view() is None,
            engine.separator() == separator,
    {
        Deduplicator {
            dirs,
            dedup_state: DedupState::new(),
            normalize_path: false,
            threads: None,
            separator,
        }
    }

    /// Sets the number of workers. Zero is no number of workers: it is
    /// ignored, and what was set before stays.
    pub fn set_threads(&mut self, threads: Option<usize>)
        ensures
            final(self).threads_view() == if threads == Some(0usize) {
                old(self).threads_view()
            } else {
                threads
            },
            final(self).dirs_view() == old(self).dirs_view(),
            final(self).index() == old(self).index(),
            final(self).normalizes() == old(self).normalizes(),
            final(self).separator() == old(self).separator(),
    {
        match threads {
            Some(count) => {
                if count == 0 {
                    return ;
                }
            },
            None => {},
        }
        self.threads = threads;
    }

    /// The number of workers to hash with, never zero: the number that was
    /// set, else the parallelism that the host offers, else one.
    pub fn worker_count(&self, available: Option<usize>) -> (workers: usize)
        ensures
            workers >= 1,
            workers == worker_choice(self.threads_view(), available),
    {
        match self.threads {
            Some(count) => {
                if count >= 1 {
                    return count;
                }
            },
            None => {},
        }
        match available {
            Some(offered) => {
                if offered >= 1 {
                    return offered;
                }
            },
            None => {},
        }
        1
    }

    /// Adds a directory to scan.
    pub fn add_dir(&mut self, dir: String)
        ensures
            final(self).dirs_view() == old(self).dirs_view().push(dir@),
            final(self).index() == old(self).index(),
            final(self).normalizes() == old(self).normalizes(),
            final(self).threads_view() == old(self).threads_view(),
            final(self).separator() == old(self).separator(),
    {
        self.dirs.push(dir);
        proof {
            assert(texts(self.dirs@) =~= texts(old(self).dirs@).push(dir@));
        }
    }

    /// Turns the normalisation of paths on or off.
    pub fn set_normalize_path(&mut self, normalize: bool)
        ensures
            final(self).normalizes() == normalize,
            final(self).dirs_view() == old(self).dirs_view(),
            final(self).index() == old(self).index(),
            final(self).threads_view() == old(self).threads_view(),
            final(self).separator() == old(self).separator(),
    {
        self.normalize_path = normalize;
    }

    /// The directories to scan.
    pub fn dirs(&self) -> (dirs: &Vec<String>)
        ensures
            texts(dirs@) == self.dirs_view(),
    {
        &self.dirs
    }

    /// Loads a cache blob into the index and says whether it was one. A blob
    /// that is not a cache blob changes nothing: the run goes on as with an
    /// empty cache.
    pub fn read_cache(&mut self, blob: &[u8]) -> (loaded: bool)
        ensures
            match cached_records(blob@) {
                Some(records) => loaded && final(self).index() == old(self).index().load(records),
                None => !loaded && final(self).index() == old(self).index(),
            },
            final(self).dirs_view() == old(self).dirs_view(),
            final(self).normalizes() == old(self).normalizes(),
            final(self).threads_view() == old(self).threads_view(),
            final(self).separator() == old(self).separator(),
    {
        match self.dedup_state.read_cache(blob) {
            Ok(_) => true,
            Err(_) => false,
        }
    }

    /// The cache blob of every record that the index keeps.
    pub fn write_cache(&self) -> (blob: Vec<u8>)
        ensures
            blob@ == cache_bytes(self.index().records),
            cached_records(blob@) == Some(self.index().records),
    {
        self.dedup_state.write_cache()
    }

    /// Decides what to do with a file that the scan has found. The path is
    /// normalised if that is asked for; then the record kept for it is
    /// reused if it carries the file's modification time. Otherwise the file
    /// has to be hashed.
    pub fn examine(&mut self, path: String, modified: Option<Timestamp>) -> (action: FileAction)
        ensures
            final(self).index() == old(self).index().try_reuse(
                old(self).kept_path(path@),
                modified,
            ),
            action is Reused <==> old(self).index().reusable(old(self).kept_path(path@), modified),
            action matches FileAction::Hash { path: kept } ==> kept@ == old(self).kept_path(path@),
            final(self).dirs_view() == old(self).dirs_view(),
            final(self).normalizes() == old(self).normalizes(),
            final(self).threads_view() == old(self).threads_view(),
            final(self).separator() == old(self).separator(),
    {
        let kept = if self.normalize_path {
            normalize_separators(path.as_str(), self.separator)
        } else {
            path
        };
        if self.dedup_state.reuse_if_cached(&kept, &modified) {
            FileAction::Reused
        } else {
            FileAction::Hash { path: kept }
        }
    }

    /// Inserts the record of a file that has been hashed.
    pub fn add_hashed_file(&mut self, hf: HashedFile)
        ensures
            final(self).index() == old(self).index().insert(hf@),
            final(self).dirs_view() == old(self).dirs_view(),
            final(self).normalizes() == old(self).normalizes(),
            final(self).threads_view() == old(self).threads_view(),
            final(self).separator() == old(self).separator(),
    {
        self.dedup_state.add_hashed_file(hf);
    }

    /// Visits one file: reuses its record, or hashes its bytes and inserts
    /// the record, or passes over it if its bytes could not be read.
    pub fn visit(&mut self, file: &FileEntry)
        ensures
            final(self).index() == old(self).index().visit(old(self).kept_file(file@)),
            final(self).dirs_view() == old(self).dirs_view(),
            final(self).normalizes() == old(self).normalizes(),
            final(self).threads_view() == old(self).threads_view(),
            final(self).separator() == old(self).separator(),
    {
        match self.examine(file.path.clone(), file.modified) {
            FileAction::Reused => {},
            FileAction::Hash { path } => {
                match &file.contents {
                    Some(bytes) => {
                        self.add_hashed_file(HashedFile::new(path, file.modified, bytes.as_slice()));
                    },
                    None => {},
                }
            },
        }
    }

    /// The duplicate report of the index as it stands.
    pub fn duplicates(&self) -> (report: Vec<Duplicates>)
        ensures
            report_views(report@) == self.index().duplicates(0),
    {
        self.dedup_state.duplicates()
    }

    /// The duplicate report in which only groups larger than `minsize`
    /// appear.
    pub fn duplicates_with_minsize(&self, minsize: u64) -> (report: Vec<Duplicates>)
        ensures
            report_views(report@) == self.index().duplicates(minsize),
    {
        self.dedup_state.duplicates_with_minsize(minsize)
    }

    /// Runs the engine over `files`, one after the other in the order given,
    /// and reports the duplicates.
    pub fn run(&mut self, files: &Vec<FileEntry>) -> (report: Vec<Duplicates>)
        ensures
            final(self).index() == old(self).index().scan(
                file_views(files@).map_values(|file: FileView| old(self).kept_file(file)),
            ),
            report_views(report@) == final(self).index().duplicates(0),
            final(self).dirs_view() == old(self).dirs_view(),
            final(self).normalizes() == old(self).normalizes(),
            final(self).threads_view() == old(self).threads_view(),
            final(self).separator() == old(self).separator(),
    {
        let ghost kept = file_views(files@).map_values(|file: FileView| old(self).kept_file(file));
        proof {
            assert(kept.take(0) =~= Seq::<FileView>::empty());
        }
        for i in 0..files.len()
            invariant
                kept == file_views(files@).map_values(|file: FileView| old(self).kept_file(file)),
                self.index() == old(self).index().scan(kept.take(i as int)),
                self.dirs_view() == old(self).dirs_view(),
                self.normalizes() == old(self).normalizes(),
                self.threads_view() == old(self).threads_view(),
                self.separator() == old(self).separator(),
        {
            proof {
                assert(kept.take(i + 1).drop_last() =~= kept.take(i as int));
                assert(kept[i as int] == self.kept_file(files@[i as int]@));
            }
            self.visit(&files[i]);
        }
        proof {
            assert(kept.take(files@.len() as int) =~= kept);
        }
        self.duplicates()
    }
}

impl Default for Deduplicator {
    fn default() -> (engine: Self)
        ensures
            engine.dirs_view() == Seq::<Seq<char>>::empty(),
            engine.index() == IndexView::empty(),
            !engine.normalizes(),
            engine.threads_view() is None,
    {
        let engine = Deduplicator::new(Vec::new());
        proof {
            assert(engine.dirs_view() =~= Seq::<Seq<char>>::empty());
        }
        engine
    }
}

} // verus!
