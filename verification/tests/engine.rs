use fdedup::{DedupState, Deduplicator, FileAction, FileEntry, FileHasher, HashedFile, Timestamp};
use sha2::Digest;

const HELLO_HEX: &str = "9b71d224bd62f3785d96d46ad3ea3d73319bfbc2890caadae2dff72519673ca72323c3d99ba5c11d7c7acc6e14b8c5da0c4663475c2e5c3adef46f73bcdec043";

fn at(secs: u64) -> Option<Timestamp> {
    Some(Timestamp { secs, nanos: 0 })
}

fn entry(path: &str, modified: Option<Timestamp>, contents: &str) -> FileEntry {
    FileEntry { path: path.to_string(), modified, contents: Some(contents.as_bytes().to_vec()) }
}

fn names(paths: &Vec<String>) -> Vec<&str> {
    paths.iter().map(|p| p.as_str()).collect()
}

#[test]
fn record_holds_sha512_and_size() {
    let record = HashedFile::new("a".to_string(), at(7), b"hello");
    assert_eq!(record.path(), "a");
    assert_eq!(record.size(), 5);
    assert_eq!(record.modified(), at(7));
    assert_eq!(hex::encode(record.hash()), HELLO_HEX);
    assert_eq!(record.hash().to_vec(), sha2::Sha512::digest(b"hello").to_vec());
    assert_eq!(record.hash().len(), 64);
}

#[test]
fn empty_content_is_hashed_too() {
    let record = HashedFile::new("empty".to_string(), None, b"");
    assert_eq!(record.size(), 0);
    assert_eq!(record.hash().to_vec(), sha2::Sha512::digest(b"").to_vec());
}

#[test]
fn hashing_in_pieces_gives_the_same_record() {
    let hasher = FileHasher::new();
    assert_eq!(hasher.size(), 0);
    let hasher = hasher.update(b"he").unwrap();
    let hasher = hasher.update(b"").unwrap();
    let hasher = hasher.update(b"llo").unwrap();
    assert_eq!(hasher.size(), 5);
    let pieces = hasher.finish("a".to_string(), at(1));
    let whole = HashedFile::new("a".to_string(), at(1), b"hello");
    assert_eq!(pieces.hash(), whole.hash());
    assert_eq!(pieces.size(), whole.size());
    assert_eq!(pieces.path(), "a");
    assert_eq!(pieces.modified(), at(1));
}

#[test]
fn from_parts_keeps_what_it_is_given() {
    let record = HashedFile::from_parts("p".to_string(), vec![1, 2, 3], None, 99);
    assert_eq!(record.path(), "p");
    assert_eq!(record.hash(), &vec![1u8, 2, 3]);
    assert_eq!(record.modified(), None);
    assert_eq!(record.size(), 99);
    let copy = record.clone();
    assert_eq!(copy.hash(), record.hash());
    assert_eq!(copy.path(), record.path());
}

#[test]
fn two_hello_files_and_one_world_file() {
    let mut engine = Deduplicator::new(vec![".".to_string()]);
    let files = vec![entry("a", at(1), "hello"), entry("b", at(2), "hello"), entry("c", at(3), "world")];
    let report = engine.run(&files);
    assert_eq!(report.len(), 1);
    assert_eq!(names(report[0].paths()), vec!["a", "b"]);
    assert_eq!(report[0].size(), 5);
    assert_eq!(report[0].hash_as_hex(), HELLO_HEX);
}

#[test]
fn touched_file_is_hashed_again() {
    let mut first = Deduplicator::new(vec![]);
    first.run(&vec![entry("a", at(100), "hello"), entry("b", at(100), "hello")]);
    let blob = first.write_cache();

    let mut second = Deduplicator::new(vec![]);
    assert!(second.read_cache(&blob));
    let action = second.examine("a".to_string(), at(200));
    match action {
        FileAction::Hash { path } => {
            assert_eq!(path, "a");
            second.add_hashed_file(HashedFile::new(path, at(200), b"hello"));
        }
        FileAction::Reused => panic!("a changed its time and must be hashed"),
    }
    assert!(matches!(second.examine("b".to_string(), at(100)), FileAction::Reused));
    let report = second.duplicates();
    assert_eq!(report.len(), 1);
    assert_eq!(names(report[0].paths()), vec!["a", "b"]);
    assert_eq!(report[0].hash_as_hex(), HELLO_HEX);

    let mut third = Deduplicator::new(vec![]);
    assert!(third.read_cache(&second.write_cache()));
    assert!(matches!(third.examine("a".to_string(), at(200)), FileAction::Reused));
    assert!(matches!(third.examine("a".to_string(), at(100)), FileAction::Hash { .. }));
}

#[test]
fn second_run_reuses_every_record() {
    let files = vec![
        entry("x/1", at(5), "same"),
        entry("x/2", at(6), "same"),
        entry("x/3", at(7), "other"),
        entry("x/4", at(8), "other"),
        entry("x/5", at(9), "alone"),
    ];
    let mut first = Deduplicator::new(vec![]);
    let report_one = first.run(&files);
    let blob = first.write_cache();

    let mut second = Deduplicator::new(vec![]);
    assert!(second.read_cache(&blob));
    for file in &files {
        assert!(matches!(second.examine(file.path.clone(), file.modified), FileAction::Reused));
    }
    let report_two = second.duplicates();
    assert_eq!(report_one.len(), 2);
    assert_eq!(report_two.len(), report_one.len());
    for (one, two) in report_one.iter().zip(report_two.iter()) {
        assert_eq!(one.render(), two.render());
    }
    assert_eq!(second.write_cache(), blob);
}

#[test]
fn run_with_cache_equals_run_without() {
    let files = vec![entry("a", at(1), "zz"), entry("b", at(2), "zz")];
    let mut first = Deduplicator::new(vec![]);
    let one = first.run(&files);
    let mut second = Deduplicator::new(vec![]);
    assert!(second.read_cache(&first.write_cache()));
    let two = second.run(&files);
    assert_eq!(one.len(), 1);
    assert_eq!(two.len(), 1);
    assert_eq!(one[0].render(), two[0].render());
}

#[test]
fn file_without_time_is_never_reused() {
    let mut index = DedupState::new();
    index.add_hashed_file(HashedFile::new("a".to_string(), None, b"hello"));
    assert!(!index.reuse_if_cached(&"a".to_string(), &None));
    assert!(!index.reuse_if_cached(&"a".to_string(), &at(1)));
    index.add_hashed_file(HashedFile::new("b".to_string(), at(1), b"hello"));
    assert!(!index.reuse_if_cached(&"b".to_string(), &None));
    assert!(!index.reuse_if_cached(&"b".to_string(), &Some(Timestamp { secs: 1, nanos: 1 })));
    assert!(!index.reuse_if_cached(&"missing".to_string(), &at(1)));
    assert!(index.reuse_if_cached(&"b".to_string(), &at(1)));
}

#[test]
fn unreadable_file_is_passed_over() {
    let mut engine = Deduplicator::new(vec![]);
    let files = vec![
        entry("a", at(1), "hello"),
        FileEntry { path: "gone".to_string(), modified: at(2), contents: None },
        entry("b", at(3), "hello"),
    ];
    let report = engine.run(&files);
    assert_eq!(report.len(), 1);
    assert_eq!(names(report[0].paths()), vec!["a", "b"]);
    let mut again = Deduplicator::new(vec![]);
    assert!(again.read_cache(&engine.write_cache()));
    assert!(matches!(again.examine("gone".to_string(), at(2)), FileAction::Hash { .. }));
}

#[test]
fn hundred_distinct_files_in_any_order() {
    let files: Vec<FileEntry> =
        (0..100).map(|i| entry(&format!("f{}", i), at(i), &format!("content {}", i))).collect();
    let mut one_worker = Deduplicator::new(vec![]);
    let in_order = one_worker.run(&files);

    let mut four_workers = Deduplicator::new(vec![]);
    four_workers.set_threads(Some(4));
    let mut hashed: Vec<HashedFile> = Vec::new();
    for file in &files {
        match four_workers.examine(file.path.clone(), file.modified) {
            FileAction::Hash { path } => {
                hashed.push(HashedFile::new(path, file.modified, file.contents.as_ref().unwrap()))
            }
            FileAction::Reused => panic!("nothing is cached"),
        }
    }
    for worker in 0..4 {
        let mut i = hashed.len();
        while i > 0 {
            i -= 1;
            if i % 4 == worker {
                four_workers.add_hashed_file(hashed[i].clone());
            }
        }
    }
    let interleaved = four_workers.duplicates();
    assert_eq!(in_order.len(), 0);
    assert_eq!(interleaved.len(), 0);
}

#[test]
fn groups_do_not_depend_on_the_order_of_hashing() {
    let files = vec![
        entry("a", at(1), "12345"),
        entry("b", at(1), "abc"),
        entry("c", at(1), "12345"),
        entry("d", at(1), "abc"),
        entry("e", at(1), "xyz"),
        entry("f", at(1), "xyz"),
    ];
    let mut forward = Deduplicator::new(vec![]);
    let one = forward.run(&files);
    let mut backward = Deduplicator::new(vec![]);
    let reversed: Vec<FileEntry> = files
        .iter()
        .rev()
        .map(|f| FileEntry { path: f.path.clone(), modified: f.modified, contents: f.contents.clone() })
        .collect();
    let two = backward.run(&reversed);
    assert_eq!(one.len(), 3);
    assert_eq!(two.len(), 3);
    for (x, y) in one.iter().zip(two.iter()) {
        assert_eq!(x.size(), y.size());
        assert_eq!(x.hash_as_hex(), y.hash_as_hex());
        let mut px = x.paths().clone();
        let mut py = y.paths().clone();
        px.sort();
        py.sort();
        assert_eq!(px, py);
    }
}

#[test]
fn paths_are_normalised_when_asked() {
    let mut engine = Deduplicator::with_separator(vec![], '\\');
    engine.set_normalize_path(true);
    match engine.examine("dir\\sub\\a.txt".to_string(), at(1)) {
        FileAction::Hash { path } => assert_eq!(path, "dir/sub/a.txt"),
        FileAction::Reused => panic!("nothing is cached"),
    }
    engine.set_normalize_path(false);
    match engine.examine("dir\\sub\\a.txt".to_string(), at(1)) {
        FileAction::Hash { path } => assert_eq!(path, "dir\\sub\\a.txt"),
        FileAction::Reused => panic!("nothing is cached"),
    }
}

#[test]
fn normalised_paths_meet_their_cached_records() {
    let mut first = Deduplicator::with_separator(vec![], '\\');
    first.set_normalize_path(true);
    first.run(&vec![entry("d\\a", at(1), "hello"), entry("d\\b", at(1), "hello")]);
    let mut second = Deduplicator::with_separator(vec![], '/');
    second.set_normalize_path(true);
    assert!(second.read_cache(&first.write_cache()));
    assert!(matches!(second.examine("d/a".to_string(), at(1)), FileAction::Reused));
}

#[test]
fn platform_normalisation_keeps_plain_names() {
    let mut path = "plain-name.txt".to_string();
    fdedup::deduplicator::apply_path_normalization(&mut path);
    assert_eq!(path, "plain-name.txt");
    let mut nested = format!("a{}b", std::path::MAIN_SEPARATOR);
    fdedup::deduplicator::apply_path_normalization(&mut nested);
    assert_eq!(nested, "a/b");
}

#[test]
fn worker_count_is_never_zero() {
    let mut engine = Deduplicator::default();
    assert_eq!(engine.worker_count(Some(8)), 8);
    assert_eq!(engine.worker_count(None), 1);
    assert_eq!(engine.worker_count(Some(0)), 1);
    engine.set_threads(Some(3));
    assert_eq!(engine.worker_count(Some(8)), 3);
    engine.set_threads(Some(0));
    assert_eq!(engine.worker_count(Some(8)), 3);
    engine.set_threads(None);
    assert_eq!(engine.worker_count(Some(8)), 8);
}

#[test]
fn directories_are_kept_in_order() {
    let mut engine = Deduplicator::new(vec!["one".to_string()]);
    engine.add_dir("two".to_string());
    assert_eq!(names(engine.dirs()), vec!["one", "two"]);
    assert_eq!(Deduplicator::default().dirs().len(), 0);
}

#[test]
fn second_run_gives_the_same_report_whatever_can_be_reused() {
    let files = vec![
        entry("a", at(1), "same"),
        entry("b", None, "same"),
        FileEntry { path: "c".to_string(), modified: at(3), contents: None },
        entry("d", at(4), "same"),
    ];
    let mut first = Deduplicator::new(vec![]);
    let one = first.run(&files);
    let blob = first.write_cache();

    let mut second = Deduplicator::new(vec![]);
    assert!(second.read_cache(&blob));
    let two = second.run(&files);
    assert_eq!(one.len(), 1);
    assert_eq!(two.len(), 1);
    assert_eq!(names(one[0].paths()), vec!["a", "b", "d"]);
    assert_eq!(one[0].render(), two[0].render());
    assert_eq!(second.write_cache(), blob);

    let mut third = Deduplicator::new(vec![]);
    assert!(third.read_cache(&blob));
    assert!(matches!(third.examine("a".to_string(), at(1)), FileAction::Reused));
    assert!(matches!(third.examine("b".to_string(), None), FileAction::Hash { .. }));
    assert!(matches!(third.examine("c".to_string(), at(3)), FileAction::Hash { .. }));
    assert!(matches!(third.examine("d".to_string(), at(4)), FileAction::Reused));
}
