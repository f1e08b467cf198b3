use fdedup::{CacheError, DedupState, Duplicates, HashedFile, Timestamp};

fn at(secs: u64) -> Option<Timestamp> {
    Some(Timestamp { secs, nanos: 0 })
}

fn record(path: &str, hash: u8, size: u64) -> HashedFile {
    HashedFile::from_parts(path.to_string(), vec![hash; 4], at(1), size)
}

fn names(paths: &Vec<String>) -> Vec<&str> {
    paths.iter().map(|p| p.as_str()).collect()
}

fn coupled(index: &DedupState, hashes: &[u8]) -> bool {
    hashes.iter().all(|h| {
        index
            .paths_of(&vec![*h; 4])
            .iter()
            .all(|p| index.get(p).map(|r| r.hash() == &vec![*h; 4]).unwrap_or(false))
    })
}

#[test]
fn insert_files_the_path_under_its_hash() {
    let mut index = DedupState::new();
    assert_eq!(index.len(), 0);
    assert!(index.get("a").is_none());
    index.add_hashed_file(record("a", 1, 10));
    index.add_hashed_file(record("b", 1, 10));
    index.add_hashed_file(record("c", 2, 20));
    assert_eq!(index.len(), 3);
    assert_eq!(names(&index.paths_of(&vec![1; 4])), vec!["a", "b"]);
    assert_eq!(names(&index.paths_of(&vec![2; 4])), vec!["c"]);
    assert_eq!(index.paths_of(&vec![3; 4]).len(), 0);
    assert_eq!(index.get("c").unwrap().size(), 20);
    assert!(coupled(&index, &[1, 2, 3]));
}

#[test]
fn insert_replaces_the_record_of_a_path() {
    let mut index = DedupState::new();
    index.add_hashed_file(record("a", 1, 10));
    index.add_hashed_file(HashedFile::from_parts("a".to_string(), vec![1; 4], at(2), 11));
    assert_eq!(index.len(), 1);
    assert_eq!(index.get("a").unwrap().size(), 11);
    assert_eq!(index.get("a").unwrap().modified(), at(2));
    assert_eq!(names(&index.paths_of(&vec![1; 4])), vec!["a", "a"]);
}

#[test]
fn coupling_holds_after_inserts_and_reuses() {
    let mut cache = DedupState::new();
    cache.add_hashed_file(record("a", 1, 10));
    cache.add_hashed_file(record("b", 2, 10));
    let blob = cache.write_cache();
    let mut index = DedupState::new();
    assert_eq!(index.read_cache(&blob), Ok(()));
    assert!(coupled(&index, &[1, 2, 3]));
    assert!(index.reuse_if_cached(&"a".to_string(), &at(1)));
    assert!(coupled(&index, &[1, 2, 3]));
    assert!(!index.reuse_if_cached(&"b".to_string(), &at(9)));
    index.add_hashed_file(HashedFile::from_parts("b".to_string(), vec![3; 4], at(9), 12));
    assert!(coupled(&index, &[1, 2, 3]));
    assert_eq!(names(&index.paths_of(&vec![1; 4])), vec!["a"]);
    assert_eq!(index.paths_of(&vec![2; 4]).len(), 0);
    assert_eq!(names(&index.paths_of(&vec![3; 4])), vec!["b"]);
}

#[test]
fn coupling_breaks_when_a_path_is_written_twice_with_two_hashes() {
    let mut index = DedupState::new();
    index.add_hashed_file(record("a", 1, 10));
    index.add_hashed_file(record("a", 2, 10));
    assert_eq!(names(&index.paths_of(&vec![1; 4])), vec!["a"]);
    assert_eq!(index.get("a").unwrap().hash(), &vec![2u8; 4]);
    assert!(!coupled(&index, &[1, 2]));
}

#[test]
fn loading_fills_records_and_no_groups() {
    let mut cache = DedupState::new();
    cache.add_hashed_file(record("a", 1, 10));
    cache.add_hashed_file(record("b", 1, 10));
    assert_eq!(cache.duplicates().len(), 1);
    let mut index = DedupState::new();
    assert_eq!(index.read_cache(&cache.write_cache()), Ok(()));
    assert_eq!(index.len(), 2);
    assert_eq!(index.paths_of(&vec![1; 4]).len(), 0);
    assert_eq!(index.duplicates().len(), 0);
}

#[test]
fn loading_leaves_known_records_untouched() {
    let mut cache = DedupState::new();
    cache.add_hashed_file(record("a", 1, 10));
    cache.add_hashed_file(record("b", 2, 20));
    let blob = cache.write_cache();
    let mut index = DedupState::new();
    index.add_hashed_file(record("a", 9, 99));
    assert_eq!(index.read_cache(&blob), Ok(()));
    assert_eq!(index.len(), 2);
    assert_eq!(index.get("a").unwrap().size(), 99);
    assert_eq!(index.get("b").unwrap().size(), 20);
    assert_eq!(index.read_cache(&blob), Ok(()));
    assert_eq!(index.len(), 2);
    assert_eq!(index.get("a").unwrap().size(), 99);
}

#[test]
fn malformed_cache_is_refused_and_changes_nothing() {
    let mut index = DedupState::new();
    index.add_hashed_file(record("a", 1, 10));
    let before = index.write_cache();
    assert_eq!(index.read_cache(b"junk"), Err(CacheError::Malformed));
    assert_eq!(index.read_cache(&[]), Err(CacheError::Malformed));
    assert_eq!(index.write_cache(), before);
}

#[test]
fn groups_need_two_paths_and_more_than_the_minimum_size() {
    let mut index = DedupState::new();
    index.add_hashed_file(record("a", 1, 10));
    index.add_hashed_file(record("b", 1, 10));
    index.add_hashed_file(record("c", 2, 30));
    index.add_hashed_file(record("d", 2, 30));
    index.add_hashed_file(record("e", 3, 50));
    index.add_hashed_file(record("z1", 4, 0));
    index.add_hashed_file(record("z2", 4, 0));
    let all = index.duplicates();
    assert_eq!(all.len(), 2);
    assert_eq!(all[0].size(), 10);
    assert_eq!(all[1].size(), 30);
    assert_eq!(index.duplicates_with_minsize(9).len(), 2);
    let some = index.duplicates_with_minsize(10);
    assert_eq!(some.len(), 1);
    assert_eq!(names(some[0].paths()), vec!["c", "d"]);
    assert_eq!(index.duplicates_with_minsize(29).len(), 1);
    assert_eq!(index.duplicates_with_minsize(30).len(), 0);
    assert_eq!(index.duplicates_with_minsize(u64::MAX).len(), 0);
}

#[test]
fn minimum_size_only_takes_groups_away() {
    let mut index = DedupState::new();
    for (i, size) in [7u64, 3, 9, 3, 1, 12].iter().enumerate() {
        index.add_hashed_file(record(&format!("x{}", i), i as u8, *size));
        index.add_hashed_file(record(&format!("y{}", i), i as u8, *size));
    }
    let all: Vec<String> = index.duplicates().iter().map(|g| g.render()).collect();
    assert_eq!(all.len(), 6);
    for minimum in [0u64, 1, 2, 3, 7, 8, 11, 12, 100] {
        let kept: Vec<String> =
            index.duplicates_with_minsize(minimum).iter().map(|g| g.render()).collect();
        let expected: Vec<String> = index
            .duplicates()
            .iter()
            .filter(|g| g.size() > minimum)
            .map(|g| g.render())
            .collect();
        assert_eq!(kept, expected);
    }
}

#[test]
fn report_is_ordered_by_size_then_hash() {
    let mut index = DedupState::new();
    let hashes: [(u8, u64); 5] = [(0xff, 5), (0x0a, 5), (0xa0, 5), (0x01, 9), (0x7f, 2)];
    for (hash, size) in hashes.iter() {
        index.add_hashed_file(record(&format!("p{}", hash), *hash, *size));
        index.add_hashed_file(record(&format!("q{}", hash), *hash, *size));
    }
    let report = index.duplicates();
    let order: Vec<(u64, &str)> = report.iter().map(|g| (g.size(), g.hash_as_hex().as_str())).collect();
    assert_eq!(
        order,
        vec![(2, "7f7f7f7f"), (5, "0a0a0a0a"), (5, "a0a0a0a0"), (5, "ffffffff"), (9, "01010101")]
    );
}

#[test]
fn shorter_hash_comes_before_its_extensions() {
    let mut index = DedupState::new();
    for (name, hash) in [("l", vec![1u8, 2, 3]), ("s", vec![1u8, 2]), ("e", vec![])] {
        index.add_hashed_file(HashedFile::from_parts(format!("{}1", name), hash.clone(), None, 4));
        index.add_hashed_file(HashedFile::from_parts(format!("{}2", name), hash, None, 4));
    }
    let report = index.duplicates();
    let order: Vec<&str> = report.iter().map(|g| g.hash_as_hex().as_str()).collect();
    assert_eq!(order, vec!["", "0102", "010203"]);
}

#[test]
fn representative_is_the_first_path_filed() {
    let mut index = DedupState::new();
    index.add_hashed_file(record("first", 1, 10));
    index.add_hashed_file(record("second", 1, 99));
    let report = index.duplicates_with_minsize(50);
    assert_eq!(report.len(), 0);
    let report = index.duplicates();
    assert_eq!(report[0].size(), 10);
}

#[test]
fn group_is_printed_with_header_paths_and_blank_line() {
    let group = Duplicates::new(vec!["a".to_string(), "dir/b".to_string()], "00ff".to_string(), 1234567890);
    assert_eq!(group.render(), "# 1234567890 00ff\na\ndir/b\n\n");
    assert_eq!(group.size(), 1234567890);
    assert_eq!(group.hash_as_hex(), "00ff");
    assert_eq!(names(&group.paths_as_display()), vec!["a", "dir/b"]);
    let none = Duplicates::new(vec![], String::new(), 0);
    assert_eq!(none.render(), "# 0 \n\n");
    let big = Duplicates::new(vec!["x".to_string()], "ab".to_string(), u64::MAX);
    assert_eq!(big.render(), "# 18446744073709551615 ab\nx\n\n");
}
