use fdedup::text::{bytes_precede, normalize_separators, push_decimal};
use fdedup::{check_verbosity, set_verbosity, Args, Verbosity, DEFAULT_CACHE_FILE};

#[test]
fn decimal_numbers() {
    for (n, expected) in [(0u64, "0"), (7, "7"), (10, "10"), (99, "99"), (100, "100"), (1234567890, "1234567890"), (u64::MAX, "18446744073709551615")] {
        let mut text = "n=".to_string();
        push_decimal(&mut text, n);
        assert_eq!(text, format!("n={}", expected));
    }
}

#[test]
fn separators_become_slashes() {
    assert_eq!(normalize_separators("a\\b\\c", '\\'), "a/b/c");
    assert_eq!(normalize_separators("a/b\\c", '\\'), "a/b/c");
    assert_eq!(normalize_separators("a/b", '/'), "a/b");
    assert_eq!(normalize_separators("", '\\'), "");
    assert_eq!(normalize_separators("\u{e9}:\u{1f600}:x", ':'), "\u{e9}/\u{1f600}/x");
    assert_eq!(normalize_separators("no separators", '\\'), "no separators");
}

#[test]
fn byte_strings_in_order() {
    assert!(bytes_precede(&vec![], &vec![]));
    assert!(bytes_precede(&vec![], &vec![0]));
    assert!(!bytes_precede(&vec![0], &vec![]));
    assert!(bytes_precede(&vec![1, 2], &vec![1, 2]));
    assert!(bytes_precede(&vec![1, 2], &vec![1, 2, 0]));
    assert!(!bytes_precede(&vec![1, 2, 0], &vec![1, 2]));
    assert!(bytes_precede(&vec![1, 255], &vec![2, 0]));
    assert!(!bytes_precede(&vec![2, 0], &vec![1, 255]));
    assert!(bytes_precede(&vec![0x0f], &vec![0x10]));
    assert!(bytes_precede(&vec![0x9f], &vec![0xa0]));
}

#[test]
fn byte_order_is_hex_order() {
    let samples: Vec<Vec<u8>> = vec![vec![], vec![0], vec![9], vec![10], vec![0x0f, 0xff], vec![0x10], vec![0x9a], vec![0xa9], vec![0xff], vec![0xff, 0]];
    for a in &samples {
        for b in &samples {
            assert_eq!(bytes_precede(a, b), hex::encode(a) <= hex::encode(b));
        }
    }
}

#[test]
fn verbosity_is_a_threshold() {
    let mut state = Verbosity::default();
    assert!(check_verbosity(&state, 0));
    assert!(!check_verbosity(&state, 1));
    set_verbosity(&mut state, 2);
    assert!(check_verbosity(&state, 1));
    assert!(check_verbosity(&state, 2));
    assert!(!check_verbosity(&state, 3));
    set_verbosity(&mut state, 255);
    assert!(check_verbosity(&state, 255));
}

#[test]
fn options_decide_on_the_cache() {
    let mut args = Args::new(vec!["d".to_string()], DEFAULT_CACHE_FILE.to_string());
    assert_eq!(args.folders, vec!["d".to_string()]);
    assert_eq!(args.cache_file, ".fdedup_cache.bin");
    assert!(args.reads_cache());
    assert!(args.writes_cache());
    args.empty_cache = true;
    assert!(!args.reads_cache());
    assert!(args.writes_cache());
    args.disable_cache = true;
    assert!(!args.reads_cache());
    assert!(!args.writes_cache());
    args.empty_cache = false;
    assert!(!args.reads_cache());
    assert!(!args.writes_cache());
}

#[test]
fn without_folders_the_current_directory_is_scanned() {
    let args = Args::new(vec![], "c.bin".to_string());
    assert_eq!(args.folders, vec![".".to_string()]);
    assert_eq!(args.threads, None);
    assert_eq!(args.verbosity, 0);
    assert!(!args.normalize);
}

fn words(list: &[&str]) -> Vec<String> {
    list.iter().map(|w| w.to_string()).collect()
}

#[test]
fn arguments_name_folders_and_switches() {
    let args = Args::from_arguments(&words(&["one", "-n", "two", "--empty-cache", "-v"]), "c".to_string());
    assert_eq!(args.folders, words(&["one", "two"]));
    assert!(args.normalize);
    assert!(args.empty_cache);
    assert!(!args.disable_cache);
    assert_eq!(args.verbosity, 1);
    assert_eq!(args.threads, Some(1));
    assert_eq!(args.cache_file, "c");
    assert!(!args.reads_cache());
    assert!(args.writes_cache());
}

#[test]
fn no_arguments_mean_the_current_directory() {
    let args = Args::from_arguments(&vec![], DEFAULT_CACHE_FILE.to_string());
    assert_eq!(args.folders, words(&["."]));
    assert!(!args.normalize && !args.empty_cache && !args.disable_cache);
    assert_eq!(args.verbosity, 0);
    assert!(args.reads_cache());
    let only_switches = Args::from_arguments(&words(&["-d", "--normalize"]), "c".to_string());
    assert_eq!(only_switches.folders, words(&["."]));
    assert!(only_switches.disable_cache && only_switches.normalize);
    assert!(!only_switches.writes_cache());
}

#[test]
fn verbosity_adds_up_and_stops_at_the_top() {
    let table = [("-v", 1u8), ("--verbose", 1), ("-vv", 1), ("-vvv", 3), ("-vvvv", 4), ("-vvvvv", 5), ("-vvvvvv", 0), ("-V", 0)];
    for (word, step) in table {
        let args = Args::from_arguments(&words(&[word]), "c".to_string());
        assert_eq!(args.verbosity, step);
        assert_eq!(args.folders.len(), 1);
        assert_eq!(args.folders[0] == word, step == 0);
    }
    let args = Args::from_arguments(&words(&["-v", "-vvv", "x", "--verbose", "-vvvvv"]), "c".to_string());
    assert_eq!(args.verbosity, 10);
    let many = vec!["-vvvvv".to_string(); 60];
    assert_eq!(Args::from_arguments(&many, "c".to_string()).verbosity, 255);
    let edge = vec!["-vvvvv".to_string(); 51];
    assert_eq!(Args::from_arguments(&edge, "c".to_string()).verbosity, 255);
}

#[test]
fn unknown_dashes_are_folders() {
    let args = Args::from_arguments(&words(&["-x", "--", "-e ", ""]), "c".to_string());
    assert_eq!(args.folders, words(&["-x", "--", "-e ", ""]));
    assert!(!args.empty_cache);
}
