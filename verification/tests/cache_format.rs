use fdedup::cache::{decode_cache, encode_cache};
use fdedup::{HashedFile, Timestamp};

type Plain = (String, Vec<u8>, Option<(u64, u32)>, u64);

fn sample() -> Vec<HashedFile> {
    vec![
        HashedFile::new("dir/a.txt".to_string(), Some(Timestamp { secs: 1_700_000_000, nanos: 123_456_789 }), b"hello"),
        HashedFile::from_parts("b".to_string(), vec![], None, 0),
        HashedFile::from_parts("caf\u{e9}/\u{1f600}".to_string(), vec![0, 255, 16], Some(Timestamp { secs: u64::MAX, nanos: u32::MAX }), u64::MAX),
    ]
}

fn plain(records: &Vec<HashedFile>) -> Vec<Plain> {
    records
        .iter()
        .map(|r| (r.path().clone(), r.hash().clone(), r.modified().map(|t| (t.secs, t.nanos)), r.size()))
        .collect()
}

#[test]
fn blob_of_no_records() {
    assert_eq!(encode_cache(&vec![]), vec![0u8; 8]);
    assert_eq!(decode_cache(&[0u8; 8]).unwrap().len(), 0);
}

#[test]
fn blob_of_one_record_byte_by_byte() {
    let record = HashedFile::from_parts("ab".to_string(), vec![9, 8, 7], Some(Timestamp { secs: 258, nanos: 3 }), 513);
    let mut expected: Vec<u8> = vec![1, 0, 0, 0, 0, 0, 0, 0];
    expected.extend_from_slice(&[2, 0, 0, 0, 0, 0, 0, 0, b'a', b'b']);
    expected.extend_from_slice(&[3, 0, 0, 0, 0, 0, 0, 0, 9, 8, 7]);
    expected.extend_from_slice(&[1, 2, 1, 0, 0, 0, 0, 0, 0, 3, 0, 0, 0]);
    expected.extend_from_slice(&[1, 2, 0, 0, 0, 0, 0, 0]);
    assert_eq!(encode_cache(&vec![record]), expected);
    let timeless = HashedFile::from_parts("".to_string(), vec![], None, 0);
    let mut expected: Vec<u8> = vec![1, 0, 0, 0, 0, 0, 0, 0];
    expected.extend_from_slice(&[0; 8]);
    expected.extend_from_slice(&[0; 8]);
    expected.push(0);
    expected.extend_from_slice(&[0; 8]);
    assert_eq!(encode_cache(&vec![timeless]), expected);
}

#[test]
fn what_is_written_is_read_back() {
    let records = sample();
    let back = decode_cache(&encode_cache(&records)).unwrap();
    assert_eq!(plain(&back), plain(&records));
}

#[test]
fn blob_is_what_bincode_writes() {
    let records = sample();
    let ours = encode_cache(&records);
    let theirs = bincode::serialize(&plain(&records)).unwrap();
    assert_eq!(ours, theirs);
}

#[test]
fn bincode_reads_what_is_written() {
    let records = vec![
        HashedFile::new("x".to_string(), Some(Timestamp { secs: 5, nanos: 6 }), b"data"),
        HashedFile::from_parts("y".to_string(), vec![1], None, 2),
    ];
    let read: Vec<Plain> = bincode::deserialize(&encode_cache(&records)).unwrap();
    assert_eq!(read, plain(&records));
    let written = bincode::serialize(&read).unwrap();
    assert_eq!(plain(&decode_cache(&written).unwrap()), plain(&records));
}

#[test]
fn truncated_blobs_are_refused() {
    let blob = encode_cache(&sample());
    for cut in 0..blob.len() {
        assert!(decode_cache(&blob[..cut]).is_none(), "cut at {}", cut);
    }
    assert!(decode_cache(&blob).is_some());
}

#[test]
fn bytes_after_the_last_record_are_passed_over() {
    let records = sample();
    let mut blob = encode_cache(&records);
    blob.extend_from_slice(&[0, 7, 255]);
    assert_eq!(plain(&decode_cache(&blob).unwrap()), plain(&records));
    assert_eq!(decode_cache(&[0, 0, 0, 0, 0, 0, 0, 0, 9]).unwrap().len(), 0);
    let read: Vec<Plain> = bincode::deserialize(&blob).unwrap();
    assert_eq!(read, plain(&records));
}

#[test]
fn count_decides_how_many_records_are_read() {
    let records = sample();
    let mut blob = encode_cache(&records);
    blob[0] = 4;
    assert!(decode_cache(&blob).is_none());
    blob[0] = 2;
    assert_eq!(plain(&decode_cache(&blob).unwrap()), plain(&records)[..2].to_vec());
    let mut huge = vec![255u8; 8];
    huge.extend_from_slice(&[0; 32]);
    assert!(decode_cache(&huge).is_none());
}

#[test]
fn blobs_are_read_as_bincode_reads_them() {
    let good = encode_cache(&sample());
    let mut blobs: Vec<Vec<u8>> = Vec::new();
    for cut in 0..good.len() {
        blobs.push(good[..cut].to_vec());
    }
    for at in 0..good.len() {
        for value in [0u8, 1, 2, 0x80, 0xff] {
            let mut changed = good.clone();
            changed[at] = value;
            blobs.push(changed);
        }
    }
    for blob in &blobs {
        let ours = decode_cache(blob).map(|records| plain(&records));
        let theirs: Option<Vec<Plain>> = bincode::deserialize(blob).ok();
        assert_eq!(ours, theirs);
    }
}

#[test]
fn unknown_time_tag_is_refused() {
    let record = HashedFile::from_parts("a".to_string(), vec![], None, 0);
    let mut blob = encode_cache(&vec![record]);
    let tag = 8 + 8 + 1 + 8;
    assert_eq!(blob[tag], 0);
    blob[tag] = 2;
    assert!(decode_cache(&blob).is_none());
    blob[tag] = 1;
    assert!(decode_cache(&blob).is_none());
    blob[tag] = 0;
    assert!(decode_cache(&blob).is_some());
}

#[test]
fn path_that_is_not_utf8_is_refused() {
    let record = HashedFile::from_parts("ab".to_string(), vec![], None, 0);
    let mut blob = encode_cache(&vec![record]);
    blob[16] = 0xff;
    assert!(decode_cache(&blob).is_none());
    blob[16] = 0xc3;
    blob[17] = 0xa9;
    assert_eq!(decode_cache(&blob).unwrap()[0].path(), "\u{e9}");
    blob[17] = 0x28;
    assert!(decode_cache(&blob).is_none());
}

#[test]
fn overlong_length_is_refused() {
    let record = HashedFile::from_parts("ab".to_string(), vec![1, 2, 3], None, 0);
    let mut blob = encode_cache(&vec![record]);
    blob[8] = 200;
    assert!(decode_cache(&blob).is_none());
    blob[8] = 2;
    blob[15] = 0x80;
    assert!(decode_cache(&blob).is_none());
}
