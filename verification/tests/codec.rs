use rvscw::bytes::{append, contains, copy_range, find, find_byte, matches_at, same};
use rvscw::codec::{decode, encode, encode_payload, split_payload, split_record, FileEntry};
use rvscw::encoding::{decode_content, decode_files, encode_content};
use rvscw::error::Error;
use rvscw::ignore::{ignore_specification, is_ignored};
use rvscw::log::{append_record, find_record, line_has_id};

fn entry(path: &[u8], data: &[u8]) -> FileEntry {
    FileEntry { path: path.to_vec(), data: data.to_vec() }
}

#[test]
fn find_gives_first_occurrence() {
    assert_eq!(find(b"a::b:::c", b"::"), Some(1));
    assert_eq!(find(b"a::b:::c", b":::"), Some(4));
    assert_eq!(find(b"abc", b"abc"), Some(0));
    assert_eq!(find(b"abc", b""), Some(0));
}

#[test]
fn find_gives_none_without_occurrence() {
    assert_eq!(find(b"a:b:c", b"::"), None);
    assert_eq!(find(b"ab", b"abc"), None);
    assert_eq!(find(b"", b"a"), None);
}

#[test]
fn contains_is_substring_search() {
    assert!(contains(b".rvscw target", b"target"));
    assert!(contains(b".rvscw target", b"w t"));
    assert!(!contains(b".rvscw target", b"src"));
    assert!(contains(b"", b""));
}

#[test]
fn find_byte_stops_at_first_or_length() {
    assert_eq!(find_byte(b"ab:cd:e", 58, 0), 2);
    assert_eq!(find_byte(b"ab:cd:e", 58, 3), 5);
    assert_eq!(find_byte(b"ab:cd:e", 58, 6), 7);
    assert_eq!(find_byte(b"", 58, 0), 0);
}

#[test]
fn matches_at_checks_one_place() {
    assert!(matches_at(b"hello", b"ll", 2));
    assert!(!matches_at(b"hello", b"ll", 3));
    assert!(!matches_at(b"hello", b"lo", 4));
    assert!(matches_at(b"hello", b"", 5));
    assert!(!matches_at(b"hello", b"", 6));
}

#[test]
fn same_compares_bytes() {
    assert!(same(b"abc", b"abc"));
    assert!(!same(b"abc", b"abd"));
    assert!(!same(b"abc", b"ab"));
    assert!(same(b"", b""));
}

#[test]
fn copy_range_and_append_move_bytes() {
    assert_eq!(copy_range(b"hello", 1, 4), b"ell".to_vec());
    assert_eq!(copy_range(b"hello", 2, 2), Vec::<u8>::new());
    let mut v = b"ab".to_vec();
    append(&mut v, b"cd");
    assert_eq!(v, b"abcd".to_vec());
}

#[test]
fn encode_content_is_base64() {
    assert_eq!(encode_content(b"hi"), b"aGk=".to_vec());
    assert_eq!(encode_content(b"yo"), b"eW8=".to_vec());
    assert_eq!(encode_content(b"hey"), b"aGV5".to_vec());
    assert_eq!(encode_content(b""), Vec::<u8>::new());
    assert_eq!(encode_content(&[0xff, 0xfe, 0x00]), b"//4A".to_vec());
}

#[test]
fn decode_content_reads_base64() {
    assert_eq!(decode_content(b"aGk="), Ok(b"hi".to_vec()));
    assert_eq!(decode_content(b""), Ok(Vec::new()));
    assert_eq!(decode_content(b"//4A"), Ok(vec![0xff, 0xfe, 0x00]));
}

#[test]
fn decode_content_rejects_what_is_not_base64() {
    assert_eq!(decode_content(b"a:b"), Err(Error::MalformedStore));
    assert_eq!(decode_content(b"aGk*"), Err(Error::MalformedStore));
    assert_eq!(decode_content(b"a"), Err(Error::MalformedStore));
}

#[test]
fn decode_files_keeps_paths_and_order() {
    let texts = vec![entry(b"a.txt", b"aGk="), entry(b"b/c.txt", b"eW8=")];
    let files = decode_files(texts).unwrap();
    assert_eq!(files, vec![entry(b"a.txt", b"hi"), entry(b"b/c.txt", b"yo")]);
}

#[test]
fn decode_files_fails_on_one_bad_text() {
    let texts = vec![entry(b"a.txt", b"aGk="), entry(b"b", b"?")];
    assert_eq!(decode_files(texts), Err(Error::MalformedStore));
}

#[test]
fn encode_payload_writes_each_file_with_two_colons() {
    let files = vec![entry(b"a.txt", b"aGk="), entry(b"b/c.txt", b"eW8=")];
    assert_eq!(encode_payload(&files), b"a.txt:aGk=:b/c.txt:eW8=:".to_vec());
    assert_eq!(encode_payload(&Vec::new()), Vec::<u8>::new());
}

#[test]
fn encode_joins_id_title_and_payload() {
    assert_eq!(encode(b"id1", b"v2", b"a.txt:aGk=:"), b"id1:::v2::a.txt:aGk=:".to_vec());
    assert_eq!(encode(b"", b"", b""), b":::::".to_vec());
}

#[test]
fn split_payload_reads_the_entries() {
    let files = split_payload(b"a.txt:aGk=:b/c.txt:eW8=:").unwrap();
    assert_eq!(files, vec![entry(b"a.txt", b"aGk="), entry(b"b/c.txt", b"eW8=")]);
    assert_eq!(split_payload(b""), Ok(Vec::new()));
}

#[test]
fn split_payload_keeps_an_empty_text() {
    let files = split_payload(b"empty::b:eW8=:").unwrap();
    assert_eq!(files, vec![entry(b"empty", b""), entry(b"b", b"eW8=")]);
}

#[test]
fn split_payload_rejects_an_unfinished_entry() {
    assert_eq!(split_payload(b"a.txt:aGk="), Err(Error::MalformedStore));
    assert_eq!(split_payload(b"a.txt"), Err(Error::MalformedStore));
    assert_eq!(split_payload(b"a:b:c"), Err(Error::MalformedStore));
}

#[test]
fn split_record_reads_the_three_fields() {
    let record = split_record(b"id1:::v2::a.txt:aGk=:").unwrap();
    assert_eq!(record.id, b"id1".to_vec());
    assert_eq!(record.title, b"v2".to_vec());
    assert_eq!(record.files, vec![entry(b"a.txt", b"aGk=")]);
}

#[test]
fn split_record_takes_an_empty_title_and_payload() {
    let record = split_record(b"id1:::::").unwrap();
    assert_eq!(record.id, b"id1".to_vec());
    assert_eq!(record.title, Vec::<u8>::new());
    assert_eq!(record.files, Vec::new());
}

#[test]
fn split_record_rejects_a_missing_separator() {
    assert_eq!(split_record(b"id1::v2::a:b:"), Err(Error::MalformedStore));
    assert_eq!(split_record(b"id1:::v2"), Err(Error::MalformedStore));
    assert_eq!(split_record(b""), Err(Error::MalformedStore));
}

#[test]
fn decode_inverts_encode() {
    let texts = vec![
        entry(b"a.txt", &encode_content(b"hi")),
        entry(b"b/c.txt", &encode_content(b"yo")),
        entry(b"empty", &encode_content(b"")),
    ];
    let record = encode(b"0123-abcd", b"first try", &encode_payload(&texts));
    let snapshot = decode(&record).unwrap();
    assert_eq!(snapshot.id, b"0123-abcd".to_vec());
    assert_eq!(snapshot.title, b"first try".to_vec());
    assert_eq!(
        snapshot.files,
        vec![entry(b"a.txt", b"hi"), entry(b"b/c.txt", b"yo"), entry(b"empty", b"")]
    );
}

#[test]
fn decode_rejects_a_text_that_is_not_base64() {
    assert_eq!(decode(b"id:::t::a.txt:!!!:"), Err(Error::MalformedStore));
}

#[test]
fn decode_rejects_a_record_without_separators() {
    assert_eq!(decode(b"no separators here"), Err(Error::MalformedStore));
}

#[test]
fn a_colon_in_the_title_breaks_the_round_trip() {
    let record = encode(b"id", b"a::b", b"");
    let snapshot = split_record(&record).unwrap();
    assert_eq!(snapshot.title, b"a".to_vec());
    assert_eq!(snapshot.files, vec![entry(b"b", b"")]);
}

#[test]
fn is_ignored_is_substring_of_the_specification() {
    assert!(is_ignored(b"target", b".rvscw target"));
    assert!(is_ignored(b".rvscw", b".rvscw target"));
    assert!(is_ignored(b"tar", b".rvscw target"));
    assert!(is_ignored(b"", b".rvscw target"));
    assert!(!is_ignored(b"src", b".rvscw target"));
    assert!(!is_ignored(b"target/debug", b".rvscw target"));
    assert!(!is_ignored(b"a.txt", b""));
}

#[test]
fn ignore_specification_starts_with_the_control_directory() {
    assert_eq!(ignore_specification(b"target"), b".rvscw target".to_vec());
    assert_eq!(ignore_specification(b""), b".rvscw ".to_vec());
}

#[test]
fn line_has_id_matches_the_id_field_exactly() {
    assert!(line_has_id(b"abc:::t::", b"abc"));
    assert!(!line_has_id(b"abc:::t::", b"ab"));
    assert!(!line_has_id(b"abc:::t::", b"bc"));
    assert!(!line_has_id(b"abc", b"abc"));
    assert!(line_has_id(b":::t::", b""));
}

#[test]
fn find_record_takes_the_first_line_with_the_id() {
    let log = b"abc:::init::a:aGk=:\nab:::v2::a:eW8=:\nab:::v3::";
    assert_eq!(find_record(log, b"ab"), Ok(b"ab:::v2::a:eW8=:".to_vec()));
    assert_eq!(find_record(log, b"abc"), Ok(b"abc:::init::a:aGk=:".to_vec()));
}

#[test]
fn find_record_does_not_match_a_part_of_an_id() {
    let log = b"abc:::init::\nabd:::v2::";
    assert_eq!(find_record(log, b"b"), Err(Error::RecordNotFound));
    assert_eq!(find_record(log, b"init"), Err(Error::RecordNotFound));
    assert_eq!(find_record(b"", b"abc"), Err(Error::RecordNotFound));
}

#[test]
fn append_record_adds_a_line() {
    let mut log = b"a:::init::".to_vec();
    append_record(&mut log, b"b:::v2::");
    assert_eq!(log, b"a:::init::\nb:::v2::".to_vec());
}
