use rvscw::document::{DocMember, DocValue};
use rvscw::error::Error;
use rvscw::jsontext::{document_to_value, ignore_from_text, ignore_text, metadata_from_text};
use rvscw::jsontext::{digit_runs_fit, metadata_text, read_document, value_to_document};
use rvscw::jsontext::{write_document, DIGIT_RUN_LIMIT};
use rvscw::meta::{MetadataEntry, MetadataNode};
use rvscw::repo::init_with;
use rvscw::tree::TreeEntry;

fn words(t: &[u8]) -> DocValue {
    DocValue::Text { text: t.to_vec() }
}

fn record(members: Vec<(&[u8], DocValue)>) -> DocValue {
    DocValue::Object {
        members: members.into_iter().map(|(k, v)| DocMember { key: k.to_vec(), value: v }).collect(),
    }
}

fn time(modified: &[u8]) -> MetadataNode {
    MetadataNode::File { modified: modified.to_vec() }
}

fn at(path: &[u8], node: MetadataNode) -> MetadataEntry {
    MetadataEntry { path: path.to_vec(), node }
}

fn sample_store() -> Vec<MetadataEntry> {
    vec![
        at(
            b"id-0",
            MetadataNode::Dir {
                children: vec![
                    at(b"a.txt", time(b"t1")),
                    at(b"b", MetadataNode::Dir { children: vec![at(b"b/c.txt", time(b"t2"))] }),
                ],
            },
        ),
        at(b"id-1", MetadataNode::Dir { children: Vec::new() }),
    ]
}

#[test]
fn write_document_gives_json() {
    let doc = record(vec![(b"a", words(b"x")), (b"b", record(vec![(b"c", words(b"say \"hi\""))]))]);
    assert_eq!(write_document(&doc), Some(br#"{"a":"x","b":{"c":"say \"hi\""}}"#.to_vec()));
    assert_eq!(write_document(&words(b"alone")), Some(br#""alone""#.to_vec()));
    assert_eq!(write_document(&record(vec![])), Some(b"{}".to_vec()));
}

#[test]
fn write_document_refuses_other_values() {
    assert_eq!(write_document(&DocValue::Other), None);
    assert_eq!(write_document(&record(vec![(b"a", record(vec![(b"b", DocValue::Other)]))])), None);
}

#[test]
fn write_document_keeps_the_later_value_of_a_key() {
    let doc = record(vec![(b"a", words(b"1")), (b"b", words(b"2")), (b"a", words(b"3"))]);
    assert_eq!(write_document(&doc), Some(br#"{"a":"3","b":"2"}"#.to_vec()));
}

#[test]
fn read_document_reads_texts_and_objects() {
    let doc = read_document(br#" {"a": "x", "b": {"c": "y", "d": {}}} "#).unwrap();
    assert_eq!(
        doc,
        record(vec![(b"a", words(b"x")), (b"b", record(vec![(b"c", words(b"y")), (b"d", record(vec![]))]))])
    );
    assert_eq!(read_document(br#""a text that is longer than thirty bytes, for sure""#), Ok(words(b"a text that is longer than thirty bytes, for sure")));
}

#[test]
fn read_document_gives_other_for_other_values() {
    assert_eq!(read_document(b"null"), Ok(DocValue::Other));
    assert_eq!(read_document(b"[1, 2]"), Ok(DocValue::Other));
    assert_eq!(
        read_document(br#"{"n": 1, "t": true, "s": "x"}"#),
        Ok(record(vec![(b"n", DocValue::Other), (b"t", DocValue::Other), (b"s", words(b"x"))]))
    );
}

#[test]
fn read_document_rejects_what_is_not_json() {
    assert_eq!(read_document(b"{"), Err(Error::MalformedStore));
    assert_eq!(read_document(b""), Err(Error::MalformedStore));
    assert_eq!(read_document(b"{\"a\": }"), Err(Error::MalformedStore));
}

#[test]
fn read_document_inverts_write_document() {
    let doc = record(vec![
        (b"path with spaces", words(b"line\nbreak")),
        ("caf\u{e9}".as_bytes(), record(vec![(b"mdftime", words(b"SystemTime { tv_sec: 1, tv_nsec: 2 }"))])),
    ]);
    let text = write_document(&doc).unwrap();
    assert_eq!(read_document(&text), Ok(doc));
}

#[test]
fn value_to_document_reads_every_depth() {
    let value = json::parse(r#"{"a": {"b": {"c": "x"}}}"#).unwrap();
    assert_eq!(
        value_to_document(&value),
        record(vec![(b"a", record(vec![(b"b", record(vec![(b"c", words(b"x"))]))]))])
    );
    assert_eq!(value_to_document(&json::parse("\"x\"").unwrap()), words(b"x"));
    assert_eq!(value_to_document(&json::parse("{}").unwrap()), record(vec![]));
    assert_eq!(value_to_document(&json::parse("7").unwrap()), DocValue::Other);
}

#[test]
fn digit_runs_fit_counts_digits_in_a_row() {
    assert!(digit_runs_fit(b""));
    assert!(digit_runs_fit(br#"{"a": "t 1700000000 s 123456789"}"#));
    let mut text = vec![b'7'; DIGIT_RUN_LIMIT];
    assert!(digit_runs_fit(&text));
    text.push(b'.');
    text.extend(vec![b'0'; DIGIT_RUN_LIMIT]);
    assert!(digit_runs_fit(&text));
    text.push(b'0');
    assert!(!digit_runs_fit(&text));
}

#[test]
fn read_document_refuses_a_long_run_of_digits_before_parsing() {
    let mut text = b"0.".to_vec();
    text.extend(vec![b'0'; DIGIT_RUN_LIMIT + 1]);
    assert_eq!(read_document(&text), Err(Error::MalformedStore));
    assert_eq!(metadata_from_text(&text), Err(Error::MalformedStore));
    assert_eq!(ignore_from_text(&text), Err(Error::MalformedStore));
    let mut quoted = b"\"".to_vec();
    quoted.extend(vec![b'1'; DIGIT_RUN_LIMIT + 1]);
    quoted.push(b'"');
    assert_eq!(read_document(&quoted), Err(Error::MalformedStore));
}

#[test]
fn read_document_takes_the_longest_run_of_digits_that_fits() {
    let mut text = b"0.".to_vec();
    text.extend(vec![b'0'; DIGIT_RUN_LIMIT]);
    assert_eq!(read_document(&text), Ok(DocValue::Other));
    let mut quoted = b"\"".to_vec();
    quoted.extend(vec![b'1'; DIGIT_RUN_LIMIT]);
    quoted.push(b'"');
    assert_eq!(read_document(&quoted), Ok(words(&vec![b'1'; DIGIT_RUN_LIMIT])));
}

#[test]
fn document_to_value_builds_the_value() {
    let doc = record(vec![(b"a", words(b"x")), (b"b", record(vec![]))]);
    let value = document_to_value(&doc).unwrap();
    assert!(value.is_object());
    assert_eq!(value.len(), 2);
    assert_eq!(value["a"].as_str(), Some("x"));
    assert!(value["b"].is_object());
    assert_eq!(value.dump(), r#"{"a":"x","b":{}}"#);
    assert!(document_to_value(&DocValue::Other).is_none());
}

#[test]
fn metadata_text_is_the_json_of_the_store() {
    assert_eq!(
        metadata_text(&sample_store()),
        br#"{"id-0":{"a.txt":{"mdftime":"t1"},"b":{"b/c.txt":{"mdftime":"t2"}}},"id-1":{}}"#.to_vec()
    );
    assert_eq!(metadata_text(&Vec::new()), b"{}".to_vec());
}

#[test]
fn metadata_from_text_inverts_metadata_text() {
    let store = sample_store();
    assert_eq!(metadata_from_text(&metadata_text(&store)), Ok(store));
}

#[test]
fn metadata_from_text_rejects_a_broken_document() {
    assert_eq!(metadata_from_text(b"not json"), Err(Error::MalformedStore));
    assert_eq!(metadata_from_text(b"\"text\""), Err(Error::MalformedStore));
    assert_eq!(metadata_from_text(br#"{"id": {"a.txt": "t1"}}"#), Err(Error::MalformedStore));
    assert_eq!(metadata_from_text(br#"{"id": {"a.txt": {"mdftime": 5}}}"#), Err(Error::MalformedStore));
    assert_eq!(metadata_from_text(br#"{"id": null}"#), Err(Error::MalformedStore));
}

#[test]
fn ignore_text_is_an_object_with_one_member() {
    assert_eq!(ignore_text(b".rvscw target"), br#"{"ignore":".rvscw target"}"#.to_vec());
    assert_eq!(ignore_from_text(br#"{"ignore":".rvscw target"}"#), Ok(b".rvscw target".to_vec()));
    assert_eq!(ignore_from_text(&ignore_text(b".rvscw a b")), Ok(b".rvscw a b".to_vec()));
}

#[test]
fn ignore_from_text_rejects_a_document_without_the_text() {
    assert_eq!(ignore_from_text(b"{}"), Err(Error::MalformedStore));
    assert_eq!(ignore_from_text(br#"{"ignore": 1}"#), Err(Error::MalformedStore));
    assert_eq!(ignore_from_text(b"nonsense"), Err(Error::MalformedStore));
}

#[test]
fn the_first_snapshot_writes_one_entry_with_nested_keys() {
    let tree = vec![
        TreeEntry::File { path: b"a.txt".to_vec(), content: b"hi".to_vec(), modified: b"t1".to_vec() },
        TreeEntry::Dir {
            path: b"b".to_vec(),
            entries: vec![TreeEntry::File {
                path: b"b/c.txt".to_vec(),
                content: b"yo".to_vec(),
                modified: b"t2".to_vec(),
            }],
        },
    ];
    let repo = init_with(b"id-0", &tree, b"");
    assert_eq!(
        metadata_text(&repo.metadata),
        br#"{"id-0":{"a.txt":{"mdftime":"t1"},"b":{"b/c.txt":{"mdftime":"t2"}}}}"#.to_vec()
    );
}
